use augorama::au::model::{
    AuCmd, AuMsg, AuState, AuTelemetry, UtcInstant, FIRST_SECOND, LAST_SECOND, NANOS_PER_SECOND,
};

#[test]
fn model_default_works() {
    let t = AuTelemetry::default();
    assert_eq!(t.name, "measurement".to_string());
    assert_eq!(f64::from_bits(t.value), 0.0);
}

#[test]
fn path_inspect_works() {
    let m: AuMsg<Vec<AuTelemetry>> = AuMsg {
        msg: None,
        cmd: AuCmd::Get,
        path: vec![
            "root".to_string(),
            "actors".to_string(),
            "actor1".to_string(),
            "child1".to_string(),
        ],
    };

    let r = m.path.get(0);
    assert!(r.is_some());
    match r {
        Some(root) => assert_eq!(root, "root"),
        None => assert!(false),
    }
}

#[test]
fn model_default_override_works() {
    let t = AuTelemetry {
        name: "charge_remaining".to_string(),
        value: (0.1f64).to_bits(),
        ..Default::default()
    };
    assert_eq!(t.name, "charge_remaining".to_string());
    assert_eq!(f64::from_bits(t.value), 0.1);
}

#[test]
fn default_is_taken_now() {
    let before = chrono::Utc::now().timestamp();
    let t = AuTelemetry::default();
    let after = chrono::Utc::now().timestamp();
    assert!(before <= t.datetime.secs);
    assert!(t.datetime.secs <= after);
    assert!(t.datetime.secs >= 0);
    assert!(t.datetime.nanos < NANOS_PER_SECOND);
    assert!(t.datetime.is_valid());
}

#[test]
fn a_record_is_taken_at_the_instant_given() {
    let now = UtcInstant { secs: 1570368016, nanos: 250_000_000 };
    let t = AuTelemetry::at(now);
    assert_eq!(t.datetime, now);
    assert_eq!(t.name, "measurement");
    assert_eq!(t.value, 0);
    assert_eq!(f64::from_bits(t.value), 0.0);
    let early = AuTelemetry::at(UtcInstant { secs: -1, nanos: 0 });
    assert_eq!(early.datetime, UtcInstant { secs: -1, nanos: 0 });
    assert_eq!(early.name, "measurement");
}

#[test]
fn the_calendar_begins_and_ends_where_date_times_do() {
    assert_eq!(FIRST_SECOND, chrono::DateTime::<chrono::Utc>::MIN_UTC.timestamp());
    assert_eq!(LAST_SECOND, chrono::DateTime::<chrono::Utc>::MAX_UTC.timestamp());
    assert_eq!(FIRST_SECOND, -8_334_601_228_800);
    assert_eq!(LAST_SECOND, 8_210_266_876_799);
    assert_eq!(NANOS_PER_SECOND, 1_000_000_000);
}

#[test]
fn valid_instants_are_those_that_date_times_stand_for() {
    let seconds = [
        i64::MIN,
        FIRST_SECOND - 1,
        FIRST_SECOND,
        FIRST_SECOND + 59,
        -61,
        -60,
        -2,
        -1,
        0,
        1,
        58,
        59,
        60,
        119,
        1570368016,
        1570368019,
        LAST_SECOND - 1,
        LAST_SECOND,
        LAST_SECOND + 1,
        i64::MAX,
    ];
    let nanos = [
        0,
        1,
        999_999_999,
        1_000_000_000,
        1_000_000_001,
        1_999_999_999,
        2_000_000_000,
        u32::MAX,
    ];
    for secs in seconds {
        for nanos in nanos {
            let instant = UtcInstant { secs, nanos };
            assert_eq!(
                instant.is_valid(),
                chrono::DateTime::from_timestamp(secs, nanos).is_some(),
                "{} s {} ns",
                secs,
                nanos
            );
        }
    }
}

#[test]
fn some_instants_are_valid_and_some_are_not() {
    assert!(UtcInstant { secs: 0, nanos: 0 }.is_valid());
    assert!(UtcInstant { secs: -1, nanos: 1_500_000_000 }.is_valid());
    assert!(UtcInstant { secs: 59, nanos: 1_999_999_999 }.is_valid());
    assert!(!UtcInstant { secs: 58, nanos: 1_000_000_000 }.is_valid());
    assert!(!UtcInstant { secs: 59, nanos: 2_000_000_000 }.is_valid());
    assert!(!UtcInstant { secs: -2, nanos: 1_000_000_000 }.is_valid());
    assert!(UtcInstant { secs: FIRST_SECOND, nanos: 0 }.is_valid());
    assert!(!UtcInstant { secs: FIRST_SECOND - 1, nanos: 0 }.is_valid());
    assert!(UtcInstant { secs: LAST_SECOND, nanos: 1_999_999_999 }.is_valid());
    assert!(!UtcInstant { secs: LAST_SECOND + 1, nanos: 0 }.is_valid());
}

#[test]
fn clone_keeps_every_field() {
    let t = AuTelemetry {
        datetime: UtcInstant { secs: 1570368016, nanos: 7 },
        name: "my.name".to_string(),
        value: (1.3f64).to_bits(),
    };
    let c = t.clone();
    assert_eq!(c, t);
    assert_eq!(c.datetime, UtcInstant { secs: 1570368016, nanos: 7 });
    assert_eq!(c.name, "my.name");
    assert_eq!(f64::from_bits(c.value), 1.3);
}

fn record(name: &str, value: f64, secs: i64) -> AuTelemetry {
    AuTelemetry {
        datetime: UtcInstant { secs, nanos: 0 },
        name: name.to_string(),
        value: value.to_bits(),
    }
}

#[test]
fn new_store_keeps_nothing() {
    let s = AuState::new();
    assert!(s.values().is_empty());
}

#[test]
fn store_keeps_one_record_per_name() {
    let mut s = AuState::new();
    s.insert(record("a", 1.0, 10));
    s.insert(record("b", 5.0, 11));
    s.insert(record("a", 2.0, 12));
    let mut v = s.values();
    v.sort_by(|x, y| x.name.cmp(&y.name));
    assert_eq!(v.len(), 2);
    assert_eq!(v[0], record("a", 2.0, 12));
    assert_eq!(v[1], record("b", 5.0, 11));
}

#[test]
fn store_overwrites_with_an_older_record_too() {
    let mut s = AuState::new();
    s.insert(record("a", 2.0, 12));
    s.insert(record("a", 1.0, 10));
    let v = s.values();
    assert_eq!(v, vec![record("a", 1.0, 10)]);
}

#[test]
fn a_copy_of_a_store_keeps_the_same_records_on_its_own() {
    let mut s = AuState::new();
    s.insert(record("a", 1.0, 10));
    s.insert(record("b", 5.0, 11));
    let mut c = s.clone();
    assert_eq!(c.values(), vec![record("a", 1.0, 10), record("b", 5.0, 11)]);
    c.insert(record("a", 2.0, 12));
    c.insert(record("c", 3.0, 13));
    assert_eq!(s.values(), vec![record("a", 1.0, 10), record("b", 5.0, 11)]);
    let mut v = c.values();
    v.sort_by(|x, y| x.name.cmp(&y.name));
    assert_eq!(v, vec![record("a", 2.0, 12), record("b", 5.0, 11), record("c", 3.0, 13)]);
    assert!(AuState::new().clone().values().is_empty());
}

#[test]
fn commands_go_by_their_words() {
    assert_eq!(AuCmd::Get.name(), "Get");
    assert_eq!(AuCmd::Tell.name(), "Tell");
    assert_eq!(AuCmd::Ls.name(), "Ls");
    assert_eq!(format!("{:?}", AuCmd::Ls), "Ls");
}
