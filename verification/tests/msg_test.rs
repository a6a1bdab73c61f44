use augorama::au::msg::{AuForwards, AuTelemetry};

#[test]
fn msg_default_works() {
    let t = AuTelemetry::default();
    assert_eq!(t.name, "measurement".to_string());
    assert_eq!(f64::from_bits(t.value), 0.0);
}

#[test]
fn msg_default_override_works() {
    let t = AuTelemetry {
        name: "charge_remaining".to_string(),
        value: (0.1f64).to_bits(),
        ..Default::default()
    };
    assert_eq!(t.name, "charge_remaining".to_string());
    assert_eq!(f64::from_bits(t.value), 0.1);
}

#[test]
fn forwards_through_nobody() {
    assert_eq!(format!("{:?}", AuForwards::new()), "AuForwards([])");
    assert_eq!(format!("{:?}", AuForwards::default()), "AuForwards([])");
}

#[test]
fn forwards_through_one() {
    let f = AuForwards::new_one("toMe".to_string());
    assert_eq!(format!("{:?}", f), "AuForwards([\"toMe\"])");
    assert_eq!(format!("{:?}", f.clone()), "AuForwards([\"toMe\"])");
}
