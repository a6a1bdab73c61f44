use augorama::au::model::{AuCmd, AuError, AuTelemetry, UtcInstant};
use augorama::au::registry::TwinRegistry;
use augorama::{ask_actor, ls_actor, safe_path, tell_actor};

fn observed(name: &str, value: f64, rfc3339: &str) -> AuTelemetry {
    let at = chrono::DateTime::parse_from_rfc3339(rfc3339).unwrap();
    AuTelemetry {
        datetime: UtcInstant { secs: at.timestamp(), nanos: at.timestamp_subsec_nanos() },
        name: name.to_string(),
        value: value.to_bits(),
    }
}

fn segments(path: &[&str]) -> Vec<String> {
    path.iter().map(|s| s.to_string()).collect()
}

fn tell_twin(roots: &mut TwinRegistry, root: &str, path: &[&str], records: Vec<AuTelemetry>) {
    let done = tell_actor(root.to_string(), segments(path), AuCmd::Tell, Some(records), roots);
    assert_eq!(done, Ok(()));
}

fn ask_twin(roots: &mut TwinRegistry, root: &str, path: &[&str]) -> Vec<AuTelemetry> {
    ask_actor(root.to_string(), segments(path), AuCmd::Get, roots, 1000, 0).unwrap()
}

fn ls_twin(roots: &mut TwinRegistry, root: &str, path: &[&str]) -> Vec<String> {
    let mut names = ls_actor(root.to_string(), segments(path), AuCmd::Ls, roots, 1000, 0).unwrap();
    names.sort();
    names
}

#[test]
fn safe_path_lowers_every_segment() {
    assert_eq!(
        safe_path(segments(&["Erdal", "pet", "SPOT", "Ünal"])),
        Ok(segments(&["erdal", "pet", "spot", "ünal"]))
    );
    assert_eq!(safe_path(Vec::new()), Ok(Vec::new()));
}

#[test]
fn safe_path_refuses_an_empty_segment() {
    assert_eq!(safe_path(segments(&["Erdal", "", "Spot"])), Err(AuError::PathError));
    assert_eq!(safe_path(segments(&[""])), Err(AuError::PathError));
    assert_eq!(safe_path(segments(&["a", "b", ""])), Err(AuError::PathError));
}

#[test]
fn every_caller_gets_the_one_root() {
    let roots = std::sync::Arc::new(std::sync::Mutex::new(TwinRegistry::new()));
    let mut handles = Vec::new();
    for _ in 0..8 {
        let shared = roots.clone();
        let mut roots = shared.lock().unwrap();
        handles.push(roots.get_or_create_root("x".to_string()));
        tell_actor(
            "x".to_string(),
            vec!["child".to_string()],
            AuCmd::Tell,
            Some(Vec::new()),
            &mut roots,
        )
        .unwrap();
    }
    assert!(handles.iter().all(|h| *h == handles[0]));
    let mut roots = roots.lock().unwrap();
    assert_eq!(roots.list_root_names(), vec!["x".to_string()]);
    assert_eq!(ls_twin(&mut roots, "x", &[]), vec!["child".to_string()]);
}

#[test]
fn latest_write_wins() {
    let mut roots = TwinRegistry::new();
    tell_twin(&mut roots, "root", &["path"], vec![observed("a", 1.0, "2019-10-06T13:20:16Z")]);
    tell_twin(&mut roots, "root", &["path"], vec![observed("a", 2.0, "2019-10-06T13:20:17Z")]);
    assert_eq!(
        ask_twin(&mut roots, "root", &["path"]),
        vec![observed("a", 2.0, "2019-10-06T13:20:17Z")]
    );
}

#[test]
fn ask_of_a_twin_never_told_is_empty() {
    let mut roots = TwinRegistry::new();
    assert!(ask_twin(&mut roots, "person", &["Mary"]).is_empty());
    tell_twin(&mut roots, "person", &["Erdal"], vec![observed("a", 1.0, "2019-10-06T13:20:16Z")]);
    assert!(ask_twin(&mut roots, "person", &["Mary"]).is_empty());
    assert!(ask_twin(&mut roots, "person", &[]).is_empty());
    assert!(ask_twin(&mut roots, "car", &["Erdal"]).is_empty());
}

#[test]
fn tell_is_routed_to_the_twin_at_the_path() {
    let mut roots = TwinRegistry::new();
    let records = vec![
        observed("my.name", 1.3, "2019-10-06T13:20:16Z"),
        observed("my.other", -4.0, "2019-10-06T13:20:16.5Z"),
    ];
    tell_twin(&mut roots, "person", &["Erdal", "pet", "Spot"], records.clone());
    let mut state = ask_twin(&mut roots, "person", &["Erdal", "pet", "Spot"]);
    state.sort_by(|x, y| x.name.cmp(&y.name));
    assert_eq!(state, records);
    assert!(ask_twin(&mut roots, "person", &["Erdal"]).is_empty());
    assert!(ask_twin(&mut roots, "person", &["Erdal", "pet"]).is_empty());
    assert!(ask_twin(&mut roots, "person", &["Erdal", "pet", "Rex"]).is_empty());
}

#[test]
fn paths_are_looked_up_in_lower_case() {
    let mut roots = TwinRegistry::new();
    tell_twin(&mut roots, "person", &["Erdal"], vec![observed("a", 1.0, "2019-10-06T13:20:16Z")]);
    assert_eq!(
        ask_twin(&mut roots, "person", &["ERDAL"]),
        vec![observed("a", 1.0, "2019-10-06T13:20:16Z")]
    );
    assert_eq!(ls_twin(&mut roots, "person", &[]), vec!["erdal".to_string()]);
    assert!(ask_twin(&mut roots, "Person", &["erdal"]).is_empty());
}

#[test]
fn ls_shows_both_children_whatever_the_order() {
    let mut one = TwinRegistry::new();
    tell_twin(&mut one, "person", &["erdal", "pet"], Vec::new());
    tell_twin(&mut one, "person", &["erdal", "car"], Vec::new());
    let mut other = TwinRegistry::new();
    tell_twin(&mut other, "person", &["erdal", "car"], Vec::new());
    tell_twin(&mut other, "person", &["erdal", "pet"], Vec::new());
    let expected = vec!["car".to_string(), "pet".to_string()];
    assert_eq!(ls_twin(&mut one, "person", &["erdal"]), expected);
    assert_eq!(ls_twin(&mut other, "person", &["erdal"]), expected);
    assert_eq!(ls_twin(&mut one, "person", &[]), vec!["erdal".to_string()]);
}

#[test]
fn ls_shows_just_the_two_children_however_they_came() {
    let kinds = [AuCmd::Tell, AuCmd::Get, AuCmd::Ls];
    let runs: [&[&str]; 6] = [
        &["Pet", "Car"],
        &["Car", "Pet"],
        &["Pet", "Pet", "Car", "Pet"],
        &["Car", "Pet", "Car", "Car"],
        &["pet", "PET", "car", "CAR"],
        &["CAR", "car", "car", "pet", "Pet", "car"],
    ];
    for run in runs {
        for first in kinds {
            let mut roots = TwinRegistry::new();
            let mut kind = first;
            for child in run {
                let path = segments(&["Erdal", child]);
                match kind {
                    AuCmd::Tell => {
                        let done =
                            tell_actor("person".to_string(), path, kind, Some(Vec::new()), &mut roots);
                        assert_eq!(done, Ok(()));
                        kind = AuCmd::Get;
                    }
                    AuCmd::Get => {
                        let answer = ask_actor("person".to_string(), path, kind, &mut roots, 10, 0);
                        assert_eq!(answer, Ok(Vec::new()));
                        kind = AuCmd::Ls;
                    }
                    AuCmd::Ls => {
                        let answer = ls_actor("person".to_string(), path, kind, &mut roots, 10, 20);
                        assert_eq!(answer, Err(AuError::Timeout));
                        kind = AuCmd::Tell;
                    }
                }
            }
            let names =
                ls_actor("person".to_string(), segments(&["ERDAL"]), AuCmd::Ls, &mut roots, 10, 0)
                    .unwrap();
            assert_eq!(names.len(), 2);
            assert!(names.contains(&"pet".to_string()));
            assert!(names.contains(&"car".to_string()));
        }
    }
}

#[test]
fn ls_shows_one_child_for_names_that_differ_in_case_only() {
    let mut roots = TwinRegistry::new();
    tell_twin(&mut roots, "person", &["x", "A"], Vec::new());
    tell_twin(&mut roots, "person", &["x", "a"], Vec::new());
    assert_eq!(ls_twin(&mut roots, "person", &["x"]), vec!["a".to_string()]);
}

#[test]
fn ask_past_the_deadline_times_out() {
    let mut roots = TwinRegistry::new();
    tell_twin(&mut roots, "person", &["erdal"], vec![observed("a", 1.0, "2019-10-06T13:20:16Z")]);
    let late = ask_actor("person".to_string(), segments(&["erdal"]), AuCmd::Get, &mut roots, 10, 50);
    assert_eq!(late, Err(AuError::Timeout));
    let in_time =
        ask_actor("person".to_string(), segments(&["erdal"]), AuCmd::Get, &mut roots, 10, 10);
    assert_eq!(in_time, Ok(vec![observed("a", 1.0, "2019-10-06T13:20:16Z")]));
}

#[test]
fn ls_past_the_deadline_times_out() {
    let mut roots = TwinRegistry::new();
    let late = ls_actor("person".to_string(), segments(&["erdal"]), AuCmd::Ls, &mut roots, 0, 1);
    assert_eq!(late, Err(AuError::Timeout));
    assert_eq!(ls_twin(&mut roots, "person", &[]), vec!["erdal".to_string()]);
    let in_time = ls_actor("person".to_string(), Vec::new(), AuCmd::Ls, &mut roots, 0, 0);
    assert_eq!(in_time, Ok(vec!["erdal".to_string()]));
}

#[test]
fn a_request_with_the_wrong_command_is_turned_away() {
    let mut roots = TwinRegistry::new();
    for cmd in [AuCmd::Get, AuCmd::Ls] {
        let done = tell_actor("r".to_string(), segments(&["p"]), cmd, Some(Vec::new()), &mut roots);
        assert_eq!(done, Err(AuError::UnknownOperation));
    }
    for cmd in [AuCmd::Tell, AuCmd::Ls] {
        let answer = ask_actor("r".to_string(), segments(&["p"]), cmd, &mut roots, 10, 0);
        assert_eq!(answer, Err(AuError::UnknownOperation));
    }
    for cmd in [AuCmd::Tell, AuCmd::Get] {
        let answer = ls_actor("r".to_string(), segments(&["p"]), cmd, &mut roots, 10, 0);
        assert_eq!(answer, Err(AuError::UnknownOperation));
    }
    assert!(roots.list_root_names().is_empty());
}

#[test]
fn a_request_with_an_empty_segment_is_turned_away() {
    let mut roots = TwinRegistry::new();
    let done =
        tell_actor("r".to_string(), segments(&["p", ""]), AuCmd::Tell, Some(Vec::new()), &mut roots);
    assert_eq!(done, Err(AuError::PathError));
    let done = tell_actor(String::new(), segments(&["p"]), AuCmd::Tell, None, &mut roots);
    assert_eq!(done, Err(AuError::PathError));
    let answer = ask_actor("r".to_string(), segments(&["", "p"]), AuCmd::Get, &mut roots, 10, 0);
    assert_eq!(answer, Err(AuError::PathError));
    let answer = ls_actor(String::new(), Vec::new(), AuCmd::Ls, &mut roots, 10, 0);
    assert_eq!(answer, Err(AuError::PathError));
    assert!(roots.list_root_names().is_empty());
}

#[test]
fn the_wrong_command_is_reported_before_the_path() {
    let mut roots = TwinRegistry::new();
    let answer = ask_actor(String::new(), segments(&[""]), AuCmd::Ls, &mut roots, 10, 50);
    assert_eq!(answer, Err(AuError::UnknownOperation));
}

#[test]
fn tell_without_payload_is_accepted() {
    let mut roots = TwinRegistry::new();
    let done = tell_actor("person".to_string(), segments(&["erdal"]), AuCmd::Tell, None, &mut roots);
    assert_eq!(done, Ok(()));
    assert!(ask_twin(&mut roots, "person", &["erdal"]).is_empty());
}

#[test]
fn tell_then_ask_end_to_end() {
    let mut roots = TwinRegistry::new();
    let done = tell_actor(
        "person".to_string(),
        segments(&["Erdal", "pet", "Spot"]),
        AuCmd::Tell,
        Some(vec![observed("my.name", 1.3, "2019-10-06T13:20:16Z")]),
        &mut roots,
    );
    assert_eq!(done, Ok(()));
    let state =
        ask_actor("person".to_string(), segments(&["Erdal", "pet", "Spot"]), AuCmd::Get, &mut roots, 1000, 0)
            .unwrap();
    assert_eq!(state.len(), 1);
    assert_eq!(state[0].name, "my.name");
    assert_eq!(f64::from_bits(state[0].value), 1.3);
    let at = chrono::DateTime::from_timestamp(state[0].datetime.secs, state[0].datetime.nanos).unwrap();
    assert_eq!(
        at.to_rfc3339_opts(chrono::SecondsFormat::Secs, true),
        "2019-10-06T13:20:16Z"
    );
    assert_eq!(roots.list_root_names(), vec!["person".to_string()]);
}
