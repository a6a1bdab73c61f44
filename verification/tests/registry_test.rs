use augorama::au::model::{AuCmd, AuError, AuMsg, AuTelemetry, UtcInstant};
use augorama::au::registry::TwinRegistry;
use augorama::au::reply::ReplySlot;

fn sample(name: &str, value: f64) -> AuTelemetry {
    AuTelemetry {
        datetime: UtcInstant { secs: 1570368016, nanos: 0 },
        name: name.to_string(),
        value: value.to_bits(),
    }
}

#[test]
fn new_registry_has_no_roots() {
    let registry = TwinRegistry::new();
    assert!(registry.list_root_names().is_empty());
    assert_eq!(registry.len(), 0);
}

#[test]
fn handles_are_the_numbers_below_len() {
    let mut registry = TwinRegistry::new();
    assert_eq!(registry.get_or_create_root("person".to_string()), 0);
    assert_eq!(registry.len(), 1);
    assert_eq!(registry.get_or_create_root("car".to_string()), 1);
    assert_eq!(registry.get_or_create_root("person".to_string()), 0);
    assert_eq!(registry.len(), 2);
}

#[test]
fn a_root_is_created_once() {
    let mut registry = TwinRegistry::new();
    let first = registry.get_or_create_root("x".to_string());
    for _ in 0..10 {
        assert_eq!(registry.get_or_create_root("x".to_string()), first);
    }
    assert_eq!(registry.list_root_names(), vec!["x".to_string()]);
}

#[test]
fn handles_stay_when_roots_join() {
    let mut registry = TwinRegistry::new();
    let person = registry.get_or_create_root("person".to_string());
    let car = registry.get_or_create_root("car".to_string());
    assert_ne!(person, car);
    assert_eq!(registry.get_or_create_root("person".to_string()), person);
    assert_eq!(registry.get_or_create_root("car".to_string()), car);
    let mut names = registry.list_root_names();
    names.sort();
    assert_eq!(names, vec!["car".to_string(), "person".to_string()]);
}

#[test]
fn root_names_are_taken_as_they_are() {
    let mut registry = TwinRegistry::new();
    let upper = registry.get_or_create_root("Person".to_string());
    let lower = registry.get_or_create_root("person".to_string());
    assert_ne!(upper, lower);
    assert_eq!(registry.list_root_names().len(), 2);
}

#[test]
fn dispatch_reaches_the_root_behind_the_handle() {
    let mut registry = TwinRegistry::new();
    let person = registry.get_or_create_root("person".to_string());
    let car = registry.get_or_create_root("car".to_string());
    let mut nobody = ReplySlot::new(0);
    let sent = registry.dispatch(
        person,
        AuMsg {
            cmd: AuCmd::Tell,
            msg: Some(vec![sample("a", 1.0)]),
            path: vec!["erdal".to_string()],
        },
        &mut nobody,
    );
    assert_eq!(sent, Ok(()));

    let mut slot = ReplySlot::new(10);
    let sent = registry.dispatch(
        person,
        AuMsg { cmd: AuCmd::Get, msg: None, path: vec!["erdal".to_string()] },
        &mut slot,
    );
    assert_eq!(sent, Ok(()));
    assert_eq!(slot.take().unwrap().msg, Some(vec![sample("a", 1.0)]));

    let mut slot = ReplySlot::new(10);
    let sent = registry.dispatch(
        car,
        AuMsg { cmd: AuCmd::Ls, msg: None, path: Vec::new() },
        &mut slot,
    );
    assert_eq!(sent, Ok(()));
    assert!(slot.take().unwrap().path.is_empty());

    let mut slot = ReplySlot::new(10);
    let sent = registry.dispatch(
        person,
        AuMsg { cmd: AuCmd::Ls, msg: None, path: Vec::new() },
        &mut slot,
    );
    assert_eq!(sent, Ok(()));
    assert_eq!(slot.take().unwrap().path, vec!["erdal".to_string()]);
}

#[test]
fn an_occupied_slot_fails_the_dispatch() {
    let mut registry = TwinRegistry::new();
    let person = registry.get_or_create_root("person".to_string());
    let mut slot = ReplySlot::new(10);
    assert_eq!(
        slot.fulfil(AuMsg { cmd: AuCmd::Get, msg: Some(Vec::new()), path: Vec::new() }),
        Ok(())
    );
    let sent = registry.dispatch(
        person,
        AuMsg { cmd: AuCmd::Ls, msg: None, path: vec!["mary".to_string()] },
        &mut slot,
    );
    assert_eq!(sent, Err(AuError::DispatchFailure));
    assert_eq!(slot.take().unwrap().cmd, AuCmd::Get);
}
