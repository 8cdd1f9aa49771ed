use chain_runner::chain::{BuildError, Chain};
use chain_runner::context::Context;
use chain_runner::events::{resolve, RegisteredEvent};

fn start_context() -> Context {
    let mut ctx = Context::new();
    ctx.set_int("counter", 0);
    ctx.set_text("message", "start".to_string());
    ctx
}

#[test]
fn increment_then_append_scenario() {
    let mut ctx = start_context();
    let chain = Chain::new().event(RegisteredEvent::Increment).event(RegisteredEvent::Append);
    assert!(chain.execute(&mut ctx).is_ok());
    assert_eq!(ctx.get_int("counter"), Some(1));
    assert_eq!(ctx.get_text("message"), Some("start -> processed".to_string()));
}

#[test]
fn built_from_names_scenario() {
    let names = vec!["increment".to_string(), "append".to_string()];
    let chain = Chain::from_names(&names).unwrap();
    assert_eq!(chain.len(), 2);
    let mut ctx = start_context();
    assert_eq!(chain.execute(&mut ctx), Ok(()));
    assert_eq!(ctx.int_or_zero("counter"), 1);
    assert_eq!(ctx.text_or_empty("message"), "start -> processed");
}

#[test]
fn events_run_in_declared_order() {
    let mut ctx = Context::new();
    ctx.set_text("message", "m".to_string());
    let chain = Chain::new()
        .event(RegisteredEvent::Append)
        .event(RegisteredEvent::Increment)
        .event(RegisteredEvent::Append);
    assert!(chain.execute(&mut ctx).is_ok());
    assert_eq!(ctx.text_or_empty("message"), "m -> processed -> processed");
    assert_eq!(ctx.int_or_zero("counter"), 1);
}

#[test]
fn events_start_from_defaults() {
    let mut ctx = Context::new();
    let chain = Chain::new().event(RegisteredEvent::Increment).event(RegisteredEvent::Append);
    assert!(chain.execute(&mut ctx).is_ok());
    assert_eq!(ctx.get_int("counter"), Some(1));
    assert_eq!(ctx.get_text("message"), Some(" -> processed".to_string()));
}

#[test]
fn failure_aborts_remaining_events() {
    let mut ctx = Context::new();
    ctx.set_int("counter", i64::MAX);
    ctx.set_text("message", "x".to_string());
    let chain = Chain::new()
        .event(RegisteredEvent::Append)
        .event(RegisteredEvent::Increment)
        .event(RegisteredEvent::Append);
    let failure = chain.execute(&mut ctx).unwrap_err();
    assert_eq!(failure.position, 1);
    assert_eq!(failure.event, "increment");
    assert_eq!(failure.reason, "counter overflow");
    assert_eq!(ctx.text_or_empty("message"), "x -> processed");
    assert_eq!(ctx.get_int("counter"), Some(i64::MAX));
}

#[test]
fn unknown_event_fails_at_build() {
    let names = vec!["increment".to_string(), "explode".to_string(), "nope".to_string()];
    match Chain::from_names(&names) {
        Err(BuildError::UnknownEvent(n)) => assert_eq!(n, "explode"),
        Ok(_) => panic!("an unknown name must not build"),
    }
}

#[test]
fn names_are_case_sensitive() {
    assert_eq!(resolve(&"increment".to_string()), Some(RegisteredEvent::Increment));
    assert_eq!(resolve(&"append".to_string()), Some(RegisteredEvent::Append));
    assert_eq!(resolve(&"Increment".to_string()), None);
    assert_eq!(resolve(&"append ".to_string()), None);
    let names = vec!["Append".to_string()];
    assert_eq!(
        Chain::from_names(&names).err(),
        Some(BuildError::UnknownEvent("Append".to_string()))
    );
}

#[test]
fn empty_chain_changes_nothing() {
    let chain = Chain::from_names(&Vec::new()).unwrap();
    let mut ctx = start_context();
    assert_eq!(chain.execute(&mut ctx), Ok(()));
    assert_eq!(ctx.get_int("counter"), Some(0));
    assert_eq!(ctx.get_text("message"), Some("start".to_string()));
}

#[test]
fn event_names() {
    assert_eq!(RegisteredEvent::Increment.name(), "increment");
    assert_eq!(RegisteredEvent::Append.name(), "append");
}

#[test]
fn single_event_execute() {
    let mut ctx = Context::new();
    ctx.set_int("counter", 41);
    assert_eq!(RegisteredEvent::Increment.execute(&mut ctx), Ok(()));
    assert_eq!(ctx.get_int("counter"), Some(42));
    ctx.set_int("counter", i64::MAX);
    assert_eq!(RegisteredEvent::Increment.execute(&mut ctx), Err("counter overflow".to_string()));
    assert_eq!(ctx.get_int("counter"), Some(i64::MAX));
}
