use chain_runner::engine::{Call, Engine};

/// Drives a run where each middleware calls its continuation once, records
/// every call, and lets each event add its position plus one to the context.
fn drive(events: usize, layers: usize, fail_at: Option<usize>) -> (Vec<String>, i64, Result<(), String>) {
    let mut engine = Engine::new(events, layers, 0i64);
    let mut log = Vec::new();
    loop {
        match engine.step() {
            Call::Middleware(i) => {
                log.push(format!("M{} before", i));
                let ctx = *engine.context();
                assert!(engine.next_called(ctx));
            }
            Call::Event(p) => {
                log.push(format!("E{}", p));
                if fail_at == Some(p) {
                    assert!(engine.returned(Err(format!("event {} failed", p))));
                } else {
                    let ctx = *engine.context() + p as i64 + 1;
                    assert!(engine.returned(Ok(ctx)));
                }
            }
            Call::Resume(i) => {
                log.push(format!("M{} after", i));
                let ctx = *engine.context();
                assert!(engine.returned(Ok(ctx)));
            }
            Call::Pending => panic!("no handler is left running here"),
            Call::Finished => break,
        }
    }
    assert!(engine.is_finished());
    let (ctx, outcome) = engine.finish();
    (log, ctx, outcome)
}

#[test]
fn middleware_wrap_in_lifo_order() {
    let (log, ctx, outcome) = drive(1, 2, None);
    assert_eq!(log, vec!["M1 before", "M0 before", "E0", "M0 after", "M1 after"]);
    assert_eq!(ctx, 1);
    assert_eq!(outcome, Ok(()));
}

#[test]
fn middleware_reentered_per_event() {
    let (log, _, outcome) = drive(2, 1, None);
    assert_eq!(log, vec!["M0 before", "E0", "M0 after", "M0 before", "E1", "M0 after"]);
    assert_eq!(log.iter().filter(|l| *l == "M0 before").count(), 2);
    assert_eq!(outcome, Ok(()));
}

#[test]
fn events_without_middleware_run_fifo() {
    let (log, ctx, outcome) = drive(3, 0, None);
    assert_eq!(log, vec!["E0", "E1", "E2"]);
    assert_eq!(ctx, 6);
    assert_eq!(outcome, Ok(()));
}

#[test]
fn failing_event_aborts_run() {
    let (log, ctx, outcome) = drive(3, 1, Some(1));
    assert_eq!(log, vec!["M0 before", "E0", "M0 after", "M0 before", "E1"]);
    assert_eq!(ctx, 1);
    assert_eq!(outcome, Err("event 1 failed".to_string()));
    let mut engine = Engine::new(2, 0, 0i64);
    assert_eq!(engine.step(), Call::Event(0));
    assert!(engine.returned(Ok(1)));
    assert_eq!(engine.step(), Call::Event(1));
    assert!(engine.returned(Err("boom".to_string())));
    assert_eq!(engine.position(), 1);
}

#[test]
fn empty_run_is_finished_at_once() {
    let mut engine = Engine::new(0, 3, 5i64);
    assert_eq!(engine.step(), Call::Finished);
    assert_eq!(engine.finish(), (5, Ok(())));
}

#[test]
fn continuation_installs_context_and_result_flows_back() {
    let mut engine = Engine::new(1, 1, 10i64);
    assert_eq!(engine.step(), Call::Middleware(0));
    assert_eq!(engine.step(), Call::Pending);
    assert!(engine.next_called(20));
    assert_eq!(*engine.context(), 20);
    assert_eq!(engine.step(), Call::Event(0));
    assert!(!engine.next_called(99));
    assert_eq!(*engine.context(), 20);
    assert!(engine.returned(Ok(30)));
    assert_eq!(engine.step(), Call::Resume(0));
    assert_eq!(*engine.context(), 30);
    assert!(engine.returned(Ok(40)));
    assert_eq!(engine.step(), Call::Finished);
    assert!(!engine.returned(Ok(50)));
    assert_eq!(engine.finish(), (40, Ok(())));
}

#[test]
fn middleware_may_skip_its_continuation() {
    let mut engine = Engine::new(2, 1, 0i64);
    assert_eq!(engine.step(), Call::Middleware(0));
    assert!(engine.returned(Ok(7)));
    assert_eq!(engine.step(), Call::Middleware(0));
    assert!(engine.next_called(8));
    assert_eq!(engine.step(), Call::Event(1));
    assert!(engine.returned(Ok(9)));
    assert_eq!(engine.step(), Call::Resume(0));
    assert!(engine.returned(Ok(10)));
    assert_eq!(engine.step(), Call::Finished);
    assert_eq!(engine.finish(), (10, Ok(())));
}

#[test]
fn middleware_failure_keeps_last_context() {
    let mut engine = Engine::new(2, 2, 1i64);
    assert_eq!(engine.step(), Call::Middleware(1));
    assert!(engine.next_called(2));
    assert_eq!(engine.step(), Call::Middleware(0));
    assert!(engine.returned(Err("denied".to_string())));
    assert_eq!(engine.step(), Call::Finished);
    assert!(!engine.returned(Ok(3)));
    assert!(!engine.next_called(4));
    assert_eq!(engine.position(), 0);
    assert_eq!(engine.finish(), (2, Err("denied".to_string())));
}
