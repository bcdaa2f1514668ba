use dns_benchmark::schedule::{
    process_result, Action, Event, Family, QueryOutcome, ServerRun, Stage, FAILURE_MILLIS, TIMEOUT_MILLIS,
};

fn strings(items: &[&str]) -> Vec<String> {
    items.iter().map(|s| s.to_string()).collect()
}

#[test]
fn process_result_records_each_outcome() {
    let mut v: Vec<u128> = Vec::new();
    assert!(!process_result(&mut v, QueryOutcome::Answered, 42));
    assert!(!process_result(&mut v, QueryOutcome::NoRecords, 7));
    assert!(!process_result(&mut v, QueryOutcome::Timeout, 999));
    assert!(process_result(&mut v, QueryOutcome::Failed, 1));
    assert_eq!(v, vec![42, 7, 10_000, 20_000]);
    assert_eq!(TIMEOUT_MILLIS, 10_000);
    assert_eq!(FAILURE_MILLIS, 20_000);
}

#[test]
fn a_run_queries_each_domain_twice_in_order() {
    let mut run = ServerRun::new(strings(&["a.", "b."]));
    assert_eq!(run.stage(), Stage::Ready);
    let d = run.step(Event::Start);
    match d.action {
        Action::Sleep(ms) => assert!(ms < 5000),
        other => panic!("unexpected {:?}", other),
    }
    let d = run.step(Event::Slept);
    assert!(matches!(d.action, Action::Resolve(ref s, Family::V4) if s == "a."));
    let d = run.step(Event::Resolved(QueryOutcome::Answered, 15));
    assert!(matches!(d.action, Action::Resolve(ref s, Family::V6) if s == "a."));
    assert!(!d.report_failure);
    let d = run.step(Event::Resolved(QueryOutcome::Failed, 3));
    assert!(d.report_failure);
    match d.action {
        Action::Sleep(ms) => assert!((10..30).contains(&ms)),
        other => panic!("unexpected {:?}", other),
    }
    assert!(!d.domain_completed);
    let d = run.step(Event::Slept);
    assert!(d.domain_completed);
    assert!(matches!(d.action, Action::Resolve(ref s, Family::V4) if s == "b."));
    run.step(Event::Resolved(QueryOutcome::Timeout, 1000));
    run.step(Event::Resolved(QueryOutcome::NoRecords, 8));
    let d = run.step(Event::Slept);
    assert!(d.domain_completed);
    assert!(matches!(d.action, Action::Done));
    assert_eq!(run.stage(), Stage::Finished);
    assert_eq!(run.durations(), &vec![15u128, 20_000, 10_000, 8]);
    let d = run.step(Event::Slept);
    assert!(matches!(d.action, Action::Done));
}

#[test]
fn a_run_without_domains_ends_after_its_delay() {
    let mut run = ServerRun::new(Vec::new());
    run.step(Event::Start);
    let d = run.step(Event::Slept);
    assert!(matches!(d.action, Action::Done));
    assert!(!d.domain_completed);
    assert!(run.durations().is_empty());
}

#[test]
fn a_run_accepts_only_the_expected_event() {
    let mut run = ServerRun::new(strings(&["a."]));
    assert!(run.accepts(&Event::Start));
    assert!(!run.accepts(&Event::Slept));
    run.step(Event::Start);
    assert!(run.accepts(&Event::Slept));
    assert!(!run.accepts(&Event::Resolved(QueryOutcome::Answered, 1)));
    run.step(Event::Slept);
    assert!(run.accepts(&Event::Resolved(QueryOutcome::Answered, 1)));
    assert!(!run.accepts(&Event::Slept));
}
