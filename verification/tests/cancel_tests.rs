use jenkins::cancel::{CancelDirective, CancelMachine, CancelOutcome};
use jenkins::client::BuildStatus;

fn running(id: u32) -> BuildStatus {
    BuildStatus {
        building: true,
        id: Some(id),
        last_build: Some(id),
        last_completed: Some(id - 1),
        in_queue: false,
    }
}

fn idle(id: u32) -> BuildStatus {
    BuildStatus {
        building: false,
        id: Some(id),
        last_build: Some(id),
        last_completed: Some(id),
        in_queue: false,
    }
}

#[test]
fn cancel_issues_one_stop_and_reports_cancelled() {
    // The build reports "building" for two polls, then "not building": the
    // algorithm must send exactly one stop request and end with the
    // "cancelled" outcome, not "already completed".
    let mut machine = CancelMachine::new();
    let mut stops: u32 = 0;

    // First poll: building -> stop it.
    let d = machine.on_status(Some(&running(7)), 0);
    assert_eq!(d, CancelDirective::SendStop(Some(7)));
    stops += 1;
    let d = machine.on_stop_result(true);
    assert!(matches!(d, CancelDirective::QueryAfter(_)));

    // Second poll (verification): still building, right after the stop —
    // the build gets one round to wind down, no second stop yet.
    let d = machine.on_status(Some(&running(7)), 1000);
    assert!(matches!(d, CancelDirective::QueryAfter(_)));

    // Third poll: not building any more.
    let d = machine.on_status(Some(&idle(7)), 2000);
    assert_eq!(d, CancelDirective::Finish(CancelOutcome::Cancelled));
    assert_eq!(stops, 1);
}

#[test]
fn cancel_detects_already_completed() {
    // Three stable idle observations of the same build number conclude that
    // there is nothing to cancel.
    let mut machine = CancelMachine::new();
    let d = machine.on_status(Some(&idle(4)), 0);
    assert!(matches!(d, CancelDirective::QueryAfter(_)));
    let d = machine.on_status(Some(&idle(4)), 1000);
    assert!(matches!(d, CancelDirective::QueryAfter(_)));
    let d = machine.on_status(Some(&idle(4)), 2000);
    assert_eq!(d, CancelDirective::Finish(CancelOutcome::AlreadyCompleted));
}

#[test]
fn cancel_fails_on_deadline() {
    let mut machine = CancelMachine::new();
    let d = machine.on_status(Some(&running(3)), 30_000);
    assert_eq!(d, CancelDirective::Finish(CancelOutcome::Failed));
}

#[test]
fn cancel_retries_query_failures_then_fails() {
    let mut machine = CancelMachine::new();
    let mut last = CancelDirective::QueryAfter(0);
    let mut polls: u64 = 0;
    while polls < 20 {
        last = machine.on_status(None, polls * 1000);
        if matches!(last, CancelDirective::Finish(_)) {
            break;
        }
        polls += 1;
    }
    assert_eq!(last, CancelDirective::Finish(CancelOutcome::Failed));
}

#[test]
fn cancel_waits_while_queued() {
    let mut machine = CancelMachine::new();
    let queued = BuildStatus {
        building: false,
        id: None,
        last_build: Some(3),
        last_completed: Some(3),
        in_queue: true,
    };
    let d = machine.on_status(Some(&queued), 0);
    assert!(matches!(d, CancelDirective::QueryAfter(_)));
}

#[test]
fn failed_stop_request_fails_the_flow() {
    let mut machine = CancelMachine::new();
    let d = machine.on_status(Some(&running(2)), 0);
    assert_eq!(d, CancelDirective::SendStop(Some(2)));
    let d = machine.on_stop_result(false);
    assert_eq!(d, CancelDirective::Finish(CancelOutcome::Failed));
}
