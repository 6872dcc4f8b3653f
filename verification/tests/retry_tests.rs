use jenkins::retry::{
    GetDirective, GetRetryMachine, HttpOutcome, PostDirective, PostEvent, PostRetryMachine,
};

#[test]
fn csrf_retry_fetches_one_crumb_and_retries_once() {
    // A POST that hits 403 and succeeds once a crumb is attached: exactly
    // one crumb fetch and exactly one retried POST.
    let (mut machine, first) = PostRetryMachine::new();
    assert_eq!(first, PostDirective::SendPost { with_crumb: false });

    let d = machine.step(PostEvent::Response(HttpOutcome::Forbidden));
    assert_eq!(d, PostDirective::FetchCrumb);

    let d = machine.step(PostEvent::CrumbFetched(true));
    assert_eq!(d, PostDirective::SendPost { with_crumb: true });

    let d = machine.step(PostEvent::Response(HttpOutcome::Success));
    assert_eq!(d, PostDirective::Done(HttpOutcome::Success));

    assert_eq!(machine.crumb_fetches, 1);
    assert_eq!(machine.posts, 2);
    assert_eq!(machine.refreshes, 0);
}

#[test]
fn unauthorized_post_refreshes_and_retries_once() {
    let (mut machine, _) = PostRetryMachine::new();
    let d = machine.step(PostEvent::Response(HttpOutcome::Unauthorized));
    assert_eq!(d, PostDirective::RefreshCookie);
    let d = machine.step(PostEvent::Refreshed(true));
    assert_eq!(d, PostDirective::SendPost { with_crumb: false });
    let d = machine.step(PostEvent::Response(HttpOutcome::Success));
    assert_eq!(d, PostDirective::Done(HttpOutcome::Success));
    assert_eq!(machine.refreshes, 1);
    assert_eq!(machine.posts, 2);
}

#[test]
fn crumbed_post_still_forbidden_gets_one_refresh_then_settles() {
    let (mut machine, _) = PostRetryMachine::new();
    let d = machine.step(PostEvent::Response(HttpOutcome::Forbidden));
    assert_eq!(d, PostDirective::FetchCrumb);
    let d = machine.step(PostEvent::CrumbFetched(true));
    assert_eq!(d, PostDirective::SendPost { with_crumb: true });
    let d = machine.step(PostEvent::Response(HttpOutcome::Forbidden));
    assert_eq!(d, PostDirective::RefreshCookie);
    let d = machine.step(PostEvent::Refreshed(true));
    assert_eq!(d, PostDirective::SendPost { with_crumb: true });
    // Whatever this final POST answers, the call is over.
    let d = machine.step(PostEvent::Response(HttpOutcome::Forbidden));
    assert_eq!(d, PostDirective::Done(HttpOutcome::Forbidden));
    assert_eq!(machine.crumb_fetches, 1);
    assert_eq!(machine.refreshes, 1);
    assert_eq!(machine.posts, 3);
    // The ladder is settled: further events keep answering the same outcome.
    let d = machine.step(PostEvent::Response(HttpOutcome::Forbidden));
    assert_eq!(d, PostDirective::Done(HttpOutcome::Forbidden));
    assert_eq!(machine.posts, 3);
}

#[test]
fn failed_refresh_settles_with_the_original_status() {
    let (mut machine, _) = PostRetryMachine::new();
    let d = machine.step(PostEvent::Response(HttpOutcome::Unauthorized));
    assert_eq!(d, PostDirective::RefreshCookie);
    let d = machine.step(PostEvent::Refreshed(false));
    assert_eq!(d, PostDirective::Done(HttpOutcome::Unauthorized));
}

#[test]
fn not_found_is_terminal_for_the_call() {
    let (mut machine, _) = PostRetryMachine::new();
    let d = machine.step(PostEvent::Response(HttpOutcome::NotFound));
    assert_eq!(d, PostDirective::Done(HttpOutcome::NotFound));
    assert_eq!(machine.crumb_fetches, 0);
    assert_eq!(machine.refreshes, 0);
    assert_eq!(machine.posts, 1);
}

#[test]
fn get_retry_refreshes_once_on_auth_failure() {
    let (mut machine, first) = GetRetryMachine::new();
    assert_eq!(first, GetDirective::SendGet);
    let d = machine.step(PostEvent::Response(HttpOutcome::Forbidden));
    assert_eq!(d, GetDirective::RefreshCookie);
    let d = machine.step(PostEvent::Refreshed(true));
    assert_eq!(d, GetDirective::SendGet);
    let d = machine.step(PostEvent::Response(HttpOutcome::Success));
    assert_eq!(d, GetDirective::Done(HttpOutcome::Success));
}

#[test]
fn failed_refresh_after_forbidden_get_stays_forbidden() {
    // A GET that hits 403 and cannot refresh must surface the forbidden
    // classification, not an unauthorized one.
    let (mut machine, _) = GetRetryMachine::new();
    let d = machine.step(PostEvent::Response(HttpOutcome::Forbidden));
    assert_eq!(d, GetDirective::RefreshCookie);
    let d = machine.step(PostEvent::Refreshed(false));
    assert_eq!(d, GetDirective::Done(HttpOutcome::Forbidden));

    let (mut machine, _) = GetRetryMachine::new();
    let d = machine.step(PostEvent::Response(HttpOutcome::Unauthorized));
    assert_eq!(d, GetDirective::RefreshCookie);
    let d = machine.step(PostEvent::Refreshed(false));
    assert_eq!(d, GetDirective::Done(HttpOutcome::Unauthorized));
}

#[test]
fn failed_refresh_after_crumbed_post_keeps_its_status() {
    let (mut machine, _) = PostRetryMachine::new();
    let d = machine.step(PostEvent::Response(HttpOutcome::Forbidden));
    assert_eq!(d, PostDirective::FetchCrumb);
    let d = machine.step(PostEvent::CrumbFetched(true));
    assert_eq!(d, PostDirective::SendPost { with_crumb: true });
    // The crumbed POST answers 401; the refresh fails: the outcome is that
    // 401, not the earlier 403.
    let d = machine.step(PostEvent::Response(HttpOutcome::Unauthorized));
    assert_eq!(d, PostDirective::RefreshCookie);
    let d = machine.step(PostEvent::Refreshed(false));
    assert_eq!(d, PostDirective::Done(HttpOutcome::Unauthorized));
}
