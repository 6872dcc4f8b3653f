use jenkins::flow::{RouteAction, StepTracker};

#[test]
fn back_flow_with_service_and_project() {
    let mut steps = StepTracker::new(true, true);
    steps.enter_project();
    steps.enter_params();

    // From params -> project
    let back = steps.back();
    assert!(matches!(back, Some(RouteAction::ContinueProject)));

    // From project -> service
    let back = steps.back();
    assert!(matches!(back, Some(RouteAction::ReturnService)));

    // From service -> exit
    let back = steps.back();
    assert!(back.is_none());
}

#[test]
fn back_flow_without_service() {
    let mut steps = StepTracker::new(false, true);
    steps.enter_project();
    steps.enter_params();

    let back = steps.back();
    assert!(matches!(back, Some(RouteAction::ContinueProject)));

    let back = steps.back();
    assert!(back.is_none());
}

#[test]
fn back_flow_job_url_skips_project() {
    let mut steps = StepTracker::new(true, false);
    steps.enter_project(); // should be ignored
    steps.enter_params();

    let back = steps.back();
    assert!(matches!(back, Some(RouteAction::ReturnService)));

    let back = steps.back();
    assert!(back.is_none());
}
