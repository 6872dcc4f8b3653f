use jenkins::interrupts::{check_ctrl_c, CtrlCControl, CtrlCPhase, InterruptMeaning};

#[test]
fn double_ctrl_c_within_window_triggers_exit() {
    let mut ctrl = CtrlCControl::new();
    // The first press stands alone: well past the window since the start.
    assert!(!ctrl.should_force_exit(5000, 1_000));
    // The second press follows immediately: within the window.
    assert!(ctrl.should_force_exit(5050, 1_000));
}

#[test]
fn isolated_press_then_quick_second_press() {
    // Two presses 50ms apart with an 800ms window: the first alone answers
    // false, the immediate second answers true.
    let mut ctrl = CtrlCControl::new();
    assert_eq!(ctrl.should_force_exit(10_000, 800), false);
    assert_eq!(ctrl.should_force_exit(10_050, 800), true);
}

#[test]
fn interrupt_meaning_follows_phase() {
    let mut ctrl = CtrlCControl::new();
    // Idle, isolated press: left to the active prompt.
    assert_eq!(ctrl.on_interrupt(10_000, 800), InterruptMeaning::Swallow);
    // Idle, quick second press: exit.
    assert_eq!(ctrl.on_interrupt(10_050, 800), InterruptMeaning::ForceExit);

    ctrl.set_phase(CtrlCPhase::Polling);
    assert_eq!(ctrl.on_interrupt(20_000, 800), InterruptMeaning::PromptCancel);

    ctrl.set_phase(CtrlCPhase::Cancelling);
    assert_eq!(ctrl.on_interrupt(30_000, 800), InterruptMeaning::ForceExit);
}

#[test]
fn finish_polling_only_leaves_polling() {
    let mut ctrl = CtrlCControl::new();
    ctrl.set_phase(CtrlCPhase::Polling);
    ctrl.finish_polling();
    assert_eq!(ctrl.phase(), CtrlCPhase::Idle);

    ctrl.set_phase(CtrlCPhase::Cancelling);
    ctrl.finish_polling();
    assert_eq!(ctrl.phase(), CtrlCPhase::Cancelling);
}

#[test]
fn phase_labels() {
    let mut ctrl = CtrlCControl::new();
    assert_eq!(ctrl.phase_label(), "idle");
    ctrl.set_phase(CtrlCPhase::Polling);
    assert_eq!(ctrl.phase_label(), "polling");
    ctrl.set_phase(CtrlCPhase::Cancelling);
    assert_eq!(ctrl.phase_label(), "cancelling");
}

#[test]
fn check_ctrl_c_reports_interrupt() {
    assert!(check_ctrl_c(true).is_err());
    assert!(check_ctrl_c(false).is_ok());
}

#[test]
fn prompt_gate_tracks_active_prompt() {
    let mut gate = jenkins::prompt::PromptGate::new();
    assert!(!jenkins::prompt::is_prompting(&gate));
    gate.begin_prompt();
    assert!(jenkins::prompt::is_prompting(&gate));
    gate.end_prompt();
    assert!(!jenkins::prompt::is_prompting(&gate));
}
