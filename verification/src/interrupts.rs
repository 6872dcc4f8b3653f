//! Interrupt control: the process-wide phase state machine that decides what
//! a keyboard interrupt means right now — back out of a prompt, offer to
//! cancel the running build, or force the process to exit.

use vstd::prelude::*;

verus! {

/// The phase the interrupt handler consults.
///
/// Transitions: `Idle` to `Polling` when a poll loop starts; `Polling` to
/// `Cancelling` only after the operator confirms the cancel prompt;
/// `Cancelling` to `Idle` when the cancel flow ends; `Polling` to `Idle`
/// when the polled operation completes undisturbed.
#[derive(Copy, Clone, PartialEq, Eq, Structural, Debug)]
pub enum CtrlCPhase {
    Idle,
    Polling,
    Cancelling,
}

/// The control events the poll loops race against their timers.
#[derive(Copy, Clone, PartialEq, Eq, Structural, Debug)]
pub enum Event {
    StopSpinner,
    ResumeSpinner,
    CancelPolling,
}

/// What one interrupt means, given the phase it arrives in.
#[derive(Copy, Clone, PartialEq, Eq, Structural, Debug)]
pub enum InterruptMeaning {
    /// Exit the process immediately.
    ForceExit,
    /// Leave the interrupt to whatever prompt is currently reading input.
    Swallow,
    /// Pause polling and ask the operator whether to cancel the build.
    PromptCancel,
}

/// The interrupt-control state: current phase, whether the application is
/// still running (drives the key listener's shutdown), and the time of the
/// last interrupt for double-press detection.
pub struct CtrlCControl {
    pub phase: CtrlCPhase,
    pub app_running: bool,
    pub last_ctrl_c_ms: u64,
}

impl CtrlCControl {
    pub fn new() -> (r: CtrlCControl)
        ensures
            r.phase == CtrlCPhase::Idle,
            r.app_running == true,
            r.last_ctrl_c_ms == 0,
    {
        CtrlCControl { phase: CtrlCPhase::Idle, app_running: true, last_ctrl_c_ms: 0 }
    }

    pub fn set_phase(&mut self, phase: CtrlCPhase)
        ensures
            final(self).phase == phase,
            final(self).app_running == old(self).app_running,
            final(self).last_ctrl_c_ms == old(self).last_ctrl_c_ms,
    {
        self.phase = phase;
    }

    /// Reset the polling phase, but only when no cancel flow is active.
    pub fn finish_polling(&mut self)
        ensures
            final(self).phase == if old(self).phase == CtrlCPhase::Polling {
                CtrlCPhase::Idle
            } else {
                old(self).phase
            },
            final(self).app_running == old(self).app_running,
            final(self).last_ctrl_c_ms == old(self).last_ctrl_c_ms,
    {
        if self.phase == CtrlCPhase::Polling {
            self.phase = CtrlCPhase::Idle;
        }
    }

    pub fn phase(&self) -> (r: CtrlCPhase)
        ensures
            r == self.phase,
    {
        self.phase
    }

    /// A short name for the current phase, for diagnostics.
    pub fn phase_label(&self) -> (r: &'static str)
        ensures
            self.phase == CtrlCPhase::Idle ==> r@ == "idle"@,
            self.phase == CtrlCPhase::Polling ==> r@ == "polling"@,
            self.phase == CtrlCPhase::Cancelling ==> r@ == "cancelling"@,
    {
        match self.phase {
            CtrlCPhase::Idle => "idle",
            CtrlCPhase::Polling => "polling",
            CtrlCPhase::Cancelling => "cancelling",
        }
    }

    /// Record an interrupt at `now_ms` and say whether it is the second one
    /// within the window, which forces an immediate exit.
    pub fn should_force_exit(&mut self, now_ms: u64, window_ms: u64) -> (r: bool)
        ensures
            final(self).last_ctrl_c_ms == now_ms,
            final(self).phase == old(self).phase,
            final(self).app_running == old(self).app_running,
            r == (now_ms - old(self).last_ctrl_c_ms <= window_ms || now_ms < old(self).last_ctrl_c_ms),
    {
        let prev = self.last_ctrl_c_ms;
        self.last_ctrl_c_ms = now_ms;
        if now_ms < prev {
            // A clock step backwards counts as within the window.
            true
        } else {
            now_ms - prev <= window_ms
        }
    }

    pub fn set_app_running(&mut self, running: bool)
        ensures
            final(self).app_running == running,
            final(self).phase == old(self).phase,
            final(self).last_ctrl_c_ms == old(self).last_ctrl_c_ms,
    {
        self.app_running = running;
    }

    pub fn app_running(&self) -> (r: bool)
        ensures
            r == self.app_running,
    {
        self.app_running
    }

    /// Decide what an interrupt arriving now means. An interrupt during a
    /// cancel flow forces an exit; outside polling, only a double press
    /// within the window forces an exit and a single press is left to the
    /// active prompt; during polling the operator is asked about cancelling.
    pub fn on_interrupt(&mut self, now_ms: u64, window_ms: u64) -> (r: InterruptMeaning)
        ensures
            final(self).phase == old(self).phase,
            final(self).app_running == old(self).app_running,
            old(self).phase == CtrlCPhase::Cancelling ==> r == InterruptMeaning::ForceExit,
            old(self).phase == CtrlCPhase::Polling ==> r == InterruptMeaning::PromptCancel && final(self).last_ctrl_c_ms == old(self).last_ctrl_c_ms,
            old(self).phase == CtrlCPhase::Idle ==> {
                &&& final(self).last_ctrl_c_ms == now_ms
                &&& r == (if now_ms - old(self).last_ctrl_c_ms <= window_ms || now_ms < old(self).last_ctrl_c_ms {
                    InterruptMeaning::ForceExit
                } else {
                    InterruptMeaning::Swallow
                })
            },
    {
        match self.phase {
            CtrlCPhase::Cancelling => InterruptMeaning::ForceExit,
            CtrlCPhase::Polling => InterruptMeaning::PromptCancel,
            CtrlCPhase::Idle => {
                if self.should_force_exit(now_ms, window_ms) {
                    InterruptMeaning::ForceExit
                } else {
                    InterruptMeaning::Swallow
                }
            },
        }
    }
}

/// The error a polled operation reports when the operator interrupted it.
#[derive(Copy, Clone, PartialEq, Eq, Structural, Debug)]
pub struct Interrupted;

/// Turn an observed interrupt flag into the result polled operations
/// propagate: an error exactly when the flag is set.
pub fn check_ctrl_c(ctrl_c_pressed: bool) -> (r: Result<(), Interrupted>)
    ensures
        r is Err <==> ctrl_c_pressed,
{
    if ctrl_c_pressed {
        Err(Interrupted)
    } else {
        Ok(())
    }
}

} // verus!
