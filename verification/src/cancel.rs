//! The cancellation algorithm: once the operator confirms, repeatedly query
//! the build's state, send a stop request when it is running, and verify
//! that it actually stopped, under an attempt cap and a wall-clock budget.
//! The decisions live here; the caller performs the HTTP calls and feeds
//! the observations back in.

use vstd::prelude::*;

use crate::client::BuildStatus;

verus! {

/// The attempt cap on status queries and on verification rounds.
pub const CANCEL_MAX_ATTEMPTS: u32 = 10;

/// The wall-clock budget of the whole algorithm, in milliseconds.
pub const CANCEL_MAX_WAIT_MS: u64 = 30000;

/// The delay before retrying a status query, in milliseconds.
pub const CANCEL_RETRY_DELAY_MS: u64 = 1000;

/// The delay between verification rounds after a stop, in milliseconds.
pub const CANCEL_VERIFY_DELAY_MS: u64 = 3000;

/// How the cancel flow ended. The operator must be able to tell the three
/// apart: the build was stopped, it had already finished on its own, or it
/// could not be stopped in time.
#[derive(Copy, Clone, PartialEq, Eq, Structural, Debug)]
pub enum CancelOutcome {
    Cancelled,
    AlreadyCompleted,
    Failed,
}

/// What the caller must do next.
#[derive(Copy, Clone, PartialEq, Eq, Structural, Debug)]
pub enum CancelDirective {
    /// Wait the given delay, then query the build status and feed it back.
    QueryAfter(u64),
    /// Send a stop request for this build number and report how it went.
    SendStop(Option<u32>),
    /// The flow is over, with this outcome.
    Finish(CancelOutcome),
}

/// The two stages of the flow: probing for a running build, and verifying
/// that a stopped build really stopped.
#[derive(Copy, Clone, PartialEq, Eq, Structural, Debug)]
pub enum CancelStage {
    Probing,
    Verifying,
}

/// The state of one cancellation run.
pub struct CancelMachine {
    pub stage: CancelStage,
    pub attempts: u32,
    pub verify_attempts: u32,
    pub stable_count: u32,
    pub last_id: Option<u32>,
}


/// The machine's whole transition on one status observation: the next state
/// and the directive, with every counter pinned. While probing, the elapsed
/// wall clock is held to the overall budget; while verifying, the round
/// counter alone bounds the stage.
pub open spec fn cancel_status_step(
    m: CancelMachine,
    status: Option<BuildStatus>,
    elapsed_ms: u64,
) -> (CancelMachine, CancelDirective) {
    match m.stage {
        CancelStage::Probing => {
            if elapsed_ms >= CANCEL_MAX_WAIT_MS {
                (m, CancelDirective::Finish(CancelOutcome::Failed))
            } else {
                match status {
                    None => {
                        if m.attempts >= CANCEL_MAX_ATTEMPTS {
                            (m, CancelDirective::Finish(CancelOutcome::Failed))
                        } else {
                            (
                                CancelMachine {
                                    stage: m.stage,
                                    attempts: (m.attempts + 1) as u32,
                                    verify_attempts: m.verify_attempts,
                                    stable_count: m.stable_count,
                                    last_id: m.last_id,
                                },
                                CancelDirective::QueryAfter(CANCEL_RETRY_DELAY_MS),
                            )
                        }
                    },
                    Some(st) => {
                        if st.building {
                            (m, CancelDirective::SendStop(st.id))
                        } else if st.in_queue {
                            (
                                CancelMachine {
                                    stage: m.stage,
                                    attempts: if m.attempts < CANCEL_MAX_ATTEMPTS {
                                        (m.attempts + 1) as u32
                                    } else {
                                        m.attempts
                                    },
                                    verify_attempts: m.verify_attempts,
                                    stable_count: m.stable_count,
                                    last_id: m.last_id,
                                },
                                CancelDirective::QueryAfter(CANCEL_RETRY_DELAY_MS),
                            )
                        } else {
                            let stable = if st.id == m.last_id {
                                m.stable_count + 1int
                            } else {
                                1int
                            };
                            if stable >= 3 || m.attempts >= CANCEL_MAX_ATTEMPTS {
                                (m, CancelDirective::Finish(CancelOutcome::AlreadyCompleted))
                            } else {
                                (
                                    CancelMachine {
                                        stage: m.stage,
                                        attempts: if m.attempts < CANCEL_MAX_ATTEMPTS {
                                            (m.attempts + 1) as u32
                                        } else {
                                            m.attempts
                                        },
                                        verify_attempts: m.verify_attempts,
                                        stable_count: stable as u32,
                                        last_id: st.id,
                                    },
                                    CancelDirective::QueryAfter(CANCEL_RETRY_DELAY_MS),
                                )
                            }
                        }
                    },
                }
            }
        },
        CancelStage::Verifying => {
            match status {
                None => {
                    if m.verify_attempts + 1 >= CANCEL_MAX_ATTEMPTS {
                        (m, CancelDirective::Finish(CancelOutcome::Failed))
                    } else {
                        (
                            CancelMachine {
                                stage: m.stage,
                                attempts: m.attempts,
                                verify_attempts: (m.verify_attempts + 1) as u32,
                                stable_count: m.stable_count,
                                last_id: m.last_id,
                            },
                            CancelDirective::QueryAfter(CANCEL_VERIFY_DELAY_MS),
                        )
                    }
                },
                Some(st) => {
                    if !st.building {
                        (m, CancelDirective::Finish(CancelOutcome::Cancelled))
                    } else if m.verify_attempts + 1 >= CANCEL_MAX_ATTEMPTS {
                        (m, CancelDirective::Finish(CancelOutcome::Failed))
                    } else if m.verify_attempts == 0 {
                        // The first check right after the stop: the build is
                        // winding down, wait without re-sending.
                        (
                            CancelMachine {
                                stage: m.stage,
                                attempts: m.attempts,
                                verify_attempts: 1,
                                stable_count: m.stable_count,
                                last_id: m.last_id,
                            },
                            CancelDirective::QueryAfter(CANCEL_VERIFY_DELAY_MS),
                        )
                    } else {
                        (
                            CancelMachine {
                                stage: m.stage,
                                attempts: m.attempts,
                                verify_attempts: (m.verify_attempts + 1) as u32,
                                stable_count: m.stable_count,
                                last_id: m.last_id,
                            },
                            CancelDirective::SendStop(st.id),
                        )
                    }
                },
            }
        },
    }
}

/// The machine's whole transition on a stop request's outcome: a sent stop
/// enters verification with every counter kept (in particular the
/// verification round counter stays where it was, zero on the first stop);
/// a failed stop ends the flow with the machine unchanged.
pub open spec fn cancel_stop_step(m: CancelMachine, ok: bool) -> (CancelMachine, CancelDirective) {
    if ok {
        (
            CancelMachine {
                stage: CancelStage::Verifying,
                attempts: m.attempts,
                verify_attempts: m.verify_attempts,
                stable_count: m.stable_count,
                last_id: m.last_id,
            },
            CancelDirective::QueryAfter(CANCEL_VERIFY_DELAY_MS),
        )
    } else {
        (m, CancelDirective::Finish(CancelOutcome::Failed))
    }
}

impl CancelMachine {
    /// Counters stay inside their caps.
    pub open spec fn wf(&self) -> bool {
        &&& self.stable_count <= 3
        &&& self.attempts <= CANCEL_MAX_ATTEMPTS
        &&& self.verify_attempts <= CANCEL_MAX_ATTEMPTS
    }

    pub fn new() -> (r: CancelMachine)
        ensures
            r.wf(),
            r.stage == CancelStage::Probing,
            r.attempts == 0,
            r.verify_attempts == 0,
            r.stable_count == 0,
            r.last_id is None,
    {
        CancelMachine {
            stage: CancelStage::Probing,
            attempts: 0,
            verify_attempts: 0,
            stable_count: 0,
            last_id: None,
        }
    }

    /// Feed in one status observation (or a query failure) and the elapsed
    /// wall-clock time. The new state and the directive are exactly
    /// `cancel_status_step`: while probing, a failure retries up to the cap,
    /// a queued build waits, an idle build must look idle three times in a
    /// row (same last-known number) to count as already completed, and a
    /// running build gets a stop request; while verifying, an idle build
    /// means the cancel succeeded, and a build still running right after the
    /// stop is given one round to wind down before the stop is re-sent.
    pub fn on_status(&mut self, status: Option<&BuildStatus>, elapsed_ms: u64) -> (r:
        CancelDirective)
        requires
            old(self).wf(),
        ensures
            final(self).wf(),
            (*final(self), r) == cancel_status_step(
                *old(self),
                match status {
                    None => None::<BuildStatus>,
                    Some(st) => Some(*st),
                },
                elapsed_ms,
            ),
    {
        match self.stage {
            CancelStage::Probing => {
                if elapsed_ms >= CANCEL_MAX_WAIT_MS {
                    return CancelDirective::Finish(CancelOutcome::Failed);
                }
                match status {
                    None => {
                        if self.attempts >= CANCEL_MAX_ATTEMPTS {
                            CancelDirective::Finish(CancelOutcome::Failed)
                        } else {
                            self.attempts = self.attempts + 1;
                            CancelDirective::QueryAfter(CANCEL_RETRY_DELAY_MS)
                        }
                    },
                    Some(st) => {
                        if st.building {
                            CancelDirective::SendStop(st.id)
                        } else if st.in_queue {
                            if self.attempts < CANCEL_MAX_ATTEMPTS {
                                self.attempts = self.attempts + 1;
                            }
                            CancelDirective::QueryAfter(CANCEL_RETRY_DELAY_MS)
                        } else {
                            let same = match (st.id, self.last_id) {
                                (Some(a), Some(b)) => a == b,
                                (None, None) => true,
                                _ => false,
                            };
                            let stable: u32 = if same {
                                self.stable_count + 1
                            } else {
                                1
                            };
                            if stable >= 3 || self.attempts >= CANCEL_MAX_ATTEMPTS {
                                CancelDirective::Finish(CancelOutcome::AlreadyCompleted)
                            } else {
                                self.stable_count = stable;
                                self.last_id = st.id;
                                if self.attempts < CANCEL_MAX_ATTEMPTS {
                                    self.attempts = self.attempts + 1;
                                }
                                CancelDirective::QueryAfter(CANCEL_RETRY_DELAY_MS)
                            }
                        }
                    },
                }
            },
            CancelStage::Verifying => {
                match status {
                    None => {
                        if self.verify_attempts >= CANCEL_MAX_ATTEMPTS - 1 {
                            CancelDirective::Finish(CancelOutcome::Failed)
                        } else {
                            self.verify_attempts = self.verify_attempts + 1;
                            CancelDirective::QueryAfter(CANCEL_VERIFY_DELAY_MS)
                        }
                    },
                    Some(st) => {
                        if !st.building {
                            CancelDirective::Finish(CancelOutcome::Cancelled)
                        } else if self.verify_attempts >= CANCEL_MAX_ATTEMPTS - 1 {
                            CancelDirective::Finish(CancelOutcome::Failed)
                        } else if self.verify_attempts == 0 {
                            self.verify_attempts = self.verify_attempts + 1;
                            CancelDirective::QueryAfter(CANCEL_VERIFY_DELAY_MS)
                        } else {
                            self.verify_attempts = self.verify_attempts + 1;
                            CancelDirective::SendStop(st.id)
                        }
                    },
                }
            },
        }
    }

    /// Feed in how the stop request went: a sent stop moves the flow into
    /// verification; a stop that timed out or failed ends the flow. The new
    /// state and directive are exactly `cancel_stop_step`.
    pub fn on_stop_result(&mut self, ok: bool) -> (r: CancelDirective)
        requires
            old(self).wf(),
        ensures
            final(self).wf(),
            (*final(self), r) == cancel_stop_step(*old(self), ok),
    {
        if ok {
            self.stage = CancelStage::Verifying;
            CancelDirective::QueryAfter(CANCEL_VERIFY_DELAY_MS)
        } else {
            CancelDirective::Finish(CancelOutcome::Failed)
        }
    }
}

} // verus!
