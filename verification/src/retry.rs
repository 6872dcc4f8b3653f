//! The authenticated-request retry ladders. A POST survives CSRF-token
//! rotation and session expiry by at most one crumb fetch, at most one
//! cookie refresh and a bounded number of re-sent requests; a GET gets one
//! refresh-and-retry. The machines here decide the next step; the caller
//! performs the HTTP calls and feeds the outcomes back.

use vstd::prelude::*;

verus! {

/// The classification of one HTTP attempt's outcome.
#[derive(Copy, Clone, PartialEq, Eq, Structural, Debug)]
pub enum HttpOutcome {
    Success,
    Unauthorized,
    Forbidden,
    NotFound,
    OtherFailure,
    TransportError,
}

/// The outcome class of an HTTP status code: 2xx is success, 401 and 403
/// drive the retry ladders, 404 and everything else are terminal.
pub fn classify_status(code: u16) -> (r: HttpOutcome)
    ensures
        200 <= code < 300 ==> r == HttpOutcome::Success,
        code == 401 ==> r == HttpOutcome::Unauthorized,
        code == 403 ==> r == HttpOutcome::Forbidden,
        code == 404 ==> r == HttpOutcome::NotFound,
        !(200 <= code < 300) && code != 401 && code != 403 && code != 404 ==> r
            == HttpOutcome::OtherFailure,
{
    if 200 <= code && code < 300 {
        HttpOutcome::Success
    } else if code == 401 {
        HttpOutcome::Unauthorized
    } else if code == 403 {
        HttpOutcome::Forbidden
    } else if code == 404 {
        HttpOutcome::NotFound
    } else {
        HttpOutcome::OtherFailure
    }
}

/// The diagnostic text of one outcome class.
pub fn outcome_message(outcome: HttpOutcome) -> (r: &'static str)
    ensures
        outcome == HttpOutcome::Success ==> r@ == "ok"@,
        outcome == HttpOutcome::Unauthorized ==> r@
            == "Unauthorized (401): check the credentials."@,
        outcome == HttpOutcome::Forbidden ==> r@ == "Forbidden (403): insufficient permissions."@,
        outcome == HttpOutcome::NotFound ==> r@
            == "Not Found (404): the resource does not exist."@,
        outcome == HttpOutcome::OtherFailure ==> r@ == "Request failed."@,
        outcome == HttpOutcome::TransportError ==> r@ == "Connection failed or timed out."@,
{
    match outcome {
        HttpOutcome::Success => "ok",
        HttpOutcome::Unauthorized => "Unauthorized (401): check the credentials.",
        HttpOutcome::Forbidden => "Forbidden (403): insufficient permissions.",
        HttpOutcome::NotFound => "Not Found (404): the resource does not exist.",
        HttpOutcome::OtherFailure => "Request failed.",
        HttpOutcome::TransportError => "Connection failed or timed out.",
    }
}

/// What the POST ladder asks the caller to do next.
#[derive(Copy, Clone, PartialEq, Eq, Structural, Debug)]
pub enum PostDirective {
    /// Send the POST, with the fetched crumb attached or not.
    SendPost { with_crumb: bool },
    /// Fetch a CSRF crumb and report whether one came back.
    FetchCrumb,
    /// Run the cookie refresh and report whether it refreshed.
    RefreshCookie,
    /// The call is over: the final outcome to hand to the caller.
    Done(HttpOutcome),
}

/// What the caller observed for the step it was asked to take.
#[derive(Copy, Clone, PartialEq, Eq, Structural, Debug)]
pub enum PostEvent {
    Response(HttpOutcome),
    CrumbFetched(bool),
    Refreshed(bool),
}

/// Where the POST ladder stands.
#[derive(Copy, Clone, PartialEq, Eq, Structural, Debug)]
pub enum PostStage {
    /// Waiting for the outcome of the first POST.
    First,
    /// A 401 came back; waiting for the refresh outcome.
    RefreshAfterUnauthorized,
    /// A 403 came back; waiting for the crumb fetch outcome.
    CrumbWanted,
    /// Waiting for the outcome of the POST re-sent with the crumb.
    WithCrumb,
    /// The crumbed POST still hit 401/403 (the carried status); waiting for
    /// the refresh outcome.
    RefreshAfterCrumb(HttpOutcome),
    /// No crumb was available after the 403; waiting for the refresh outcome.
    RefreshNoCrumb,
    /// Waiting for the outcome of the final POST; whatever comes back ends
    /// the call.
    FinalPost { with_crumb: bool },
    /// A 401/403 arrived and no retry is left: the stored outcome ends the
    /// call once reported.
    Settled(HttpOutcome),
}

/// The POST retry ladder: one crumb fetch and one cookie refresh at most,
/// and never more than three posts per logical call.
pub struct PostRetryMachine {
    pub stage: PostStage,
    pub posts: u32,
    pub crumb_fetches: u32,
    pub refreshes: u32,
}

/// The next stage and directive of the ladder, given where it stands and
/// what the caller observed. This is the whole protocol in one place.
pub open spec fn post_step_spec(stage: PostStage, ev: PostEvent) -> (PostStage, PostDirective) {
    match (stage, ev) {
        (PostStage::First, PostEvent::Response(out)) => match out {
            HttpOutcome::Unauthorized => (
                PostStage::RefreshAfterUnauthorized,
                PostDirective::RefreshCookie,
            ),
            HttpOutcome::Forbidden => (PostStage::CrumbWanted, PostDirective::FetchCrumb),
            other => (PostStage::Settled(other), PostDirective::Done(other)),
        },
        (PostStage::RefreshAfterUnauthorized, PostEvent::Refreshed(ok)) => if ok {
            (PostStage::FinalPost { with_crumb: false }, PostDirective::SendPost {
                with_crumb: false,
            })
        } else {
            (
                PostStage::Settled(HttpOutcome::Unauthorized),
                PostDirective::Done(HttpOutcome::Unauthorized),
            )
        },
        (PostStage::CrumbWanted, PostEvent::CrumbFetched(got)) => if got {
            (PostStage::WithCrumb, PostDirective::SendPost { with_crumb: true })
        } else {
            (PostStage::RefreshNoCrumb, PostDirective::RefreshCookie)
        },
        (PostStage::WithCrumb, PostEvent::Response(out)) => match out {
            HttpOutcome::Unauthorized | HttpOutcome::Forbidden => (
                PostStage::RefreshAfterCrumb(out),
                PostDirective::RefreshCookie,
            ),
            other => (PostStage::Settled(other), PostDirective::Done(other)),
        },
        (PostStage::RefreshAfterCrumb(trigger), PostEvent::Refreshed(ok)) => if ok {
            (PostStage::FinalPost { with_crumb: true }, PostDirective::SendPost {
                with_crumb: true,
            })
        } else {
            // No refresh to be had: the crumbed attempt's own status is the
            // outcome.
            (PostStage::Settled(trigger), PostDirective::Done(trigger))
        },
        (PostStage::RefreshNoCrumb, PostEvent::Refreshed(ok)) => if ok {
            (PostStage::FinalPost { with_crumb: false }, PostDirective::SendPost {
                with_crumb: false,
            })
        } else {
            (
                PostStage::Settled(HttpOutcome::Forbidden),
                PostDirective::Done(HttpOutcome::Forbidden),
            )
        },
        (PostStage::FinalPost { with_crumb }, PostEvent::Response(out)) => (
            PostStage::Settled(out),
            PostDirective::Done(out),
        ),
        (PostStage::Settled(out), _) => (PostStage::Settled(out), PostDirective::Done(out)),
        // An observation that does not answer what was asked changes
        // nothing; the caller is asked again for the pending step.
        (stage, _) => (stage, pending_directive(stage)),
    }
}

/// The directive a stage is waiting on.
pub open spec fn pending_directive(stage: PostStage) -> PostDirective {
    match stage {
        PostStage::First => PostDirective::SendPost { with_crumb: false },
        PostStage::RefreshAfterUnauthorized => PostDirective::RefreshCookie,
        PostStage::CrumbWanted => PostDirective::FetchCrumb,
        PostStage::WithCrumb => PostDirective::SendPost { with_crumb: true },
        PostStage::RefreshAfterCrumb(_) => PostDirective::RefreshCookie,
        PostStage::RefreshNoCrumb => PostDirective::RefreshCookie,
        PostStage::FinalPost { with_crumb } => PostDirective::SendPost { with_crumb },
        PostStage::Settled(out) => PostDirective::Done(out),
    }
}

impl PostRetryMachine {
    /// The counters are tied to the stage, and never pass the caps: at most
    /// one crumb fetch, one cookie refresh and three posts per logical call —
    /// the ladder cannot loop.
    pub open spec fn wf(&self) -> bool {
        &&& self.posts <= 3
        &&& self.crumb_fetches <= 1
        &&& self.refreshes <= 1
        &&& match self.stage {
            PostStage::First => self.posts == 1 && self.crumb_fetches == 0 && self.refreshes == 0,
            PostStage::RefreshAfterUnauthorized => self.posts == 1 && self.crumb_fetches == 0
                && self.refreshes == 1,
            PostStage::CrumbWanted => self.posts == 1 && self.crumb_fetches == 1 && self.refreshes
                == 0,
            PostStage::WithCrumb => self.posts == 2 && self.crumb_fetches == 1 && self.refreshes
                == 0,
            PostStage::RefreshAfterCrumb(_) => self.posts == 2 && self.crumb_fetches == 1
                && self.refreshes == 1,
            PostStage::RefreshNoCrumb => self.posts == 1 && self.crumb_fetches == 1
                && self.refreshes == 1,
            PostStage::FinalPost { .. } => self.refreshes == 1,
            PostStage::Settled(_) => true,
        }
    }

    /// A fresh ladder; the caller first sends the plain POST.
    pub fn new() -> (r: (PostRetryMachine, PostDirective))
        ensures
            r.0.wf(),
            r.0.stage == PostStage::First,
            r.0.posts == 1,
            r.0.crumb_fetches == 0,
            r.0.refreshes == 0,
            r.1 == (PostDirective::SendPost { with_crumb: false }),
    {
        (
            PostRetryMachine { stage: PostStage::First, posts: 1, crumb_fetches: 0, refreshes: 0 },
            PostDirective::SendPost { with_crumb: false },
        )
    }

    /// Advance the ladder by one observation. The resulting stage and
    /// directive are exactly `post_step_spec`; the counters grow only when
    /// the directive asks for the matching action, and never pass the caps.
    pub fn step(&mut self, ev: PostEvent) -> (r: PostDirective)
        requires
            old(self).wf(),
        ensures
            final(self).wf(),
            (final(self).stage, r) == post_step_spec(old(self).stage, ev),
            final(self).crumb_fetches == old(self).crumb_fetches + (if old(self).stage is First
                && r == PostDirective::FetchCrumb {
                1int
            } else {
                0int
            }),
            final(self).refreshes == old(self).refreshes + (if r == PostDirective::RefreshCookie
                && (old(self).stage is First || old(self).stage is CrumbWanted || old(self).stage
                is WithCrumb) {
                1int
            } else {
                0int
            }),
            final(self).posts == old(self).posts + (if (r matches PostDirective::SendPost { .. })
                && (old(self).stage is RefreshAfterUnauthorized || old(self).stage is CrumbWanted
                || old(self).stage is RefreshAfterCrumb || old(self).stage is RefreshNoCrumb) {
                1int
            } else {
                0int
            }),
            old(self).stage is First && r == PostDirective::FetchCrumb ==> old(
                self,
            ).crumb_fetches == 0,
    {
        let (next, directive) = match (self.stage, ev) {
            (PostStage::First, PostEvent::Response(out)) => match out {
                HttpOutcome::Unauthorized => (
                    PostStage::RefreshAfterUnauthorized,
                    PostDirective::RefreshCookie,
                ),
                HttpOutcome::Forbidden => (PostStage::CrumbWanted, PostDirective::FetchCrumb),
                other => (PostStage::Settled(other), PostDirective::Done(other)),
            },
            (PostStage::RefreshAfterUnauthorized, PostEvent::Refreshed(ok)) => {
                if ok {
                    (PostStage::FinalPost { with_crumb: false }, PostDirective::SendPost {
                        with_crumb: false,
                    })
                } else {
                    (
                        PostStage::Settled(HttpOutcome::Unauthorized),
                        PostDirective::Done(HttpOutcome::Unauthorized),
                    )
                }
            },
            (PostStage::CrumbWanted, PostEvent::CrumbFetched(got)) => {
                if got {
                    (PostStage::WithCrumb, PostDirective::SendPost { with_crumb: true })
                } else {
                    (PostStage::RefreshNoCrumb, PostDirective::RefreshCookie)
                }
            },
            (PostStage::WithCrumb, PostEvent::Response(out)) => match out {
                HttpOutcome::Unauthorized | HttpOutcome::Forbidden => (
                    PostStage::RefreshAfterCrumb(out),
                    PostDirective::RefreshCookie,
                ),
                other => (PostStage::Settled(other), PostDirective::Done(other)),
            },
            (PostStage::RefreshAfterCrumb(trigger), PostEvent::Refreshed(ok)) => {
                if ok {
                    (PostStage::FinalPost { with_crumb: true }, PostDirective::SendPost {
                        with_crumb: true,
                    })
                } else {
                    // No refresh to be had: the crumbed attempt's own status
                    // is the outcome.
                    (PostStage::Settled(trigger), PostDirective::Done(trigger))
                }
            },
            (PostStage::RefreshNoCrumb, PostEvent::Refreshed(ok)) => {
                if ok {
                    (PostStage::FinalPost { with_crumb: false }, PostDirective::SendPost {
                        with_crumb: false,
                    })
                } else {
                    (
                        PostStage::Settled(HttpOutcome::Forbidden),
                        PostDirective::Done(HttpOutcome::Forbidden),
                    )
                }
            },
            (PostStage::FinalPost { with_crumb: _ }, PostEvent::Response(out)) => (
                PostStage::Settled(out),
                PostDirective::Done(out),
            ),
            (PostStage::Settled(out), _) => (PostStage::Settled(out), PostDirective::Done(out)),
            (stage, _) => {
                let pending = match stage {
                    PostStage::First => PostDirective::SendPost { with_crumb: false },
                    PostStage::RefreshAfterUnauthorized => PostDirective::RefreshCookie,
                    PostStage::CrumbWanted => PostDirective::FetchCrumb,
                    PostStage::WithCrumb => PostDirective::SendPost { with_crumb: true },
                    PostStage::RefreshAfterCrumb(_) => PostDirective::RefreshCookie,
                    PostStage::RefreshNoCrumb => PostDirective::RefreshCookie,
                    PostStage::FinalPost { with_crumb } => PostDirective::SendPost { with_crumb },
                    PostStage::Settled(out) => PostDirective::Done(out),
                };
                (stage, pending)
            },
        };
        // Count only freshly issued actions, not re-asked pending ones.
        match directive {
            PostDirective::FetchCrumb => {
                let fresh = match self.stage {
                    PostStage::First => true,
                    _ => false,
                };
                if fresh {
                    self.crumb_fetches = self.crumb_fetches + 1;
                }
            },
            PostDirective::RefreshCookie => {
                let fresh = match self.stage {
                    PostStage::First => true,
                    PostStage::CrumbWanted => true,
                    PostStage::WithCrumb => true,
                    _ => false,
                };
                if fresh {
                    self.refreshes = self.refreshes + 1;
                }
            },
            PostDirective::SendPost { .. } => {
                let fresh = match self.stage {
                    PostStage::RefreshAfterUnauthorized => true,
                    PostStage::CrumbWanted => true,
                    PostStage::RefreshAfterCrumb(_) => true,
                    PostStage::RefreshNoCrumb => true,
                    _ => false,
                };
                if fresh {
                    self.posts = self.posts + 1;
                }
            },
            PostDirective::Done(_) => {},
        }
        self.stage = next;
        directive
    }
}

/// The GET retry: one attempt, and on 401/403 one refresh followed by one
/// retry; everything else ends the call. The refreshing stage carries the
/// status that triggered it, so that a failed refresh surfaces the original
/// failure — a 403 stays a 403.
#[derive(Copy, Clone, PartialEq, Eq, Structural, Debug)]
pub enum GetStage {
    First,
    Refreshing(HttpOutcome),
    Retry,
    Settled(HttpOutcome),
}

#[derive(Copy, Clone, PartialEq, Eq, Structural, Debug)]
pub enum GetDirective {
    SendGet,
    RefreshCookie,
    Done(HttpOutcome),
}

pub struct GetRetryMachine {
    pub stage: GetStage,
}

/// The GET ladder's whole protocol.
pub open spec fn get_step_spec(stage: GetStage, ev: PostEvent) -> (GetStage, GetDirective) {
    match (stage, ev) {
        (GetStage::First, PostEvent::Response(out)) => match out {
            HttpOutcome::Unauthorized | HttpOutcome::Forbidden => (
                GetStage::Refreshing(out),
                GetDirective::RefreshCookie,
            ),
            other => (GetStage::Settled(other), GetDirective::Done(other)),
        },
        (GetStage::Refreshing(trigger), PostEvent::Refreshed(ok)) => if ok {
            (GetStage::Retry, GetDirective::SendGet)
        } else {
            // No refresh to be had: the original failure is the outcome.
            (GetStage::Settled(trigger), GetDirective::Done(trigger))
        },
        (GetStage::Retry, PostEvent::Response(out)) => (
            GetStage::Settled(out),
            GetDirective::Done(out),
        ),
        (GetStage::Settled(out), _) => (GetStage::Settled(out), GetDirective::Done(out)),
        (stage, _) => (
            stage,
            match stage {
                GetStage::First => GetDirective::SendGet,
                GetStage::Refreshing(_) => GetDirective::RefreshCookie,
                GetStage::Retry => GetDirective::SendGet,
                GetStage::Settled(out) => GetDirective::Done(out),
            },
        ),
    }
}

impl GetRetryMachine {
    pub fn new() -> (r: (GetRetryMachine, GetDirective))
        ensures
            r.0.stage == GetStage::First,
            r.1 == GetDirective::SendGet,
    {
        (GetRetryMachine { stage: GetStage::First }, GetDirective::SendGet)
    }

    pub fn step(&mut self, ev: PostEvent) -> (r: GetDirective)
        ensures
            (final(self).stage, r) == get_step_spec(old(self).stage, ev),
    {
        let (next, directive) = match (self.stage, ev) {
            (GetStage::First, PostEvent::Response(out)) => match out {
                HttpOutcome::Unauthorized | HttpOutcome::Forbidden => (
                    GetStage::Refreshing(out),
                    GetDirective::RefreshCookie,
                ),
                other => (GetStage::Settled(other), GetDirective::Done(other)),
            },
            (GetStage::Refreshing(trigger), PostEvent::Refreshed(ok)) => {
                if ok {
                    (GetStage::Retry, GetDirective::SendGet)
                } else {
                    // No refresh to be had: the original failure is the
                    // outcome, so a 403 stays a 403.
                    (GetStage::Settled(trigger), GetDirective::Done(trigger))
                }
            },
            (GetStage::Retry, PostEvent::Response(out)) => (
                GetStage::Settled(out),
                GetDirective::Done(out),
            ),
            (GetStage::Settled(out), _) => (GetStage::Settled(out), GetDirective::Done(out)),
            (stage, _) => {
                let pending = match stage {
                    GetStage::First => GetDirective::SendGet,
                    GetStage::Refreshing(_) => GetDirective::RefreshCookie,
                    GetStage::Retry => GetDirective::SendGet,
                    GetStage::Settled(out) => GetDirective::Done(out),
                };
                (stage, pending)
            },
        };
        self.stage = next;
        directive
    }
}

} // verus!
