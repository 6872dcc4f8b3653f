//! Core of an interactive client that triggers and supervises builds on a
//! remote CI server: the interrupt/cancellation state machines, the
//! authenticated-request retry ladders, the cookie store and the scripted
//! cookie refresh, the build-status and polling decisions, and the
//! reconciliation of remembered build parameters against a job's current
//! schema. Everything here is decision logic over plain values; the
//! surrounding process performs the HTTP calls, prompts and file handling
//! and feeds the observations back in.

pub mod assoc;
pub mod auth;
pub mod cancel;
pub mod client;
pub mod clock;
pub mod cookie;
pub mod flow;
pub mod history;
pub mod i18n;
pub mod interrupts;
pub mod models;
pub mod params;
pub mod prompt;
pub mod refresh;
pub mod retry;
pub mod text;
pub mod urls;
pub mod version;
