//! Coordination between interactive prompts and the raw-mode key
//! listener: while a prompt owns the terminal, the listener stays away.
//! The prompts themselves live with the caller.

use vstd::prelude::*;

verus! {

/// Whether a prompt is currently reading input.
pub struct PromptGate {
    pub active: bool,
}

impl PromptGate {
    pub fn new() -> (r: PromptGate)
        ensures
            !r.active,
    {
        PromptGate { active: false }
    }

    /// Mark a prompt as reading input.
    pub fn begin_prompt(&mut self)
        ensures
            final(self).active,
    {
        self.active = true;
    }

    /// Mark the prompt as done.
    pub fn end_prompt(&mut self)
        ensures
            !final(self).active,
    {
        self.active = false;
    }
}

/// Whether a prompt is currently reading input; the key listener yields the
/// terminal while this holds.
pub fn is_prompting(gate: &PromptGate) -> (r: bool)
    ensures
        r == gate.active,
{
    gate.active
}

} // verus!
