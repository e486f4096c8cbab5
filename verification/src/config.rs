//! The switch for explaining a run.

use vstd::prelude::*;

verus! {

/// Whether a scoring run is asked to explain itself. The choice is made
/// once, by `init`, and cannot be changed afterwards.
#[derive(Clone, Copy, PartialEq, Eq, Debug)]
pub struct ExplainMode {
    enabled: bool,
}

impl ExplainMode {
    /// The choice that was made.
    pub closed spec fn enabled(&self) -> bool {
        self.enabled
    }
}

/// Fixes the choice for a run.
pub fn init(explain: bool) -> (mode: ExplainMode)
    ensures
        mode.enabled() == explain,
{
    ExplainMode { enabled: explain }
}

/// Whether the run was asked to explain itself.
pub fn explain_enabled(mode: &ExplainMode) -> (enabled: bool)
    ensures
        enabled == mode.enabled(),
{
    mode.enabled
}

} // verus!
