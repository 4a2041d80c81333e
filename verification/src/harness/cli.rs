//! Choices made on the command line.

use crate::harness::model::OutcomeCategory;
use vstd::prelude::*;

verus! {

/// Controls which per-case outcome lines are printed during a live run.
#[derive(Debug, Clone, Copy, PartialEq, Eq, Structural)]
pub enum OutputMode {
    /// Print one outcome line for every completed case.
    All,
    /// Print outcome lines only for failures. This is the default.
    FailOnly,
    /// Do not print per-case outcome lines.
    Terse,
}

impl Default for OutputMode {
    fn default() -> (mode: Self)
        ensures
            mode == OutputMode::FailOnly,
    {
        OutputMode::FailOnly
    }
}

/// Command-line flags that select one [`OutputMode`].
#[derive(Debug, Clone, Copy, PartialEq, Eq, Structural)]
pub struct OutputModeArgs {
    /// Print one outcome line for every completed case.
    pub all: bool,
    /// Print outcome lines only for failures.
    pub fail_only: bool,
    /// Do not print per-case outcome lines.
    pub terse: bool,
}

impl OutputModeArgs {
    /// At most one flag is set.
    pub open spec fn exclusive(self) -> bool {
        !(self.all && self.fail_only) && !(self.all && self.terse) && !(self.fail_only
            && self.terse)
    }

    /// Returns whether at most one flag is set.
    pub fn is_exclusive(self) -> (answer: bool)
        ensures
            answer == self.exclusive(),
    {
        !(self.all && self.fail_only) && !(self.all && self.terse) && !(self.fail_only
            && self.terse)
    }

    /// Resolves the flags into one effective output mode.
    pub fn mode(self) -> (mode: OutputMode)
        ensures
            mode == OutputMode::All <==> self.all,
            mode == OutputMode::Terse <==> !self.all && self.terse,
            mode == OutputMode::FailOnly <==> !self.all && !self.terse,
    {
        if self.all {
            OutputMode::All
        } else if self.terse {
            OutputMode::Terse
        } else {
            OutputMode::FailOnly
        }
    }
}

impl Default for OutputModeArgs {
    fn default() -> (args: Self)
        ensures
            !args.all && !args.fail_only && !args.terse,
    {
        OutputModeArgs { all: false, fail_only: false, terse: false }
    }
}

/// Returns whether one completed case should be printed immediately.
pub fn should_print_outcome(output_mode: OutputMode, category: OutcomeCategory) -> (answer: bool)
    ensures
        answer == match output_mode {
            OutputMode::All => true,
            OutputMode::FailOnly => category.fails(),
            OutputMode::Terse => false,
        },
        output_mode == OutputMode::FailOnly ==> answer == (category != OutcomeCategory::Pass
            && category != OutcomeCategory::NoOracle),
{
    match output_mode {
        OutputMode::All => true,
        OutputMode::FailOnly => category.is_failure(),
        OutputMode::Terse => false,
    }
}

} // verus!
