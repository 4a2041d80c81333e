//! Identifiers and records of the assertion stack.

use crate::lower::nodes::LowerFormulaId;
use vstd::prelude::*;

verus! {

/// Stable identifier for one push/pop frame in the solver stack.
#[derive(Debug, Clone, Copy, PartialEq, Eq, Hash, PartialOrd, Ord, Structural)]
pub struct FrameId(pub u32);

/// Stable identifier for one asserted top-level formula.
#[derive(Debug, Clone, Copy, PartialEq, Eq, Hash, PartialOrd, Ord, Structural)]
pub struct AssertedFormulaId(pub u32);

/// Stable identifier for one frame-scoped activation literal above the backend.
///
/// Each pushed frame receives one activation. Assertions recorded while that frame is current are
/// guarded by the corresponding backend variable, and `check-sat` enables the currently active frames
/// through assumptions.
#[derive(Debug, Clone, Copy, PartialEq, Eq, Hash, PartialOrd, Ord, Structural)]
pub struct ActivationLiteral(pub u32);

/// One top-level asserted formula recorded by the solver.
#[derive(Debug, Clone, Copy, PartialEq, Eq, Structural)]
pub struct AssertedFormula {
    /// Monotonic identifier assigned when the formula enters the assertion stack.
    pub id: AssertedFormulaId,
    /// Persistent lowered formula held across repeated `check-sat` calls.
    pub formula: LowerFormulaId,
    /// Activation guard controlling whether the assertion is currently in scope.
    pub activation: Option<ActivationLiteral>,
}

/// Snapshot of one incremental frame.
#[derive(Debug, Clone, Copy, PartialEq, Eq, Structural)]
pub struct Frame {
    /// Monotonic frame identifier.
    pub id: FrameId,
    /// Activation-literal identifier associated with this frame.
    pub activation: ActivationLiteral,
    /// Number of asserted formulas retained when this frame was pushed; `pop` restores this prefix.
    pub asserted_len: usize,
}

} // verus!
