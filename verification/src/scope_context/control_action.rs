use vstd::prelude::*;

verus! {

/// How control can leave a block of statements, as the scope-context analysis
/// tracks it (without a separate action for breaking the innermost loop).
#[derive(PartialEq, Eq, PartialOrd, Ord, Clone, Copy, Hash, Debug, Structural)]
pub enum ControlAction {
    End,
    Break,
    Continue,
    LeaveSwitch,
    Proceed,
    Return,
}

} // verus!
