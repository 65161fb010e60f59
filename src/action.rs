use vstd::prelude::*;

verus! {

/// A request that a panel hands up to whatever owns the set of panels.
#[derive(Clone, Copy, Debug, PartialEq, Eq, Structural)]
pub enum Action {
    /// Give keyboard focus to the next panel.
    SwitchFocusForward,
    /// Give keyboard focus to the previous panel.
    SwitchFocusBackward,
}

} // verus!
