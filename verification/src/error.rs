use vstd::prelude::*;

verus! {

/// The label was used, and no call of `add_state` has registered it.
#[derive(Debug, PartialEq, Eq)]
pub struct UnknownState<'a, S>(pub &'a S);

/// The label is registered already; a label names one state only. The label
/// that was turned away comes back in the error.
#[derive(Debug, PartialEq, Eq)]
pub struct DuplicateState<S>(pub S);

/// Matching or conversion was asked of an automaton before a start state
/// was chosen.
#[derive(Debug, Clone, Copy, PartialEq, Eq, Structural)]
pub struct NoStartState;

/// Why a deterministic automaton has refused an edge.
#[derive(Debug, PartialEq, Eq)]
pub enum TransitionError<'a, S, T> {
    /// The label of the source or of the target is not registered.
    UnknownState(&'a S),
    /// There is an edge for `symbol` that leaves the state `from` already.
    DuplicateTransition { symbol: T, from: &'a S },
}

} // verus!
