//! Conversions and diagnostics for the net's node and error types.

use vstd::prelude::*;

use crate::petri_net::petri_net::{Node, PetriError, Place, Transition};

verus! {

impl PetriError {
    /// A human-readable description of the error.
    pub fn description(&self) -> (r: &'static str) {
        match self {
            PetriError::BipartitionViolation => "Edges cannot lead to identical node kinds. They are only allowed from places to transitions or vice versa",
            PetriError::PlaceNotFound => "There is no corresponding place in the internal representation",
            PetriError::TransitionNotFound => "There is no corresponding transition in the internal representation",
            PetriError::ActiveBlockMissing => "A terminator was lowered before any basic block was activated",
            PetriError::BlockNotFound => "A basic-block id lies outside the function body",
            PetriError::LocalNotFound => "A local index lies outside the frame's virtual memory",
            PetriError::StaticNotFound => "A promoted-constant index has no place",
            PetriError::LifecyclePlaceMissing => "A storage statement touched a slot without lifecycle places",
            PetriError::IndirectCall => "Function pointers are not supported",
            PetriError::FunctionNotFound => "A function id lies outside the program",
            PetriError::UnrecognisedDiverging => "A diverging foreign callee outside the recognised catalogue",
            PetriError::MutexNotFound => "A mutex primitive was invoked on a slot with no linked mutex",
            PetriError::TryLockUnsupported => "try_lock has no defined net semantics",
            PetriError::UnrecognisedPrimitive => "A recognised primitive has no dedicated builder",
            PetriError::RecursionLimit => "The call chain exceeded the fixed inlining bound",
            PetriError::DivergingCall => "A call of a recursive callee carries no destination",
        }
    }
}

impl From<Place> for Node {
    fn from(place: Place) -> (r: Self)
        ensures
            r == Node::Place(place),
    {
        Node::Place(place)
    }
}

impl vstd::std_specs::convert::FromSpecImpl<Place> for Node {
    open spec fn obeys_from_spec() -> bool {
        true
    }

    open spec fn from_spec(place: Place) -> Self {
        Node::Place(place)
    }
}

impl From<Transition> for Node {
    fn from(transition: Transition) -> (r: Self)
        ensures
            r == Node::Transition(transition),
    {
        Node::Transition(transition)
    }
}

impl vstd::std_specs::convert::FromSpecImpl<Transition> for Node {
    open spec fn obeys_from_spec() -> bool {
        true
    }

    open spec fn from_spec(transition: Transition) -> Self {
        Node::Transition(transition)
    }
}

} // verus!
