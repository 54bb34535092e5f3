//! Error vocabulary of the state-machine calculator.
use vstd::prelude::*;
use crate::kernel::error::ErrorCategory;
use crate::hfsm::ids::{MachineKey, StateId, TransitionId};

verus! {

#[derive(Clone, Copy, Debug, PartialEq, Eq, Structural)]
pub enum CompileErrorKind {
    LimitsInvalid,
    FormatVersionUnsupported { found: u32 },
    EmptyDefinition,
    DuplicateStateId,
    DuplicateTransitionId,
    UnknownState { referenced: StateId },
    RootInitialNotTopLevel,
    InitialNotDirectChild,
    CompositeWithoutInitial,
    LeafWithInitial,
    StructuralCycle,
    DepthExceeded { depth: u32, max: u32 },
    StateCountExceeded { count: u32, max: u32 },
    TransitionCountExceeded { count: u32, max: u32 },
    DuplicatePriority { other: TransitionId },
    UnreachableTransition { shadowed_by: TransitionId },
    LocalTargetNotStrictDescendant,
    ActionsPerPlanExceeded { required: u32, max: u32 },
}

/// Compile failure located to a state and/or transition.
#[derive(Clone, Copy, Debug, PartialEq, Eq, Structural)]
pub struct CompileError {
    pub kind: CompileErrorKind,
    pub state: Option<StateId>,
    pub transition: Option<TransitionId>,
}

pub open spec fn cerr(kind: CompileErrorKind) -> CompileError {
    CompileError { kind, state: None, transition: None }
}

pub open spec fn cerr_state(kind: CompileErrorKind, state: StateId) -> CompileError {
    CompileError { kind, state: Some(state), transition: None }
}

pub open spec fn cerr_transition(kind: CompileErrorKind, transition: TransitionId) -> CompileError {
    CompileError { kind, state: None, transition: Some(transition) }
}

impl CompileError {
    pub(crate) fn new(kind: CompileErrorKind) -> (e: Self)
        ensures
            e == cerr(kind),
    {
        CompileError { kind, state: None, transition: None }
    }

    pub(crate) fn at_state(kind: CompileErrorKind, state: StateId) -> (e: Self)
        ensures
            e == cerr_state(kind, state),
    {
        CompileError { kind, state: Some(state), transition: None }
    }

    pub(crate) fn at_transition(kind: CompileErrorKind, transition: TransitionId) -> (e: Self)
        ensures
            e == cerr_transition(kind, transition),
    {
        CompileError { kind, state: None, transition: Some(transition) }
    }
}

#[derive(Clone, Copy, Debug, PartialEq, Eq, Structural)]
pub enum SnapshotError {
    FingerprintMismatch,
    LifecycleMismatch,
    PathTooDeep,
    UnknownState { state: StateId },
    PathNotChain { index: u32 },
    PathNotEndingAtLeaf,
    ActivationSeqInvalid { index: u32 },
    CounterOverflow,
}

/// Batch-level failure: nothing is written when one of these is returned.
#[derive(Clone, Copy, Debug, PartialEq, Eq, Structural)]
pub enum HfsmError {
    Compile(CompileError),
    /// Kernel handle / context failure category (WrongContext, InvalidHandle, ContextDestroyed ...).
    Handle(ErrorCategory),
    LimitsInvalid,
    BatchTooLarge { len: u32, max: u32 },
    DuplicateMachineInBatch { key: MachineKey },
    BufferTooSmall { required_items: u32, required_paths: u32, required_actions: u32 },
}

impl From<CompileError> for HfsmError {
    fn from(e: CompileError) -> (r: Self) {
        HfsmError::Compile(e)
    }
}

impl vstd::std_specs::convert::FromSpecImpl<CompileError> for HfsmError {
    open spec fn obeys_from_spec() -> bool {
        true
    }

    open spec fn from_spec(e: CompileError) -> HfsmError {
        HfsmError::Compile(e)
    }
}

pub type HfsmResult<T> = Result<T, HfsmError>;

} // verus!
