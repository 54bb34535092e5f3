//! Read-only plan output. Nothing here is a business success receipt.
use vstd::prelude::*;
use crate::hfsm::error::SnapshotError;
use crate::hfsm::ids::{ActionId, ActivationSeq, GuardId, StateId, TransitionId};
use crate::hfsm::snapshot::{ActiveState, SnapshotHeader};

verus! {

#[derive(Clone, Copy, Debug, PartialEq, Eq, Structural)]
pub enum ItemError {
    StaleDelivery,
    LifecycleViolation,
    UnknownEvent,
    GuardMissing { guard: GuardId },
    GuardFrameInvalid,
    MachineKeyMismatch,
    InvalidSnapshot(SnapshotError),
    CounterOverflow,
}

#[derive(Clone, Copy, Debug, PartialEq, Eq, Structural)]
pub enum Outcome {
    /// Filler for caller-owned buffers; `evaluate_batch` never produces it.
    NotEvaluated,
    Started,
    Transitioned { transition: TransitionId },
    Unhandled,
    Stopped,
    Rejected(ItemError),
}

#[derive(Clone, Copy, Debug, PartialEq, Eq, Structural)]
pub enum ActionPhase {
    Exit,
    Transition,
    Enter,
}

#[derive(Clone, Copy, Debug, PartialEq, Eq, Structural)]
pub struct ActionRecord {
    pub item_index: u32,
    /// 0-based position within the item's plan.
    pub ordinal: u32,
    pub phase: ActionPhase,
    pub action: ActionId,
    /// Exit: exited state (old seq). Enter: entered state (new seq). Transition: declared source (old seq).
    pub state: StateId,
    pub activation_seq: ActivationSeq,
}

impl ActionRecord {
    pub open spec fn spec_empty() -> ActionRecord {
        ActionRecord {
            item_index: 0,
            ordinal: 0,
            phase: ActionPhase::Exit,
            action: ActionId(0),
            state: StateId(0),
            activation_seq: ActivationSeq(0),
        }
    }

    /// Filler for caller-owned buffers.
    pub fn empty() -> (r: Self)
        ensures
            r == Self::spec_empty(),
    {
        ActionRecord {
            item_index: 0,
            ordinal: 0,
            phase: ActionPhase::Exit,
            action: ActionId(0),
            state: StateId(0),
            activation_seq: ActivationSeq(0),
        }
    }
}

#[derive(Clone, Copy, Debug, PartialEq, Eq, Structural)]
pub struct ItemPlan {
    pub outcome: Outcome,
    /// `None` when rejected.
    pub next: Option<SnapshotHeader>,
    pub path_start: u32,
    pub path_len: u32,
    pub action_start: u32,
    pub action_len: u32,
}

impl ItemPlan {
    pub open spec fn spec_empty() -> ItemPlan {
        ItemPlan { outcome: Outcome::NotEvaluated, next: None, path_start: 0, path_len: 0, action_start: 0, action_len: 0 }
    }

    /// Filler for caller-owned buffers.
    pub fn empty() -> (r: Self)
        ensures
            r == Self::spec_empty(),
    {
        ItemPlan { outcome: Outcome::NotEvaluated, next: None, path_start: 0, path_len: 0, action_start: 0, action_len: 0 }
    }
}

/// Caller-owned output slices. On `BufferTooSmall` none of them is touched.
pub struct PlanOutput<'a> {
    pub items: &'a mut [ItemPlan],
    pub paths: &'a mut [ActiveState],
    pub actions: &'a mut [ActionRecord],
}

#[derive(Clone, Copy, Debug, PartialEq, Eq, Structural)]
pub struct BatchStatus {
    pub items_written: u32,
    pub paths_written: u32,
    pub actions_written: u32,
}

} // verus!
