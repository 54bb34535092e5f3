//! Stateless hierarchical finite-state-machine transition calculator.
//!
//! Input: an immutable compiled definition, a host-held snapshot, an event and the
//! host's guard results. Output: a read-only transition plan. The calculator holds no
//! instances, runs no business actions, calls nothing back and reads no clock.
pub mod ids;
pub mod guard;
pub mod definition;
pub mod error;
pub mod order;
pub mod compile;
pub mod fingerprint;
pub mod plan;
pub mod snapshot;
pub mod evaluate;
pub mod registry;
pub mod laws;
pub mod paths;

pub use compile::{CompiledDefinition, CompiledTransition, compile};
pub use definition::{DefinitionSpec, StateSpec, TransitionSpec};
pub use error::{CompileError, CompileErrorKind, HfsmError, HfsmResult, SnapshotError};
pub use evaluate::{BatchItem, DeliveryScope, ItemKind, Scratch, evaluate_batch};
pub use guard::{GuardFrame, GuardValue};
pub use ids::{
    ActionId, ActivationSeq, EventKind, GuardId, HfsmLimits, Lifecycle, MachineEpoch, MachineKey, StateId,
    StepSeq, TransitionId, TransitionKind,
};
pub use plan::{ActionPhase, ActionRecord, BatchStatus, ItemError, ItemPlan, Outcome, PlanOutput};
pub use registry::{DefinitionHandle, DefinitionInfo, HfsmDefinitionRegistry};
pub use snapshot::{ActiveState, Snapshot, SnapshotHeader};

use vstd::prelude::*;

verus! {

/// Transition semantics version (part of the fingerprint encoding).
pub const SEMANTICS_VERSION: u32 = 1;

/// `DefinitionSpec` format version.
pub const FORMAT_VERSION: u32 = 1;

} // verus!
