//! Host-owned instance state. The calculator only reads and validates it.
use vstd::prelude::*;
use crate::hfsm::compile::{
    CompiledDefinition, SNode, has_id, idx_of, initial_in, lemma_idx_of, max_depth_of, parent_in,
    def_fingerprint, unique_ids,
};
use crate::hfsm::error::SnapshotError;
use crate::hfsm::ids::{ActivationSeq, Lifecycle, MachineEpoch, MachineKey, StateId, StepSeq};
use crate::hfsm::order::{first_where, lemma_first_where_is};
use crate::hfsm::plan::ItemPlan;

verus! {

#[derive(Clone, Copy, Debug, PartialEq, Eq, Structural)]
pub struct ActiveState {
    pub state: StateId,
    pub activation_seq: ActivationSeq,
}

impl ActiveState {
    pub open spec fn spec_empty() -> ActiveState {
        ActiveState { state: StateId(0), activation_seq: ActivationSeq(0) }
    }

    /// Filler for caller-owned output buffers; never a valid path element.
    pub fn empty() -> (r: Self)
        ensures
            r == Self::spec_empty(),
    {
        ActiveState { state: StateId(0), activation_seq: ActivationSeq(0) }
    }
}

/// Everything in a [`Snapshot`] except the path; written per item into `ItemPlan::next`.
#[derive(Clone, Copy, Debug, PartialEq, Eq, Structural)]
pub struct SnapshotHeader {
    pub fingerprint: u64,
    pub machine_key: MachineKey,
    pub epoch: MachineEpoch,
    pub step_seq: StepSeq,
    pub next_activation_seq: ActivationSeq,
    pub lifecycle: Lifecycle,
}

#[derive(Clone, Debug, PartialEq, Eq)]
pub struct Snapshot {
    pub fingerprint: u64,
    pub machine_key: MachineKey,
    pub epoch: MachineEpoch,
    pub step_seq: StepSeq,
    pub next_activation_seq: ActivationSeq,
    pub lifecycle: Lifecycle,
    /// Top-level to leaf, excluding the synthetic root. Empty unless `Running`.
    pub active_path: Vec<ActiveState>,
}

pub open spec fn header_of(s: Snapshot) -> SnapshotHeader {
    SnapshotHeader {
        fingerprint: s.fingerprint,
        machine_key: s.machine_key,
        epoch: s.epoch,
        step_seq: s.step_seq,
        next_activation_seq: s.next_activation_seq,
        lifecycle: s.lifecycle,
    }
}

/// Expected parent of path element `i`.
pub open spec fn path_prev(path: Seq<ActiveState>, i: int) -> Option<StateId> {
    if i == 0 {
        None
    } else {
        Some(path[i - 1].state)
    }
}

pub open spec fn elem_bad(ss: Seq<SNode>, path: Seq<ActiveState>, next: ActivationSeq, i: int) -> bool {
    ||| !has_id(ss, path[i].state)
    ||| parent_in(ss, path[i].state) != path_prev(path, i)
    ||| path[i].activation_seq.0 == 0
    ||| path[i].activation_seq.0 >= next.0
}

pub open spec fn elem_err(ss: Seq<SNode>, path: Seq<ActiveState>, next: ActivationSeq, i: int) -> SnapshotError {
    if !has_id(ss, path[i].state) {
        SnapshotError::UnknownState { state: path[i].state }
    } else if parent_in(ss, path[i].state) != path_prev(path, i) {
        SnapshotError::PathNotChain { index: i as u32 }
    } else {
        SnapshotError::ActivationSeqInvalid { index: i as u32 }
    }
}

pub open spec fn elem_pred(ss: Seq<SNode>, path: Seq<ActiveState>, next: ActivationSeq) -> spec_fn(int) -> bool {
    |i: int| elem_bad(ss, path, next, i)
}

/// First defect of `s` against `def`, in the order they are checked.
pub open spec fn snapshot_failure(s: Snapshot, def: CompiledDefinition) -> Option<SnapshotError> {
    let ss = def.spec_states();
    let path = s.active_path@;
    let f = first_where(path.len(), elem_pred(ss, path, s.next_activation_seq));
    if s.fingerprint != def_fingerprint(def) {
        Some(SnapshotError::FingerprintMismatch)
    } else if (s.lifecycle == Lifecycle::Running) != (path.len() > 0) {
        Some(SnapshotError::LifecycleMismatch)
    } else if path.len() as u32 > max_depth_of(ss) {
        Some(SnapshotError::PathTooDeep)
    } else if f < path.len() {
        Some(elem_err(ss, path, s.next_activation_seq, f as int))
    } else if path.len() > 0 && initial_in(ss, path.last().state) is Some {
        Some(SnapshotError::PathNotEndingAtLeaf)
    } else {
        None
    }
}

impl Snapshot {
    pub fn not_started(fingerprint: u64, machine_key: MachineKey) -> (s: Self)
        ensures
            s.fingerprint == fingerprint,
            s.machine_key == machine_key,
            s.epoch == MachineEpoch(0),
            s.step_seq == StepSeq(0),
            s.next_activation_seq == ActivationSeq(1),
            s.lifecycle == Lifecycle::NotStarted,
            s.active_path@.len() == 0,
    {
        Snapshot {
            fingerprint,
            machine_key,
            epoch: MachineEpoch(0),
            step_seq: StepSeq(0),
            next_activation_seq: ActivationSeq(1),
            lifecycle: Lifecycle::NotStarted,
            active_path: Vec::new(),
        }
    }

    /// Rebuild the next snapshot from a plan and the batch path buffer. `None` for rejected
    /// items and for ranges outside `paths`.
    pub fn from_plan(plan: &ItemPlan, paths: &[ActiveState]) -> (r: Option<Self>)
        ensures
            r is Some <==> (plan.next is Some && plan.path_start + plan.path_len <= paths@.len()),
            r matches Some(s) ==> header_of(s) == plan.next->0 && s.active_path@ == paths@.subrange(
                plan.path_start as int,
                plan.path_start + plan.path_len,
            ),
    {
        let h = match plan.next {
            Some(h) => h,
            None => return None,
        };
        let start = plan.path_start as usize;
        let len = plan.path_len as usize;
        if start > paths.len() || len > paths.len() - start {
            return None;
        }
        let end = start + len;
        let mut active_path: Vec<ActiveState> = Vec::new();
        let mut i = start;
        while i < end
            invariant
                start <= i <= end <= paths@.len(),
                active_path@ == paths@.subrange(start as int, i as int),
            decreases end - i,
        {
            active_path.push(paths[i]);
            i = i + 1;
            assert(active_path@ =~= paths@.subrange(start as int, i as int));
        }
        Some(Snapshot {
            fingerprint: h.fingerprint,
            machine_key: h.machine_key,
            epoch: h.epoch,
            step_seq: h.step_seq,
            next_activation_seq: h.next_activation_seq,
            lifecycle: h.lifecycle,
            active_path,
        })
    }

    pub fn header(&self) -> (h: SnapshotHeader)
        ensures
            h == header_of(*self),
    {
        SnapshotHeader {
            fingerprint: self.fingerprint,
            machine_key: self.machine_key,
            epoch: self.epoch,
            step_seq: self.step_seq,
            next_activation_seq: self.next_activation_seq,
            lifecycle: self.lifecycle,
        }
    }

    pub fn leaf(&self) -> (r: Option<StateId>)
        ensures
            self.active_path@.len() == 0 ==> r is None,
            self.active_path@.len() > 0 ==> r == Some(self.active_path@.last().state),
    {
        let n = self.active_path.len();
        if n == 0 {
            None
        } else {
            Some(self.active_path[n - 1].state)
        }
    }

    /// Checks the snapshot against `def`; counter overflow is detected where counters grow.
    pub fn validate(&self, def: &CompiledDefinition) -> (r: Result<(), SnapshotError>)
        ensures
            match r {
                Ok(()) => snapshot_failure(*self, *def) is None,
                Err(e) => snapshot_failure(*self, *def) == Some(e),
            },
    {
        if self.fingerprint != def.fingerprint() {
            return Err(SnapshotError::FingerprintMismatch);
        }
        let running = self.lifecycle == Lifecycle::Running;
        let has_path = self.active_path.len() > 0;
        if running != has_path {
            return Err(SnapshotError::LifecycleMismatch);
        }
        if self.active_path.len() as u32 > def.max_depth() {
            return Err(SnapshotError::PathTooDeep);
        }
        let ghost ss = def.spec_states();
        let ghost path = self.active_path@;
        let ghost p = elem_pred(ss, path, self.next_activation_seq);
        let n = self.active_path.len();
        let mut prev: Option<StateId> = None;
        let mut i: usize = 0;
        while i < n
            invariant
                n == path.len(),
                path == self.active_path@,
                ss == def.spec_states(),
                p == elem_pred(ss, path, self.next_activation_seq),
                self.fingerprint == def_fingerprint(*def),
                (self.lifecycle == Lifecycle::Running) == (path.len() > 0),
                !(path.len() as u32 > max_depth_of(ss)),
                i <= n,
                prev == path_prev(path, i as int),
                forall|j: int| 0 <= j < i ==> !#[trigger] p(j),
            decreases n - i,
        {
            let a = self.active_path[i];
            if !def.contains(a.state) {
                proof {
                    lemma_first_where_is(n as nat, p, i as int);
                }
                return Err(SnapshotError::UnknownState { state: a.state });
            }
            if def.parent_of(a.state) != prev {
                proof {
                    assert(p(i as int));
                    lemma_first_where_is(n as nat, p, i as int);
                }
                return Err(SnapshotError::PathNotChain { index: i as u32 });
            }
            if a.activation_seq.0 == 0 || a.activation_seq.0 >= self.next_activation_seq.0 {
                proof {
                    assert(p(i as int));
                    lemma_first_where_is(n as nat, p, i as int);
                }
                return Err(SnapshotError::ActivationSeqInvalid { index: i as u32 });
            }
            assert(!p(i as int));
            prev = Some(a.state);
            i = i + 1;
        }
        proof {
            lemma_first_where_is(n as nat, p, n as int);
        }
        if let Some(leaf) = prev {
            if def.is_leaf(leaf) != Some(true) {
                return Err(SnapshotError::PathNotEndingAtLeaf);
            }
        }
        Ok(())
    }
}

} // verus!
