//! The stateless batch evaluator.
//!
//! Every item is computed into working memory first; caller buffers are written only
//! after the whole batch fits, so `BufferTooSmall` leaves them untouched.
use vstd::prelude::*;
use crate::hfsm::compile::{
    CompiledDefinition, CompiledTransition, SNode, TNode, ctnode, candidate_ids, event_known, group,
    has_id, has_tid, idx_of, init_chain, initial_in, key_of_pair, parent_in, required_for,
    def_fingerprint, strict_common_ancestor, tidx_of,
};
use crate::hfsm::error::{HfsmError, HfsmResult};
use crate::hfsm::guard::{GuardFrame, GuardValue, guard_value, guards_unique};
use crate::hfsm::ids::{
    ActionId, ActivationSeq, EventKind, GuardId, HfsmLimits, Lifecycle, MachineEpoch, MachineKey, StateId,
    StepSeq, TransitionKind,
};
use crate::hfsm::order::{first_where, lemma_first_where, lemma_first_where_is};
use crate::hfsm::plan::{ActionPhase, ActionRecord, BatchStatus, ItemError, ItemPlan, Outcome, PlanOutput};
use crate::hfsm::snapshot::{ActiveState, Snapshot, SnapshotHeader, header_of, snapshot_failure};

verus! {

#[derive(Clone, Copy, Debug, PartialEq, Eq, Structural)]
pub enum ItemKind {
    Start { epoch: MachineEpoch },
    Event { event: EventKind },
    Stop,
}

/// Token carried by an asynchronous completion; checked when it is consumed.
#[derive(Clone, Copy, Debug, PartialEq, Eq, Structural)]
pub struct DeliveryScope {
    pub state: StateId,
    pub activation_seq: ActivationSeq,
    pub epoch: MachineEpoch,
}

pub struct BatchItem<'a> {
    pub machine_key: MachineKey,
    pub definition: &'a CompiledDefinition,
    pub kind: ItemKind,
    /// May be `None` only for `Start`.
    pub snapshot: Option<&'a Snapshot>,
    pub guards: GuardFrame<'a>,
    /// Only consulted for `Event`.
    pub scope: Option<DeliveryScope>,
}

// ---------------------------------------------------------------------------------
// Action records.

pub open spec fn raw_rec(phase: ActionPhase, action: ActionId, state: StateId, seq: u64) -> ActionRecord {
    ActionRecord { item_index: 0, ordinal: 0, phase, action, state, activation_seq: ActivationSeq(seq) }
}

/// One record per action, all for `state` at activation `seq`.
pub open spec fn recs(phase: ActionPhase, state: StateId, seq: u64, acts: Seq<ActionId>) -> Seq<ActionRecord> {
    acts.map_values(|a: ActionId| raw_rec(phase, a, state, seq))
}

/// Records renumbered for item `index`, ordinals counted from `base`.
pub open spec fn number_from(raw: Seq<ActionRecord>, index: u32, base: int) -> Seq<ActionRecord> {
    Seq::new(
        raw.len(),
        |j: int| ActionRecord { item_index: index, ordinal: (base + j) as u32, ..raw[j] },
    )
}

pub open spec fn number(raw: Seq<ActionRecord>, index: u32) -> Seq<ActionRecord> {
    number_from(raw, index, 0)
}

pub open spec fn entry_of(ss: Seq<SNode>, id: StateId) -> Seq<ActionId> {
    if has_id(ss, id) {
        ss[idx_of(ss, id)].entry
    } else {
        Seq::empty()
    }
}

pub open spec fn exit_of(ss: Seq<SNode>, id: StateId) -> Seq<ActionId> {
    if has_id(ss, id) {
        ss[idx_of(ss, id)].exit
    } else {
        Seq::empty()
    }
}

/// `chain` entered with activations `base, base + 1, ...`.
pub open spec fn seq_path(chain: Seq<StateId>, base: u64) -> Seq<ActiveState> {
    Seq::new(chain.len(), |k: int| ActiveState { state: chain[k], activation_seq: ActivationSeq((base + k) as u64) })
}

pub open spec fn enter_recs(ss: Seq<SNode>, chain: Seq<StateId>, base: u64) -> Seq<ActionRecord>
    decreases chain.len(),
{
    if chain.len() == 0 {
        Seq::empty()
    } else {
        enter_recs(ss, chain.drop_last(), base) + recs(
            ActionPhase::Enter,
            chain.last(),
            (base + chain.len() - 1) as u64,
            entry_of(ss, chain.last()),
        )
    }
}

/// Exit records of `path[lo..hi]`, innermost first.
pub open spec fn exits_down(ss: Seq<SNode>, path: Seq<ActiveState>, lo: int, hi: int) -> Seq<ActionRecord>
    decreases hi - lo,
{
    if hi <= lo {
        Seq::empty()
    } else {
        recs(ActionPhase::Exit, path[hi - 1].state, path[hi - 1].activation_seq.0, exit_of(ss, path[hi - 1].state))
            + exits_down(ss, path, lo, hi - 1)
    }
}

/// `base + len` activations are still representable.
pub open spec fn seqs_fit(base: u64, len: nat) -> bool {
    base + len <= u64::MAX
}

// ---------------------------------------------------------------------------------
// One item.

/// What one item produces before it is placed in the batch buffers.
pub ghost struct ItemOut {
    pub outcome: Outcome,
    pub next: Option<SnapshotHeader>,
    pub path: Seq<ActiveState>,
    pub raw: Seq<ActionRecord>,
}

pub open spec fn rejected(e: ItemError) -> ItemOut {
    ItemOut { outcome: Outcome::Rejected(e), next: None, path: Seq::empty(), raw: Seq::empty() }
}

pub open spec fn admit_failure(item: BatchItem) -> Option<ItemError> {
    match item.snapshot {
        None => Some(ItemError::LifecycleViolation),
        Some(s) => if s.machine_key != item.machine_key {
            Some(ItemError::MachineKeyMismatch)
        } else {
            match snapshot_failure(*s, *item.definition) {
                Some(e) => Some(ItemError::InvalidSnapshot(e)),
                None => None,
            }
        },
    }
}

pub open spec fn start_chain(def: CompiledDefinition) -> Seq<StateId> {
    let ss = def.spec_states();
    seq![def.spec_root()] + init_chain(ss, def.spec_root(), ss.len())
}

pub open spec fn start_out(item: BatchItem, epoch: MachineEpoch) -> ItemOut {
    let def = *item.definition;
    let ss = def.spec_states();
    let chain = start_chain(def);
    let step: u64 = match item.snapshot {
        None => 0,
        Some(s) => s.step_seq.0,
    };
    let next: u64 = match item.snapshot {
        None => 1,
        Some(s) => s.next_activation_seq.0,
    };
    if item.snapshot is Some && admit_failure(item) is Some {
        rejected(admit_failure(item)->0)
    } else if item.snapshot is Some && item.snapshot->0.lifecycle == Lifecycle::Running {
        rejected(ItemError::LifecycleViolation)
    } else if step == u64::MAX {
        rejected(ItemError::CounterOverflow)
    } else if !seqs_fit(next, chain.len()) {
        rejected(ItemError::CounterOverflow)
    } else {
        ItemOut {
            outcome: Outcome::Started,
            next: Some(
                SnapshotHeader {
                    fingerprint: def_fingerprint(def),
                    machine_key: item.machine_key,
                    epoch,
                    step_seq: StepSeq((step + 1) as u64),
                    next_activation_seq: ActivationSeq((next + chain.len()) as u64),
                    lifecycle: Lifecycle::Running,
                },
            ),
            path: seq_path(chain, next),
            raw: enter_recs(ss, chain, next),
        }
    }
}

pub open spec fn stop_out(item: BatchItem) -> ItemOut {
    let def = *item.definition;
    let ss = def.spec_states();
    let s = *item.snapshot->0;
    let path = s.active_path@;
    if admit_failure(item) is Some {
        rejected(admit_failure(item)->0)
    } else if s.lifecycle != Lifecycle::Running {
        rejected(ItemError::LifecycleViolation)
    } else if s.step_seq.0 == u64::MAX {
        rejected(ItemError::CounterOverflow)
    } else {
        ItemOut {
            outcome: Outcome::Stopped,
            next: Some(
                SnapshotHeader {
                    step_seq: StepSeq((s.step_seq.0 + 1) as u64),
                    lifecycle: Lifecycle::Stopped,
                    ..header_of(s)
                },
            ),
            path: Seq::empty(),
            raw: exits_down(ss, path, 0, path.len() as int),
        }
    }
}

pub open spec fn on_path(path: Seq<ActiveState>, state: StateId, seq: ActivationSeq) -> bool {
    exists|i: int| 0 <= i < path.len() && path[i].state == state && path[i].activation_seq == seq
}

pub open spec fn scope_stale(s: Snapshot, scope: Option<DeliveryScope>) -> bool {
    match scope {
        None => false,
        Some(sc) => sc.epoch != s.epoch || !on_path(s.active_path@, sc.state, sc.activation_seq),
    }
}

pub open spec fn missing_pred(req: Seq<GuardId>, entries: Seq<(GuardId, bool)>) -> spec_fn(int) -> bool {
    |k: int| guard_value(entries, req[k]) == GuardValue::Missing
}

/// Outcome of scanning one candidate list.
pub ghost enum Pick {
    Found(int),
    Missing(GuardId),
    NotFound,
}

/// Candidates `l[k..]`: the first without a guard or with a true guard is taken; a
/// missing guard met first is an error.
pub open spec fn scan_candidates(ts: Seq<TNode>, l: Seq<int>, entries: Seq<(GuardId, bool)>, k: int) -> Pick
    decreases l.len() - k,
{
    if k >= l.len() || k < 0 {
        Pick::NotFound
    } else {
        match ts[l[k]].guard {
            None => Pick::Found(l[k]),
            Some(g) => match guard_value(entries, g) {
                GuardValue::True => Pick::Found(l[k]),
                GuardValue::False => scan_candidates(ts, l, entries, k + 1),
                GuardValue::Missing => Pick::Missing(g),
            },
        }
    }
}

/// Bubbling from path level `level - 1` towards the root.
pub open spec fn select_from(
    ts: Seq<TNode>,
    path: Seq<ActiveState>,
    e: EventKind,
    entries: Seq<(GuardId, bool)>,
    level: int,
) -> Result<Option<(int, int)>, ItemError>
    decreases level,
{
    if level <= 0 {
        Ok(None)
    } else {
        match scan_candidates(ts, group(ts, key_of_pair(path[level - 1].state, e)), entries, 0) {
            Pick::Found(ti) => Ok(Some((level - 1, ti))),
            Pick::Missing(g) => Err(ItemError::GuardMissing { guard: g }),
            Pick::NotFound => select_from(ts, path, e, entries, level - 1),
        }
    }
}

/// Ancestors of `x` strictly below `boundary`, outermost first, `x` included.
pub open spec fn anc_upto(ss: Seq<SNode>, x: Option<StateId>, boundary: Option<StateId>, fuel: nat) -> Seq<StateId>
    decreases fuel,
{
    match x {
        None => Seq::empty(),
        Some(s) => if fuel == 0 || Some(s) == boundary {
            Seq::empty()
        } else {
            anc_upto(ss, parent_in(ss, s), boundary, (fuel - 1) as nat).push(s)
        },
    }
}

pub open spec fn state_pred(path: Seq<ActiveState>, d: StateId) -> spec_fn(int) -> bool {
    |i: int| path[i].state == d
}

/// Path prefix kept by an external transition whose domain is `domain`.
pub open spec fn external_keep(path: Seq<ActiveState>, domain: Option<StateId>) -> int {
    match domain {
        None => 0,
        Some(d) => {
            let f = first_where(path.len(), state_pred(path, d));
            if f < path.len() {
                f as int + 1
            } else {
                0
            }
        },
    }
}

/// Exit above `keep`, record the transition, enter from `keep` down to `target` and
/// its initial chain.
pub open spec fn apply_out(
    ss: Seq<SNode>,
    s: Snapshot,
    header: SnapshotHeader,
    keep: int,
    source: ActiveState,
    t: TNode,
    target: StateId,
) -> ItemOut {
    let path = s.active_path@;
    let next = s.next_activation_seq.0;
    let boundary = if keep == 0 {
        None
    } else {
        Some(path[keep - 1].state)
    };
    let entered = anc_upto(ss, Some(target), boundary, ss.len()) + init_chain(ss, target, ss.len());
    if !seqs_fit(next, entered.len()) {
        rejected(ItemError::CounterOverflow)
    } else {
        ItemOut {
            outcome: Outcome::Transitioned { transition: t.id },
            next: Some(SnapshotHeader { next_activation_seq: ActivationSeq((next + entered.len()) as u64), ..header }),
            path: path.subrange(0, keep) + seq_path(entered, next),
            raw: exits_down(ss, path, keep, path.len() as int) + recs(
                ActionPhase::Transition,
                source.state,
                source.activation_seq.0,
                t.actions,
            ) + enter_recs(ss, entered, next),
        }
    }
}

pub open spec fn event_out(item: BatchItem, e: EventKind) -> ItemOut {
    let def = *item.definition;
    let ss = def.spec_states();
    let ts = def.spec_transitions();
    let s = *item.snapshot->0;
    let path = s.active_path@;
    let entries = item.guards.view_entries();
    let leaf = path.last().state;
    let req = required_for(ss, ts, leaf, e);
    let fm = first_where(req.len(), missing_pred(req, entries));
    let header = SnapshotHeader { step_seq: StepSeq((s.step_seq.0 + 1) as u64), ..header_of(s) };
    if admit_failure(item) is Some {
        rejected(admit_failure(item)->0)
    } else if s.lifecycle != Lifecycle::Running {
        rejected(ItemError::LifecycleViolation)
    } else if scope_stale(s, item.scope) {
        rejected(ItemError::StaleDelivery)
    } else if !event_known(ts, e) {
        rejected(ItemError::UnknownEvent)
    } else if !guards_unique(entries) {
        rejected(ItemError::GuardFrameInvalid)
    } else if path.len() == 0 {
        rejected(ItemError::LifecycleViolation)
    } else if fm < req.len() {
        rejected(ItemError::GuardMissing { guard: req[fm as int] })
    } else if s.step_seq.0 == u64::MAX {
        rejected(ItemError::CounterOverflow)
    } else {
        match select_from(ts, path, e, entries, path.len() as int) {
            Err(err) => rejected(err),
            Ok(None) => ItemOut { outcome: Outcome::Unhandled, next: Some(header), path, raw: Seq::empty() },
            Ok(Some((level, ti))) => {
                let t = ts[ti];
                let source = path[level];
                match t.kind {
                    TransitionKind::Internal => ItemOut {
                        outcome: Outcome::Transitioned { transition: t.id },
                        next: Some(header),
                        path,
                        raw: recs(ActionPhase::Transition, source.state, source.activation_seq.0, t.actions),
                    },
                    TransitionKind::Local { target } => apply_out(ss, s, header, level + 1, source, t, target),
                    TransitionKind::External { target } => apply_out(
                        ss,
                        s,
                        header,
                        external_keep(path, strict_common_ancestor(ss, t.source, target)),
                        source,
                        t,
                        target,
                    ),
                }
            },
        }
    }
}

/// What evaluating `item` produces.
pub open spec fn item_out(item: BatchItem) -> ItemOut {
    match item.kind {
        ItemKind::Start { epoch } => start_out(item, epoch),
        ItemKind::Event { event } => event_out(item, event),
        ItemKind::Stop => stop_out(item),
    }
}


// ---------------------------------------------------------------------------------
// Executable evaluation of one item.

/// One item's plan before it is placed in the batch buffers.
pub(crate) struct ItemExec {
    pub(crate) outcome: Outcome,
    pub(crate) next: Option<SnapshotHeader>,
    pub(crate) path: Vec<ActiveState>,
    pub(crate) actions: Vec<ActionRecord>,
}

pub(crate) open spec fn exec_matches(r: ItemExec, o: ItemOut, index: u32) -> bool {
    &&& r.outcome == o.outcome
    &&& r.next == o.next
    &&& r.path@ == o.path
    &&& r.actions@ == number(o.raw, index)
}

fn reject_exec(e: ItemError) -> (r: ItemExec)
    ensures
        forall|index: u32| exec_matches(r, rejected(e), index),
{
    let r = ItemExec { outcome: Outcome::Rejected(e), next: None, path: Vec::new(), actions: Vec::new() };
    assert forall|index: u32| exec_matches(r, rejected(e), index) by {
        assert(number(Seq::<ActionRecord>::empty(), index) =~= Seq::<ActionRecord>::empty());
    }
    r
}

/// Appends the records of `acts` to `out`, numbered for item `index`.
fn push_recs(
    out: &mut Vec<ActionRecord>,
    index: u32,
    phase: ActionPhase,
    state: StateId,
    seq: ActivationSeq,
    acts: &[ActionId],
    Ghost(raw): Ghost<Seq<ActionRecord>>,
)
    requires
        old(out)@ == number(raw, index),
    ensures
        final(out)@ == number(raw + recs(phase, state, seq.0, acts@), index),
{
    let ghost r = recs(phase, state, seq.0, acts@);
    let mut i: usize = 0;
    while i < acts.len()
        invariant
            i <= acts@.len(),
            r == recs(phase, state, seq.0, acts@),
            out@ == number(raw + r.take(i as int), index),
        decreases acts@.len() - i,
    {
        let ghost before = raw + r.take(i as int);
        let ordinal = out.len() as u32;
        out.push(ActionRecord { item_index: index, ordinal, phase, action: acts[i], state, activation_seq: seq });
        proof {
            assert(raw + r.take(i as int + 1) =~= before.push(r[i as int]));
            assert(number(before.push(r[i as int]), index) =~= number(before, index).push(
                ActionRecord { item_index: index, ordinal: before.len() as u32, ..r[i as int] },
            ));
        }
        i = i + 1;
    }
    assert(r.take(acts@.len() as int) =~= r);
}

/// Shared admission for items that carry a snapshot.
fn admission<'a>(item: &BatchItem<'a>) -> (r: Result<&'a Snapshot, ItemError>)
    ensures
        match r {
            Ok(s) => admit_failure(*item) is None && item.snapshot == Some(s),
            Err(e) => admit_failure(*item) == Some(e),
        },
{
    let s = match item.snapshot {
        Some(s) => s,
        None => return Err(ItemError::LifecycleViolation),
    };
    if s.machine_key != item.machine_key {
        return Err(ItemError::MachineKeyMismatch);
    }
    match s.validate(item.definition) {
        Err(e) => Err(ItemError::InvalidSnapshot(e)),
        Ok(()) => Ok(s),
    }
}

/// Enters `chain` with fresh activations from `next`; the caller checked they fit.
fn enter_all(
    def: &CompiledDefinition,
    chain: &Vec<StateId>,
    next: u64,
    index: u32,
    path: &mut Vec<ActiveState>,
    actions: &mut Vec<ActionRecord>,
    Ghost(p0): Ghost<Seq<ActiveState>>,
    Ghost(raw): Ghost<Seq<ActionRecord>>,
)
    requires
        seqs_fit(next, chain@.len()),
        old(path)@ == p0,
        old(actions)@ == number(raw, index),
    ensures
        final(path)@ == p0 + seq_path(chain@, next),
        final(actions)@ == number(raw + enter_recs(def.spec_states(), chain@, next), index),
{
    let ghost ss = def.spec_states();
    let mut k: usize = 0;
    while k < chain.len()
        invariant
            ss == def.spec_states(),
            seqs_fit(next, chain@.len()),
            k <= chain@.len(),
            path@ == p0 + seq_path(chain@.take(k as int), next),
            actions@ == number(raw + enter_recs(ss, chain@.take(k as int), next), index),
        decreases chain@.len() - k,
    {
        let st = chain[k];
        let seq = ActivationSeq(next + k as u64);
        let ghost rk = raw + enter_recs(ss, chain@.take(k as int), next);
        path.push(ActiveState { state: st, activation_seq: seq });
        let acts = def.entry_actions(st);
        push_recs(actions, index, ActionPhase::Enter, st, seq, acts, Ghost(rk));
        proof {
            let c1 = chain@.take(k as int + 1);
            assert(c1.drop_last() =~= chain@.take(k as int));
            assert(c1.last() == st);
            assert(acts@ == entry_of(ss, st));
            assert(rk + recs(ActionPhase::Enter, st, seq.0, acts@) =~= raw + enter_recs(ss, c1, next));
            assert(path@ =~= p0 + seq_path(c1, next));
        }
        k = k + 1;
    }
    assert(chain@.take(chain@.len() as int) =~= chain@);
}

/// Exit records for `path[lo..hi]`, innermost first.
fn exit_range(
    def: &CompiledDefinition,
    path: &Vec<ActiveState>,
    lo: usize,
    hi: usize,
    index: u32,
    actions: &mut Vec<ActionRecord>,
    Ghost(raw): Ghost<Seq<ActionRecord>>,
)
    requires
        lo <= hi <= path@.len(),
        old(actions)@ == number(raw, index),
    ensures
        final(actions)@ == number(raw + exits_down(def.spec_states(), path@, lo as int, hi as int), index),
{
    let ghost ss = def.spec_states();
    let mut i = hi;
    assert(raw + exits_down(ss, path@, hi as int, hi as int) =~= raw);
    while i > lo
        invariant
            ss == def.spec_states(),
            lo <= i <= hi <= path@.len(),
            actions@ == number(raw + exits_down(ss, path@, i as int, hi as int), index),
        decreases i - lo,
    {
        let a = path[i - 1];
        let ghost ri = raw + exits_down(ss, path@, i as int, hi as int);
        let acts = def.exit_actions(a.state);
        push_recs(actions, index, ActionPhase::Exit, a.state, a.activation_seq, acts, Ghost(ri));
        proof {
            lemma_exits_down_front(ss, path@, (i - 1) as int, hi as int);
            assert(acts@ == exit_of(ss, a.state));
            assert(ri + recs(ActionPhase::Exit, a.state, a.activation_seq.0, acts@) =~= raw + exits_down(ss, path@, i - 1, hi as int));
        }
        i = i - 1;
    }
}

/// Peeling the outermost state of an exit range appends its records last.
proof fn lemma_exits_down_front(ss: Seq<SNode>, path: Seq<ActiveState>, lo: int, hi: int)
    requires
        0 <= lo < hi <= path.len(),
    ensures
        exits_down(ss, path, lo, hi) == exits_down(ss, path, lo + 1, hi) + recs(
            ActionPhase::Exit,
            path[lo].state,
            path[lo].activation_seq.0,
            exit_of(ss, path[lo].state),
        ),
    decreases hi - lo,
{
    if hi == lo + 1 {
        assert(exits_down(ss, path, lo + 1, hi) =~= Seq::<ActionRecord>::empty());
        assert(exits_down(ss, path, lo, hi - 1) =~= Seq::<ActionRecord>::empty());
        assert(exits_down(ss, path, lo, hi) =~= recs(
            ActionPhase::Exit,
            path[lo].state,
            path[lo].activation_seq.0,
            exit_of(ss, path[lo].state),
        ));
    } else {
        lemma_exits_down_front(ss, path, lo, hi - 1);
        let top = recs(
            ActionPhase::Exit,
            path[hi - 1].state,
            path[hi - 1].activation_seq.0,
            exit_of(ss, path[hi - 1].state),
        );
        let bot = recs(ActionPhase::Exit, path[lo].state, path[lo].activation_seq.0, exit_of(ss, path[lo].state));
        assert(exits_down(ss, path, lo, hi) == top + exits_down(ss, path, lo, hi - 1));
        assert(exits_down(ss, path, lo + 1, hi) == top + exits_down(ss, path, lo + 1, hi - 1));
        assert(top + (exits_down(ss, path, lo + 1, hi - 1) + bot) =~= (top + exits_down(ss, path, lo + 1, hi - 1)) + bot);
    }
}

fn start_item(index: u32, item: &BatchItem<'_>, epoch: MachineEpoch) -> (r: ItemExec)
    ensures
        exec_matches(r, start_out(*item, epoch), index),
{
    let def = item.definition;
    proof {
        use_type_invariant(def);
        def.lemma_facts();
    }
    let (step, next) = match item.snapshot {
        None => (0u64, 1u64),
        Some(_) => {
            let s = match admission(item) {
                Ok(s) => s,
                Err(e) => return reject_exec(e),
            };
            if s.lifecycle == Lifecycle::Running {
                return reject_exec(ItemError::LifecycleViolation);
            }
            (s.step_seq.0, s.next_activation_seq.0)
        },
    };
    if step == u64::MAX {
        return reject_exec(ItemError::CounterOverflow);
    }
    let root = def.root_initial();
    let mut chain: Vec<StateId> = Vec::new();
    chain.push(root);
    let mut rest = def.initial_chain(root);
    chain.append(&mut rest);
    assert(chain@ =~= start_chain(*def));
    if chain.len() as u64 > u64::MAX - next {
        return reject_exec(ItemError::CounterOverflow);
    }
    let mut path: Vec<ActiveState> = Vec::new();
    let mut actions: Vec<ActionRecord> = Vec::new();
    assert(actions@ =~= number(Seq::<ActionRecord>::empty(), index));
    enter_all(def, &chain, next, index, &mut path, &mut actions, Ghost(Seq::empty()), Ghost(Seq::empty()));
    proof {
        assert(Seq::<ActiveState>::empty() + seq_path(chain@, next) =~= seq_path(chain@, next));
        assert(Seq::<ActionRecord>::empty() + enter_recs(def.spec_states(), chain@, next) =~= enter_recs(
            def.spec_states(),
            chain@,
            next,
        ));
    }
    ItemExec {
        outcome: Outcome::Started,
        next: Some(
            SnapshotHeader {
                fingerprint: def.fingerprint(),
                machine_key: item.machine_key,
                epoch,
                step_seq: StepSeq(step + 1),
                next_activation_seq: ActivationSeq(next + chain.len() as u64),
                lifecycle: Lifecycle::Running,
            },
        ),
        path,
        actions,
    }
}

fn stop_item(index: u32, item: &BatchItem<'_>) -> (r: ItemExec)
    ensures
        exec_matches(r, stop_out(*item), index),
{
    let def = item.definition;
    let s = match admission(item) {
        Ok(s) => s,
        Err(e) => return reject_exec(e),
    };
    if s.lifecycle != Lifecycle::Running {
        return reject_exec(ItemError::LifecycleViolation);
    }
    if s.step_seq.0 == u64::MAX {
        return reject_exec(ItemError::CounterOverflow);
    }
    let mut actions: Vec<ActionRecord> = Vec::new();
    assert(actions@ =~= number(Seq::<ActionRecord>::empty(), index));
    exit_range(def, &s.active_path, 0, s.active_path.len(), index, &mut actions, Ghost(Seq::empty()));
    assert(Seq::<ActionRecord>::empty() + exits_down(def.spec_states(), s.active_path@, 0, s.active_path@.len() as int)
        =~= exits_down(def.spec_states(), s.active_path@, 0, s.active_path@.len() as int));
    let mut header = s.header();
    header.step_seq = StepSeq(s.step_seq.0 + 1);
    header.lifecycle = Lifecycle::Stopped;
    ItemExec { outcome: Outcome::Stopped, next: Some(header), path: Vec::new(), actions }
}


/// Bubbles from the leaf; the level and transition of the first selected candidate.
fn select<'d>(
    def: &'d CompiledDefinition,
    path: &Vec<ActiveState>,
    e: EventKind,
    guards: &GuardFrame<'_>,
) -> (r: Result<Option<(usize, &'d CompiledTransition)>, ItemError>)
    ensures
        match r {
            Err(err) => select_from(def.spec_transitions(), path@, e, guards.view_entries(), path@.len() as int) == Err::<
                Option<(int, int)>,
                ItemError,
            >(err),
            Ok(None) => select_from(def.spec_transitions(), path@, e, guards.view_entries(), path@.len() as int) == Ok::<
                Option<(int, int)>,
                ItemError,
            >(None),
            Ok(Some((lv, t))) => lv < path@.len() && exists|ti: int|
                select_from(def.spec_transitions(), path@, e, guards.view_entries(), path@.len() as int) == Ok::<
                    Option<(int, int)>,
                    ItemError,
                >(Some((lv as int, ti))) && 0 <= ti < def.spec_transitions().len() && ctnode(*t)
                    == def.spec_transitions()[ti] && lv < path@.len(),
        },
{
    let ghost ts = def.spec_transitions();
    let ghost entries = guards.view_entries();
    proof {
        use_type_invariant(def);
        def.lemma_facts();
    }
    let n = path.len();
    let mut level = n;
    while level > 0
        invariant
            ts == def.spec_transitions(),
            entries == guards.view_entries(),
            crate::hfsm::compile::unique_tids(ts),
            level <= n == path@.len(),
            select_from(ts, path@, e, entries, n as int) == select_from(ts, path@, e, entries, level as int),
        decreases level,
    {
        let state = path[level - 1].state;
        let ids = def.candidates(state, e);
        let ghost grp = group(ts, key_of_pair(state, e));
        let mut k: usize = 0;
        while k < ids.len()
            invariant
                ts == def.spec_transitions(),
                entries == guards.view_entries(),
                crate::hfsm::compile::unique_tids(ts),
                ids@ == candidate_ids(ts, state, e),
                grp == group(ts, key_of_pair(state, e)),
                forall|j: int| 0 <= j < grp.len() ==> 0 <= #[trigger] grp[j] < ts.len(),
                ids@.len() == grp.len(),
                k <= ids@.len(),
                1 <= level <= n == path@.len(),
                state == path@[level - 1].state,
                select_from(ts, path@, e, entries, n as int) == select_from(ts, path@, e, entries, level as int),
                scan_candidates(ts, grp, entries, 0) == scan_candidates(ts, grp, entries, k as int),
            decreases ids@.len() - k,
        {
            let id = ids[k];
            let ghost ti = grp[k as int];
            assert(id == ts[ti].id);
            let t = match def.transition(id) {
                Some(t) => t,
                None => {
                    proof {
                        assert(has_tid(ts, id));
                    }
                    return Err(ItemError::LifecycleViolation);
                },
            };
            proof {
                assert(has_tid(ts, id));
                let w = tidx_of(ts, id);
                assert(ts[w].id == id);
                assert(w == ti);
            }
            match t.guard {
                None => {
                    return Ok(Some((level - 1, t)));
                },
                Some(g) => match guards.lookup(g) {
                    GuardValue::True => {
                        return Ok(Some((level - 1, t)));
                    },
                    GuardValue::False => {},
                    GuardValue::Missing => {
                        return Err(ItemError::GuardMissing { guard: g });
                    },
                },
            }
            k = k + 1;
        }
        level = level - 1;
    }
    Ok(None)
}

/// Ancestors of `x` strictly below `boundary`, outermost first.
fn anc_upto_exec(def: &CompiledDefinition, x: Option<StateId>, boundary: Option<StateId>, fuel: usize) -> (r: Vec<StateId>)
    ensures
        r@ == anc_upto(def.spec_states(), x, boundary, fuel as nat),
    decreases fuel,
{
    match x {
        None => Vec::new(),
        Some(s) => if fuel == 0 || x == boundary {
            Vec::new()
        } else {
            let mut v = anc_upto_exec(def, def.parent_of(s), boundary, fuel - 1);
            v.push(s);
            v
        },
    }
}

fn apply_exec(
    def: &CompiledDefinition,
    s: &Snapshot,
    header: SnapshotHeader,
    keep: usize,
    source: ActiveState,
    t: &CompiledTransition,
    target: StateId,
    index: u32,
) -> (r: ItemExec)
    requires
        keep <= s.active_path@.len(),
    ensures
        exec_matches(r, apply_out(def.spec_states(), *s, header, keep as int, source, ctnode(*t), target), index),
{
    let ghost ss = def.spec_states();
    let ghost path = s.active_path@;
    let n = def.state_count() as usize;
    let next = s.next_activation_seq.0;
    let boundary = if keep == 0 {
        None
    } else {
        Some(s.active_path[keep - 1].state)
    };
    let mut entered = anc_upto_exec(def, Some(target), boundary, n);
    let mut below = def.initial_chain(target);
    entered.append(&mut below);
    if entered.len() as u64 > u64::MAX - next {
        return reject_exec(ItemError::CounterOverflow);
    }
    let mut actions: Vec<ActionRecord> = Vec::new();
    assert(actions@ =~= number(Seq::<ActionRecord>::empty(), index));
    exit_range(def, &s.active_path, keep, s.active_path.len(), index, &mut actions, Ghost(Seq::empty()));
    let ghost r1 = Seq::<ActionRecord>::empty() + exits_down(ss, path, keep as int, path.len() as int);
    push_recs(&mut actions, index, ActionPhase::Transition, source.state, source.activation_seq, t.actions.as_slice(), Ghost(r1));
    let ghost r2 = r1 + recs(ActionPhase::Transition, source.state, source.activation_seq.0, t.actions@);
    let mut new_path: Vec<ActiveState> = Vec::new();
    let mut i: usize = 0;
    while i < keep
        invariant
            path == s.active_path@,
            keep <= path.len(),
            i <= keep,
            new_path@ == path.subrange(0, i as int),
        decreases keep - i,
    {
        new_path.push(s.active_path[i]);
        i = i + 1;
        assert(new_path@ =~= path.subrange(0, i as int));
    }
    enter_all(def, &entered, next, index, &mut new_path, &mut actions, Ghost(path.subrange(0, keep as int)), Ghost(r2));
    proof {
        assert(r2 + enter_recs(ss, entered@, next) =~= exits_down(ss, path, keep as int, path.len() as int) + recs(
            ActionPhase::Transition,
            source.state,
            source.activation_seq.0,
            t.actions@,
        ) + enter_recs(ss, entered@, next));
    }
    ItemExec {
        outcome: Outcome::Transitioned { transition: t.id },
        next: Some(SnapshotHeader { next_activation_seq: ActivationSeq(next + entered.len() as u64), ..header }),
        path: new_path,
        actions,
    }
}


#[verifier::rlimit(40)]
fn event_item(index: u32, item: &BatchItem<'_>, event: EventKind) -> (r: ItemExec)
    ensures
        exec_matches(r, event_out(*item, event), index),
{
    let def = item.definition;
    let ghost ss = def.spec_states();
    let ghost ts = def.spec_transitions();
    let ghost entries = item.guards.view_entries();
    let s = match admission(item) {
        Ok(s) => s,
        Err(e) => return reject_exec(e),
    };
    let ghost path = s.active_path@;
    if s.lifecycle != Lifecycle::Running {
        return reject_exec(ItemError::LifecycleViolation);
    }
    if let Some(scope) = item.scope {
        let mut found = false;
        let mut i: usize = 0;
        while i < s.active_path.len()
            invariant
                path == s.active_path@,
                i <= path.len(),
                found == exists|j: int| 0 <= j < i && path[j].state == scope.state && path[j].activation_seq == scope.activation_seq,
            decreases path.len() - i,
        {
            let a = s.active_path[i];
            if a.state == scope.state && a.activation_seq == scope.activation_seq {
                found = true;
            }
            i = i + 1;
        }
        if scope.epoch != s.epoch || !found {
            return reject_exec(ItemError::StaleDelivery);
        }
    }
    assert(!scope_stale(*s, item.scope));
    if !def.has_event(event) {
        return reject_exec(ItemError::UnknownEvent);
    }
    if !item.guards.is_well_formed() {
        return reject_exec(ItemError::GuardFrameInvalid);
    }
    let leaf = match s.leaf() {
        Some(l) => l,
        None => return reject_exec(ItemError::LifecycleViolation),
    };
    let req = def.required_guards(leaf, event);
    let ghost p = missing_pred(req@, entries);
    let mut k: usize = 0;
    while k < req.len()
        invariant
            entries == item.guards.view_entries(),
            p == missing_pred(req@, entries),
            def == item.definition,
            ss == def.spec_states(),
            ts == def.spec_transitions(),
            path == s.active_path@,
            admit_failure(*item) is None,
            item.snapshot == Some(s),
            s.lifecycle == Lifecycle::Running,
            !scope_stale(*s, item.scope),
            event_known(ts, event),
            guards_unique(entries),
            path.len() > 0,
            leaf == path.last().state,
            req@ == required_for(ss, ts, leaf, event),
            k <= req@.len(),
            forall|j: int| 0 <= j < k ==> !#[trigger] p(j),
        decreases req@.len() - k,
    {
        if item.guards.lookup(req[k]) == GuardValue::Missing {
            proof {
                lemma_first_where_is(req@.len(), p, k as int);
            }
            return reject_exec(ItemError::GuardMissing { guard: req[k] });
        }
        assert(!p(k as int));
        k = k + 1;
    }
    proof {
        lemma_first_where_is(req@.len(), p, req@.len() as int);
    }
    if s.step_seq.0 == u64::MAX {
        return reject_exec(ItemError::CounterOverflow);
    }
    let mut header = s.header();
    header.step_seq = StepSeq(s.step_seq.0 + 1);
    let selected = match select(def, &s.active_path, event, &item.guards) {
        Err(e) => return reject_exec(e),
        Ok(sel) => sel,
    };
    match selected {
        None => {
            let mut kept: Vec<ActiveState> = Vec::new();
            let mut i: usize = 0;
            while i < s.active_path.len()
                invariant
                    path == s.active_path@,
                    i <= path.len(),
                    kept@ == path.subrange(0, i as int),
                decreases path.len() - i,
            {
                kept.push(s.active_path[i]);
                i = i + 1;
                assert(kept@ =~= path.subrange(0, i as int));
            }
            assert(path.subrange(0, path.len() as int) =~= path);
            let r = ItemExec { outcome: Outcome::Unhandled, next: Some(header), path: kept, actions: Vec::new() };
            assert(number(Seq::<ActionRecord>::empty(), index) =~= Seq::<ActionRecord>::empty());
            r
        },
        Some((level, t)) => {
            let ghost ti = choose|ti: int|
                select_from(ts, path, event, entries, path.len() as int) == Ok::<Option<(int, int)>, ItemError>(
                    Some((level as int, ti)),
                ) && 0 <= ti < ts.len() && ctnode(*t) == ts[ti] && level < path.len();
            let source = s.active_path[level];
            let plen = s.active_path.len();
            assert(level < plen);
            match t.kind {
                TransitionKind::Internal => {
                    let mut kept: Vec<ActiveState> = Vec::new();
                    let mut i: usize = 0;
                    while i < s.active_path.len()
                        invariant
                            path == s.active_path@,
                            i <= path.len(),
                            kept@ == path.subrange(0, i as int),
                        decreases path.len() - i,
                    {
                        kept.push(s.active_path[i]);
                        i = i + 1;
                        assert(kept@ =~= path.subrange(0, i as int));
                    }
                    assert(path.subrange(0, path.len() as int) =~= path);
                    let mut actions: Vec<ActionRecord> = Vec::new();
                    assert(actions@ =~= number(Seq::<ActionRecord>::empty(), index));
                    push_recs(
                        &mut actions,
                        index,
                        ActionPhase::Transition,
                        source.state,
                        source.activation_seq,
                        t.actions.as_slice(),
                        Ghost(Seq::empty()),
                    );
                    assert(Seq::<ActionRecord>::empty() + recs(
                        ActionPhase::Transition,
                        source.state,
                        source.activation_seq.0,
                        t.actions@,
                    ) =~= recs(ActionPhase::Transition, source.state, source.activation_seq.0, t.actions@));
                    ItemExec { outcome: Outcome::Transitioned { transition: t.id }, next: Some(header), path: kept, actions }
                },
                TransitionKind::Local { target } => apply_exec(def, s, header, level + 1, source, t, target, index),
                TransitionKind::External { target } => {
                    let domain = def.strict_common_ancestor(t.source, target);
                    let keep: usize = match domain {
                        None => 0,
                        Some(d) => {
                            let ghost q = state_pred(path, d);
                            let mut i: usize = 0;
                            while i < s.active_path.len() && s.active_path[i].state != d
                                invariant
                                    path == s.active_path@,
                                    q == state_pred(path, d),
                                    i <= path.len(),
                                    forall|j: int| 0 <= j < i ==> !#[trigger] q(j),
                                decreases path.len() - i,
                            {
                                i = i + 1;
                            }
                            proof {
                                lemma_first_where_is(path.len(), q, i as int);
                            }
                            if i < s.active_path.len() {
                                i + 1
                            } else {
                                0
                            }
                        },
                    };
                    apply_exec(def, s, header, keep, source, t, target, index)
                },
            }
        },
    }
}

fn evaluate_item(index: u32, item: &BatchItem<'_>) -> (r: ItemExec)
    ensures
        exec_matches(r, item_out(*item), index),
{
    match item.kind {
        ItemKind::Start { epoch } => start_item(index, item, epoch),
        ItemKind::Event { event } => event_item(index, item, event),
        ItemKind::Stop => stop_item(index, item),
    }
}


// ---------------------------------------------------------------------------------
// The batch.

/// Staged output of the first `k` items.
pub ghost struct Staged {
    pub plans: Seq<ItemPlan>,
    pub paths: Seq<ActiveState>,
    pub actions: Seq<ActionRecord>,
}

pub open spec fn plan_of(o: ItemOut, path_start: nat, action_start: nat) -> ItemPlan {
    ItemPlan {
        outcome: o.outcome,
        next: o.next,
        path_start: path_start as u32,
        path_len: o.path.len() as u32,
        action_start: action_start as u32,
        action_len: o.raw.len() as u32,
    }
}

pub open spec fn stage<'a>(items: Seq<BatchItem<'a>>, k: int) -> Staged
    decreases k,
{
    if k <= 0 || k > items.len() {
        Staged { plans: Seq::empty(), paths: Seq::empty(), actions: Seq::empty() }
    } else {
        let p = stage(items, k - 1);
        let o = item_out(items[k - 1]);
        Staged {
            plans: p.plans.push(plan_of(o, p.paths.len(), p.actions.len())),
            paths: p.paths + o.path,
            actions: p.actions + number(o.raw, (k - 1) as u32),
        }
    }
}

/// Every item of the batch evaluated, in order.
pub open spec fn staged_batch<'a>(items: Seq<BatchItem<'a>>) -> Staged {
    stage(items, items.len() as int)
}

pub open spec fn is_dup_key<'a>(items: Seq<BatchItem<'a>>, key: MachineKey) -> bool {
    exists|i: int, j: int|
        0 <= i < items.len() && 0 <= j < items.len() && i != j && items[i].machine_key == key && items[j].machine_key
            == key
}

/// Smallest machine key that occurs twice.
pub open spec fn dup_key<'a>(items: Seq<BatchItem<'a>>) -> Option<MachineKey> {
    if exists|k: MachineKey| is_dup_key(items, k) {
        Some(
            choose|k: MachineKey|
                is_dup_key(items, k) && forall|k2: MachineKey| is_dup_key(items, k2) ==> k.0 <= k2.0,
        )
    } else {
        None
    }
}

/// Batch-level failure for output buffers of `ni`, `np`, `na` slots.
pub open spec fn batch_failure<'a>(
    items: Seq<BatchItem<'a>>,
    limits: HfsmLimits,
    ni: nat,
    np: nat,
    na: nat,
) -> Option<HfsmError> {
    let st = staged_batch(items);
    if !limits.spec_valid() {
        Some(HfsmError::LimitsInvalid)
    } else if items.len() as u32 > limits.max_batch {
        Some(HfsmError::BatchTooLarge { len: items.len() as u32, max: limits.max_batch })
    } else if dup_key(items) is Some {
        Some(HfsmError::DuplicateMachineInBatch { key: dup_key(items)->0 })
    } else if ni < st.plans.len() || np < st.paths.len() || na < st.actions.len() {
        Some(
            HfsmError::BufferTooSmall {
                required_items: st.plans.len() as u32,
                required_paths: st.paths.len() as u32,
                required_actions: st.actions.len() as u32,
            },
        )
    } else {
        None
    }
}

/// Reusable working memory; grows only when a batch needs more.
pub struct Scratch {
    items: Vec<ItemPlan>,
    paths: Vec<ActiveState>,
    actions: Vec<ActionRecord>,
}

impl Scratch {
    /// Holds nothing yet.
    pub closed spec fn spec_empty(&self) -> bool {
        &&& self.items@.len() == 0
        &&& self.paths@.len() == 0
        &&& self.actions@.len() == 0
    }

    /// Sized for one full batch of plans.
    pub fn new(limits: &HfsmLimits) -> (s: Self)
        ensures
            s.spec_empty(),
    {
        Scratch {
            items: Vec::with_capacity(limits.max_batch as usize),
            paths: Vec::new(),
            actions: Vec::new(),
        }
    }
}

impl Default for Scratch {
    fn default() -> (s: Self)
        ensures
            s.spec_empty(),
    {
        Scratch { items: Vec::new(), paths: Vec::new(), actions: Vec::new() }
    }
}

fn find_dup_key(items: &[BatchItem<'_>]) -> (r: Option<MachineKey>)
    ensures
        r == dup_key(items@),
{
    let n = items.len();
    let mut best: Option<MachineKey> = None;
    let mut i: usize = 0;
    while i < n
        invariant
            n == items@.len(),
            i <= n,
            match best {
                None => forall|a: int, b: int| 0 <= a < i && 0 <= b < n && a != b ==> items@[a].machine_key
                    != items@[b].machine_key,
                Some(k) => is_dup_key(items@, k) && forall|a: int, b: int|
                    0 <= a < i && 0 <= b < n && a != b && items@[a].machine_key == items@[b].machine_key ==> k.0
                        <= items@[a].machine_key.0,
            },
        decreases n - i,
    {
        let mut j: usize = 0;
        let ki = items[i].machine_key;
        let mut twice = false;
        while j < n
            invariant
                n == items@.len(),
                i < n,
                j <= n,
                ki == items@[i as int].machine_key,
                twice == exists|b: int| 0 <= b < j && b != i && items@[b].machine_key == ki,
            decreases n - j,
        {
            if j != i && items[j].machine_key == ki {
                twice = true;
            }
            j = j + 1;
        }
        if twice {
            proof {
                let b = choose|b: int| 0 <= b < n && b != i && items@[b].machine_key == ki;
                assert(is_dup_key(items@, ki));
            }
            best = match best {
                None => Some(ki),
                Some(k) => if ki.0 < k.0 {
                    Some(ki)
                } else {
                    Some(k)
                },
            };
        }
        i = i + 1;
    }
    proof {
        match best {
            None => {
                if exists|k: MachineKey| is_dup_key(items@, k) {
                    let k = choose|k: MachineKey| is_dup_key(items@, k);
                    let (a, b) = choose|a: int, b: int|
                        0 <= a < items@.len() && 0 <= b < items@.len() && a != b && items@[a].machine_key == k
                            && items@[b].machine_key == k;
                    assert(items@[a].machine_key == items@[b].machine_key);
                }
            },
            Some(k) => {
                assert forall|k2: MachineKey| is_dup_key(items@, k2) implies k.0 <= k2.0 by {
                    let (a, b) = choose|a: int, b: int|
                        0 <= a < items@.len() && 0 <= b < items@.len() && a != b && items@[a].machine_key == k2
                            && items@[b].machine_key == k2;
                    assert(items@[a].machine_key == items@[b].machine_key);
                }
                let c = choose|c: MachineKey|
                    is_dup_key(items@, c) && forall|k2: MachineKey| is_dup_key(items@, k2) ==> c.0 <= k2.0;
                assert(c.0 <= k.0 && k.0 <= c.0);
                assert(c == k);
            },
        }
    }
    best
}

/// Evaluates every item into working memory, then writes the caller's buffers only if
/// the whole batch fits. Items are independent: a rejected item leaves the others as
/// they would be alone.
pub fn evaluate_batch(
    items: &[BatchItem<'_>],
    limits: &HfsmLimits,
    out: PlanOutput<'_>,
    scratch: &mut Scratch,
) -> (r: HfsmResult<BatchStatus>)
    ensures
        match r {
            Err(e) => batch_failure(items@, *limits, old(out.items)@.len(), old(out.paths)@.len(), old(out.actions)@.len())
                == Some(e) && final(out.items)@ == old(out.items)@ && final(out.paths)@ == old(out.paths)@
                && final(out.actions)@ == old(out.actions)@,
            Ok(status) => {
                let st = staged_batch(items@);
                &&& batch_failure(items@, *limits, old(out.items)@.len(), old(out.paths)@.len(), old(out.actions)@.len())
                    is None
                &&& status == (BatchStatus {
                    items_written: st.plans.len() as u32,
                    paths_written: st.paths.len() as u32,
                    actions_written: st.actions.len() as u32,
                })
                &&& final(out.items)@ == st.plans + old(out.items)@.skip(st.plans.len() as int)
                &&& final(out.paths)@ == st.paths + old(out.paths)@.skip(st.paths.len() as int)
                &&& final(out.actions)@ == st.actions + old(out.actions)@.skip(st.actions.len() as int)
            },
        },
{
    let PlanOutput { items: out_items, paths: out_paths, actions: out_actions } = out;
    if !limits.is_valid() {
        return Err(HfsmError::LimitsInvalid);
    }
    let len = items.len() as u32;
    if len > limits.max_batch {
        return Err(HfsmError::BatchTooLarge { len, max: limits.max_batch });
    }
    if let Some(key) = find_dup_key(items) {
        return Err(HfsmError::DuplicateMachineInBatch { key });
    }
    scratch.items.clear();
    scratch.paths.clear();
    scratch.actions.clear();
    let n = items.len();
    let mut i: usize = 0;
    while i < n
        invariant
            n == items@.len(),
            i <= n,
            scratch.items@ == stage(items@, i as int).plans,
            scratch.paths@ == stage(items@, i as int).paths,
            scratch.actions@ == stage(items@, i as int).actions,
        decreases n - i,
    {
        let ItemExec { outcome, next, path, actions } = evaluate_item(i as u32, &items[i]);
        let plan = ItemPlan {
            outcome,
            next,
            path_start: scratch.paths.len() as u32,
            path_len: path.len() as u32,
            action_start: scratch.actions.len() as u32,
            action_len: actions.len() as u32,
        };
        scratch.items.push(plan);
        let mut path = path;
        let mut actions = actions;
        scratch.paths.append(&mut path);
        scratch.actions.append(&mut actions);
        proof {
            let o = item_out(items@[i as int]);
            assert(number(o.raw, i as u32).len() == o.raw.len());
        }
        i = i + 1;
    }
    let ni = scratch.items.len();
    let np = scratch.paths.len();
    let na = scratch.actions.len();
    if out_items.len() < ni || out_paths.len() < np || out_actions.len() < na {
        return Err(
            HfsmError::BufferTooSmall { required_items: ni as u32, required_paths: np as u32, required_actions: na as u32 },
        );
    }
    let ghost oi = out_items@;
    let ghost op = out_paths@;
    let ghost oa = out_actions@;
    let mut k: usize = 0;
    while k < ni
        invariant
            ni == scratch.items@.len() <= out_items@.len(),
            out_items@.len() == oi.len(),
            k <= ni,
            out_items@ == scratch.items@.take(k as int) + oi.skip(k as int),
        decreases ni - k,
    {
        out_items[k] = scratch.items[k];
        k = k + 1;
        assert(out_items@ =~= scratch.items@.take(k as int) + oi.skip(k as int));
    }
    let mut k: usize = 0;
    while k < np
        invariant
            np == scratch.paths@.len() <= out_paths@.len(),
            out_paths@.len() == op.len(),
            k <= np,
            out_paths@ == scratch.paths@.take(k as int) + op.skip(k as int),
        decreases np - k,
    {
        out_paths[k] = scratch.paths[k];
        k = k + 1;
        assert(out_paths@ =~= scratch.paths@.take(k as int) + op.skip(k as int));
    }
    let mut k: usize = 0;
    while k < na
        invariant
            na == scratch.actions@.len() <= out_actions@.len(),
            out_actions@.len() == oa.len(),
            k <= na,
            out_actions@ == scratch.actions@.take(k as int) + oa.skip(k as int),
        decreases na - k,
    {
        out_actions[k] = scratch.actions[k];
        k = k + 1;
        assert(out_actions@ =~= scratch.actions@.take(k as int) + oa.skip(k as int));
    }
    assert(scratch.items@.take(ni as int) =~= scratch.items@);
    assert(scratch.paths@.take(np as int) =~= scratch.paths@);
    assert(scratch.actions@.take(na as int) =~= scratch.actions@);
    Ok(BatchStatus { items_written: ni as u32, paths_written: np as u32, actions_written: na as u32 })
}

} // verus!
