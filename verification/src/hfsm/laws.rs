//! Properties of the calculator that hold across all inputs.
use vstd::prelude::*;
use crate::hfsm::compile::{
    SNode, TNode, enc_states, enc_transitions, group, is_order, key_of_pair, lt_by, snodes, spec_fingerprint,
    state_keys, state_order, tidx_of, tnodes, trans_keys, trans_order, unique_ids, unique_tids,
};
use crate::hfsm::definition::DefinitionSpec;
use crate::hfsm::order::lemma_sorted_unique;
use crate::hfsm::evaluate::{
    BatchItem, ItemKind, ItemOut, apply_out, enter_recs, event_out, exits_down, item_out, number, recs,
    rejected, select_from, scan_candidates, Pick, stage, staged_batch, batch_failure, start_out, stop_out,
};
use crate::hfsm::error::HfsmError;
use crate::hfsm::ids::{ActionId, EventKind, HfsmLimits, Lifecycle, MachineEpoch, StateId, TransitionKind};
use crate::hfsm::plan::{ActionPhase, ActionRecord, ItemError, Outcome};
use crate::hfsm::snapshot::{ActiveState, Snapshot};

verus! {

pub open spec fn phase_rank(p: ActionPhase) -> int {
    match p {
        ActionPhase::Exit => 0,
        ActionPhase::Transition => 1,
        ActionPhase::Enter => 2,
    }
}

/// Exits first, then transition actions, then entries.
pub open spec fn phases_ordered(raw: Seq<ActionRecord>) -> bool {
    forall|i: int, j: int| 0 <= i < j < raw.len() ==> phase_rank(#[trigger] raw[i].phase) <= phase_rank(#[trigger] raw[j].phase)
}

pub open spec fn all_phase(raw: Seq<ActionRecord>, p: ActionPhase) -> bool {
    forall|i: int| 0 <= i < raw.len() ==> #[trigger] raw[i].phase == p
}

proof fn lemma_recs_phase(phase: ActionPhase, state: StateId, seq: u64, acts: Seq<ActionId>)
    ensures
        all_phase(recs(phase, state, seq, acts), phase),
{
}

proof fn lemma_enter_phase(ss: Seq<SNode>, chain: Seq<StateId>, base: u64)
    ensures
        all_phase(enter_recs(ss, chain, base), ActionPhase::Enter),
    decreases chain.len(),
{
    if chain.len() > 0 {
        lemma_enter_phase(ss, chain.drop_last(), base);
        let a = enter_recs(ss, chain.drop_last(), base);
        let b = recs(
            ActionPhase::Enter,
            chain.last(),
            (base + chain.len() - 1) as u64,
            crate::hfsm::evaluate::entry_of(ss, chain.last()),
        );
        assert forall|i: int| 0 <= i < (a + b).len() implies #[trigger] (a + b)[i].phase == ActionPhase::Enter by {
            if i < a.len() {
                assert((a + b)[i] == a[i]);
            } else {
                assert((a + b)[i] == b[i - a.len()]);
            }
        }
    }
}

proof fn lemma_exits_phase(ss: Seq<SNode>, path: Seq<ActiveState>, lo: int, hi: int)
    ensures
        all_phase(exits_down(ss, path, lo, hi), ActionPhase::Exit),
    decreases hi - lo,
{
    if hi > lo {
        lemma_exits_phase(ss, path, lo, hi - 1);
        let a = recs(
            ActionPhase::Exit,
            path[hi - 1].state,
            path[hi - 1].activation_seq.0,
            crate::hfsm::evaluate::exit_of(ss, path[hi - 1].state),
        );
        let b = exits_down(ss, path, lo, hi - 1);
        assert forall|i: int| 0 <= i < (a + b).len() implies #[trigger] (a + b)[i].phase == ActionPhase::Exit by {
            if i < a.len() {
                assert((a + b)[i] == a[i]);
            } else {
                assert((a + b)[i] == b[i - a.len()]);
            }
        }
    }
}

proof fn lemma_three_phases(a: Seq<ActionRecord>, b: Seq<ActionRecord>, c: Seq<ActionRecord>)
    requires
        all_phase(a, ActionPhase::Exit),
        all_phase(b, ActionPhase::Transition),
        all_phase(c, ActionPhase::Enter),
    ensures
        phases_ordered(a + b + c),
{
    let s = a + b + c;
    assert forall|i: int, j: int| 0 <= i < j < s.len() implies phase_rank(#[trigger] s[i].phase) <= phase_rank(
        #[trigger] s[j].phase,
    ) by {
        if i < a.len() {
            assert(s[i] == a[i]);
        } else if i < a.len() + b.len() {
            assert(s[i] == b[i - a.len()]);
            assert(j >= a.len());
            if j < a.len() + b.len() {
                assert(s[j] == b[j - a.len()]);
            } else {
                assert(s[j] == c[j - a.len() - b.len()]);
            }
        } else {
            assert(s[i] == c[i - a.len() - b.len()]);
            assert(s[j] == c[j - a.len() - b.len()]);
        }
    }
}

proof fn lemma_apply_phases(
    ss: Seq<SNode>,
    s: Snapshot,
    header: crate::hfsm::snapshot::SnapshotHeader,
    keep: int,
    source: ActiveState,
    t: TNode,
    target: StateId,
)
    ensures
        phases_ordered(apply_out(ss, s, header, keep, source, t, target).raw),
{
    let path = s.active_path@;
    let next = s.next_activation_seq.0;
    let boundary = if keep == 0 {
        None
    } else {
        Some(path[keep - 1].state)
    };
    let entered = crate::hfsm::evaluate::anc_upto(ss, Some(target), boundary, ss.len())
        + crate::hfsm::compile::init_chain(ss, target, ss.len());
    lemma_exits_phase(ss, path, keep, path.len() as int);
    lemma_recs_phase(ActionPhase::Transition, source.state, source.activation_seq.0, t.actions);
    lemma_enter_phase(ss, entered, next);
    lemma_three_phases(
        exits_down(ss, path, keep, path.len() as int),
        recs(ActionPhase::Transition, source.state, source.activation_seq.0, t.actions),
        enter_recs(ss, entered, next),
    );
}

/// Every plan lists exit actions first (innermost state first), then the transition's
/// own actions, then entry actions (outermost first).
pub proof fn law_plan_phases_ordered(item: BatchItem)
    ensures
        phases_ordered(item_out(item).raw),
{
    let o = item_out(item);
    match item.kind {
        ItemKind::Start { epoch } => {
            let def = *item.definition;
            lemma_enter_phase(
                def.spec_states(),
                crate::hfsm::evaluate::start_chain(def),
                match item.snapshot {
                    None => 1,
                    Some(s) => s.next_activation_seq.0,
                },
            );
        },
        ItemKind::Stop => {
            let s = *item.snapshot->0;
            lemma_exits_phase((*item.definition).spec_states(), s.active_path@, 0, s.active_path@.len() as int);
        },
        ItemKind::Event { event } => {
            let def = *item.definition;
            let ss = def.spec_states();
            let ts = def.spec_transitions();
            let s = *item.snapshot->0;
            let path = s.active_path@;
            let entries = item.guards.view_entries();
            match select_from(ts, path, event, entries, path.len() as int) {
                Ok(Some((level, ti))) => {
                    let t = ts[ti];
                    let header = crate::hfsm::snapshot::SnapshotHeader {
                        step_seq: crate::hfsm::ids::StepSeq((s.step_seq.0 + 1) as u64),
                        ..crate::hfsm::snapshot::header_of(s)
                    };
                    lemma_recs_phase(ActionPhase::Transition, path[level].state, path[level].activation_seq.0, t.actions);
                    match t.kind {
                        TransitionKind::Local { target } => {
                            lemma_apply_phases(ss, s, header, level + 1, path[level], t, target);
                        },
                        TransitionKind::External { target } => {
                            lemma_apply_phases(
                                ss,
                                s,
                                header,
                                crate::hfsm::evaluate::external_keep(
                                    path,
                                    crate::hfsm::compile::strict_common_ancestor(ss, t.source, target),
                                ),
                                path[level],
                                t,
                                target,
                            );
                        },
                        _ => {},
                    }
                },
                _ => {},
            }
        },
    }
}

/// Start only enters states; Stop only exits them and leaves no active state.
pub proof fn law_start_enters_stop_exits(item: BatchItem)
    ensures
        item.kind is Start ==> all_phase(item_out(item).raw, ActionPhase::Enter),
        item.kind is Stop ==> all_phase(item_out(item).raw, ActionPhase::Exit) && item_out(item).path.len() == 0,
        item.kind is Stop && !(item_out(item).outcome is Rejected) ==> (item_out(item).next matches Some(h)
            && h.lifecycle == Lifecycle::Stopped),
        item.kind is Start && !(item_out(item).outcome is Rejected) ==> (item_out(item).next matches Some(h)
            && h.lifecycle == Lifecycle::Running && h.epoch == item.kind->epoch),
{
    match item.kind {
        ItemKind::Start { epoch } => {
            let def = *item.definition;
            lemma_enter_phase(
                def.spec_states(),
                crate::hfsm::evaluate::start_chain(def),
                match item.snapshot {
                    None => 1,
                    Some(s) => s.next_activation_seq.0,
                },
            );
        },
        ItemKind::Stop => {
            let s = *item.snapshot->0;
            lemma_exits_phase((*item.definition).spec_states(), s.active_path@, 0, s.active_path@.len() as int);
        },
        _ => {},
    }
}

/// A rejected item has no next snapshot, no path and no actions.
pub proof fn law_rejection_has_no_effect(item: BatchItem)
    ensures
        item_out(item).outcome is Rejected ==> item_out(item).next is None && item_out(item).path.len() == 0
            && item_out(item).raw.len() == 0,
{
}

/// Every accepted event commits exactly one step; machine identity, epoch and
/// fingerprint carry over, and activation numbering never goes back.
pub proof fn law_event_advances_step_once(item: BatchItem)
    requires
        item.kind is Event,
        !(item_out(item).outcome is Rejected),
    ensures
        item.snapshot is Some,
        (item_out(item).next matches Some(h) && {
            let s = *item.snapshot->0;
            &&& h.step_seq.0 == s.step_seq.0 + 1
            &&& h.epoch == s.epoch
            &&& h.machine_key == s.machine_key
            &&& h.fingerprint == s.fingerprint
            &&& h.lifecycle == Lifecycle::Running
            &&& h.next_activation_seq.0 >= s.next_activation_seq.0
        }),
{
}

/// An unhandled event changes nothing but the step counter.
pub proof fn law_unhandled_keeps_configuration(item: BatchItem)
    requires
        item.kind is Event,
        item_out(item).outcome == Outcome::Unhandled,
    ensures
        item_out(item).path == (*item.snapshot->0).active_path@,
        item_out(item).raw.len() == 0,
        (item_out(item).next matches Some(h) && h.next_activation_seq == (*item.snapshot->0).next_activation_seq),
{
}

/// An internal transition keeps the whole path and every activation, and emits only
/// its own actions.
pub proof fn law_internal_keeps_configuration(item: BatchItem)
    requires
        item.kind is Event,
        (*item.definition).well_formed(),
        (item_out(item).outcome matches Outcome::Transitioned { transition } && (*item.definition).spec_transitions()[tidx_of(
            (*item.definition).spec_transitions(),
            transition,
        )].kind == TransitionKind::Internal),
    ensures
        item_out(item).path == (*item.snapshot->0).active_path@,
        all_phase(item_out(item).raw, ActionPhase::Transition),
        (item_out(item).next matches Some(h) && h.next_activation_seq == (*item.snapshot->0).next_activation_seq),
{
    let def = *item.definition;
    def.lemma_well_formed();
    let ts = def.spec_transitions();
    let s = *item.snapshot->0;
    let path = s.active_path@;
    let event = item.kind->event;
    let entries = item.guards.view_entries();
    lemma_select_in_range(ts, path, event, entries, path.len() as int);
    match select_from(ts, path, event, entries, path.len() as int) {
        Ok(Some((level, ti))) => {
            let t = ts[ti];
            assert(crate::hfsm::compile::has_tid(ts, t.id));
            let w = tidx_of(ts, t.id);
            assert(ts[w].id == t.id);
            assert(w == ti);
            lemma_recs_phase(ActionPhase::Transition, path[level].state, path[level].activation_seq.0, t.actions);
            match t.kind {
                TransitionKind::Local { target } => {
                    assert(false);
                },
                TransitionKind::External { target } => {
                    assert(false);
                },
                _ => {},
            }
        },
        _ => {},
    }
}

/// A selected transition is one of the definition's transitions.
proof fn lemma_select_in_range(
    ts: Seq<TNode>,
    path: Seq<ActiveState>,
    e: EventKind,
    entries: Seq<(crate::hfsm::ids::GuardId, bool)>,
    level: int,
)
    requires
        crate::hfsm::compile::is_key_list(ts, crate::hfsm::compile::key_list(ts)),
    ensures
        select_from(ts, path, e, entries, level) matches Ok(Some((lv, ti))) ==> (0 <= ti < ts.len() && 0 <= lv < level),
    decreases level,
{
    if level > 0 {
        let l = group(ts, key_of_pair(path[level - 1].state, e));
        lemma_group_in_range(ts, key_of_pair(path[level - 1].state, e));
        lemma_scan_in_range(ts, l, entries, 0);
        lemma_select_in_range(ts, path, e, entries, level - 1);
    }
}

proof fn lemma_group_in_range(ts: Seq<TNode>, key: int)
    requires
        crate::hfsm::compile::is_key_list(ts, crate::hfsm::compile::key_list(ts)),
    ensures
        forall|k: int| 0 <= k < group(ts, key).len() ==> 0 <= #[trigger] group(ts, key)[k] < ts.len(),
{
    crate::hfsm::compile::lemma_group_well_defined(ts, key);
    let l = group(ts, key);
    assert forall|k: int| 0 <= k < l.len() implies 0 <= #[trigger] l[k] < ts.len() by {
        assert(l.contains(l[k]));
    }
}

proof fn lemma_scan_in_range(ts: Seq<TNode>, l: Seq<int>, entries: Seq<(crate::hfsm::ids::GuardId, bool)>, k: int)
    requires
        forall|j: int| 0 <= j < l.len() ==> 0 <= #[trigger] l[j] < ts.len(),
    ensures
        scan_candidates(ts, l, entries, k) matches Pick::Found(ti) ==> (0 <= ti < ts.len()),
    decreases l.len() - k,
{
    if 0 <= k < l.len() {
        lemma_scan_in_range(ts, l, entries, k + 1);
    }
}

/// A batch refused only for its output buffers goes through once every buffer holds
/// the reported requirement.
pub proof fn law_retry_with_required_buffers(
    items: Seq<BatchItem>,
    limits: HfsmLimits,
    ni: nat,
    np: nat,
    na: nat,
    ni2: nat,
    np2: nat,
    na2: nat,
)
    requires
        batch_failure(items, limits, ni, np, na) matches Some(HfsmError::BufferTooSmall { .. }),
        ni2 >= staged_batch(items).plans.len(),
        np2 >= staged_batch(items).paths.len(),
        na2 >= staged_batch(items).actions.len(),
    ensures
        batch_failure(items, limits, ni2, np2, na2) is None,
{
}

/// Each item's plan in a batch is what the item produces on its own: neighbours,
/// rejected or not, do not change it.
pub proof fn law_items_are_independent(items: Seq<BatchItem>, k: int)
    requires
        0 <= k < items.len(),
    ensures
        staged_batch(items).plans[k].outcome == item_out(items[k]).outcome,
        staged_batch(items).plans[k].next == item_out(items[k]).next,
        staged_batch(items).plans.len() == items.len(),
{
    lemma_stage_plans(items, items.len() as int, k);
}

proof fn lemma_stage_plans(items: Seq<BatchItem>, n: int, k: int)
    requires
        0 <= k < n <= items.len(),
    ensures
        stage(items, n).plans.len() == n,
        stage(items, n).plans[k].outcome == item_out(items[k]).outcome,
        stage(items, n).plans[k].next == item_out(items[k]).next,
    decreases n,
{
    lemma_stage_len(items, n - 1);
    if k < n - 1 {
        lemma_stage_plans(items, n - 1, k);
    }
}

proof fn lemma_stage_len(items: Seq<BatchItem>, n: int)
    requires
        0 <= n <= items.len(),
    ensures
        stage(items, n).plans.len() == n,
    decreases n,
{
    if n > 0 {
        lemma_stage_len(items, n - 1);
    }
}


/// `p` maps `0..n` one-to-one onto `0..n`.
pub open spec fn is_perm(p: Seq<int>, n: nat) -> bool {
    &&& p.len() == n
    &&& forall|i: int| 0 <= i < n ==> 0 <= #[trigger] p[i] < n
    &&& forall|i: int, j: int| 0 <= i < n && 0 <= j < n && i != j ==> #[trigger] p[i] != #[trigger] p[j]
    &&& forall|x: int| 0 <= x < n ==> #[trigger] in_image(p, n, x)
}

pub open spec fn in_image(p: Seq<int>, n: nat, x: int) -> bool {
    exists|i: int| 0 <= i < n && p[i] == x
}

pub open spec fn keys_unique(k: Seq<int>) -> bool {
    forall|i: int, j: int| 0 <= i < k.len() && 0 <= j < k.len() && i != j ==> k[i] != k[j]
}

/// Every key sequence has an ordering of its positions.
proof fn lemma_order_exists(k: Seq<int>, n: int)
    requires
        0 <= n <= k.len(),
    ensures
        exists|l: Seq<int>| #[trigger] is_order(n as nat, lt_by(k), l),
    decreases n,
{
    if n == 0 {
        assert(is_order(n as nat, lt_by(k), Seq::<int>::empty()));
    } else {
        lemma_order_exists(k, n - 1);
        let l = choose|l: Seq<int>| #[trigger] is_order((n - 1) as nat, lt_by(k), l);
        let x = n - 1;
        assert forall|i: int| 0 <= i < l.len() implies #[trigger] l[i] < x by {
            assert(l.contains(l[i]));
        }
        let pos = lemma_order_insert_point(k, l, x);
        let l2 = l.insert(pos, x);
        assert forall|y: int| l2.contains(y) <==> 0 <= y < n by {
            if 0 <= y < n {
                if y == x {
                    assert(l2[pos] == y);
                } else {
                    assert(l.contains(y));
                    let a = choose|a: int| 0 <= a < l.len() && l[a] == y;
                    if a < pos {
                        assert(l2[a] == y);
                    } else {
                        assert(l2[a + 1] == y);
                    }
                }
            }
            if l2.contains(y) {
                let a = choose|a: int| 0 <= a < l2.len() && l2[a] == y;
                if a < pos {
                    assert(l[a] == y);
                    assert(l.contains(y));
                } else if a > pos {
                    assert(l[a - 1] == y);
                    assert(l.contains(y));
                }
            }
        }
        assert forall|i: int, j: int| 0 <= i < j < l2.len() implies lt_by(k)(l2[i], l2[j]) by {
            if i < pos && j == pos {
            } else if i == pos && j > pos {
                if j - 1 > pos {
                    assert(lt_by(k)(l[pos], l[j - 1]));
                }
            } else if i < pos && j > pos {
                assert(lt_by(k)(l[i], l[j - 1]));
            } else if i > pos {
                assert(lt_by(k)(l[i - 1], l[j - 1]));
            }
        }
        assert(is_order(n as nat, lt_by(k), l2));
    }
}

proof fn lemma_order_insert_point(k: Seq<int>, l: Seq<int>, x: int) -> (pos: int)
    requires
        forall|i: int, j: int| 0 <= i < j < l.len() ==> lt_by(k)(l[i], l[j]),
        forall|i: int| 0 <= i < l.len() ==> #[trigger] l[i] < x,
    ensures
        0 <= pos <= l.len(),
        forall|i: int| 0 <= i < pos ==> lt_by(k)(#[trigger] l[i], x),
        forall|i: int| pos <= i < l.len() ==> lt_by(k)(x, #[trigger] l[i]),
    decreases l.len(),
{
    if l.len() == 0 {
        0
    } else if k[l.last()] <= k[x] {
        let pos = l.len() as int;
        assert forall|i: int| 0 <= i < pos implies lt_by(k)(#[trigger] l[i], x) by {
            if i < l.len() - 1 {
                assert(lt_by(k)(l[i], l.last()));
            }
        }
        pos
    } else {
        let p = lemma_order_insert_point(k, l.drop_last(), x);
        assert forall|i: int| 0 <= i < p implies lt_by(k)(#[trigger] l[i], x) by {
            assert(l[i] == l.drop_last()[i]);
        }
        assert forall|i: int| p <= i < l.len() implies lt_by(k)(x, #[trigger] l[i]) by {
            if i < l.len() - 1 {
                assert(l[i] == l.drop_last()[i]);
            }
        }
        p
    }
}

/// Inverse of a permutation at `x`.
pub open spec fn perm_inv(p: Seq<int>, n: nat, x: int) -> int {
    choose|i: int| 0 <= i < n && p[i] == x
}

/// Reordering positions by a permutation with equal keys keeps the sorted order.
proof fn lemma_order_permuted(ka: Seq<int>, kb: Seq<int>, p: Seq<int>, n: nat, la: Seq<int>) -> (lb: Seq<int>)
    requires
        is_order(n, lt_by(ka), la),
        la.len() == n,
        ka.len() == n,
        kb.len() == n,
        is_perm(p, n),
        keys_unique(ka),
        forall|i: int| 0 <= i < n ==> kb[i] == ka[#[trigger] p[i]],
    ensures
        is_order(n, lt_by(kb), lb),
        lb.len() == n,
        forall|i: int| 0 <= i < n ==> 0 <= #[trigger] lb[i] < n,
        forall|i: int| 0 <= i < n ==> p[#[trigger] lb[i]] == la[i],
{
    let lb = Seq::new(n, |i: int| perm_inv(p, n, la[i]));
    assert forall|i: int| 0 <= i < n implies 0 <= #[trigger] lb[i] < n && p[lb[i]] == la[i] by {
        assert(la.contains(la[i]));
        assert(0 <= la[i] < n);
        assert(in_image(p, n, la[i]));
    }
    assert forall|y: int| lb.contains(y) <==> 0 <= y < n by {
        if 0 <= y < n {
            let x = p[y];
            assert(0 <= x < n);
            assert(la.contains(x));
            let a = choose|a: int| 0 <= a < la.len() && la[a] == x;
            assert(p[lb[a]] == x);
            assert(lb[a] == y);
        }
    }
    assert forall|i: int, j: int| 0 <= i < j < lb.len() implies lt_by(kb)(lb[i], lb[j]) by {
        assert(lt_by(ka)(la[i], la[j]));
        assert(la[i] != la[j]) by {
            assert(la.contains(la[i]));
        }
        assert(0 <= la[i] < n && 0 <= la[j] < n) by {
            assert(la.contains(la[i]));
            assert(la.contains(la[j]));
        }
        assert(ka[la[i]] != ka[la[j]]);
        assert(kb[lb[i]] == ka[la[i]]);
        assert(kb[lb[j]] == ka[la[j]]);
    }
    lb
}

/// A strict order's sorted list of `0..n` has length `n`.
proof fn lemma_order_len(l: Seq<int>, n: nat, lt: spec_fn(int, int) -> bool)
    requires
        is_order(n, lt, l),
        forall|x: int| #[trigger] lt(x, x) ==> false,
        forall|x: int, y: int, z: int| #[trigger] lt(x, y) && #[trigger] lt(y, z) ==> lt(x, z),
    ensures
        l.len() == n,
{
    lemma_distinct_cover_len(l, n, lt);
}

proof fn lemma_distinct_cover_len(l: Seq<int>, n: nat, lt: spec_fn(int, int) -> bool)
    requires
        forall|x: int| l.contains(x) <==> 0 <= x < n,
        forall|i: int, j: int| 0 <= i < j < l.len() ==> lt(l[i], l[j]),
        forall|x: int| #[trigger] lt(x, x) ==> false,
        forall|x: int, y: int, z: int| #[trigger] lt(x, y) && #[trigger] lt(y, z) ==> lt(x, z),
    ensures
        l.len() == n,
{
    let s = l.to_set();
    assert(l.no_duplicates()) by {
        assert forall|i: int, j: int| 0 <= i < l.len() && 0 <= j < l.len() && i != j implies l[i] != l[j] by {
            if i < j {
                assert(lt(l[i], l[j]));
            } else {
                assert(lt(l[j], l[i]));
            }
        }
    }
    l.unique_seq_to_set();
    assert(s =~= vstd::set_lib::set_int_range(0, n as int));
    vstd::set_lib::lemma_int_range(0, n as int);
}

proof fn lemma_enc_states_eq(sa: Seq<SNode>, la: Seq<int>, sb: Seq<SNode>, lb: Seq<int>)
    requires
        la.len() == lb.len(),
        forall|i: int| 0 <= i < la.len() ==> sa[#[trigger] la[i]] == sb[lb[i]],
    ensures
        enc_states(sa, la) == enc_states(sb, lb),
    decreases la.len(),
{
    if la.len() > 0 {
        lemma_enc_states_eq(sa, la.drop_last(), sb, lb.drop_last());
        assert(sa[la.last()] == sb[lb.last()]);
    }
}

proof fn lemma_enc_trans_eq(ta: Seq<TNode>, la: Seq<int>, tb: Seq<TNode>, lb: Seq<int>)
    requires
        la.len() == lb.len(),
        forall|i: int| 0 <= i < la.len() ==> ta[#[trigger] la[i]] == tb[lb[i]],
    ensures
        enc_transitions(ta, la) == enc_transitions(tb, lb),
    decreases la.len(),
{
    if la.len() > 0 {
        lemma_enc_trans_eq(ta, la.drop_last(), tb, lb.drop_last());
        assert(ta[la.last()] == tb[lb.last()]);
    }
}

/// Diagnostic names and the order in which states and transitions are listed do not
/// enter the fingerprint: a reordered copy of a definition (ids unique, transition
/// `(source, event, priority)` unique) has the same fingerprint.
pub proof fn law_fingerprint_ignores_names_and_order(a: DefinitionSpec, b: DefinitionSpec, sp: Seq<int>, tp: Seq<int>)
    requires
        a.initial == b.initial,
        unique_ids(snodes(a.states@)),
        keys_unique(trans_keys(tnodes(a.transitions@))),
        a.states@.len() == b.states@.len(),
        a.transitions@.len() == b.transitions@.len(),
        is_perm(sp, a.states@.len()),
        is_perm(tp, a.transitions@.len()),
        forall|i: int| 0 <= i < b.states@.len() ==> snodes(b.states@)[i] == snodes(a.states@)[#[trigger] sp[i]],
        forall|i: int| 0 <= i < b.transitions@.len() ==> tnodes(b.transitions@)[i] == tnodes(a.transitions@)[#[trigger] tp[i]],
    ensures
        spec_fingerprint(a) == spec_fingerprint(b),
{
    let sa = snodes(a.states@);
    let sb = snodes(b.states@);
    let ta = tnodes(a.transitions@);
    let tb = tnodes(b.transitions@);
    let n = sa.len();
    let m = ta.len();
    let ka = state_keys(sa);
    let kb = state_keys(sb);
    assert(keys_unique(ka)) by {
        assert forall|i: int, j: int| 0 <= i < ka.len() && 0 <= j < ka.len() && i != j implies ka[i] != ka[j] by {
            assert(sa[i].id != sa[j].id);
        }
    }
    assert forall|i: int| 0 <= i < n implies kb[i] == ka[#[trigger] sp[i]] by {
        assert(sb[i] == sa[sp[i]]);
    }
    lemma_order_exists(ka, n as int);
    let la = choose|l: Seq<int>| #[trigger] is_order(n, lt_by(ka), l);
    lemma_order_len(la, n, lt_by(ka));
    let lb = lemma_order_permuted(ka, kb, sp, n, la);
    lemma_sorted_unique(la, state_order(sa), lt_by(ka));
    lemma_sorted_unique(lb, state_order(sb), lt_by(kb));
    assert forall|i: int| 0 <= i < la.len() implies sa[#[trigger] la[i]] == sb[lb[i]] by {
        assert(sb[lb[i]] == sa[sp[lb[i]]]);
    }
    lemma_enc_states_eq(sa, la, sb, lb);

    let qa = trans_keys(ta);
    let qb = trans_keys(tb);
    assert forall|i: int| 0 <= i < m implies qb[i] == qa[#[trigger] tp[i]] by {
        assert(tb[i] == ta[tp[i]]);
    }
    lemma_order_exists(qa, m as int);
    let ua = choose|l: Seq<int>| #[trigger] is_order(m, lt_by(qa), l);
    lemma_order_len(ua, m, lt_by(qa));
    let ub = lemma_order_permuted(qa, qb, tp, m, ua);
    lemma_sorted_unique(ua, trans_order(ta), lt_by(qa));
    lemma_sorted_unique(ub, trans_order(tb), lt_by(qb));
    assert forall|i: int| 0 <= i < ua.len() implies ta[#[trigger] ua[i]] == tb[ub[i]] by {
        assert(tb[ub[i]] == ta[tp[ub[i]]]);
    }
    lemma_enc_trans_eq(ta, ua, tb, ub);
}

/// The actions of the records of phase `p`, in record order.
pub open spec fn phase_actions(raw: Seq<ActionRecord>, p: ActionPhase) -> Seq<ActionId>
    decreases raw.len(),
{
    if raw.len() == 0 {
        Seq::empty()
    } else {
        phase_actions(raw.drop_last(), p) + if raw.last().phase == p {
            seq![raw.last().action]
        } else {
            Seq::<ActionId>::empty()
        }
    }
}

proof fn lemma_phase_actions_concat(a: Seq<ActionRecord>, b: Seq<ActionRecord>, p: ActionPhase)
    ensures
        phase_actions(a + b, p) == phase_actions(a, p) + phase_actions(b, p),
    decreases b.len(),
{
    if b.len() == 0 {
        assert(a + b =~= a);
        assert(phase_actions(b, p) =~= Seq::<ActionId>::empty());
        assert(phase_actions(a, p) + phase_actions(b, p) =~= phase_actions(a, p));
    } else {
        lemma_phase_actions_concat(a, b.drop_last(), p);
        assert((a + b).drop_last() =~= a + b.drop_last());
        assert((a + b).last() == b.last());
        let tail = if b.last().phase == p {
            seq![b.last().action]
        } else {
            Seq::<ActionId>::empty()
        };
        assert(phase_actions(a, p) + phase_actions(b.drop_last(), p) + tail =~= phase_actions(a, p) + (
        phase_actions(b.drop_last(), p) + tail));
    }
}

proof fn lemma_phase_actions_other(raw: Seq<ActionRecord>, q: ActionPhase, p: ActionPhase)
    requires
        all_phase(raw, q),
        q != p,
    ensures
        phase_actions(raw, p) == Seq::<ActionId>::empty(),
    decreases raw.len(),
{
    if raw.len() > 0 {
        assert(all_phase(raw.drop_last(), q));
        lemma_phase_actions_other(raw.drop_last(), q, p);
        assert(raw.last() == raw[raw.len() - 1]);
        assert(phase_actions(raw, p) =~= Seq::<ActionId>::empty());
    }
}

/// The records made for one action list carry that list, one record per action in
/// the order the list declares, each with the given phase, state and activation.
pub proof fn law_records_follow_their_list(phase: ActionPhase, state: StateId, seq: u64, acts: Seq<ActionId>)
    ensures
        recs(phase, state, seq, acts).len() == acts.len(),
        forall|j: int| 0 <= j < acts.len() ==> {
            let r = #[trigger] recs(phase, state, seq, acts)[j];
            &&& r.action == acts[j]
            &&& r.phase == phase
            &&& r.state == state
            &&& r.activation_seq.0 == seq
        },
        phase_actions(recs(phase, state, seq, acts), phase) == acts,
    decreases acts.len(),
{
    if acts.len() > 0 {
        law_records_follow_their_list(phase, state, seq, acts.drop_last());
        assert(recs(phase, state, seq, acts).drop_last() =~= recs(phase, state, seq, acts.drop_last()));
        assert(phase_actions(recs(phase, state, seq, acts), phase) =~= acts);
    } else {
        assert(recs(phase, state, seq, acts) =~= Seq::<ActionRecord>::empty());
    }
}

/// Numbering the records for the plan keeps their phases and actions in order.
pub proof fn law_numbering_keeps_actions(raw: Seq<ActionRecord>, index: u32, p: ActionPhase)
    ensures
        phase_actions(number(raw, index), p) == phase_actions(raw, p),
    decreases raw.len(),
{
    if raw.len() > 0 {
        law_numbering_keeps_actions(raw.drop_last(), index, p);
        assert(number(raw, index).drop_last() =~= number(raw.drop_last(), index));
        assert(number(raw, index).last().phase == raw.last().phase);
        assert(number(raw, index).last().action == raw.last().action);
    }
}

/// A transition's own actions are planned in the order it declares them: for an
/// event that takes a transition, the plan's transition-phase records carry exactly
/// that transition's action list, first action first, whatever kind the transition is.
pub proof fn law_transition_actions_in_declared_order(item: BatchItem)
    requires
        item.kind is Event,
        (*item.definition).well_formed(),
        item_out(item).outcome is Transitioned,
    ensures
        ({
            let ts = (*item.definition).spec_transitions();
            let t = ts[tidx_of(ts, item_out(item).outcome->transition)];
            phase_actions(item_out(item).raw, ActionPhase::Transition) == t.actions
        }),
{
    let def = *item.definition;
    def.lemma_well_formed();
    let ss = def.spec_states();
    let ts = def.spec_transitions();
    let s = *item.snapshot->0;
    let path = s.active_path@;
    let event = item.kind->event;
    let entries = item.guards.view_entries();
    lemma_select_in_range(ts, path, event, entries, path.len() as int);
    match select_from(ts, path, event, entries, path.len() as int) {
        Ok(Some((level, ti))) => {
            let t = ts[ti];
            assert(crate::hfsm::compile::has_tid(ts, t.id));
            let w = tidx_of(ts, t.id);
            assert(ts[w].id == t.id);
            assert(w == ti);
            let source = path[level];
            law_records_follow_their_list(ActionPhase::Transition, source.state, source.activation_seq.0, t.actions);
            match t.kind {
                TransitionKind::Internal => {},
                _ => {
                    let o = item_out(item);
                    let keep = match t.kind {
                        TransitionKind::Local { target } => level + 1,
                        _ => crate::hfsm::evaluate::external_keep(
                            path,
                            crate::hfsm::compile::strict_common_ancestor(ss, t.source, t.kind->External_target),
                        ),
                    };
                    let target = match t.kind {
                        TransitionKind::Local { target } => target,
                        TransitionKind::External { target } => target,
                        _ => t.source,
                    };
                    let boundary = if keep == 0 {
                        None
                    } else {
                        Some(path[keep - 1].state)
                    };
                    let entered = crate::hfsm::evaluate::anc_upto(ss, Some(target), boundary, ss.len())
                        + crate::hfsm::compile::init_chain(ss, target, ss.len());
                    let ex = exits_down(ss, path, keep, path.len() as int);
                    let tr = recs(ActionPhase::Transition, source.state, source.activation_seq.0, t.actions);
                    let en = enter_recs(ss, entered, s.next_activation_seq.0);
                    assert(o == apply_out(ss, s, crate::hfsm::snapshot::SnapshotHeader { step_seq: crate::hfsm::ids::StepSeq((s.step_seq.0 + 1) as u64), ..crate::hfsm::snapshot::header_of(s) }, keep, source, t, target));
                    assert(o.raw == ex + tr + en);
                    lemma_exits_phase(ss, path, keep, path.len() as int);
                    lemma_enter_phase(ss, entered, s.next_activation_seq.0);
                    lemma_phase_actions_other(ex, ActionPhase::Exit, ActionPhase::Transition);
                    lemma_phase_actions_other(en, ActionPhase::Enter, ActionPhase::Transition);
                    lemma_phase_actions_concat(ex, tr, ActionPhase::Transition);
                    lemma_phase_actions_concat(ex + tr, en, ActionPhase::Transition);
                    assert(phase_actions(ex, ActionPhase::Transition) + phase_actions(tr, ActionPhase::Transition)
                        =~= t.actions);
                    assert(phase_actions(ex + tr, ActionPhase::Transition) + phase_actions(en, ActionPhase::Transition)
                        =~= t.actions);
                },
            }
        },
        _ => {},
    }
}

} // verus!
