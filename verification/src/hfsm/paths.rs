//! Why every snapshot the evaluator produces is one the definition accepts: the
//! active configuration stays a single chain from a top-level state to a leaf.
use vstd::prelude::*;
use crate::hfsm::ids::{EventKind, GuardId, Lifecycle, StateId, TransitionKind};
use crate::hfsm::compile::{
    CompiledDefinition, TNode, def_fingerprint, group, is_key_list, key_list, key_of, key_of_pair,
    lemma_group_well_defined, local_bad, table_ok, tr_ref_bad,
};
use crate::hfsm::evaluate::{
    BatchItem, ItemKind, Pick, anc_upto, apply_out, event_out, external_keep, item_out, scan_candidates,
    select_from, seq_path, start_chain, start_out, state_pred, stop_out,
};
use crate::hfsm::snapshot::{SnapshotHeader, header_of};
use crate::hfsm::plan::{ActionPhase, ActionRecord};
use crate::hfsm::evaluate::{enter_recs, exits_down, recs};
use crate::hfsm::compile::{first_common, strict_common_ancestor, tidx_of, unique_tids, has_tid};
use crate::hfsm::plan::Outcome;
use crate::hfsm::order::{first_where, lemma_first_where, lemma_first_where_is};
use crate::hfsm::snapshot::{ActiveState, Snapshot, elem_bad, elem_pred, path_prev, snapshot_failure};
use crate::hfsm::compile::{
    SNode, acyclic, chain_len, depth_at, depth_scan, has_id, idx_of, init_chain, initial_bad,
    initial_in, lemma_depth_parent, lemma_idx_of, max2, max_depth_of, on_chain, parent_in, refs_ok,
    state_ref_bad, structure_ok, unique_ids,
};

verus! {

/// Depth of a known state, or 0 for the synthetic root.
pub open spec fn depth_of(ss: Seq<SNode>, x: Option<StateId>) -> nat {
    match x {
        None => 0,
        Some(s) => depth_at(ss, idx_of(ss, s)),
    }
}

/// `c` hangs below `top` one parent step at a time, through known states.
pub open spec fn chain_below(ss: Seq<SNode>, c: Seq<StateId>, top: Option<StateId>) -> bool {
    forall|i: int| 0 <= i < c.len() ==> has_id(ss, #[trigger] c[i]) && parent_in(ss, c[i]) == (if i == 0 {
        top
    } else {
        Some(c[i - 1])
    })
}

/// The last state of `c`, or `top` when `c` is empty.
pub open spec fn last_or(c: Seq<StateId>, top: Option<StateId>) -> Option<StateId> {
    if c.len() == 0 {
        top
    } else {
        Some(c.last())
    }
}

/// Every composite state names a direct child as initial; no leaf names one.
pub open spec fn initials_ok(ss: Seq<SNode>) -> bool {
    forall|j: int| 0 <= j < ss.len() ==> !#[trigger] initial_bad(ss, j)
}

/// Depth grows by one per step down a chain.
pub proof fn lemma_chain_depth(ss: Seq<SNode>, c: Seq<StateId>, top: Option<StateId>, i: int)
    requires
        structure_ok(ss),
        chain_below(ss, c, top),
        top matches Some(t) ==> has_id(ss, t),
        0 <= i < c.len(),
    ensures
        depth_of(ss, Some(c[i])) == depth_of(ss, top) + i + 1,
    decreases i,
{
    let k = idx_of(ss, c[i]);
    assert(has_id(ss, c[i]));
    lemma_idx_of_id(ss, c[i]);
    lemma_depth_parent(ss, k);
    if i == 0 {
        match top {
            None => {},
            Some(t) => {
                lemma_idx_of_id(ss, t);
            },
        }
    } else {
        lemma_chain_depth(ss, c, top, i - 1);
        lemma_idx_of_id(ss, c[i - 1]);
    }
}

/// `idx_of` finds a known id.
pub proof fn lemma_idx_of_id(ss: Seq<SNode>, id: StateId)
    requires
        unique_ids(ss),
        has_id(ss, id),
    ensures
        0 <= idx_of(ss, id) < ss.len(),
        ss[idx_of(ss, id)].id == id,
{
}

/// No state is deeper than the deepest.
pub proof fn lemma_depth_le_max(ss: Seq<SNode>, i: int, k: int)
    requires
        0 <= i < k <= ss.len(),
    ensures
        depth_at(ss, i) <= depth_scan(ss, k),
    decreases k,
{
    if i < k - 1 {
        lemma_depth_le_max(ss, i, k - 1);
    }
}

/// The deepest state is no deeper than the table is long.
pub proof fn lemma_max_depth_le_len(ss: Seq<SNode>, k: int)
    requires
        acyclic(ss),
        0 <= k <= ss.len(),
    ensures
        depth_scan(ss, k) <= ss.len(),
    decreases k,
{
    if k > 0 {
        lemma_max_depth_le_len(ss, k - 1);
        assert(depth_at(ss, k - 1) <= ss.len());
    }
}

/// The initial chain below `s` hangs below `s` and ends at a leaf.
pub proof fn lemma_init_chain(ss: Seq<SNode>, s: StateId, fuel: nat)
    requires
        structure_ok(ss),
        initials_ok(ss),
        has_id(ss, s),
        fuel + depth_of(ss, Some(s)) > ss.len(),
    ensures
        chain_below(ss, init_chain(ss, s, fuel), Some(s)),
        initial_in(ss, last_or(init_chain(ss, s, fuel), Some(s))->0) is None,
        last_or(init_chain(ss, s, fuel), Some(s)) is Some,
        has_id(ss, last_or(init_chain(ss, s, fuel), Some(s))->0),
    decreases fuel,
{
    let j = idx_of(ss, s);
    lemma_idx_of_id(ss, s);
    match initial_in(ss, s) {
        None => {},
        Some(c) => {
            assert(!initial_bad(ss, j));
            assert(!state_ref_bad(ss, j));
            assert(has_id(ss, c));
            lemma_idx_of_id(ss, c);
            assert(parent_in(ss, c) == Some(s));
            let kc = idx_of(ss, c);
            lemma_depth_parent(ss, kc);
            assert(depth_at(ss, kc) <= ss.len());
            assert(fuel > 0);
            lemma_init_chain(ss, c, (fuel - 1) as nat);
            let rest = init_chain(ss, c, (fuel - 1) as nat);
            let whole = seq![c] + rest;
            assert(init_chain(ss, s, fuel) == whole);
            assert forall|i: int| 0 <= i < whole.len() implies has_id(ss, #[trigger] whole[i]) && parent_in(
                ss,
                whole[i],
            ) == (if i == 0 {
                Some(s)
            } else {
                Some(whole[i - 1])
            }) by {
                if i > 0 {
                    assert(whole[i] == rest[i - 1]);
                    if i > 1 {
                        assert(whole[i - 1] == rest[i - 2]);
                    }
                }
            }
            if rest.len() > 0 {
                assert(whole.last() == rest.last());
            }
        },
    }
}

/// The ancestors of `s` strictly below `boundary` hang below `boundary` and end at `s`,
/// where `boundary` is the synthetic root or `s` or an ancestor of `s`.
pub proof fn lemma_anc_upto(ss: Seq<SNode>, s: StateId, boundary: Option<StateId>, fuel: nat, g: nat)
    requires
        structure_ok(ss),
        has_id(ss, s),
        boundary matches Some(b) ==> on_chain(ss, Some(s), b, g),
        fuel >= depth_of(ss, Some(s)),
    ensures
        ({
            let r = crate::hfsm::evaluate::anc_upto(ss, Some(s), boundary, fuel);
            &&& chain_below(ss, r, boundary)
            &&& boundary == Some(s) ==> r.len() == 0
            &&& boundary != Some(s) ==> r.len() > 0 && r.last() == s
        }),
    decreases fuel,
{
    let j = idx_of(ss, s);
    lemma_idx_of_id(ss, s);
    lemma_depth_parent(ss, j);
    if boundary != Some(s) {
        assert(fuel > 0);
        assert(!state_ref_bad(ss, j));
        match parent_in(ss, s) {
            None => {
                match boundary {
                    None => {},
                    Some(b) => {
                        assert(on_chain(ss, None, b, (g - 1) as nat) == false);
                    },
                }
                assert(crate::hfsm::evaluate::anc_upto(ss, None, boundary, (fuel - 1) as nat) =~= Seq::<
                    StateId,
                >::empty());
                let r = crate::hfsm::evaluate::anc_upto(ss, Some(s), boundary, fuel);
                assert(r =~= Seq::<StateId>::empty().push(s));
            },
            Some(p) => {
                lemma_idx_of_id(ss, p);
                lemma_anc_upto(ss, p, boundary, (fuel - 1) as nat, (g - 1) as nat);
                let r0 = crate::hfsm::evaluate::anc_upto(ss, Some(p), boundary, (fuel - 1) as nat);
                let r = r0.push(s);
                assert(crate::hfsm::evaluate::anc_upto(ss, Some(s), boundary, fuel) == r);
                assert forall|i: int| 0 <= i < r.len() implies has_id(ss, #[trigger] r[i]) && parent_in(
                    ss,
                    r[i],
                ) == (if i == 0 {
                    boundary
                } else {
                    Some(r[i - 1])
                }) by {
                    if i < r0.len() {
                        assert(r[i] == r0[i]);
                        if i > 0 {
                            assert(r[i - 1] == r0[i - 1]);
                        }
                    } else {
                        assert(r[i] == s);
                        if i > 0 {
                            assert(r[i - 1] == r0.last());
                        }
                    }
                }
            },
        }
    }
}

/// Two chains, the second hanging below the end of the first, make one chain.
pub proof fn lemma_chain_concat(ss: Seq<SNode>, a: Seq<StateId>, b: Seq<StateId>, top: Option<StateId>)
    requires
        chain_below(ss, a, top),
        chain_below(ss, b, last_or(a, top)),
    ensures
        chain_below(ss, a + b, top),
        last_or(a + b, top) == last_or(b, last_or(a, top)),
{
    let c = a + b;
    assert forall|i: int| 0 <= i < c.len() implies has_id(ss, #[trigger] c[i]) && parent_in(ss, c[i]) == (if i
        == 0 {
        top
    } else {
        Some(c[i - 1])
    }) by {
        if i < a.len() {
            assert(c[i] == a[i]);
            if i > 0 {
                assert(c[i - 1] == a[i - 1]);
            }
        } else {
            assert(c[i] == b[i - a.len()]);
            if i > a.len() {
                assert(c[i - 1] == b[i - 1 - a.len()]);
            } else if i > 0 {
                assert(c[i - 1] == a.last());
            }
        }
    }
    if b.len() > 0 {
        assert(c.last() == b.last());
    }
}

/// More fuel finds what less fuel found.
pub proof fn lemma_on_chain_mono(ss: Seq<SNode>, x: Option<StateId>, a: StateId, f: nat)
    requires
        on_chain(ss, x, a, f),
    ensures
        on_chain(ss, x, a, f + 1),
    decreases f,
{
    match x {
        None => {},
        Some(s) => if s != a {
            lemma_on_chain_mono(ss, parent_in(ss, s), a, (f - 1) as nat);
        },
    }
}

/// The parent of a state on a chain is on the chain too.
pub proof fn lemma_on_chain_parent(ss: Seq<SNode>, x: Option<StateId>, l: StateId, d: StateId, f: nat)
    requires
        on_chain(ss, x, l, f),
        parent_in(ss, l) == Some(d),
    ensures
        on_chain(ss, x, d, f + 1),
    decreases f,
{
    match x {
        None => {},
        Some(s) => {
            if s == l {
                assert(on_chain(ss, Some(d), d, f));
            } else {
                lemma_on_chain_parent(ss, parent_in(ss, s), l, d, (f - 1) as nat);
            }
        },
    }
}

/// What `first_common` finds lies on both chains.
pub proof fn lemma_first_common(ss: Seq<SNode>, x: Option<StateId>, a: StateId, fuel: nat)
    ensures
        crate::hfsm::compile::first_common(ss, x, a, fuel) matches Some(l) ==> on_chain(ss, x, l, fuel) && on_chain(
            ss,
            Some(a),
            l,
            ss.len(),
        ),
    decreases fuel,
{
    match x {
        None => {},
        Some(s) => if fuel > 0 && !on_chain(ss, Some(a), s, ss.len()) {
            lemma_first_common(ss, parent_in(ss, s), a, (fuel - 1) as nat);
        },
    }
}

/// The domain of an external transition is an ancestor (or the state itself) of both
/// its source and its target.
pub proof fn lemma_domain_on_chains(ss: Seq<SNode>, a: StateId, b: StateId)
    ensures
        crate::hfsm::compile::strict_common_ancestor(ss, a, b) matches Some(d) ==> on_chain(
            ss,
            Some(a),
            d,
            ss.len() + 1,
        ) && on_chain(ss, Some(b), d, ss.len() + 1),
{
    lemma_first_common(ss, Some(b), a, ss.len());
    match crate::hfsm::compile::first_common(ss, Some(b), a, ss.len()) {
        Some(l) => {
            if l == a || l == b {
                match parent_in(ss, l) {
                    Some(d) => {
                        lemma_on_chain_parent(ss, Some(a), l, d, ss.len());
                        lemma_on_chain_parent(ss, Some(b), l, d, ss.len());
                    },
                    None => {},
                }
            } else {
                lemma_on_chain_mono(ss, Some(a), l, ss.len());
                lemma_on_chain_mono(ss, Some(b), l, ss.len());
            }
        },
        None => {},
    }
}

/// An ancestor of a state on a top-level chain sits on that chain, at its depth.
pub proof fn lemma_ancestor_on_chain(ss: Seq<SNode>, c: Seq<StateId>, level: int, d: StateId, g: nat) -> (j: int)
    requires
        structure_ok(ss),
        chain_below(ss, c, None),
        0 <= level < c.len(),
        on_chain(ss, Some(c[level]), d, g),
    ensures
        0 <= j <= level,
        c[j] == d,
        j + 1 == depth_of(ss, Some(d)),
    decreases level,
{
    if c[level] == d {
        lemma_chain_depth(ss, c, None, level);
        level
    } else {
        assert(parent_in(ss, c[level]) == (if level == 0 {
            None
        } else {
            Some(c[level - 1])
        }));
        if level == 0 {
            assert(!on_chain(ss, None, d, (g - 1) as nat));
            assert(false);
            0
        } else {
            lemma_ancestor_on_chain(ss, c, level - 1, d, (g - 1) as nat)
        }
    }
}

/// States on a top-level chain are distinct: each sits at its own depth.
pub proof fn lemma_chain_distinct(ss: Seq<SNode>, c: Seq<StateId>, i: int, j: int)
    requires
        structure_ok(ss),
        chain_below(ss, c, None),
        0 <= i < j < c.len(),
    ensures
        c[i] != c[j],
{
    lemma_chain_depth(ss, c, None, i);
    lemma_chain_depth(ss, c, None, j);
}

/// The states of a path, top-level first.
pub open spec fn states_of(path: Seq<ActiveState>) -> Seq<StateId> {
    Seq::new(path.len(), |i: int| path[i].state)
}

/// Activations on `path` are numbered from 1 and lie below `next`.
pub open spec fn seqs_below(path: Seq<ActiveState>, next: u64) -> bool {
    forall|i: int| 0 <= i < path.len() ==> 1 <= (#[trigger] path[i]).activation_seq.0 < next
}

/// What an accepted snapshot tells of its path.
pub proof fn lemma_valid_snapshot(s: Snapshot, def: CompiledDefinition)
    requires
        def.well_formed(),
        snapshot_failure(s, def) is None,
    ensures
        s.fingerprint == def_fingerprint(def),
        (s.lifecycle == Lifecycle::Running) == (s.active_path@.len() > 0),
        chain_below(def.spec_states(), states_of(s.active_path@), None),
        seqs_below(s.active_path@, s.next_activation_seq.0),
{
    let ss = def.spec_states();
    let path = s.active_path@;
    let p = elem_pred(ss, path, s.next_activation_seq);
    lemma_first_where(path.len(), p);
    assert forall|i: int| 0 <= i < path.len() implies !elem_bad(ss, path, s.next_activation_seq, i) by {
        assert(!p(i));
    }
    let c = states_of(path);
    assert forall|i: int| 0 <= i < c.len() implies has_id(ss, #[trigger] c[i]) && parent_in(ss, c[i]) == (if i
        == 0 {
        None
    } else {
        Some(c[i - 1])
    }) by {
        assert(!elem_bad(ss, path, s.next_activation_seq, i));
    }
    assert forall|i: int| 0 <= i < path.len() implies 1 <= (#[trigger] path[i]).activation_seq.0
        < s.next_activation_seq.0 by {
        assert(!elem_bad(ss, path, s.next_activation_seq, i));
    }
}

/// A running snapshot whose path is a top-level chain to a leaf, numbered below its
/// next activation, is accepted.
pub proof fn lemma_accepted(n: Snapshot, def: CompiledDefinition)
    requires
        def.well_formed(),
        n.fingerprint == def_fingerprint(def),
        n.lifecycle == Lifecycle::Running,
        n.active_path@.len() > 0,
        chain_below(def.spec_states(), states_of(n.active_path@), None),
        seqs_below(n.active_path@, n.next_activation_seq.0),
        initial_in(def.spec_states(), n.active_path@.last().state) is None,
    ensures
        snapshot_failure(n, def) is None,
{
    let ss = def.spec_states();
    def.lemma_well_formed();
    let path = n.active_path@;
    let c = states_of(path);
    let last = (path.len() - 1) as int;
    lemma_chain_depth(ss, c, None, last);
    assert(has_id(ss, c[last]));
    lemma_idx_of_id(ss, c[last]);
    lemma_depth_le_max(ss, idx_of(ss, c[last]), ss.len() as int);
    lemma_max_depth_le_len(ss, ss.len() as int);
    assert(path.len() == depth_of(ss, Some(c[last])));
    assert(path.len() <= max_depth_of(ss));
    assert(path.len() <= u32::MAX);
    let p = elem_pred(ss, path, n.next_activation_seq);
    assert forall|j: int| 0 <= j < path.len() implies !#[trigger] p(j) by {
        assert(has_id(ss, c[j]));
        assert(c[j] == path[j].state);
        if j > 0 {
            assert(c[j - 1] == path[j - 1].state);
        }
        assert(parent_in(ss, path[j].state) == path_prev(path, j));
        assert(1 <= path[j].activation_seq.0 < n.next_activation_seq.0);
    }
    lemma_first_where_is(path.len(), p, path.len() as int);
}

/// A stopped or not-started snapshot with no path is accepted.
pub proof fn lemma_accepted_empty(n: Snapshot, def: CompiledDefinition)
    requires
        n.fingerprint == def_fingerprint(def),
        n.lifecycle != Lifecycle::Running,
        n.active_path@.len() == 0,
    ensures
        snapshot_failure(n, def) is None,
{
    let ss = def.spec_states();
    let path = n.active_path@;
    lemma_first_where_is(0, elem_pred(ss, path, n.next_activation_seq), 0);
}

/// A transition picked from a candidate list is one of that list's.
proof fn lemma_scan_member(ts: Seq<TNode>, l: Seq<int>, entries: Seq<(GuardId, bool)>, k: int)
    ensures
        scan_candidates(ts, l, entries, k) matches Pick::Found(ti) ==> l.contains(ti),
    decreases l.len() - k,
{
    if 0 <= k < l.len() {
        lemma_scan_member(ts, l, entries, k + 1);
    }
}

/// The transition the evaluator selects is declared on the path state it was found at.
pub proof fn lemma_select_source(
    ts: Seq<TNode>,
    path: Seq<ActiveState>,
    e: EventKind,
    entries: Seq<(GuardId, bool)>,
    level: int,
)
    requires
        is_key_list(ts, key_list(ts)),
    ensures
        select_from(ts, path, e, entries, level) matches Ok(Some((lv, ti))) ==> 0 <= ti < ts.len() && 0 <= lv
            < level && ts[ti].source == path[lv].state,
    decreases level,
{
    if level > 0 {
        let key = key_of_pair(path[level - 1].state, e);
        let l = group(ts, key);
        lemma_group_well_defined(ts, key);
        lemma_scan_member(ts, l, entries, 0);
        match scan_candidates(ts, l, entries, 0) {
            Pick::Found(ti) => {
                assert(l.contains(ti));
                assert(key_of(ts[ti]) == key);
                assert(ts[ti].source.0 == path[level - 1].state.0);
            },
            _ => {},
        }
        lemma_select_source(ts, path, e, entries, level - 1);
    }
}

/// Exiting above `keep` and entering down to `target` and its initial chain leaves an
/// accepted snapshot, when the state at `keep - 1` (or the synthetic root when `keep`
/// is 0) is an ancestor of `target` or `target` itself.
pub proof fn lemma_apply_accepted(
    def: CompiledDefinition,
    s: Snapshot,
    header: SnapshotHeader,
    keep: int,
    source: ActiveState,
    t: TNode,
    target: StateId,
    g: nat,
    n: Snapshot,
)
    requires
        def.well_formed(),
        snapshot_failure(s, def) is None,
        s.active_path@.len() > 0,
        0 <= keep <= s.active_path@.len(),
        has_id(def.spec_states(), target),
        keep > 0 ==> on_chain(def.spec_states(), Some(target), s.active_path@[keep - 1].state, g),
        header.fingerprint == s.fingerprint,
        header.lifecycle == Lifecycle::Running,
        header.next_activation_seq == s.next_activation_seq,
        apply_out(def.spec_states(), s, header, keep, source, t, target).next matches Some(h) && header_of(n) == h,
        n.active_path@ == apply_out(def.spec_states(), s, header, keep, source, t, target).path,
    ensures
        snapshot_failure(n, def) is None,
{
    let ss = def.spec_states();
    def.lemma_well_formed();
    lemma_valid_snapshot(s, def);
    let path = s.active_path@;
    let next = s.next_activation_seq.0;
    let c = states_of(path);
    let boundary = if keep == 0 {
        None
    } else {
        Some(path[keep - 1].state)
    };
    lemma_idx_of_id(ss, target);
    lemma_depth_parent(ss, idx_of(ss, target));
    lemma_anc_upto(ss, target, boundary, ss.len(), g);
    lemma_init_chain(ss, target, ss.len());
    let anc = anc_upto(ss, Some(target), boundary, ss.len());
    let init = init_chain(ss, target, ss.len());
    let entered = anc + init;
    assert(last_or(anc, boundary) == Some(target));
    lemma_chain_concat(ss, anc, init, boundary);
    let prefix = c.subrange(0, keep);
    assert(chain_below(ss, prefix, None)) by {
        assert forall|i: int| 0 <= i < prefix.len() implies has_id(ss, #[trigger] prefix[i]) && parent_in(
            ss,
            prefix[i],
        ) == (if i == 0 {
            None
        } else {
            Some(prefix[i - 1])
        }) by {
            assert(prefix[i] == c[i]);
            if i > 0 {
                assert(prefix[i - 1] == c[i - 1]);
            }
        }
    }
    if keep > 0 {
        assert(prefix.last() == c[keep - 1]);
    }
    assert(last_or(prefix, None) == boundary);
    lemma_chain_concat(ss, prefix, entered, None);
    let np = path.subrange(0, keep) + seq_path(entered, next);
    assert(n.active_path@ == np);
    assert(states_of(np) =~= prefix + entered);
    let whole = prefix + entered;
    assert(whole.len() > 0) by {
        if keep == 0 {
            assert(anc.len() > 0);
        }
    }
    assert(np.last().state == whole.last()) by {
        assert(states_of(np)[np.len() - 1] == whole[whole.len() - 1]);
    }
    assert(next >= 2) by {
        assert(1 <= path[0].activation_seq.0 < next);
    }
    let nn = n.next_activation_seq.0;
    assert(nn == next + entered.len());
    assert forall|i: int| 0 <= i < np.len() implies 1 <= (#[trigger] np[i]).activation_seq.0 < nn by {
        if i < keep {
            assert(np[i] == path[i]);
            assert(1 <= path[i].activation_seq.0 < next);
        } else {
            assert(np[i] == seq_path(entered, next)[i - keep]);
        }
    }
    lemma_accepted(n, def);
}

/// Where an event's selected transition cuts the path: how much of it is kept, and
/// that the state at the cut is an ancestor of the target (or the target itself).
proof fn lemma_event_cut(item: BatchItem, event: EventKind, level: int, ti: int) -> (r: (int, StateId, nat))
    requires
        (*item.definition).well_formed(),
        item.kind == (ItemKind::Event { event }),
        item.snapshot is Some,
        snapshot_failure(*item.snapshot->0, *item.definition) is None,
        select_from(
            (*item.definition).spec_transitions(),
            (*item.snapshot->0).active_path@,
            event,
            item.guards.view_entries(),
            (*item.snapshot->0).active_path@.len() as int,
        ) == Ok::<Option<(int, int)>, crate::hfsm::plan::ItemError>(Some((level, ti))),
        !((*item.definition).spec_transitions()[ti].kind is Internal),
    ensures
        ({
            let def = *item.definition;
            let ss = def.spec_states();
            let ts = def.spec_transitions();
            let path = (*item.snapshot->0).active_path@;
            let (keep, target, g) = r;
            &&& 0 <= level < path.len()
            &&& 0 <= ti < ts.len()
            &&& ts[ti].kind.spec_target() == Some(target)
            &&& keep == (match ts[ti].kind {
                TransitionKind::Local { target } => level + 1,
                TransitionKind::External { target } => external_keep(
                    path,
                    crate::hfsm::compile::strict_common_ancestor(ss, ts[ti].source, target),
                ),
                TransitionKind::Internal => 0,
            })
            &&& 0 <= keep <= level + 1
            &&& has_id(ss, target)
            &&& keep > 0 ==> on_chain(ss, Some(target), path[keep - 1].state, g)
        }),
{
    let def = *item.definition;
    let ss = def.spec_states();
    let ts = def.spec_transitions();
    def.lemma_well_formed();
    let s = *item.snapshot->0;
    let path = s.active_path@;
    let entries = item.guards.view_entries();
    lemma_valid_snapshot(s, def);
    lemma_select_source(ts, path, event, entries, path.len() as int);
    let t = ts[ti];
    let c = states_of(path);
    assert(c[level] == t.source);
    assert(!tr_ref_bad(ss, ts, ti));
    match t.kind {
        TransitionKind::Local { target } => {
            assert(!local_bad(ss, ts, ti));
            assert(on_chain(ss, Some(target), t.source, ss.len() + 1));
            (level + 1, target, (ss.len() + 1) as nat)
        },
        TransitionKind::External { target } => {
            let domain = crate::hfsm::compile::strict_common_ancestor(ss, t.source, target);
            lemma_domain_on_chains(ss, t.source, target);
            match domain {
                None => (0, target, 0),
                Some(d) => {
                    let j = lemma_ancestor_on_chain(ss, c, level, d, ss.len() + 1);
                    assert forall|i: int| 0 <= i < j implies !#[trigger] state_pred(path, d)(i) by {
                        lemma_chain_distinct(ss, c, i, j);
                        assert(c[i] == path[i].state);
                    }
                    assert(state_pred(path, d)(j));
                    lemma_first_where_is(path.len(), state_pred(path, d), j);
                    assert(path[j].state == d);
                    (j + 1, target, (ss.len() + 1) as nat)
                },
            }
        },
        TransitionKind::Internal => (0, t.source, 0),
    }
}

/// The event case of `law_next_snapshot_is_accepted`.
#[verifier::spinoff_prover]
proof fn lemma_event_accepted(item: BatchItem, event: EventKind, n: Snapshot)
    requires
        (*item.definition).well_formed(),
        item.kind == (ItemKind::Event { event }),
        item_out(item).next matches Some(h) && header_of(n) == h,
        n.active_path@ == item_out(item).path,
    ensures
        snapshot_failure(n, *item.definition) is None,
{
    let def = *item.definition;
    let ss = def.spec_states();
    let ts = def.spec_transitions();
    def.lemma_well_formed();
    let s = *item.snapshot->0;
    let path = s.active_path@;
    let entries = item.guards.view_entries();
    lemma_valid_snapshot(s, def);
    let header = SnapshotHeader { step_seq: crate::hfsm::ids::StepSeq((s.step_seq.0 + 1) as u64), ..header_of(s) };
    match select_from(ts, path, event, entries, path.len() as int) {
        Ok(Some((level, ti))) => {
            let t = ts[ti];
            let source = path[level];
            if t.kind is Internal {
                assert(n.active_path@ == path);
                lemma_accepted(n, def);
            } else {
                let (keep, target, g) = lemma_event_cut(item, event, level, ti);
                lemma_apply_accepted(def, s, header, keep, source, t, target, g, n);
            }
        },
        _ => {
            assert(n.active_path@ == path);
            if path.len() > 0 {
                lemma_accepted(n, def);
            }
        },
    }
}

/// Every snapshot the evaluator hands back is one its definition accepts: a started or
/// transitioned machine's path is a chain from a top-level state down to a leaf,
/// numbered below its next activation, and a stopped machine has no path. (A start
/// from a snapshot whose next activation is 0 would number its first state 0, which
/// no snapshot may hold.)
#[verifier::spinoff_prover]
pub proof fn law_next_snapshot_is_accepted(item: BatchItem, n: Snapshot)
    requires
        (*item.definition).well_formed(),
        item_out(item).next matches Some(h) && header_of(n) == h,
        n.active_path@ == item_out(item).path,
        item.kind is Start && item.snapshot is Some ==> (*item.snapshot->0).next_activation_seq.0 >= 1,
    ensures
        snapshot_failure(n, *item.definition) is None,
{
    let def = *item.definition;
    let ss = def.spec_states();
    let ts = def.spec_transitions();
    def.lemma_well_formed();
    match item.kind {
        ItemKind::Start { epoch } => {
            let chain = start_chain(def);
            let root = def.spec_root();
            let next: u64 = match item.snapshot {
                None => 1,
                Some(s) => s.next_activation_seq.0,
            };
            lemma_idx_of_id(ss, root);
            lemma_depth_parent(ss, idx_of(ss, root));
            lemma_init_chain(ss, root, ss.len());
            let init = init_chain(ss, root, ss.len());
            let head = seq![root];
            assert(chain_below(ss, head, None));
            lemma_chain_concat(ss, head, init, None);
            assert(chain == head + init);
            let path = seq_path(chain, next);
            assert(n.active_path@ == path);
            assert(states_of(path) =~= chain);
            assert(path.last().state == chain.last()) by {
                assert(states_of(path)[path.len() - 1] == chain[chain.len() - 1]);
            }
            assert(last_or(chain, None) == last_or(init, Some(root)));
            lemma_accepted(n, def);
        },
        ItemKind::Stop => {
            let s = *item.snapshot->0;
            lemma_valid_snapshot(s, def);
            lemma_accepted_empty(n, def);
        },
        ItemKind::Event { event } => {
            lemma_event_accepted(item, event, n);
        },
    }
}

/// Exit records run leaf-first: no exit is for a shallower state than a later exit.
pub open spec fn exits_leaf_first(ss: Seq<SNode>, raw: Seq<ActionRecord>) -> bool {
    forall|i: int, j: int|
        0 <= i < j < raw.len() && (#[trigger] raw[i]).phase == ActionPhase::Exit && (#[trigger] raw[j]).phase
            == ActionPhase::Exit ==> depth_of(ss, Some(raw[i].state)) >= depth_of(ss, Some(raw[j].state))
}

/// Entry records run outer-first: no entry is for a deeper state than a later entry.
pub open spec fn enters_outer_first(ss: Seq<SNode>, raw: Seq<ActionRecord>) -> bool {
    forall|i: int, j: int|
        0 <= i < j < raw.len() && (#[trigger] raw[i]).phase == ActionPhase::Enter && (#[trigger] raw[j]).phase
            == ActionPhase::Enter ==> depth_of(ss, Some(raw[i].state)) <= depth_of(ss, Some(raw[j].state))
}

/// The exit records of `path[lo..hi]` are exits, from depth `hi` up to depth `lo + 1`.
proof fn lemma_exits_depth(ss: Seq<SNode>, path: Seq<ActiveState>, lo: int, hi: int)
    requires
        structure_ok(ss),
        chain_below(ss, states_of(path), None),
        0 <= lo <= hi <= path.len(),
    ensures
        ({
            let e = exits_down(ss, path, lo, hi);
            &&& forall|k: int| 0 <= k < e.len() ==> (#[trigger] e[k]).phase == ActionPhase::Exit && lo + 1
                <= depth_of(ss, Some(e[k].state)) <= hi
            &&& forall|i: int, j: int| 0 <= i < j < e.len() ==> depth_of(ss, Some((#[trigger] e[i]).state))
                >= depth_of(ss, Some((#[trigger] e[j]).state))
        }),
    decreases hi - lo,
{
    if hi > lo {
        lemma_exits_depth(ss, path, lo, hi - 1);
        let st = path[hi - 1].state;
        let a = recs(ActionPhase::Exit, st, path[hi - 1].activation_seq.0, crate::hfsm::evaluate::exit_of(ss, st));
        let b = exits_down(ss, path, lo, hi - 1);
        let e = a + b;
        assert(states_of(path)[hi - 1] == st);
        lemma_chain_depth(ss, states_of(path), None, hi - 1);
        assert forall|k: int| 0 <= k < e.len() implies (#[trigger] e[k]).phase == ActionPhase::Exit && lo + 1
            <= depth_of(ss, Some(e[k].state)) <= hi by {
            if k < a.len() {
                assert(e[k] == a[k]);
            } else {
                assert(e[k] == b[k - a.len()]);
            }
        }
        assert forall|i: int, j: int| 0 <= i < j < e.len() implies depth_of(ss, Some((#[trigger] e[i]).state))
            >= depth_of(ss, Some((#[trigger] e[j]).state)) by {
            if i < a.len() {
                assert(e[i] == a[i]);
                if j < a.len() {
                    assert(e[j] == a[j]);
                } else {
                    assert(e[j] == b[j - a.len()]);
                }
            } else {
                assert(e[i] == b[i - a.len()]);
                assert(e[j] == b[j - a.len()]);
            }
        }
    }
}

/// The entry records of a chain below `top` are entries, outer state first.
proof fn lemma_enters_depth(ss: Seq<SNode>, chain: Seq<StateId>, top: Option<StateId>, base: u64)
    requires
        structure_ok(ss),
        chain_below(ss, chain, top),
        top matches Some(t) ==> has_id(ss, t),
    ensures
        ({
            let e = enter_recs(ss, chain, base);
            &&& forall|k: int| 0 <= k < e.len() ==> (#[trigger] e[k]).phase == ActionPhase::Enter
                && depth_of(ss, top) + 1 <= depth_of(ss, Some(e[k].state)) <= depth_of(ss, top) + chain.len()
            &&& forall|i: int, j: int| 0 <= i < j < e.len() ==> depth_of(ss, Some((#[trigger] e[i]).state))
                <= depth_of(ss, Some((#[trigger] e[j]).state))
        }),
    decreases chain.len(),
{
    if chain.len() > 0 {
        let front = chain.drop_last();
        assert(chain_below(ss, front, top)) by {
            assert forall|i: int| 0 <= i < front.len() implies has_id(ss, #[trigger] front[i]) && parent_in(
                ss,
                front[i],
            ) == (if i == 0 {
                top
            } else {
                Some(front[i - 1])
            }) by {
                assert(front[i] == chain[i]);
                if i > 0 {
                    assert(front[i - 1] == chain[i - 1]);
                }
            }
        }
        lemma_enters_depth(ss, front, top, base);
        let st = chain.last();
        let a = enter_recs(ss, front, base);
        let b = recs(
            ActionPhase::Enter,
            st,
            (base + chain.len() - 1) as u64,
            crate::hfsm::evaluate::entry_of(ss, st),
        );
        let e = a + b;
        lemma_chain_depth(ss, chain, top, chain.len() - 1);
        assert forall|k: int| 0 <= k < e.len() implies (#[trigger] e[k]).phase == ActionPhase::Enter && depth_of(
            ss,
            top,
        ) + 1 <= depth_of(ss, Some(e[k].state)) <= depth_of(ss, top) + chain.len() by {
            if k < a.len() {
                assert(e[k] == a[k]);
            } else {
                assert(e[k] == b[k - a.len()]);
            }
        }
        assert forall|i: int, j: int| 0 <= i < j < e.len() implies depth_of(ss, Some((#[trigger] e[i]).state))
            <= depth_of(ss, Some((#[trigger] e[j]).state)) by {
            if i < a.len() {
                assert(e[i] == a[i]);
                if j < a.len() {
                    assert(e[j] == a[j]);
                } else {
                    assert(e[j] == b[j - a.len()]);
                }
            } else {
                assert(e[i] == b[i - a.len()]);
                assert(e[j] == b[j - a.len()]);
            }
        }
    }
}

/// Exits, then transition actions, then entries, each group in its own order, keep
/// both orders.
proof fn lemma_orders_concat(ss: Seq<SNode>, a: Seq<ActionRecord>, b: Seq<ActionRecord>, c: Seq<ActionRecord>)
    requires
        forall|k: int| 0 <= k < a.len() ==> (#[trigger] a[k]).phase == ActionPhase::Exit,
        forall|k: int| 0 <= k < b.len() ==> (#[trigger] b[k]).phase == ActionPhase::Transition,
        forall|k: int| 0 <= k < c.len() ==> (#[trigger] c[k]).phase == ActionPhase::Enter,
        forall|i: int, j: int| 0 <= i < j < a.len() ==> depth_of(ss, Some((#[trigger] a[i]).state)) >= depth_of(
            ss,
            Some((#[trigger] a[j]).state),
        ),
        forall|i: int, j: int| 0 <= i < j < c.len() ==> depth_of(ss, Some((#[trigger] c[i]).state)) <= depth_of(
            ss,
            Some((#[trigger] c[j]).state),
        ),
    ensures
        exits_leaf_first(ss, a + b + c),
        enters_outer_first(ss, a + b + c),
{
    let e = a + b + c;
    let ab = a.len() + b.len();
    assert forall|k: int| 0 <= k < e.len() implies (#[trigger] e[k]).phase == (if k < a.len() {
        ActionPhase::Exit
    } else if k < ab {
        ActionPhase::Transition
    } else {
        ActionPhase::Enter
    }) by {
        if k < a.len() {
            assert(e[k] == a[k]);
        } else if k < ab {
            assert(e[k] == b[k - a.len()]);
        } else {
            assert(e[k] == c[k - ab]);
        }
    }
    assert forall|i: int, j: int|
        0 <= i < j < e.len() && (#[trigger] e[i]).phase == ActionPhase::Exit && (#[trigger] e[j]).phase
            == ActionPhase::Exit implies depth_of(ss, Some(e[i].state)) >= depth_of(ss, Some(e[j].state)) by {
        assert(e[i] == a[i]);
        assert(e[j] == a[j]);
    }
    assert forall|i: int, j: int|
        0 <= i < j < e.len() && (#[trigger] e[i]).phase == ActionPhase::Enter && (#[trigger] e[j]).phase
            == ActionPhase::Enter implies depth_of(ss, Some(e[i].state)) <= depth_of(ss, Some(e[j].state)) by {
        assert(e[i] == c[i - ab]);
        assert(e[j] == c[j - ab]);
    }
}

/// What is entered on a transition hangs below the state kept at the cut.
proof fn lemma_entered_chain(ss: Seq<SNode>, path: Seq<ActiveState>, keep: int, target: StateId, g: nat)
    requires
        structure_ok(ss),
        initials_ok(ss),
        chain_below(ss, states_of(path), None),
        0 <= keep <= path.len(),
        has_id(ss, target),
        keep > 0 ==> on_chain(ss, Some(target), path[keep - 1].state, g),
    ensures
        ({
            let boundary = if keep == 0 {
                None
            } else {
                Some(path[keep - 1].state)
            };
            let entered = anc_upto(ss, Some(target), boundary, ss.len()) + init_chain(ss, target, ss.len());
            &&& chain_below(ss, entered, boundary)
            &&& boundary matches Some(b) ==> has_id(ss, b)
        }),
{
    let boundary = if keep == 0 {
        None
    } else {
        Some(path[keep - 1].state)
    };
    lemma_idx_of_id(ss, target);
    lemma_depth_parent(ss, idx_of(ss, target));
    lemma_anc_upto(ss, target, boundary, ss.len(), g);
    lemma_init_chain(ss, target, ss.len());
    let anc = anc_upto(ss, Some(target), boundary, ss.len());
    let init = init_chain(ss, target, ss.len());
    assert(last_or(anc, boundary) == Some(target));
    lemma_chain_concat(ss, anc, init, boundary);
    if keep > 0 {
        assert(states_of(path)[keep - 1] == path[keep - 1].state);
    }
}

/// Exits unwind leaf-first and entries nest outer-first, in every plan the evaluator
/// produces.
#[verifier::spinoff_prover]
#[verifier::rlimit(40)]
pub proof fn law_exits_leaf_first_entries_outer_first(item: BatchItem)
    requires
        (*item.definition).well_formed(),
    ensures
        exits_leaf_first((*item.definition).spec_states(), item_out(item).raw),
        enters_outer_first((*item.definition).spec_states(), item_out(item).raw),
{
    let def = *item.definition;
    let ss = def.spec_states();
    let ts = def.spec_transitions();
    def.lemma_well_formed();
    let out = item_out(item);
    let none = Seq::<ActionRecord>::empty();
    if out.outcome is Rejected {
        assert(out.raw.len() == 0);
    } else {
        match item.kind {
            ItemKind::Start { epoch } => {
                let root = def.spec_root();
                let next: u64 = match item.snapshot {
                    None => 1,
                    Some(s) => s.next_activation_seq.0,
                };
                lemma_idx_of_id(ss, root);
                lemma_depth_parent(ss, idx_of(ss, root));
                lemma_init_chain(ss, root, ss.len());
                let head = seq![root];
                lemma_chain_concat(ss, head, init_chain(ss, root, ss.len()), None);
                let chain = start_chain(def);
                lemma_enters_depth(ss, chain, None, next);
                let e = enter_recs(ss, chain, next);
                assert(none + none + e =~= e);
                lemma_orders_concat(ss, none, none, e);
            },
            ItemKind::Stop => {
                let s = *item.snapshot->0;
                lemma_valid_snapshot(s, def);
                let path = s.active_path@;
                lemma_exits_depth(ss, path, 0, path.len() as int);
                let e = exits_down(ss, path, 0, path.len() as int);
                assert(e + none + none =~= e);
                lemma_orders_concat(ss, e, none, none);
            },
            ItemKind::Event { event } => {
                let s = *item.snapshot->0;
                lemma_valid_snapshot(s, def);
                let path = s.active_path@;
                let entries = item.guards.view_entries();
                match select_from(ts, path, event, entries, path.len() as int) {
                    Ok(Some((level, ti))) => {
                        let t = ts[ti];
                        let source = path[level];
                        let tr = recs(ActionPhase::Transition, source.state, source.activation_seq.0, t.actions);
                        if t.kind is Internal {
                            assert(none + tr + none =~= tr);
                            lemma_orders_concat(ss, none, tr, none);
                        } else {
                            let (keep, target, g) = lemma_event_cut(item, event, level, ti);
                            lemma_entered_chain(ss, path, keep, target, g);
                            let boundary = if keep == 0 {
                                None
                            } else {
                                Some(path[keep - 1].state)
                            };
                            let entered = anc_upto(ss, Some(target), boundary, ss.len()) + init_chain(
                                ss,
                                target,
                                ss.len(),
                            );
                            lemma_exits_depth(ss, path, keep, path.len() as int);
                            lemma_enters_depth(ss, entered, boundary, s.next_activation_seq.0);
                            lemma_orders_concat(
                                ss,
                                exits_down(ss, path, keep, path.len() as int),
                                tr,
                                enter_recs(ss, entered, s.next_activation_seq.0),
                            );
                        }
                    },
                    _ => {
                        assert(out.raw.len() == 0);
                    },
                }
            },
        }
    }
}

/// A state on the parent chain of `y` is no deeper than `y`.
pub proof fn lemma_on_chain_depth(ss: Seq<SNode>, y: StateId, a: StateId, g: nat)
    requires
        structure_ok(ss),
        has_id(ss, y),
        on_chain(ss, Some(y), a, g),
    ensures
        has_id(ss, a),
        depth_of(ss, Some(a)) <= depth_of(ss, Some(y)),
    decreases g,
{
    lemma_idx_of_id(ss, y);
    lemma_depth_parent(ss, idx_of(ss, y));
    if y != a {
        match parent_in(ss, y) {
            None => {
                assert(!on_chain(ss, None, a, (g - 1) as nat));
            },
            Some(p) => {
                lemma_idx_of_id(ss, p);
                lemma_on_chain_depth(ss, p, a, (g - 1) as nat);
            },
        }
    }
}

/// No state is its own strict descendant.
proof fn lemma_not_own_descendant(ss: Seq<SNode>, x: StateId, g: nat)
    requires
        structure_ok(ss),
        has_id(ss, x),
    ensures
        !on_chain(ss, parent_in(ss, x), x, g),
{
    lemma_idx_of_id(ss, x);
    lemma_depth_parent(ss, idx_of(ss, x));
    match parent_in(ss, x) {
        None => {},
        Some(p) => {
            lemma_idx_of_id(ss, p);
            if on_chain(ss, Some(p), x, g) {
                lemma_on_chain_depth(ss, p, x, g);
            }
        },
    }
}

/// The domain of an external transition is never its target.
proof fn lemma_domain_not_target(ss: Seq<SNode>, a: StateId, b: StateId)
    requires
        structure_ok(ss),
        has_id(ss, a),
        has_id(ss, b),
    ensures
        strict_common_ancestor(ss, a, b) != Some(b),
{
    lemma_first_common(ss, Some(b), a, ss.len());
    lemma_idx_of_id(ss, b);
    lemma_depth_parent(ss, idx_of(ss, b));
    match first_common(ss, Some(b), a, ss.len()) {
        Some(l) => {
            if l == b {
                lemma_not_own_descendant(ss, b, 0);
                match parent_in(ss, b) {
                    Some(p) => {
                        lemma_idx_of_id(ss, p);
                    },
                    None => {},
                }
            } else if l == a {
                lemma_on_chain_depth(ss, b, a, ss.len());
                lemma_idx_of_id(ss, a);
                lemma_depth_parent(ss, idx_of(ss, a));
                match parent_in(ss, a) {
                    Some(p) => {
                        lemma_idx_of_id(ss, p);
                    },
                    None => {},
                }
            }
        },
        None => {},
    }
}

/// Where a transition of `t` cuts the active path: below its source for a local
/// transition, below the strict common ancestor of source and target for an external
/// one (`None` is the synthetic root).
pub open spec fn domain_of(ss: Seq<SNode>, t: TNode) -> Option<StateId> {
    match t.kind {
        TransitionKind::Local { target } => Some(t.source),
        TransitionKind::External { target } => strict_common_ancestor(ss, t.source, target),
        TransitionKind::Internal => None,
    }
}

/// A local or external transition keeps the path down to its domain untouched and
/// enters at least one state below it, each with an activation not used before.
#[verifier::spinoff_prover]
#[verifier::rlimit(40)]
pub proof fn law_transition_keeps_domain_prefix(item: BatchItem, event: EventKind)
    requires
        (*item.definition).well_formed(),
        item.kind == (ItemKind::Event { event }),
        item_out(item).outcome matches Outcome::Transitioned { transition } && !((*item.definition).spec_transitions()[tidx_of(
            (*item.definition).spec_transitions(),
            transition,
        )].kind is Internal),
    ensures
        ({
            let def = *item.definition;
            let ss = def.spec_states();
            let ts = def.spec_transitions();
            let s = *item.snapshot->0;
            let old = s.active_path@;
            let new = item_out(item).path;
            let t = ts[tidx_of(ts, item_out(item).outcome->transition)];
            let keep = depth_of(ss, domain_of(ss, t)) as int;
            &&& keep < new.len()
            &&& keep <= old.len()
            &&& new.subrange(0, keep) == old.subrange(0, keep)
            &&& forall|i: int| keep <= i < new.len() ==> s.next_activation_seq.0 <= (#[trigger] new[i]).activation_seq.0
        }),
{
    let def = *item.definition;
    let ss = def.spec_states();
    let ts = def.spec_transitions();
    def.lemma_well_formed();
    let s = *item.snapshot->0;
    let path = s.active_path@;
    let entries = item.guards.view_entries();
    lemma_valid_snapshot(s, def);
    lemma_select_source(ts, path, event, entries, path.len() as int);
    match select_from(ts, path, event, entries, path.len() as int) {
        Ok(Some((level, ti))) => {
            let t = ts[ti];
            assert(has_tid(ts, t.id));
            assert(ts[tidx_of(ts, t.id)].id == t.id);
            assert(tidx_of(ts, t.id) == ti);
            let (keep, target, g) = lemma_event_cut(item, event, level, ti);
            let c = states_of(path);
            let boundary = if keep == 0 {
                None
            } else {
                Some(path[keep - 1].state)
            };
            lemma_idx_of_id(ss, target);
            lemma_depth_parent(ss, idx_of(ss, target));
            lemma_anc_upto(ss, target, boundary, ss.len(), g);
            assert(c[level] == t.source);
            match t.kind {
                TransitionKind::Local { target: tg } => {
                    lemma_chain_depth(ss, c, None, level);
                    lemma_not_own_descendant(ss, t.source, ss.len());
                    assert(boundary == Some(t.source));
                    assert(!local_bad(ss, ts, ti));
                },
                TransitionKind::External { target: tg } => {
                    assert(!tr_ref_bad(ss, ts, ti));
                    lemma_domain_not_target(ss, t.source, target);
                    let domain = strict_common_ancestor(ss, t.source, target);
                    lemma_domain_on_chains(ss, t.source, target);
                    match domain {
                        None => {},
                        Some(d) => {
                            let j = lemma_ancestor_on_chain(ss, c, level, d, ss.len() + 1);
                            assert forall|i: int| 0 <= i < j implies !#[trigger] state_pred(path, d)(i) by {
                                lemma_chain_distinct(ss, c, i, j);
                                assert(c[i] == path[i].state);
                            }
                            assert(state_pred(path, d)(j));
                            lemma_first_where_is(path.len(), state_pred(path, d), j);
                            assert(path[j].state == d);
                        },
                    }
                },
                TransitionKind::Internal => {},
            }
            let anc = anc_upto(ss, Some(target), boundary, ss.len());
            assert(anc.len() > 0);
        },
        _ => {},
    }
}

} // verus!
