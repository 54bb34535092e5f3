//! Definition validation and the immutable compiled graph.
//!
//! Deterministic by construction: every table is a vector built in a fixed order.
use vstd::prelude::*;
use crate::hfsm::definition::{DefinitionSpec, StateSpec, TransitionSpec};
use crate::hfsm::error::{
    CompileError, CompileErrorKind, cerr, cerr_state, cerr_transition,
};
use crate::hfsm::ids::{ActionId, EventKind, GuardId, HfsmLimits, StateId, TransitionId, TransitionKind};
use crate::hfsm::order::{first_where, lemma_first_where, lemma_first_where_is, lemma_sorted_unique};
use crate::hfsm::fingerprint::{
    Fnv1a, FNV_OFFSET, action_words, fnv, le_bytes, lemma_fnv_concat, list_bytes, opt_bytes,
};
use crate::hfsm::{FORMAT_VERSION, SEMANTICS_VERSION};

verus! {

// ---------------------------------------------------------------------------------
// The semantic content of a definition: everything but diagnostic names.

pub ghost struct SNode {
    pub id: StateId,
    pub parent: Option<StateId>,
    pub initial: Option<StateId>,
    pub entry: Seq<ActionId>,
    pub exit: Seq<ActionId>,
}

pub ghost struct TNode {
    pub id: TransitionId,
    pub source: StateId,
    pub event: EventKind,
    pub priority: u32,
    pub guard: Option<GuardId>,
    pub kind: TransitionKind,
    pub actions: Seq<ActionId>,
}

pub open spec fn snode(s: StateSpec) -> SNode {
    SNode { id: s.id, parent: s.parent, initial: s.initial, entry: s.entry@, exit: s.exit@ }
}

pub open spec fn tnode(t: TransitionSpec) -> TNode {
    TNode {
        id: t.id,
        source: t.source,
        event: t.event,
        priority: t.priority,
        guard: t.guard,
        kind: t.kind,
        actions: t.actions@,
    }
}

pub open spec fn snodes(v: Seq<StateSpec>) -> Seq<SNode> {
    v.map_values(|s: StateSpec| snode(s))
}

pub open spec fn tnodes(v: Seq<TransitionSpec>) -> Seq<TNode> {
    v.map_values(|t: TransitionSpec| tnode(t))
}

// ---------------------------------------------------------------------------------
// The state table of a definition spec.

pub open spec fn has_id(ss: Seq<SNode>, id: StateId) -> bool {
    exists|i: int| 0 <= i < ss.len() && ss[i].id == id
}

/// Position of `id` (meaningful when `has_id`; ids are unique once compiled).
pub open spec fn idx_of(ss: Seq<SNode>, id: StateId) -> int {
    choose|i: int| 0 <= i < ss.len() && ss[i].id == id
}

pub open spec fn unique_ids(ss: Seq<SNode>) -> bool {
    forall|i: int, j: int| 0 <= i < ss.len() && 0 <= j < ss.len() && i != j ==> ss[i].id != ss[j].id
}

/// Declared parent of `id`; `None` for top-level and unknown states.
pub open spec fn parent_in(ss: Seq<SNode>, id: StateId) -> Option<StateId> {
    if has_id(ss, id) {
        ss[idx_of(ss, id)].parent
    } else {
        None
    }
}

/// Number of states on the parent chain that starts at `x`, counting at most `fuel`.
pub open spec fn chain_len(ss: Seq<SNode>, x: Option<StateId>, fuel: nat) -> nat
    decreases fuel,
{
    match x {
        None => 0,
        Some(s) => if fuel == 0 {
            0
        } else {
            1 + chain_len(ss, parent_in(ss, s), (fuel - 1) as nat)
        },
    }
}

/// `a` lies on the parent chain that starts at `x`, within `fuel` steps.
pub open spec fn on_chain(ss: Seq<SNode>, x: Option<StateId>, a: StateId, fuel: nat) -> bool
    decreases fuel,
{
    match x {
        None => false,
        Some(s) => fuel > 0 && (s == a || on_chain(ss, parent_in(ss, s), a, (fuel - 1) as nat)),
    }
}

/// `d` is strictly below `a`.
pub open spec fn strict_desc(ss: Seq<SNode>, d: StateId, a: StateId) -> bool {
    on_chain(ss, parent_in(ss, d), a, ss.len())
}

// ---------------------------------------------------------------------------------
// Validation stages, in the order they are checked.

pub open spec fn dup_state_at(ss: Seq<SNode>, i: int) -> bool {
    exists|j: int| 0 <= j < i && ss[j].id == ss[i].id
}

pub open spec fn dup_state_pred(ss: Seq<SNode>) -> spec_fn(int) -> bool {
    |i: int| dup_state_at(ss, i)
}

pub open spec fn state_ref_pred(ss: Seq<SNode>) -> spec_fn(int) -> bool {
    |i: int| state_ref_bad(ss, i)
}

pub open spec fn tr_ref_pred(ss: Seq<SNode>, ts: Seq<TNode>) -> spec_fn(int) -> bool {
    |i: int| tr_ref_bad(ss, ts, i)
}

pub open spec fn state_ref_bad(ss: Seq<SNode>, i: int) -> bool {
    (ss[i].parent is Some && !has_id(ss, ss[i].parent->0))
        || (ss[i].initial is Some && !has_id(ss, ss[i].initial->0))
}

pub open spec fn state_ref_err(ss: Seq<SNode>, i: int) -> CompileError {
    if ss[i].parent is Some && !has_id(ss, ss[i].parent->0) {
        cerr_state(CompileErrorKind::UnknownState { referenced: ss[i].parent->0 }, ss[i].id)
    } else {
        cerr_state(CompileErrorKind::UnknownState { referenced: ss[i].initial->0 }, ss[i].id)
    }
}

pub open spec fn tr_ref_bad(ss: Seq<SNode>, ts: Seq<TNode>, i: int) -> bool {
    !has_id(ss, ts[i].source) || (ts[i].kind.spec_target() is Some && !has_id(ss, ts[i].kind.spec_target()->0))
}

pub open spec fn tr_ref_err(ss: Seq<SNode>, ts: Seq<TNode>, i: int) -> CompileError {
    if !has_id(ss, ts[i].source) {
        cerr_transition(CompileErrorKind::UnknownState { referenced: ts[i].source }, ts[i].id)
    } else {
        cerr_transition(CompileErrorKind::UnknownState { referenced: ts[i].kind.spec_target()->0 }, ts[i].id)
    }
}

pub open spec fn reference_error_of(initial: StateId, ss: Seq<SNode>, ts: Seq<TNode>) -> Option<CompileError> {
    let f = first_where(ss.len(), state_ref_pred(ss));
    let g = first_where(ts.len(), tr_ref_pred(ss, ts));
    if f < ss.len() {
        Some(state_ref_err(ss, f as int))
    } else if !has_id(ss, initial) {
        Some(cerr(CompileErrorKind::UnknownState { referenced: initial }))
    } else if ss[idx_of(ss, initial)].parent is Some {
        Some(cerr_state(CompileErrorKind::RootInitialNotTopLevel, initial))
    } else if g < ts.len() {
        Some(tr_ref_err(ss, ts, g as int))
    } else {
        None
    }
}

pub open spec fn reference_error(spec: DefinitionSpec) -> Option<CompileError> {
    reference_error_of(spec.initial, snodes(spec.states@), tnodes(spec.transitions@))
}

/// Depth of state `i`: the states on its parent chain, itself included.
pub open spec fn depth_at(ss: Seq<SNode>, i: int) -> nat {
    chain_len(ss, Some(ss[i].id), ss.len() + 1)
}

pub open spec fn cyclic_at(ss: Seq<SNode>, i: int) -> bool {
    depth_at(ss, i) > ss.len()
}

pub open spec fn depth_bad(ss: Seq<SNode>, limits: HfsmLimits, i: int) -> bool {
    cyclic_at(ss, i) || depth_at(ss, i) > limits.max_depth
}

pub open spec fn depth_err(ss: Seq<SNode>, limits: HfsmLimits, i: int) -> CompileError {
    if cyclic_at(ss, i) {
        cerr_state(CompileErrorKind::StructuralCycle, ss[i].id)
    } else {
        cerr_state(
            CompileErrorKind::DepthExceeded { depth: depth_at(ss, i) as u32, max: limits.max_depth },
            ss[i].id,
        )
    }
}

pub open spec fn depth_pred(ss: Seq<SNode>, limits: HfsmLimits) -> spec_fn(int) -> bool {
    |i: int| depth_bad(ss, limits, i)
}

pub open spec fn depth_error(ss: Seq<SNode>, limits: HfsmLimits) -> Option<CompileError> {
    let f = first_where(ss.len(), depth_pred(ss, limits));
    if f < ss.len() {
        Some(depth_err(ss, limits, f as int))
    } else {
        None
    }
}

pub open spec fn has_children(ss: Seq<SNode>, j: int) -> bool {
    exists|i: int| 0 <= i < ss.len() && ss[i].parent == Some(ss[j].id)
}

pub open spec fn initial_bad(ss: Seq<SNode>, j: int) -> bool {
    if has_children(ss, j) {
        match ss[j].initial {
            None => true,
            Some(x) => ss[idx_of(ss, x)].parent != Some(ss[j].id),
        }
    } else {
        ss[j].initial is Some
    }
}

pub open spec fn initial_err(ss: Seq<SNode>, j: int) -> CompileError {
    if has_children(ss, j) {
        if ss[j].initial is None {
            cerr_state(CompileErrorKind::CompositeWithoutInitial, ss[j].id)
        } else {
            cerr_state(CompileErrorKind::InitialNotDirectChild, ss[j].id)
        }
    } else {
        cerr_state(CompileErrorKind::LeafWithInitial, ss[j].id)
    }
}

pub open spec fn initial_pred(ss: Seq<SNode>) -> spec_fn(int) -> bool {
    |j: int| initial_bad(ss, j)
}

pub open spec fn initial_error(ss: Seq<SNode>) -> Option<CompileError> {
    let f = first_where(ss.len(), initial_pred(ss));
    if f < ss.len() {
        Some(initial_err(ss, f as int))
    } else {
        None
    }
}

pub open spec fn dup_transition_at(ts: Seq<TNode>, i: int) -> bool {
    exists|j: int| 0 <= j < i && ts[j].id == ts[i].id
}

pub open spec fn local_bad(ss: Seq<SNode>, ts: Seq<TNode>, i: int) -> bool {
    match ts[i].kind {
        TransitionKind::Local { target } => !strict_desc(ss, target, ts[i].source),
        _ => false,
    }
}

// ---------------------------------------------------------------------------------
// Lookups over the spec tables.

fn find_state(states: &Vec<StateSpec>, id: StateId) -> (r: Option<usize>)
    ensures
        match r {
            Some(k) => k < snodes(states@).len() && snodes(states@)[k as int].id == id
                && forall|j: int| 0 <= j < k ==> snodes(states@)[j].id != id,
            None => !has_id(snodes(states@), id),
        },
{
    let mut k: usize = 0;
    while k < states.len()
        invariant
            k <= snodes(states@).len(),
            forall|j: int| 0 <= j < k ==> snodes(states@)[j].id != id,
        decreases snodes(states@).len() - k,
    {
        if states[k].id == id {
            return Some(k);
        }
        k = k + 1;
    }
    None
}

pub proof fn lemma_idx_of(ss: Seq<SNode>, k: int)
    requires
        unique_ids(ss),
        0 <= k < ss.len(),
    ensures
        has_id(ss, ss[k].id),
        idx_of(ss, ss[k].id) == k,
        parent_in(ss, ss[k].id) == ss[k].parent,
{
    assert(has_id(ss, ss[k].id));
}

// ---------------------------------------------------------------------------------
// Stage implementations.

fn index_states(states: &Vec<StateSpec>) -> (r: Result<(), CompileError>)
    ensures
        match r {
            Ok(()) => unique_ids(snodes(states@)),
            Err(e) => first_where(snodes(states@).len(), dup_state_pred(snodes(states@))) < snodes(states@).len()
                && e == cerr_state(
                    CompileErrorKind::DuplicateStateId,
                    snodes(states@)[first_where(snodes(states@).len(), dup_state_pred(snodes(states@))) as int].id,
                ),
        },
        r is Ok <==> first_where(snodes(states@).len(), dup_state_pred(snodes(states@))) == snodes(states@).len(),
{
    let ghost ss = snodes(states@);
    let ghost p = dup_state_pred(ss);
    let n = states.len();
    let mut i: usize = 0;
    while i < n
        invariant
            n == ss.len(),
            ss == snodes(states@),
            p == dup_state_pred(ss),
            i <= n,
            forall|a: int, b: int| 0 <= a < i && 0 <= b < i && a != b ==> ss[a].id != ss[b].id,
            forall|j: int| 0 <= j < i ==> !#[trigger] p(j),
        decreases n - i,
    {
        let mut j: usize = 0;
        while j < i
            invariant
                n == ss.len(),
                ss == snodes(states@),
                p == dup_state_pred(ss),
                forall|a: int, b: int| 0 <= a < i && 0 <= b < i && a != b ==> ss[a].id != ss[b].id,
                forall|k: int| 0 <= k < i ==> !#[trigger] p(k),
                j <= i < n,
                forall|b: int| 0 <= b < j ==> ss[b].id != ss[i as int].id,
            decreases i - j,
        {
            if states[j].id == states[i].id {
                proof {
                    assert(ss[j as int].id == ss[i as int].id);
                    assert(p(i as int));
                    lemma_first_where_is(n as nat, p, i as int);
                }
                return Err(CompileError::at_state(CompileErrorKind::DuplicateStateId, states[i].id));
            }
            j = j + 1;
        }
        assert(!p(i as int));
        i = i + 1;
    }
    proof {
        lemma_first_where_is(n as nat, p, n as int);
    }
    Ok(())
}

fn check_references(spec: &DefinitionSpec) -> (r: Result<(), CompileError>)
    requires
        unique_ids(snodes(spec.states@)),
    ensures
        match r {
            Ok(()) => reference_error(*spec) is None,
            Err(e) => reference_error(*spec) == Some(e),
        },
{
    let ghost ss = snodes(spec.states@);
    let ghost ts = tnodes(spec.transitions@);
    let ghost p = state_ref_pred(ss);
    let ghost q = tr_ref_pred(ss, ts);
    let n = spec.states.len();
    let mut i: usize = 0;
    while i < n
        invariant
            n == ss.len(),
            ss == snodes(spec.states@),
            p == state_ref_pred(ss),
            i <= n,
            forall|j: int| 0 <= j < i ==> !#[trigger] p(j),
        decreases n - i,
    {
        let s = &spec.states[i];
        if let Some(par) = s.parent {
            if find_state(&spec.states, par).is_none() {
                proof {
                    assert(!has_id(ss, par));
                    assert(state_ref_bad(ss, i as int));
                    assert(p(i as int));
                    lemma_first_where_is(n as nat, p, i as int);
                }
                return Err(CompileError::at_state(CompileErrorKind::UnknownState { referenced: par }, s.id));
            }
        }
        if let Some(init) = s.initial {
            if find_state(&spec.states, init).is_none() {
                proof {
                    lemma_first_where_is(n as nat, p, i as int);
                }
                return Err(CompileError::at_state(CompileErrorKind::UnknownState { referenced: init }, s.id));
            }
        }
        assert(!p(i as int));
        i = i + 1;
    }
    proof {
        lemma_first_where_is(n as nat, p, n as int);
    }
    match find_state(&spec.states, spec.initial) {
        None => {
            return Err(CompileError::new(CompileErrorKind::UnknownState { referenced: spec.initial }));
        },
        Some(k) => {
            proof {
                lemma_idx_of(ss, k as int);
            }
            if spec.states[k].parent.is_some() {
                return Err(CompileError::at_state(CompileErrorKind::RootInitialNotTopLevel, spec.initial));
            }
        },
    }
    let m = spec.transitions.len();
    let mut t: usize = 0;
    while t < m
        invariant
            m == ts.len(),
            ts == tnodes(spec.transitions@),
            ss == snodes(spec.states@),
            q == tr_ref_pred(ss, ts),
            first_where(ss.len(), state_ref_pred(ss)) == ss.len(),
            has_id(ss, spec.initial),
            ss[idx_of(ss, spec.initial)].parent is None,
            t <= m,
            forall|j: int| 0 <= j < t ==> !#[trigger] q(j),
        decreases m - t,
    {
        let tr = &spec.transitions[t];
        if find_state(&spec.states, tr.source).is_none() {
            proof {
                lemma_first_where_is(m as nat, q, t as int);
            }
            return Err(CompileError::at_transition(CompileErrorKind::UnknownState { referenced: tr.source }, tr.id));
        }
        if let Some(target) = tr.kind.target() {
            if find_state(&spec.states, target).is_none() {
                proof {
                    lemma_first_where_is(m as nat, q, t as int);
                }
                return Err(CompileError::at_transition(CompileErrorKind::UnknownState { referenced: target }, tr.id));
            }
        }
        assert(!q(t as int));
        t = t + 1;
    }
    proof {
        lemma_first_where_is(m as nat, q, m as int);
    }
    Ok(())
}


// ---------------------------------------------------------------------------------
// Parent chains.

/// Every declared parent and initial names a state.
pub open spec fn refs_ok(ss: Seq<SNode>) -> bool {
    forall|i: int| 0 <= i < ss.len() ==> !#[trigger] state_ref_bad(ss, i)
}

/// No parent chain is longer than the state table.
pub open spec fn acyclic(ss: Seq<SNode>) -> bool {
    forall|i: int| 0 <= i < ss.len() ==> #[trigger] depth_at(ss, i) <= ss.len()
}

pub proof fn lemma_chain_len_stable(ss: Seq<SNode>, x: Option<StateId>, f: nat)
    requires
        chain_len(ss, x, f) < f,
    ensures
        chain_len(ss, x, f + 1) == chain_len(ss, x, f),
    decreases f,
{
    match x {
        None => {},
        Some(s) => {
            lemma_chain_len_stable(ss, parent_in(ss, s), (f - 1) as nat);
        },
    }
}

/// Depth grows by one from parent to child.
pub proof fn lemma_depth_parent(ss: Seq<SNode>, i: int)
    requires
        unique_ids(ss),
        refs_ok(ss),
        acyclic(ss),
        0 <= i < ss.len(),
    ensures
        depth_at(ss, i) >= 1,
        ss[i].parent is None ==> depth_at(ss, i) == 1,
        ss[i].parent is Some ==> has_id(ss, ss[i].parent->0) && depth_at(ss, i) == 1 + depth_at(
            ss,
            idx_of(ss, ss[i].parent->0),
        ),
{
    lemma_idx_of(ss, i);
    assert(!state_ref_bad(ss, i));
    assert(depth_at(ss, i) <= ss.len());
    match ss[i].parent {
        None => {},
        Some(p) => {
            let k = idx_of(ss, p);
            lemma_idx_of(ss, k);
            assert(chain_len(ss, Some(p), ss.len()) < ss.len());
            lemma_chain_len_stable(ss, Some(p), ss.len());
        },
    }
}

/// Exec parent lookup for a known state.
fn parent_of_known(states: &Vec<StateSpec>, id: StateId) -> (r: Option<StateId>)
    requires
        unique_ids(snodes(states@)),
        has_id(snodes(states@), id),
    ensures
        r == parent_in(snodes(states@), id),
        r is Some ==> exists|k: int| 0 <= k < snodes(states@).len() && snodes(states@)[k].id == id && snodes(states@)[k].parent == r,
{
    let k = find_state(states, id).unwrap();
    proof {
        lemma_idx_of(snodes(states@), k as int);
    }
    states[k].parent
}

#[verifier::spinoff_prover]
fn compute_depths(states: &Vec<StateSpec>, limits: &HfsmLimits) -> (r: Result<Vec<u32>, CompileError>)
    requires
        unique_ids(snodes(states@)),
        refs_ok(snodes(states@)),
        snodes(states@).len() <= u32::MAX,
    ensures
        match r {
            Ok(d) => depth_error(snodes(states@), *limits) is None && acyclic(snodes(states@)) && d@.len() == snodes(states@).len()
                && forall|i: int| 0 <= i < d@.len() ==> d@[i] == depth_at(snodes(states@), i) && d@[i] <= limits.max_depth,
            Err(e) => depth_error(snodes(states@), *limits) == Some(e),
        },
{
    let ghost ss = snodes(states@);
    let ghost p = depth_pred(ss, *limits);
    let n = states.len();
    let mut depths: Vec<u32> = Vec::new();
    let mut i: usize = 0;
    while i < n
        invariant
            n == ss.len(),
            ss == snodes(states@),
            p == depth_pred(ss, *limits),
            unique_ids(ss),
            refs_ok(ss),
            n <= u32::MAX,
            i <= n,
            depths@.len() == i,
            forall|j: int| 0 <= j < i ==> !#[trigger] p(j),
            forall|j: int| 0 <= j < i ==> depths@[j] == depth_at(ss, j) && depths@[j] <= limits.max_depth,
        decreases n - i,
    {
        let ghost old_depths = depths@;
        let mut depth: u64 = 1;
        let mut cursor: Option<StateId> = states[i].parent;
        proof {
            lemma_idx_of(ss, i as int);
            assert(!state_ref_bad(ss, i as int));
        }
        while cursor.is_some()
            invariant
                n == ss.len(),
                ss == snodes(states@),
                unique_ids(ss),
                refs_ok(ss),
                i < n,
                n <= u32::MAX,
                p == depth_pred(ss, *limits),
                depths@.len() == i,
                depths@ == old_depths,
                forall|j: int| 0 <= j < i ==> !#[trigger] p(j),
                forall|j: int| 0 <= j < i ==> depths@[j] == depth_at(ss, j) && depths@[j] <= limits.max_depth,
                1 <= depth <= n,
                cursor is Some ==> has_id(ss, cursor->0),
                depth + chain_len(ss, cursor, (n + 1 - depth) as nat) == depth_at(ss, i as int),
            decreases n + 1 - depth,
        {
            let c = cursor.unwrap();
            depth = depth + 1;
            if depth > n as u64 {
                proof {
                    assert(cyclic_at(ss, i as int));
                    assert(p(i as int));
                    lemma_first_where_is(n as nat, p, i as int);
                }
                return Err(CompileError::at_state(CompileErrorKind::StructuralCycle, states[i].id));
            }
            cursor = parent_of_known(states, c);
            proof {
                if cursor is Some {
                    let k = choose|k: int| 0 <= k < ss.len() && ss[k].id == c && ss[k].parent == cursor;
                    assert(!state_ref_bad(ss, k));
                }
            }
        }
        if depth > limits.max_depth as u64 {
            proof {
                assert(p(i as int));
                lemma_first_where_is(n as nat, p, i as int);
            }
            return Err(
                CompileError::at_state(
                    CompileErrorKind::DepthExceeded { depth: depth as u32, max: limits.max_depth },
                    states[i].id,
                ),
            );
        }
        assert(!p(i as int));
        assert(depth == depth_at(ss, i as int));
        let d32 = depth as u32;
        depths.push(d32);
        proof {
            assert forall|j: int| 0 <= j < i + 1 implies depths@[j] == depth_at(ss, j) && depths@[j] <= limits.max_depth by {
                if j < i {
                    assert(depths@[j] == old_depths[j]);
                }
            }
        }
        i = i + 1;
    }
    proof {
        lemma_first_where_is(n as nat, p, n as int);
        assert forall|j: int| 0 <= j < ss.len() implies #[trigger] depth_at(ss, j) <= ss.len() by {
            assert(!p(j));
        }
    }
    Ok(depths)
}

fn check_initials(states: &Vec<StateSpec>) -> (r: Result<(), CompileError>)
    requires
        unique_ids(snodes(states@)),
        refs_ok(snodes(states@)),
    ensures
        match r {
            Ok(()) => initial_error(snodes(states@)) is None,
            Err(e) => initial_error(snodes(states@)) == Some(e),
        },
{
    let ghost ss = snodes(states@);
    let n = states.len();
    let mut has_ch: Vec<bool> = Vec::new();
    let mut k: usize = 0;
    while k < n
        invariant
            n == ss.len(),
            ss == snodes(states@),
            k <= n,
            has_ch@.len() == k,
            forall|j: int| 0 <= j < k ==> !has_ch@[j],
        decreases n - k,
    {
        has_ch.push(false);
        k = k + 1;
    }
    let mut i: usize = 0;
    while i < n
        invariant
            n == ss.len(),
            ss == snodes(states@),
            unique_ids(ss),
            refs_ok(ss),
            i <= n,
            has_ch@.len() == n,
            forall|j: int| 0 <= j < n ==> has_ch@[j] == exists|a: int| 0 <= a < i && ss[a].parent == Some(ss[j].id),
        decreases n - i,
    {
        if let Some(par) = states[i].parent {
            proof {
                assert(!state_ref_bad(ss, i as int));
            }
            let k = find_state(states, par).unwrap();
            has_ch.set(k, true);
            proof {
                assert forall|j: int| 0 <= j < n implies has_ch@[j] == exists|a: int| 0 <= a < i + 1 && ss[a].parent == Some(ss[j].id) by {
                    if j == k {
                        assert(ss[i as int].parent == Some(ss[j].id));
                    } else {
                        if exists|a: int| 0 <= a < i + 1 && ss[a].parent == Some(ss[j].id) {
                            let a = choose|a: int| 0 <= a < i + 1 && ss[a].parent == Some(ss[j].id);
                            if a == i {
                                assert(ss[k as int].id == ss[j].id);
                            }
                        }
                    }
                }
            }
        } else {
            proof {
                assert forall|j: int| 0 <= j < n implies has_ch@[j] == exists|a: int| 0 <= a < i + 1 && ss[a].parent == Some(ss[j].id) by {
                    if exists|a: int| 0 <= a < i + 1 && ss[a].parent == Some(ss[j].id) {
                        let a = choose|a: int| 0 <= a < i + 1 && ss[a].parent == Some(ss[j].id);
                        assert(a != i);
                    }
                }
            }
        }
        i = i + 1;
    }
    let ghost p = initial_pred(ss);
    let mut j: usize = 0;
    while j < n
        invariant
            n == ss.len(),
            ss == snodes(states@),
            p == initial_pred(ss),
            unique_ids(ss),
            refs_ok(ss),
            j <= n,
            has_ch@.len() == n,
            forall|a: int| 0 <= a < n ==> has_ch@[a] == has_children(ss, a),
            forall|a: int| 0 <= a < j ==> !#[trigger] p(a),
        decreases n - j,
    {
        let s = &states[j];
        if has_ch[j] {
            match s.initial {
                None => {
                    proof {
                        lemma_first_where_is(n as nat, p, j as int);
                    }
                    return Err(CompileError::at_state(CompileErrorKind::CompositeWithoutInitial, s.id));
                },
                Some(init) => {
                    proof {
                        assert(!state_ref_bad(ss, j as int));
                    }
                    let k = find_state(states, init).unwrap();
                    proof {
                        lemma_idx_of(ss, k as int);
                    }
                    let direct = match states[k].parent {
                        Some(q) => q == s.id,
                        None => false,
                    };
                    if !direct {
                        proof {
                            assert(p(j as int));
                            lemma_first_where_is(n as nat, p, j as int);
                        }
                        return Err(CompileError::at_state(CompileErrorKind::InitialNotDirectChild, s.id));
                    }
                },
            }
        } else if s.initial.is_some() {
            proof {
                lemma_first_where_is(n as nat, p, j as int);
            }
            return Err(CompileError::at_state(CompileErrorKind::LeafWithInitial, s.id));
        }
        assert(!p(j as int));
        j = j + 1;
    }
    proof {
        lemma_first_where_is(n as nat, p, n as int);
    }
    Ok(())
}


pub open spec fn dup_transition_pred(ts: Seq<TNode>) -> spec_fn(int) -> bool {
    |i: int| dup_transition_at(ts, i)
}

pub open spec fn unique_tids(ts: Seq<TNode>) -> bool {
    forall|i: int, j: int| 0 <= i < ts.len() && 0 <= j < ts.len() && i != j ==> ts[i].id != ts[j].id
}

fn index_transitions(transitions: &Vec<TransitionSpec>) -> (r: Result<(), CompileError>)
    ensures
        match r {
            Ok(()) => unique_tids(tnodes(transitions@)),
            Err(e) => first_where(tnodes(transitions@).len(), dup_transition_pred(tnodes(transitions@))) < tnodes(transitions@).len()
                && e == cerr_transition(
                    CompileErrorKind::DuplicateTransitionId,
                    tnodes(transitions@)[first_where(tnodes(transitions@).len(), dup_transition_pred(tnodes(transitions@))) as int].id,
                ),
        },
        r is Ok <==> first_where(tnodes(transitions@).len(), dup_transition_pred(tnodes(transitions@))) == tnodes(transitions@).len(),
{
    let ghost ts = tnodes(transitions@);
    let ghost p = dup_transition_pred(ts);
    let n = transitions.len();
    let mut i: usize = 0;
    while i < n
        invariant
            n == ts.len(),
            ts == tnodes(transitions@),
            p == dup_transition_pred(ts),
            i <= n,
            forall|a: int, b: int| 0 <= a < i && 0 <= b < i && a != b ==> ts[a].id != ts[b].id,
            forall|j: int| 0 <= j < i ==> !#[trigger] p(j),
        decreases n - i,
    {
        let mut j: usize = 0;
        while j < i
            invariant
                n == ts.len(),
                ts == tnodes(transitions@),
                p == dup_transition_pred(ts),
                forall|a: int, b: int| 0 <= a < i && 0 <= b < i && a != b ==> ts[a].id != ts[b].id,
                forall|k: int| 0 <= k < i ==> !#[trigger] p(k),
                j <= i < n,
                forall|b: int| 0 <= b < j ==> ts[b].id != ts[i as int].id,
            decreases i - j,
        {
            if transitions[j].id == transitions[i].id {
                proof {
                    assert(ts[j as int].id == ts[i as int].id);
                    assert(p(i as int));
                    lemma_first_where_is(n as nat, p, i as int);
                }
                return Err(CompileError::at_transition(CompileErrorKind::DuplicateTransitionId, transitions[i].id));
            }
            j = j + 1;
        }
        assert(!p(i as int));
        i = i + 1;
    }
    proof {
        lemma_first_where_is(n as nat, p, n as int);
    }
    Ok(())
}

/// The structural facts every later stage relies on.
pub open spec fn structure_ok(ss: Seq<SNode>) -> bool {
    unique_ids(ss) && refs_ok(ss) && acyclic(ss)
}

/// Exec depth lookup for a known state.
fn depth_of_known(states: &Vec<StateSpec>, depths: &Vec<u32>, id: StateId) -> (r: u32)
    requires
        structure_ok(snodes(states@)),
        depths@.len() == snodes(states@).len(),
        forall|i: int| 0 <= i < depths@.len() ==> depths@[i] == depth_at(snodes(states@), i),
        has_id(snodes(states@), id),
    ensures
        r == depth_at(snodes(states@), idx_of(snodes(states@), id)),
{
    let k = find_state(states, id).unwrap();
    proof {
        lemma_idx_of(snodes(states@), k as int);
    }
    depths[k]
}

/// `on_chain` needs no more fuel than the depth of its start.
fn strict_desc_exec(states: &Vec<StateSpec>, d: StateId, a: StateId) -> (r: bool)
    requires
        structure_ok(snodes(states@)),
        has_id(snodes(states@), d),
    ensures
        r == strict_desc(snodes(states@), d, a),
{
    let ghost ss = snodes(states@);
    let ghost n = ss.len();
    let mut cursor = parent_of_known(states, d);
    let ghost mut fuel: nat = n;
    proof {
        let k = idx_of(ss, d);
        lemma_idx_of(ss, k);
        lemma_depth_parent(ss, k);
        assert(depth_at(ss, k) <= n);
    }
    while cursor.is_some()
        invariant
            ss == snodes(states@),
            n == ss.len(),
            structure_ok(ss),
            strict_desc(ss, d, a) == on_chain(ss, cursor, a, fuel),
            cursor is Some ==> has_id(ss, cursor->0) && depth_at(ss, idx_of(ss, cursor->0)) <= fuel,
        decreases fuel,
    {
        let c = cursor.unwrap();
        proof {
            let k = idx_of(ss, c);
            lemma_idx_of(ss, k);
            lemma_depth_parent(ss, k);
        }
        if c == a {
            return true;
        }
        cursor = parent_of_known(states, c);
        proof {
            fuel = (fuel - 1) as nat;
        }
    }
    false
}

pub open spec fn local_pred(ss: Seq<SNode>, ts: Seq<TNode>) -> spec_fn(int) -> bool {
    |i: int| local_bad(ss, ts, i)
}

pub open spec fn tr_refs_ok(ss: Seq<SNode>, ts: Seq<TNode>) -> bool {
    forall|i: int| 0 <= i < ts.len() ==> !#[trigger] tr_ref_bad(ss, ts, i)
}

fn check_local_targets(states: &Vec<StateSpec>, transitions: &Vec<TransitionSpec>) -> (r: Result<(), CompileError>)
    requires
        structure_ok(snodes(states@)),
        tr_refs_ok(snodes(states@), tnodes(transitions@)),
    ensures
        match r {
            Ok(()) => first_where(tnodes(transitions@).len(), local_pred(snodes(states@), tnodes(transitions@))) == tnodes(transitions@).len(),
            Err(e) => first_where(tnodes(transitions@).len(), local_pred(snodes(states@), tnodes(transitions@))) < tnodes(transitions@).len()
                && e == cerr_transition(
                    CompileErrorKind::LocalTargetNotStrictDescendant,
                    tnodes(transitions@)[first_where(tnodes(transitions@).len(), local_pred(snodes(states@), tnodes(transitions@))) as int].id,
                ),
        },
{
    let ghost ss = snodes(states@);
    let ghost ts = tnodes(transitions@);
    let ghost p = local_pred(ss, ts);
    let n = transitions.len();
    let mut i: usize = 0;
    while i < n
        invariant
            n == ts.len(),
            ts == tnodes(transitions@),
            ss == snodes(states@),
            p == local_pred(ss, ts),
            structure_ok(ss),
            tr_refs_ok(ss, ts),
            i <= n,
            forall|j: int| 0 <= j < i ==> !#[trigger] p(j),
        decreases n - i,
    {
        let t = &transitions[i];
        match t.kind {
            TransitionKind::Local { target } => {
                proof {
                    assert(!tr_ref_bad(ss, ts, i as int));
                }
                if !strict_desc_exec(states, target, t.source) {
                    proof {
                        assert(p(i as int));
                        lemma_first_where_is(n as nat, p, i as int);
                    }
                    return Err(CompileError::at_transition(CompileErrorKind::LocalTargetNotStrictDescendant, t.id));
                }
            },
            _ => {},
        }
        assert(!p(i as int));
        i = i + 1;
    }
    proof {
        lemma_first_where_is(n as nat, p, n as int);
    }
    Ok(())
}


// ---------------------------------------------------------------------------------
// Candidate groups: transitions sharing `(source, event)`, by ascending priority.

pub open spec fn key_of(t: TNode) -> int {
    t.source.0 as int * 0x1_0000_0000 + t.event.0 as int
}

pub open spec fn key_of_pair(s: StateId, e: EventKind) -> int {
    s.0 as int * 0x1_0000_0000 + e.0 as int
}

/// Priority first, declaration order second.
pub open spec fn lt_prio(ts: Seq<TNode>) -> spec_fn(int, int) -> bool {
    |x: int, y: int| ts[x].priority < ts[y].priority || (ts[x].priority == ts[y].priority && x < y)
}

pub open spec fn lt_int() -> spec_fn(int, int) -> bool {
    |x: int, y: int| x < y
}

pub open spec fn is_group(ts: Seq<TNode>, key: int, l: Seq<int>) -> bool {
    &&& forall|x: int| l.contains(x) <==> (0 <= x < ts.len() && key_of(ts[x]) == key)
    &&& forall|i: int, j: int| 0 <= i < j < l.len() ==> lt_prio(ts)(l[i], l[j])
}

/// Positions of the transitions declared for `key`, ascending priority.
pub open spec fn group(ts: Seq<TNode>, key: int) -> Seq<int> {
    choose|l: Seq<int>| is_group(ts, key, l)
}

pub open spec fn is_key_list(ts: Seq<TNode>, kl: Seq<int>) -> bool {
    &&& forall|k: int| kl.contains(k) <==> (exists|i: int| 0 <= i < ts.len() && key_of(ts[i]) == k)
    &&& forall|i: int, j: int| 0 <= i < j < kl.len() ==> kl[i] < kl[j]
}

/// Every `(source, event)` key that has a transition, ascending.
pub open spec fn key_list(ts: Seq<TNode>) -> Seq<int> {
    choose|kl: Seq<int>| is_key_list(ts, kl)
}

pub open spec fn dup_adj_pred(ts: Seq<TNode>, l: Seq<int>) -> spec_fn(int) -> bool {
    |k: int| ts[l[k]].priority == ts[l[k + 1]].priority
}

pub open spec fn guardless_pred(ts: Seq<TNode>, l: Seq<int>) -> spec_fn(int) -> bool {
    |k: int| ts[l[k]].guard is None
}

pub open spec fn pairs(n: nat) -> nat {
    if n == 0 {
        0
    } else {
        (n - 1) as nat
    }
}

/// First defect of one group: a repeated priority, else a transition behind a guardless one.
pub open spec fn group_error(ts: Seq<TNode>, l: Seq<int>) -> Option<CompileError> {
    let d = first_where(pairs(l.len()), dup_adj_pred(ts, l));
    let g = first_where(l.len(), guardless_pred(ts, l));
    if d < pairs(l.len()) {
        Some(cerr_transition(CompileErrorKind::DuplicatePriority { other: ts[l[d as int]].id }, ts[l[d + 1 as int]].id))
    } else if g + 1 < l.len() {
        Some(
            cerr_transition(
                CompileErrorKind::UnreachableTransition { shadowed_by: ts[l[g as int]].id },
                ts[l[g + 1 as int]].id,
            ),
        )
    } else {
        None
    }
}

pub open spec fn group_bad_pred(ts: Seq<TNode>, kl: Seq<int>) -> spec_fn(int) -> bool {
    |k: int| group_error(ts, group(ts, kl[k])) is Some
}

pub open spec fn candidate_error(ts: Seq<TNode>) -> Option<CompileError> {
    let kl = key_list(ts);
    let f = first_where(kl.len(), group_bad_pred(ts, kl));
    if f < kl.len() {
        group_error(ts, group(ts, kl[f as int]))
    } else {
        None
    }
}

pub proof fn lemma_group_is(ts: Seq<TNode>, key: int, l: Seq<int>)
    requires
        is_group(ts, key, l),
    ensures
        group(ts, key) == l,
{
    let g = group(ts, key);
    assert(is_group(ts, key, g));
    lemma_sorted_unique(l, g, lt_prio(ts));
}

pub proof fn lemma_key_list_is(ts: Seq<TNode>, kl: Seq<int>)
    requires
        is_key_list(ts, kl),
    ensures
        key_list(ts) == kl,
{
    let g = key_list(ts);
    assert(is_key_list(ts, g));
    lemma_sorted_unique(kl, g, lt_int());
}

pub open spec fn has_key(keys: Seq<u64>, k: int) -> bool {
    exists|a: int| 0 <= a < keys.len() && keys[a] == k
}

pub open spec fn seen_key(ts: Seq<TNode>, i: int, k: int) -> bool {
    exists|j: int| 0 <= j < i && key_of(ts[j]) == k
}

fn key_exec(t: &TransitionSpec) -> (k: u64)
    ensures
        k == key_of(tnode(*t)),
{
    t.source.0 as u64 * 0x1_0000_0000 + t.event.0 as u64
}

/// Distinct keys of all transitions, ascending.
fn build_keys(transitions: &Vec<TransitionSpec>) -> (keys: Vec<u64>)
    ensures
        is_key_list(tnodes(transitions@), keys@.map_values(|k: u64| k as int)),
{
    let ghost ts = tnodes(transitions@);
    let m = transitions.len();
    let mut keys: Vec<u64> = Vec::new();
    let mut i: usize = 0;
    while i < m
        invariant
            m == ts.len(),
            ts == tnodes(transitions@),
            i <= m,
            forall|a: int, b: int| 0 <= a < b < keys@.len() ==> keys@[a] < keys@[b],
            forall|k: int| #[trigger] has_key(keys@, k) <==> seen_key(ts, i as int, k),
        decreases m - i,
    {
        let k = key_exec(&transitions[i]);
        assert(k == key_of(ts[i as int]));
        let mut pos: usize = 0;
        while pos < keys.len() && keys[pos] < k
            invariant
                pos <= keys@.len(),
                forall|a: int| 0 <= a < pos ==> keys@[a] < k,
            decreases keys@.len() - pos,
        {
            pos = pos + 1;
        }
        let ghost old_keys = keys@;
        if pos < keys.len() && keys[pos] == k {
            proof {
                assert forall|kk: int| #[trigger] has_key(keys@, kk) <==> seen_key(ts, i + 1, kk) by {
                    if exists|j: int| 0 <= j < i + 1 && key_of(ts[j]) == kk {
                        let j = choose|j: int| 0 <= j < i + 1 && key_of(ts[j]) == kk;
                        if j == i {
                            assert(keys@[pos as int] == kk);
                        }
                    }
                    if exists|a: int| 0 <= a < keys@.len() && keys@[a] == kk {
                        let a = choose|a: int| 0 <= a < keys@.len() && keys@[a] == kk;
                        assert(has_key(old_keys, kk));
                        assert(seen_key(ts, i as int, kk));
                    }
                }
            }
        } else {
            keys.insert(pos, k);
            proof {
                assert forall|a: int, b: int| 0 <= a < b < keys@.len() implies keys@[a] < keys@[b] by {
                    if a < pos && b == pos {
                    } else if a == pos && b > pos {
                        assert(old_keys[b - 1] >= k) by {
                            assert(old_keys[pos as int] > k);
                            if b - 1 > pos {
                                assert(old_keys[pos as int] < old_keys[b - 1]);
                            }
                        }
                    } else if a < pos && b > pos {
                        assert(old_keys[a] < old_keys[b - 1]);
                    } else if a > pos {
                        assert(old_keys[a - 1] < old_keys[b - 1]);
                    }
                }
                assert forall|kk: int| #[trigger] has_key(keys@, kk) <==> seen_key(ts, i + 1, kk) by {
                    if exists|j: int| 0 <= j < i + 1 && key_of(ts[j]) == kk {
                        let j = choose|j: int| 0 <= j < i + 1 && key_of(ts[j]) == kk;
                        if j == i {
                            assert(keys@[pos as int] == kk);
                        } else {
                            assert(seen_key(ts, i as int, kk));
                            assert(has_key(old_keys, kk));
                            let a = choose|a: int| 0 <= a < old_keys.len() && old_keys[a] == kk;
                            if a < pos {
                                assert(keys@[a] == kk);
                            } else {
                                assert(keys@[a + 1] == kk);
                            }
                        }
                    }
                    if exists|a: int| 0 <= a < keys@.len() && keys@[a] == kk {
                        let a = choose|a: int| 0 <= a < keys@.len() && keys@[a] == kk;
                        if a < pos {
                            assert(old_keys[a] == kk);
                            assert(has_key(old_keys, kk));
                        } else if a > pos {
                            assert(old_keys[a - 1] == kk);
                            assert(has_key(old_keys, kk));
                        }
                    }
                }
            }
        }
        i = i + 1;
    }
    proof {
        let kl = keys@.map_values(|k: u64| k as int);
        assert forall|k: int| kl.contains(k) <==> (exists|j: int| 0 <= j < ts.len() && key_of(ts[j]) == k) by {
            if kl.contains(k) {
                let a = choose|a: int| 0 <= a < kl.len() && kl[a] == k;
                assert(keys@[a] == k);
            }
            if exists|j: int| 0 <= j < ts.len() && key_of(ts[j]) == k {
                assert(seen_key(ts, ts.len() as int, k));
                assert(has_key(keys@, k));
                let a = choose|a: int| 0 <= a < keys@.len() && keys@[a] == k;
                assert(kl[a] == k);
            }
            if kl.contains(k) {
                let a = choose|a: int| 0 <= a < kl.len() && kl[a] == k;
                assert(has_key(keys@, k));
                assert(seen_key(ts, ts.len() as int, k));
            }
        }
    }
    keys
}


pub open spec fn as_ints(l: Seq<usize>) -> Seq<int> {
    l.map_values(|x: usize| x as int)
}

/// Positions with `key`, ordered by priority then declaration.
fn build_group(transitions: &Vec<TransitionSpec>, key: u64) -> (l: Vec<usize>)
    ensures
        is_group(tnodes(transitions@), key as int, as_ints(l@)),
        forall|j: int| 0 <= j < l@.len() ==> l@[j] < tnodes(transitions@).len(),
{
    let ghost ts = tnodes(transitions@);
    let m = transitions.len();
    let mut l: Vec<usize> = Vec::new();
    let mut i: usize = 0;
    while i < m
        invariant
            m == ts.len(),
            ts == tnodes(transitions@),
            i <= m,
            forall|j: int| 0 <= j < l@.len() ==> l@[j] < i,
            forall|x: int| #[trigger] as_ints(l@).contains(x) <==> (0 <= x < i && key_of(ts[x]) == key as int),
            forall|a: int, b: int| 0 <= a < b < l@.len() ==> lt_prio(ts)(l@[a] as int, l@[b] as int),
        decreases m - i,
    {
        let ki = key_exec(&transitions[i]);
        if ki == key {
            let pr = transitions[i].priority;
            let mut pos: usize = 0;
            while pos < l.len() && transitions[l[pos]].priority <= pr
                invariant
                    m == ts.len(),
                    ts == tnodes(transitions@),
                    pos <= l@.len(),
                    forall|j: int| 0 <= j < l@.len() ==> l@[j] < i,
                    i < m,
                    pr == ts[i as int].priority,
                    forall|a: int| 0 <= a < pos ==> ts[l@[a] as int].priority <= pr,
                decreases l@.len() - pos,
            {
                pos = pos + 1;
            }
            let ghost old_l = l@;
            l.insert(pos, i);
            proof {
                assert forall|a: int, b: int| 0 <= a < b < l@.len() implies lt_prio(ts)(l@[a] as int, l@[b] as int) by {
                    if a < pos && b == pos {
                        assert(old_l[a] < i);
                    } else if a == pos && b > pos {
                        assert(ts[old_l[pos as int] as int].priority > pr);
                        if b - 1 > pos {
                            assert(lt_prio(ts)(old_l[pos as int] as int, old_l[b - 1] as int));
                        }
                    } else if a < pos && b > pos {
                        assert(lt_prio(ts)(old_l[a] as int, old_l[b - 1] as int));
                    } else if a > pos {
                        assert(lt_prio(ts)(old_l[a - 1] as int, old_l[b - 1] as int));
                    }
                }
                assert forall|x: int| as_ints(l@).contains(x) <==> (0 <= x < i + 1 && key_of(ts[x]) == key as int) by {
                    if 0 <= x < i + 1 && key_of(ts[x]) == key as int {
                        if x == i {
                            assert(as_ints(l@)[pos as int] == x);
                        } else {
                            assert(as_ints(old_l).contains(x));
                            let a = choose|a: int| 0 <= a < old_l.len() && as_ints(old_l)[a] == x;
                            if a < pos {
                                assert(as_ints(l@)[a] == x);
                            } else {
                                assert(as_ints(l@)[a + 1] == x);
                            }
                        }
                    }
                    if as_ints(l@).contains(x) {
                        let a = choose|a: int| 0 <= a < l@.len() && as_ints(l@)[a] == x;
                        if a < pos {
                            assert(as_ints(old_l)[a] == x);
                            assert(as_ints(old_l).contains(x));
                        } else if a > pos {
                            assert(as_ints(old_l)[a - 1] == x);
                            assert(as_ints(old_l).contains(x));
                        }
                    }
                }
            }
        } else {
            proof {
                assert forall|x: int| as_ints(l@).contains(x) <==> (0 <= x < i + 1 && key_of(ts[x]) == key as int) by {
                    if as_ints(l@).contains(x) {
                        let a = choose|a: int| 0 <= a < l@.len() && as_ints(l@)[a] == x;
                        assert(l@[a] < i);
                    }
                    if 0 <= x < i + 1 && key_of(ts[x]) == key as int {
                        assert(ki == key_of(ts[i as int]));
                        assert(x != i);
                        assert(0 <= x < i && key_of(ts[x]) == key as int);
                    }
                }
            }
        }
        i = i + 1;
    }
    l
}

/// First defect of the group at `l`, or `Ok`.
fn check_group(transitions: &Vec<TransitionSpec>, l: &Vec<usize>) -> (r: Result<(), CompileError>)
    requires
        forall|j: int| 0 <= j < l@.len() ==> l@[j] < tnodes(transitions@).len(),
    ensures
        match r {
            Ok(()) => group_error(tnodes(transitions@), as_ints(l@)) is None,
            Err(e) => group_error(tnodes(transitions@), as_ints(l@)) == Some(e),
        },
{
    let ghost ts = tnodes(transitions@);
    let ghost li = as_ints(l@);
    let ghost p = dup_adj_pred(ts, li);
    let ghost q = guardless_pred(ts, li);
    let n = l.len();
    let np: usize = if n == 0 {
        0
    } else {
        n - 1
    };
    let mut k: usize = 0;
    while k < np
        invariant
            np == pairs(n as nat),
            n == l@.len(),
            li == as_ints(l@),
            ts == tnodes(transitions@),
            p == dup_adj_pred(ts, li),
            forall|j: int| 0 <= j < l@.len() ==> l@[j] < tnodes(transitions@).len(),
            k <= np,
            forall|j: int| 0 <= j < k ==> !#[trigger] p(j),
        decreases np - k,
    {
        let a = &transitions[l[k]];
        let b = &transitions[l[k + 1]];
        if a.priority == b.priority {
            proof {
                assert(p(k as int));
                lemma_first_where_is(np as nat, p, k as int);
            }
            return Err(CompileError::at_transition(CompileErrorKind::DuplicatePriority { other: a.id }, b.id));
        }
        assert(!p(k as int));
        k = k + 1;
    }
    proof {
        lemma_first_where_is(np as nat, p, np as int);
    }
    let mut g: usize = 0;
    while g < n && transitions[l[g]].guard.is_some()
        invariant
            n == l@.len(),
            li == as_ints(l@),
            ts == tnodes(transitions@),
            q == guardless_pred(ts, li),
            forall|j: int| 0 <= j < l@.len() ==> l@[j] < tnodes(transitions@).len(),
            g <= n,
            forall|j: int| 0 <= j < g ==> !#[trigger] q(j),
        decreases n - g,
    {
        g = g + 1;
    }
    proof {
        lemma_first_where_is(n as nat, q, g as int);
    }
    if n > 0 && g < n - 1 {
        return Err(
            CompileError::at_transition(
                CompileErrorKind::UnreachableTransition { shadowed_by: transitions[l[g]].id },
                transitions[l[g + 1]].id,
            ),
        );
    }
    Ok(())
}


/// Candidates of one `(source, event)` key, ascending priority.
#[derive(Debug)]
pub struct CandidateGroup {
    pub source: StateId,
    pub event: EventKind,
    pub members: Vec<usize>,
    pub ids: Vec<TransitionId>,
}

pub open spec fn group_ok(ts: Seq<TNode>, key: int, g: CandidateGroup) -> bool {
    &&& as_ints(g.members@) == group(ts, key)
    &&& key_of_pair(g.source, g.event) == key
    &&& g.ids@.len() == g.members@.len()
    &&& forall|j: int| 0 <= j < g.members@.len() ==> #[trigger] g.members@[j] < ts.len()
    &&& forall|j: int| 0 <= j < g.members@.len() ==> #[trigger] g.ids@[j] == ts[g.members@[j] as int].id
}

pub open spec fn cand_table_ok(ts: Seq<TNode>, table: Seq<CandidateGroup>) -> bool {
    let kl = key_list(ts);
    &&& table.len() == kl.len()
    &&& forall|k: int| 0 <= k < table.len() ==> #[trigger] group_ok(ts, kl[k], table[k])
}

fn build_candidates(transitions: &Vec<TransitionSpec>) -> (r: Result<Vec<CandidateGroup>, CompileError>)
    ensures
        match r {
            Ok(table) => candidate_error(tnodes(transitions@)) is None && cand_table_ok(tnodes(transitions@), table@)
                && is_key_list(tnodes(transitions@), key_list(tnodes(transitions@))),
            Err(e) => candidate_error(tnodes(transitions@)) == Some(e),
        },
{
    let ghost ts = tnodes(transitions@);
    let keys = build_keys(transitions);
    let ghost kl = keys@.map_values(|k: u64| k as int);
    proof {
        lemma_key_list_is(ts, kl);
    }
    let ghost p = group_bad_pred(ts, kl);
    let mut table: Vec<CandidateGroup> = Vec::new();
    let nk = keys.len();
    let mut k: usize = 0;
    while k < nk
        invariant
            ts == tnodes(transitions@),
            nk == keys@.len(),
            kl == keys@.map_values(|k: u64| k as int),
            kl == key_list(ts),
            is_key_list(ts, kl),
            p == group_bad_pred(ts, kl),
            k <= nk,
            table@.len() == k,
            forall|j: int| 0 <= j < k ==> !#[trigger] p(j),
            forall|j: int| 0 <= j < k ==> #[trigger] group_ok(ts, kl[j], table@[j]),
        decreases nk - k,
    {
        let key = keys[k];
        let l = build_group(transitions, key);
        proof {
            lemma_group_is(ts, key as int, as_ints(l@));
        }
        match check_group(transitions, &l) {
            Err(e) => {
                proof {
                    assert(p(k as int));
                    lemma_first_where_is(nk as nat, p, k as int);
                }
                return Err(e);
            },
            Ok(()) => {},
        }
        assert(!p(k as int));
        proof {
            assert(kl.contains(key as int)) by {
                assert(kl[k as int] == key as int);
            }
        }
        let mut ids: Vec<TransitionId> = Vec::new();
        let mut j: usize = 0;
        while j < l.len()
            invariant
                ts == tnodes(transitions@),
                forall|a: int| 0 <= a < l@.len() ==> l@[a] < ts.len(),
                j <= l@.len(),
                ids@.len() == j,
                forall|a: int| 0 <= a < j ==> #[trigger] ids@[a] == ts[l@[a] as int].id,
            decreases l@.len() - j,
        {
            ids.push(transitions[l[j]].id);
            j = j + 1;
        }
        let ghost w = choose|i: int| 0 <= i < ts.len() && key_of(ts[i]) == key as int;
        proof {
            assert(as_ints(l@).contains(w));
        }
        let first = l[0];
        let source = transitions[first].source;
        let event = transitions[first].event;
        proof {
            assert(as_ints(l@)[0] == first as int);
            assert(as_ints(l@).contains(first as int));
        }
        let ghost old_table = table@;
        table.push(CandidateGroup { source, event, members: l, ids });
        proof {
            assert forall|j: int| 0 <= j < k + 1 implies #[trigger] group_ok(ts, kl[j], table@[j]) by {
                if j < k {
                    assert(table@[j] == old_table[j]);
                }
            }
        }
        k = k + 1;
    }
    proof {
        lemma_first_where_is(nk as nat, p, nk as int);
    }
    Ok(table)
}

// ---------------------------------------------------------------------------------
// Events that have at least one transition, ascending.

pub open spec fn is_event_list(ts: Seq<TNode>, el: Seq<int>) -> bool {
    &&& forall|e: int| el.contains(e) <==> (exists|i: int| 0 <= i < ts.len() && ts[i].event.0 == e)
    &&& forall|i: int, j: int| 0 <= i < j < el.len() ==> el[i] < el[j]
}

pub open spec fn event_list(ts: Seq<TNode>) -> Seq<int> {
    choose|el: Seq<int>| is_event_list(ts, el)
}

pub open spec fn event_known(ts: Seq<TNode>, e: EventKind) -> bool {
    exists|i: int| 0 <= i < ts.len() && ts[i].event == e
}

pub proof fn lemma_event_list_is(ts: Seq<TNode>, el: Seq<int>)
    requires
        is_event_list(ts, el),
    ensures
        event_list(ts) == el,
{
    let g = event_list(ts);
    assert(is_event_list(ts, g));
    lemma_sorted_unique(el, g, lt_int());
}

pub open spec fn has_event_val(evs: Seq<EventKind>, e: int) -> bool {
    exists|a: int| 0 <= a < evs.len() && evs[a].0 == e
}

pub open spec fn seen_event(ts: Seq<TNode>, i: int, e: int) -> bool {
    exists|j: int| 0 <= j < i && ts[j].event.0 == e
}

pub open spec fn event_ints(evs: Seq<EventKind>) -> Seq<int> {
    evs.map_values(|e: EventKind| e.0 as int)
}

fn build_events(transitions: &Vec<TransitionSpec>) -> (evs: Vec<EventKind>)
    ensures
        is_event_list(tnodes(transitions@), event_ints(evs@)),
{
    let ghost ts = tnodes(transitions@);
    let m = transitions.len();
    let mut evs: Vec<EventKind> = Vec::new();
    let mut i: usize = 0;
    while i < m
        invariant
            m == ts.len(),
            ts == tnodes(transitions@),
            i <= m,
            forall|a: int, b: int| 0 <= a < b < evs@.len() ==> evs@[a].0 < evs@[b].0,
            forall|e: int| #[trigger] has_event_val(evs@, e) <==> seen_event(ts, i as int, e),
        decreases m - i,
    {
        let e = transitions[i].event;
        assert(e == ts[i as int].event);
        let mut pos: usize = 0;
        while pos < evs.len() && evs[pos].0 < e.0
            invariant
                pos <= evs@.len(),
                forall|a: int| 0 <= a < pos ==> evs@[a].0 < e.0,
            decreases evs@.len() - pos,
        {
            pos = pos + 1;
        }
        let ghost old_evs = evs@;
        if pos < evs.len() && evs[pos].0 == e.0 {
            proof {
                assert forall|ee: int| #[trigger] has_event_val(evs@, ee) <==> seen_event(ts, i + 1, ee) by {
                    if seen_event(ts, i + 1, ee) {
                        let j = choose|j: int| 0 <= j < i + 1 && ts[j].event.0 == ee;
                        if j == i {
                            assert(evs@[pos as int].0 == ee);
                        } else {
                            assert(seen_event(ts, i as int, ee));
                        }
                    }
                    if has_event_val(evs@, ee) {
                        assert(seen_event(ts, i as int, ee));
                    }
                }
            }
        } else {
            evs.insert(pos, e);
            proof {
                assert forall|a: int, b: int| 0 <= a < b < evs@.len() implies evs@[a].0 < evs@[b].0 by {
                    if a < pos && b == pos {
                    } else if a == pos && b > pos {
                        assert(old_evs[pos as int].0 > e.0);
                        if b - 1 > pos {
                            assert(old_evs[pos as int].0 < old_evs[b - 1].0);
                        }
                    } else if a < pos && b > pos {
                        assert(old_evs[a].0 < old_evs[b - 1].0);
                    } else if a > pos {
                        assert(old_evs[a - 1].0 < old_evs[b - 1].0);
                    }
                }
                assert forall|ee: int| #[trigger] has_event_val(evs@, ee) <==> seen_event(ts, i + 1, ee) by {
                    if seen_event(ts, i + 1, ee) {
                        let j = choose|j: int| 0 <= j < i + 1 && ts[j].event.0 == ee;
                        if j == i {
                            assert(evs@[pos as int].0 == ee);
                        } else {
                            assert(seen_event(ts, i as int, ee));
                            assert(has_event_val(old_evs, ee));
                            let a = choose|a: int| 0 <= a < old_evs.len() && old_evs[a].0 == ee;
                            if a < pos {
                                assert(evs@[a].0 == ee);
                            } else {
                                assert(evs@[a + 1].0 == ee);
                            }
                        }
                    }
                    if has_event_val(evs@, ee) {
                        let a = choose|a: int| 0 <= a < evs@.len() && evs@[a].0 == ee;
                        if a < pos {
                            assert(old_evs[a].0 == ee);
                            assert(has_event_val(old_evs, ee));
                        } else if a > pos {
                            assert(old_evs[a - 1].0 == ee);
                            assert(has_event_val(old_evs, ee));
                        }
                    }
                }
            }
        }
        i = i + 1;
    }
    proof {
        let el = event_ints(evs@);
        assert forall|e: int| el.contains(e) <==> (exists|j: int| 0 <= j < ts.len() && ts[j].event.0 == e) by {
            if exists|j: int| 0 <= j < ts.len() && ts[j].event.0 == e {
                assert(seen_event(ts, ts.len() as int, e));
                assert(has_event_val(evs@, e));
                let a = choose|a: int| 0 <= a < evs@.len() && evs@[a].0 == e;
                assert(el[a] == e);
            }
            if el.contains(e) {
                let a = choose|a: int| 0 <= a < el.len() && el[a] == e;
                assert(has_event_val(evs@, e));
                assert(seen_event(ts, ts.len() as int, e));
            }
        }
    }
    evs
}


// ---------------------------------------------------------------------------------
// Worst-case plan sizes.

pub open spec fn entry_len(ss: Seq<SNode>, id: StateId) -> nat {
    if has_id(ss, id) {
        ss[idx_of(ss, id)].entry.len()
    } else {
        0
    }
}

pub open spec fn exit_len(ss: Seq<SNode>, id: StateId) -> nat {
    if has_id(ss, id) {
        ss[idx_of(ss, id)].exit.len()
    } else {
        0
    }
}

pub open spec fn initial_in(ss: Seq<SNode>, id: StateId) -> Option<StateId> {
    if has_id(ss, id) {
        ss[idx_of(ss, id)].initial
    } else {
        None
    }
}

/// Entry actions of the initial chain strictly below `s`.
pub open spec fn init_chain_entries(ss: Seq<SNode>, s: StateId, fuel: nat) -> nat
    decreases fuel,
{
    match initial_in(ss, s) {
        None => 0,
        Some(c) => if fuel == 0 {
            0
        } else {
            entry_len(ss, c) + init_chain_entries(ss, c, (fuel - 1) as nat)
        },
    }
}

/// Largest total of exit actions on any active sub-path strictly below `s`.
pub open spec fn max_exit_below(ss: Seq<SNode>, s: StateId, fuel: nat) -> nat
    decreases fuel, ss.len() + 1,
{
    if fuel == 0 {
        0
    } else {
        max_exit_scan(ss, s, fuel, ss.len() as int)
    }
}

pub open spec fn max_exit_scan(ss: Seq<SNode>, s: StateId, fuel: nat, k: int) -> nat
    decreases fuel, k,
{
    if k <= 0 || fuel == 0 || k > ss.len() {
        0
    } else {
        let rest = max_exit_scan(ss, s, fuel, k - 1);
        if ss[k - 1].parent == Some(s) {
            let here = ss[k - 1].exit.len() + max_exit_below(ss, ss[k - 1].id, (fuel - 1) as nat);
            if here > rest {
                here
            } else {
                rest
            }
        } else {
            rest
        }
    }
}

/// Entry actions from `x` up to, not including, `domain`.
pub open spec fn entries_between(ss: Seq<SNode>, x: Option<StateId>, domain: Option<StateId>, fuel: nat) -> nat
    decreases fuel,
{
    match x {
        None => 0,
        Some(s) => if fuel == 0 || Some(s) == domain {
            0
        } else {
            entry_len(ss, s) + entries_between(ss, parent_in(ss, s), domain, (fuel - 1) as nat)
        },
    }
}

/// Exit actions from `x` up to, not including, `domain`.
pub open spec fn exits_between(ss: Seq<SNode>, x: Option<StateId>, domain: Option<StateId>, fuel: nat) -> nat
    decreases fuel,
{
    match x {
        None => 0,
        Some(s) => if fuel == 0 || Some(s) == domain {
            0
        } else {
            exit_len(ss, s) + exits_between(ss, parent_in(ss, s), domain, (fuel - 1) as nat)
        },
    }
}

/// First state on the chain from `x` that is `a` or an ancestor of `a`.
pub open spec fn first_common(ss: Seq<SNode>, x: Option<StateId>, a: StateId, fuel: nat) -> Option<StateId>
    decreases fuel,
{
    match x {
        None => None,
        Some(s) => if fuel == 0 {
            None
        } else if on_chain(ss, Some(a), s, ss.len()) {
            Some(s)
        } else {
            first_common(ss, parent_in(ss, s), a, (fuel - 1) as nat)
        },
    }
}

/// Lowest common ancestor of `a` and `b`, moved one level up when it is `a` or `b`
/// itself. `None` is the synthetic root.
pub open spec fn strict_common_ancestor(ss: Seq<SNode>, a: StateId, b: StateId) -> Option<StateId> {
    match first_common(ss, Some(b), a, ss.len()) {
        Some(l) => if l == a || l == b {
            parent_in(ss, l)
        } else {
            Some(l)
        },
        None => None,
    }
}

pub open spec fn worst_case(ss: Seq<SNode>, t: TNode) -> nat {
    let n = ss.len();
    let own = t.actions.len();
    match t.kind {
        TransitionKind::Internal => own,
        TransitionKind::Local { target } => max_exit_below(ss, t.source, n) + own + entries_between(
            ss,
            Some(target),
            Some(t.source),
            n,
        ) + init_chain_entries(ss, target, n),
        TransitionKind::External { target } => {
            let domain = strict_common_ancestor(ss, t.source, target);
            max_exit_below(ss, t.source, n) + exits_between(ss, Some(t.source), domain, n) + own
                + entries_between(ss, Some(target), domain, n) + init_chain_entries(ss, target, n)
        },
    }
}

pub open spec fn start_actions(ss: Seq<SNode>, root: StateId) -> nat {
    entry_len(ss, root) + init_chain_entries(ss, root, ss.len())
}

/// Deepest exit chain from any leaf to the root, over the first `k` states.
pub open spec fn stop_scan(ss: Seq<SNode>, k: int) -> nat
    decreases k,
{
    if k <= 0 || k > ss.len() {
        0
    } else {
        let rest = stop_scan(ss, k - 1);
        if ss[k - 1].parent is None {
            let here = ss[k - 1].exit.len() + max_exit_below(ss, ss[k - 1].id, ss.len());
            if here > rest {
                here
            } else {
                rest
            }
        } else {
            rest
        }
    }
}

pub open spec fn stop_actions(ss: Seq<SNode>) -> nat {
    stop_scan(ss, ss.len() as int)
}

pub open spec fn worst_pred(ss: Seq<SNode>, ts: Seq<TNode>, max: u32) -> spec_fn(int) -> bool {
    |i: int| worst_case(ss, ts[i]) > max
}

pub open spec fn worst_scan(ss: Seq<SNode>, ts: Seq<TNode>, k: int) -> nat
    decreases k,
{
    if k <= 0 || k > ts.len() {
        0
    } else {
        let rest = worst_scan(ss, ts, k - 1);
        if worst_case(ss, ts[k - 1]) > rest {
            worst_case(ss, ts[k - 1])
        } else {
            rest
        }
    }
}

pub open spec fn max2(a: nat, b: nat) -> nat {
    if a > b {
        a
    } else {
        b
    }
}

/// Worst-case action count over Start, Stop, and every transition.
pub open spec fn max_plan(ss: Seq<SNode>, ts: Seq<TNode>, root: StateId) -> nat {
    max2(max2(start_actions(ss, root), stop_actions(ss)), worst_scan(ss, ts, ts.len() as int))
}

pub open spec fn plan_error(ss: Seq<SNode>, ts: Seq<TNode>, root: StateId, max: u32) -> Option<CompileError> {
    let f = first_where(ts.len(), worst_pred(ss, ts, max));
    if start_actions(ss, root) > max {
        Some(cerr(CompileErrorKind::ActionsPerPlanExceeded { required: start_actions(ss, root) as u32, max }))
    } else if stop_actions(ss) > max {
        Some(cerr(CompileErrorKind::ActionsPerPlanExceeded { required: stop_actions(ss) as u32, max }))
    } else if f < ts.len() {
        Some(
            cerr_transition(
                CompileErrorKind::ActionsPerPlanExceeded { required: worst_case(ss, ts[f as int]) as u32, max },
                ts[f as int].id,
            ),
        )
    } else {
        None
    }
}

/// Bound used to keep the plan arithmetic inside `u128`.
pub open spec fn list_cap() -> int {
    0x1_0000_0000_0000_0000
}

pub open spec fn lists_fit(ss: Seq<SNode>) -> bool {
    forall|i: int| #![trigger ss[i]] 0 <= i < ss.len() ==> ss[i].entry.len() < list_cap() && ss[i].exit.len() < list_cap()
}

proof fn lemma_lens_fit(ss: Seq<SNode>, id: StateId)
    requires
        lists_fit(ss),
    ensures
        entry_len(ss, id) < list_cap(),
        exit_len(ss, id) < list_cap(),
{
    if has_id(ss, id) {
        let k = idx_of(ss, id);
        assert(ss[k].entry.len() < list_cap());
    }
}

proof fn lemma_init_chain_bound(ss: Seq<SNode>, s: StateId, fuel: nat)
    requires
        lists_fit(ss),
    ensures
        init_chain_entries(ss, s, fuel) <= fuel * list_cap(),
    decreases fuel,
{
    match initial_in(ss, s) {
        None => {},
        Some(c) => if fuel > 0 {
            lemma_lens_fit(ss, c);
            lemma_init_chain_bound(ss, c, (fuel - 1) as nat);
        },
    }
}

proof fn lemma_between_bound(ss: Seq<SNode>, x: Option<StateId>, d: Option<StateId>, fuel: nat)
    requires
        lists_fit(ss),
    ensures
        entries_between(ss, x, d, fuel) <= fuel * list_cap(),
        exits_between(ss, x, d, fuel) <= fuel * list_cap(),
    decreases fuel,
{
    match x {
        None => {},
        Some(s) => if fuel > 0 && Some(s) != d {
            lemma_lens_fit(ss, s);
            lemma_between_bound(ss, parent_in(ss, s), d, (fuel - 1) as nat);
        },
    }
}

proof fn lemma_exit_below_bound(ss: Seq<SNode>, s: StateId, fuel: nat)
    requires
        lists_fit(ss),
    ensures
        max_exit_below(ss, s, fuel) <= fuel * list_cap(),
    decreases fuel, ss.len() + 1,
{
    if fuel > 0 {
        lemma_exit_scan_bound(ss, s, fuel, ss.len() as int);
    }
}

proof fn lemma_exit_scan_bound(ss: Seq<SNode>, s: StateId, fuel: nat, k: int)
    requires
        lists_fit(ss),
    ensures
        max_exit_scan(ss, s, fuel, k) <= fuel * list_cap(),
    decreases fuel, k,
{
    if k <= 0 || fuel == 0 || k > ss.len() {
    } else {
        lemma_exit_scan_bound(ss, s, fuel, k - 1);
        if ss[k - 1].parent == Some(s) {
            assert(ss[k - 1].exit.len() < list_cap());
            lemma_exit_below_bound(ss, ss[k - 1].id, (fuel - 1) as nat);
            assert((fuel - 1) as nat * list_cap() + list_cap() == fuel * list_cap()) by (nonlinear_arith)
                requires
                    fuel >= 1,
            ;
        }
    }
}


/// Preconditions shared by the walks over a validated state table.
pub open spec fn table_ok(ss: Seq<SNode>) -> bool {
    structure_ok(ss) && lists_fit(ss) && ss.len() <= u32::MAX
}

fn parent_of_any(states: &Vec<StateSpec>, id: StateId) -> (r: Option<StateId>)
    requires
        unique_ids(snodes(states@)),
    ensures
        r == parent_in(snodes(states@), id),
{
    match find_state(states, id) {
        None => None,
        Some(k) => {
            proof {
                lemma_idx_of(snodes(states@), k as int);
            }
            states[k].parent
        },
    }
}

fn initial_of_any(states: &Vec<StateSpec>, id: StateId) -> (r: Option<StateId>)
    requires
        unique_ids(snodes(states@)),
    ensures
        r == initial_in(snodes(states@), id),
{
    match find_state(states, id) {
        None => None,
        Some(k) => {
            proof {
                lemma_idx_of(snodes(states@), k as int);
            }
            states[k].initial
        },
    }
}

fn entry_len_exec(states: &Vec<StateSpec>, id: StateId) -> (r: u128)
    requires
        table_ok(snodes(states@)),
    ensures
        r == entry_len(snodes(states@), id),
        r < list_cap(),
{
    proof {
        lemma_lens_fit(snodes(states@), id);
    }
    match find_state(states, id) {
        None => 0,
        Some(k) => {
            proof {
                lemma_idx_of(snodes(states@), k as int);
            }
            states[k].entry.len() as u128
        },
    }
}

fn exit_len_exec(states: &Vec<StateSpec>, id: StateId) -> (r: u128)
    requires
        table_ok(snodes(states@)),
    ensures
        r == exit_len(snodes(states@), id),
        r < list_cap(),
{
    proof {
        lemma_lens_fit(snodes(states@), id);
    }
    match find_state(states, id) {
        None => 0,
        Some(k) => {
            proof {
                lemma_idx_of(snodes(states@), k as int);
            }
            states[k].exit.len() as u128
        },
    }
}

fn init_chain_exec(states: &Vec<StateSpec>, s: StateId, fuel: usize) -> (r: u128)
    requires
        table_ok(snodes(states@)),
        fuel <= u32::MAX,
    ensures
        r == init_chain_entries(snodes(states@), s, fuel as nat),
    decreases fuel,
{
    proof {
        lemma_init_chain_bound(snodes(states@), s, fuel as nat);
    }
    match initial_of_any(states, s) {
        None => 0,
        Some(c) => if fuel == 0 {
            0
        } else {
            let rest = init_chain_exec(states, c, fuel - 1);
            let here = entry_len_exec(states, c);
            proof {
                lemma_init_chain_bound(snodes(states@), c, (fuel - 1) as nat);
                assert((fuel - 1) as nat * list_cap() <= u32::MAX * list_cap());
            }
            here + rest
        },
    }
}

fn max_exit_below_exec(states: &Vec<StateSpec>, s: StateId, fuel: usize) -> (r: u128)
    requires
        table_ok(snodes(states@)),
        fuel <= u32::MAX,
    ensures
        r == max_exit_below(snodes(states@), s, fuel as nat),
    decreases fuel,
{
    let ghost ss = snodes(states@);
    if fuel == 0 {
        return 0;
    }
    let n = states.len();
    let mut best: u128 = 0;
    let mut k: usize = 0;
    while k < n
        invariant
            ss == snodes(states@),
            n == ss.len(),
            table_ok(ss),
            1 <= fuel <= u32::MAX,
            k <= n,
            best == max_exit_scan(ss, s, fuel as nat, k as int),
        decreases n - k,
    {
        proof {
            lemma_exit_scan_bound(ss, s, fuel as nat, k as int + 1);
        }
        if states[k].parent == Some(s) {
            let below = max_exit_below_exec(states, states[k].id, fuel - 1);
            proof {
                assert(ss[k as int].exit.len() < list_cap());
                lemma_exit_below_bound(ss, ss[k as int].id, (fuel - 1) as nat);
                assert((fuel - 1) as nat * list_cap() <= u32::MAX * list_cap());
            }
            let here = states[k].exit.len() as u128 + below;
            if here > best {
                best = here;
            }
        }
        k = k + 1;
    }
    best
}

fn entries_between_exec(states: &Vec<StateSpec>, x: Option<StateId>, domain: Option<StateId>, fuel: usize) -> (r: u128)
    requires
        table_ok(snodes(states@)),
        fuel <= u32::MAX,
    ensures
        r == entries_between(snodes(states@), x, domain, fuel as nat),
    decreases fuel,
{
    proof {
        lemma_between_bound(snodes(states@), x, domain, fuel as nat);
    }
    match x {
        None => 0,
        Some(s) => if fuel == 0 || x == domain {
            0
        } else {
            let p = parent_of_any(states, s);
            let rest = entries_between_exec(states, p, domain, fuel - 1);
            proof {
                lemma_between_bound(snodes(states@), p, domain, (fuel - 1) as nat);
                assert((fuel - 1) as nat * list_cap() <= u32::MAX * list_cap());
            }
            entry_len_exec(states, s) + rest
        },
    }
}

fn exits_between_exec(states: &Vec<StateSpec>, x: Option<StateId>, domain: Option<StateId>, fuel: usize) -> (r: u128)
    requires
        table_ok(snodes(states@)),
        fuel <= u32::MAX,
    ensures
        r == exits_between(snodes(states@), x, domain, fuel as nat),
    decreases fuel,
{
    proof {
        lemma_between_bound(snodes(states@), x, domain, fuel as nat);
    }
    match x {
        None => 0,
        Some(s) => if fuel == 0 || x == domain {
            0
        } else {
            let p = parent_of_any(states, s);
            let rest = exits_between_exec(states, p, domain, fuel - 1);
            proof {
                lemma_between_bound(snodes(states@), p, domain, (fuel - 1) as nat);
                assert((fuel - 1) as nat * list_cap() <= u32::MAX * list_cap());
            }
            exit_len_exec(states, s) + rest
        },
    }
}

fn on_chain_exec(states: &Vec<StateSpec>, x: Option<StateId>, a: StateId, fuel: usize) -> (r: bool)
    requires
        unique_ids(snodes(states@)),
    ensures
        r == on_chain(snodes(states@), x, a, fuel as nat),
    decreases fuel,
{
    match x {
        None => false,
        Some(s) => if fuel == 0 {
            false
        } else if s == a {
            true
        } else {
            let p = parent_of_any(states, s);
            on_chain_exec(states, p, a, fuel - 1)
        },
    }
}

fn first_common_exec(states: &Vec<StateSpec>, x: Option<StateId>, a: StateId, fuel: usize) -> (r: Option<StateId>)
    requires
        unique_ids(snodes(states@)),
    ensures
        r == first_common(snodes(states@), x, a, fuel as nat),
    decreases fuel,
{
    match x {
        None => None,
        Some(s) => if fuel == 0 {
            None
        } else if on_chain_exec(states, Some(a), s, states.len()) {
            Some(s)
        } else {
            let p = parent_of_any(states, s);
            first_common_exec(states, p, a, fuel - 1)
        },
    }
}

pub(crate) fn strict_common_ancestor_exec(states: &Vec<StateSpec>, a: StateId, b: StateId) -> (r: Option<StateId>)
    requires
        unique_ids(snodes(states@)),
    ensures
        r == strict_common_ancestor(snodes(states@), a, b),
{
    match first_common_exec(states, Some(b), a, states.len()) {
        Some(l) => if l == a || l == b {
            parent_of_any(states, l)
        } else {
            Some(l)
        },
        None => None,
    }
}

fn worst_case_exec(states: &Vec<StateSpec>, t: &TransitionSpec) -> (r: u128)
    requires
        table_ok(snodes(states@)),
    ensures
        r == worst_case(snodes(states@), tnode(*t)),
{
    let ghost ss = snodes(states@);
    let n = states.len();
    let own = t.actions.len() as u128;
    proof {
        assert(n as nat * list_cap() <= u32::MAX * list_cap()) by (nonlinear_arith)
            requires
                n <= u32::MAX,
        ;
        assert(u32::MAX * list_cap() < 0x1_0000_0000_0000_0000_0000_0000);
    }
    match t.kind {
        TransitionKind::Internal => own,
        TransitionKind::Local { target } => {
            let a = max_exit_below_exec(states, t.source, n);
            let b = entries_between_exec(states, Some(target), Some(t.source), n);
            let c = init_chain_exec(states, target, n);
            proof {
                lemma_exit_below_bound(ss, t.source, n as nat);
                lemma_between_bound(ss, Some(target), Some(t.source), n as nat);
                lemma_init_chain_bound(ss, target, n as nat);
            }
            a + own + b + c
        },
        TransitionKind::External { target } => {
            let domain = strict_common_ancestor_exec(states, t.source, target);
            let a = max_exit_below_exec(states, t.source, n);
            let b = exits_between_exec(states, Some(t.source), domain, n);
            let c = entries_between_exec(states, Some(target), domain, n);
            let d = init_chain_exec(states, target, n);
            proof {
                lemma_exit_below_bound(ss, t.source, n as nat);
                lemma_between_bound(ss, Some(t.source), domain, n as nat);
                lemma_between_bound(ss, Some(target), domain, n as nat);
                lemma_init_chain_bound(ss, target, n as nat);
            }
            a + b + own + c + d
        },
    }
}


proof fn lemma_stop_bound(ss: Seq<SNode>, k: int)
    requires
        lists_fit(ss),
    ensures
        stop_scan(ss, k) <= ss.len() * list_cap() + list_cap(),
    decreases k,
{
    if k <= 0 || k > ss.len() {
    } else {
        lemma_stop_bound(ss, k - 1);
        assert(ss[k - 1].exit.len() < list_cap());
        lemma_exit_below_bound(ss, ss[k - 1].id, ss.len());
    }
}

fn compute_max_plan(
    states: &Vec<StateSpec>,
    transitions: &Vec<TransitionSpec>,
    root: StateId,
    max: u32,
) -> (r: Result<u32, CompileError>)
    requires
        table_ok(snodes(states@)),
    ensures
        match r {
            Ok(w) => plan_error(snodes(states@), tnodes(transitions@), root, max) is None
                && w == max_plan(snodes(states@), tnodes(transitions@), root),
            Err(e) => plan_error(snodes(states@), tnodes(transitions@), root, max) == Some(e),
        },
{
    let ghost ss = snodes(states@);
    let ghost ts = tnodes(transitions@);
    let n = states.len();
    proof {
        assert(n as nat * list_cap() <= u32::MAX * list_cap());
        lemma_init_chain_bound(ss, root, n as nat);
        lemma_stop_bound(ss, n as int);
    }
    let start = entry_len_exec(states, root) + init_chain_exec(states, root, n);
    if start > max as u128 {
        return Err(CompileError::new(CompileErrorKind::ActionsPerPlanExceeded { required: start as u32, max }));
    }
    let mut stop: u128 = 0;
    let mut k: usize = 0;
    while k < n
        invariant
            ss == snodes(states@),
            n == ss.len(),
            table_ok(ss),
            k <= n,
            stop == stop_scan(ss, k as int),
        decreases n - k,
    {
        proof {
            lemma_stop_bound(ss, k as int + 1);
            assert(n as nat * list_cap() <= u32::MAX * list_cap());
        }
        if states[k].parent.is_none() {
            let below = max_exit_below_exec(states, states[k].id, n);
            proof {
                assert(ss[k as int].exit.len() < list_cap());
                lemma_exit_below_bound(ss, ss[k as int].id, n as nat);
            }
            let here = states[k].exit.len() as u128 + below;
            if here > stop {
                stop = here;
            }
        }
        k = k + 1;
    }
    if stop > max as u128 {
        return Err(CompileError::new(CompileErrorKind::ActionsPerPlanExceeded { required: stop as u32, max }));
    }
    let ghost p = worst_pred(ss, ts, max);
    let m = transitions.len();
    let mut worst: u128 = if start > stop {
        start
    } else {
        stop
    };
    let mut t: usize = 0;
    while t < m
        invariant
            ss == snodes(states@),
            ts == tnodes(transitions@),
            p == worst_pred(ss, ts, max),
            m == ts.len(),
            table_ok(ss),
            t <= m,
            start == start_actions(ss, root),
            stop == stop_actions(ss),
            start <= max,
            stop <= max,
            worst == max2(max2(start as nat, stop as nat), worst_scan(ss, ts, t as int)),
            worst <= max,
            forall|j: int| 0 <= j < t ==> !#[trigger] p(j),
        decreases m - t,
    {
        let w = worst_case_exec(states, &transitions[t]);
        assert(w == worst_case(ss, ts[t as int]));
        if w > max as u128 {
            proof {
                assert(p(t as int));
                lemma_first_where_is(m as nat, p, t as int);
            }
            return Err(
                CompileError::at_transition(
                    CompileErrorKind::ActionsPerPlanExceeded { required: w as u32, max },
                    transitions[t].id,
                ),
            );
        }
        assert(!p(t as int));
        if w > worst {
            worst = w;
        }
        t = t + 1;
    }
    proof {
        lemma_first_where_is(m as nat, p, m as int);
    }
    Ok(worst as u32)
}


// ---------------------------------------------------------------------------------
// Guards the host must supply: bubbling order from a leaf, first occurrence kept.

pub open spec fn guards_of(ts: Seq<TNode>, l: Seq<int>) -> Seq<GuardId>
    decreases l.len(),
{
    if l.len() == 0 {
        Seq::empty()
    } else {
        let g = guards_of(ts, l.drop_last());
        match ts[l.last()].guard {
            Some(x) => g.push(x),
            None => g,
        }
    }
}

pub open spec fn chain_guards(ss: Seq<SNode>, ts: Seq<TNode>, x: Option<StateId>, e: EventKind, fuel: nat) -> Seq<GuardId>
    decreases fuel,
{
    match x {
        None => Seq::empty(),
        Some(s) => if fuel == 0 {
            Seq::empty()
        } else {
            guards_of(ts, group(ts, key_of_pair(s, e))) + chain_guards(ss, ts, parent_in(ss, s), e, (fuel - 1) as nat)
        },
    }
}

pub open spec fn dedup(s: Seq<GuardId>) -> Seq<GuardId>
    decreases s.len(),
{
    if s.len() == 0 {
        s
    } else {
        let d = dedup(s.drop_last());
        if d.contains(s.last()) {
            d
        } else {
            d.push(s.last())
        }
    }
}

pub open spec fn is_leaf_in(ss: Seq<SNode>, id: StateId) -> bool {
    has_id(ss, id) && initial_in(ss, id) is None
}

/// Guards required for `e` while `leaf` is the active leaf.
pub open spec fn required_for(ss: Seq<SNode>, ts: Seq<TNode>, leaf: StateId, e: EventKind) -> Seq<GuardId> {
    if is_leaf_in(ss, leaf) && event_known(ts, e) {
        dedup(chain_guards(ss, ts, Some(leaf), e, ss.len()))
    } else {
        Seq::empty()
    }
}

#[derive(Debug)]
pub struct GuardGroup {
    pub leaf: StateId,
    pub event: EventKind,
    pub guards: Vec<GuardId>,
}

pub open spec fn guard_table_ok(ss: Seq<SNode>, ts: Seq<TNode>, table: Seq<GuardGroup>) -> bool {
    &&& forall|k: int| 0 <= k < table.len() ==> #[trigger] table[k].guards@ == required_for(ss, ts, table[k].leaf, table[k].event)
    &&& forall|leaf: StateId, e: EventKind| #[trigger] required_for(ss, ts, leaf, e).len() > 0 ==> exists|k: int|
        0 <= k < table.len() && table[k].leaf == leaf && table[k].event == e
}

fn find_group(table: &Vec<CandidateGroup>, key: u64) -> (r: Option<usize>)
    ensures
        match r {
            Some(k) => k < table@.len() && key_of_pair(table@[k as int].source, table@[k as int].event) == key,
            None => forall|k: int| 0 <= k < table@.len() ==> key_of_pair(table@[k].source, table@[k].event) != key,
        },
{
    let mut k: usize = 0;
    while k < table.len()
        invariant
            k <= table@.len(),
            forall|j: int| 0 <= j < k ==> key_of_pair(table@[j].source, table@[j].event) != key,
        decreases table@.len() - k,
    {
        let kk = table[k].source.0 as u64 * 0x1_0000_0000 + table[k].event.0 as u64;
        if kk == key {
            return Some(k);
        }
        k = k + 1;
    }
    None
}

proof fn lemma_group_empty(ts: Seq<TNode>, key: int)
    requires
        !key_list(ts).contains(key),
        is_key_list(ts, key_list(ts)),
    ensures
        group(ts, key) == Seq::<int>::empty(),
{
    let e = Seq::<int>::empty();
    assert forall|x: int| e.contains(x) <==> (0 <= x < ts.len() && key_of(ts[x]) == key) by {
        if 0 <= x < ts.len() && key_of(ts[x]) == key {
            assert(key_list(ts).contains(key));
        }
    }
    lemma_group_is(ts, key, e);
}

fn vec_has_guard(v: &Vec<GuardId>, g: GuardId) -> (r: bool)
    ensures
        r == v@.contains(g),
{
    let mut i: usize = 0;
    while i < v.len()
        invariant
            i <= v@.len(),
            forall|j: int| 0 <= j < i ==> v@[j] != g,
        decreases v@.len() - i,
    {
        if v[i] == g {
            assert(v@[i as int] == g);
            return true;
        }
        i = i + 1;
    }
    false
}

/// Guards of the candidates met while bubbling from `leaf` for `e`, deduplicated.
fn collect_guards(
    states: &Vec<StateSpec>,
    transitions: &Vec<TransitionSpec>,
    table: &Vec<CandidateGroup>,
    leaf: StateId,
    e: EventKind,
) -> (r: Vec<GuardId>)
    requires
        unique_ids(snodes(states@)),
        cand_table_ok(tnodes(transitions@), table@),
        is_key_list(tnodes(transitions@), key_list(tnodes(transitions@))),
    ensures
        r@ == dedup(chain_guards(snodes(states@), tnodes(transitions@), Some(leaf), e, states@.len())),
{
    let ghost ss = snodes(states@);
    let ghost ts = tnodes(transitions@);
    let ghost whole = chain_guards(ss, ts, Some(leaf), e, ss.len());
    let ghost mut acc: Seq<GuardId> = Seq::empty();
    let mut out: Vec<GuardId> = Vec::new();
    let mut cursor: Option<StateId> = Some(leaf);
    let mut fuel: usize = states.len();
    assert(acc + whole =~= whole);
    while fuel > 0 && cursor.is_some()
        invariant
            ss == snodes(states@),
            ts == tnodes(transitions@),
            unique_ids(ss),
            cand_table_ok(ts, table@),
            is_key_list(ts, key_list(ts)),
            whole == chain_guards(ss, ts, Some(leaf), e, ss.len()),
            acc + chain_guards(ss, ts, cursor, e, fuel as nat) == whole,
            out@ == dedup(acc),
        decreases fuel,
    {
        let s = cursor.unwrap();
        let key = s.0 as u64 * 0x1_0000_0000 + e.0 as u64;
        let ghost grp = group(ts, key_of_pair(s, e));
        let ghost acc0 = acc;
        let ghost rest = chain_guards(ss, ts, parent_in(ss, s), e, (fuel - 1) as nat);
        assert(chain_guards(ss, ts, cursor, e, fuel as nat) == guards_of(ts, grp) + rest);
        match find_group(table, key) {
            None => {
                proof {
                    let kl = key_list(ts);
                    if kl.contains(key as int) {
                        let k = choose|k: int| 0 <= k < kl.len() && kl[k] == key as int;
                        assert(group_ok(ts, kl[k], table@[k]));
                    }
                    lemma_group_empty(ts, key as int);
                    assert(guards_of(ts, grp) =~= Seq::<GuardId>::empty());
                }
            },
            Some(gi) => {
                let members = &table[gi].members;
                proof {
                    assert(group_ok(ts, key_list(ts)[gi as int], table@[gi as int]));
                }
                let mut j: usize = 0;
                while j < members.len()
                    invariant
                        ts == tnodes(transitions@),
                        as_ints(members@) == grp,
                        forall|a: int| 0 <= a < members@.len() ==> members@[a] < ts.len(),
                        j <= members@.len(),
                        acc == acc0 + guards_of(ts, grp.take(j as int)),
                        out@ == dedup(acc),
                    decreases members@.len() - j,
                {
                    let ti = members[j];
                    assert(grp.take(j as int + 1).drop_last() =~= grp.take(j as int));
                    assert(grp.take(j as int + 1).last() == ti as int);
                    match transitions[ti].guard {
                        Some(g) => {
                            assert(ts[ti as int].guard == Some(g));
                            let ghost acc1 = acc.push(g);
                            assert(acc1.drop_last() =~= acc);
                            if !vec_has_guard(&out, g) {
                                out.push(g);
                            }
                            proof {
                                acc = acc1;
                                assert(acc =~= acc0 + guards_of(ts, grp.take(j as int + 1)));
                            }
                        },
                        None => {
                            assert(ts[ti as int].guard is None);
                            assert(acc =~= acc0 + guards_of(ts, grp.take(j as int + 1)));
                        },
                    }
                    j = j + 1;
                }
                assert(grp.take(members@.len() as int) =~= grp);
            },
        }
        proof {
            assert(acc == acc0 + guards_of(ts, grp));
            assert(acc0 + (guards_of(ts, grp) + rest) =~= acc + rest);
        }
        cursor = parent_of_any(states, s);
        fuel = fuel - 1;
    }
    proof {
        if cursor is None {
            assert(chain_guards(ss, ts, cursor, e, fuel as nat) =~= Seq::<GuardId>::empty());
        } else {
            assert(chain_guards(ss, ts, cursor, e, fuel as nat) =~= Seq::<GuardId>::empty());
        }
        assert(acc =~= whole);
    }
    out
}


// ---------------------------------------------------------------------------------
// Canonical encoding and fingerprint.

/// Key order with declaration order as tie-break.
pub open spec fn lt_by(k: Seq<int>) -> spec_fn(int, int) -> bool {
    |x: int, y: int| k[x] < k[y] || (k[x] == k[y] && x < y)
}

pub open spec fn is_order(n: nat, lt: spec_fn(int, int) -> bool, l: Seq<int>) -> bool {
    &&& forall|x: int| l.contains(x) <==> 0 <= x < n
    &&& forall|i: int, j: int| 0 <= i < j < l.len() ==> lt(l[i], l[j])
}

pub open spec fn state_keys(ss: Seq<SNode>) -> Seq<int> {
    ss.map_values(|s: SNode| s.id.0 as int)
}

pub open spec fn trans_keys(ts: Seq<TNode>) -> Seq<int> {
    ts.map_values(|t: TNode| t.source.0 as int * 0x1_0000_0000_0000_0000 + t.event.0 as int * 0x1_0000_0000 + t.priority as int)
}

/// States by id.
pub open spec fn state_order(ss: Seq<SNode>) -> Seq<int> {
    choose|l: Seq<int>| is_order(ss.len(), lt_by(state_keys(ss)), l)
}

/// Transitions by `(source, event, priority)`.
pub open spec fn trans_order(ts: Seq<TNode>) -> Seq<int> {
    choose|l: Seq<int>| is_order(ts.len(), lt_by(trans_keys(ts)), l)
}

pub open spec fn enc_state(s: SNode) -> Seq<u8> {
    le_bytes(s.id.0) + opt_bytes(
        match s.parent {
            Some(p) => Some(p.0),
            None => None,
        },
    ) + opt_bytes(
        match s.initial {
            Some(i) => Some(i.0),
            None => None,
        },
    ) + list_bytes(action_words(s.entry)) + list_bytes(action_words(s.exit))
}

pub open spec fn enc_trans(t: TNode) -> Seq<u8> {
    le_bytes(t.id.0) + le_bytes(t.source.0) + le_bytes(t.event.0) + le_bytes(t.priority) + opt_bytes(
        match t.guard {
            Some(g) => Some(g.0),
            None => None,
        },
    ) + le_bytes(t.kind.spec_tag()) + opt_bytes(
        match t.kind.spec_target() {
            Some(s) => Some(s.0),
            None => None,
        },
    ) + list_bytes(action_words(t.actions))
}

pub open spec fn enc_states(ss: Seq<SNode>, l: Seq<int>) -> Seq<u8>
    decreases l.len(),
{
    if l.len() == 0 {
        Seq::empty()
    } else {
        enc_states(ss, l.drop_last()) + enc_state(ss[l.last()])
    }
}

pub open spec fn enc_transitions(ts: Seq<TNode>, l: Seq<int>) -> Seq<u8>
    decreases l.len(),
{
    if l.len() == 0 {
        Seq::empty()
    } else {
        enc_transitions(ts, l.drop_last()) + enc_trans(ts[l.last()])
    }
}

/// `LUMIO-HFSM` followed by a zero byte.
pub open spec fn magic() -> Seq<u8> {
    seq![0x4cu8, 0x55, 0x4d, 0x49, 0x4f, 0x2d, 0x48, 0x46, 0x53, 0x4d, 0x00]
}

/// Canonical encoding: names and declaration order do not enter it.
pub open spec fn encoding_of(initial: StateId, ss: Seq<SNode>, ts: Seq<TNode>) -> Seq<u8> {
    magic() + le_bytes(FORMAT_VERSION) + le_bytes(SEMANTICS_VERSION) + le_bytes(initial.0) + le_bytes(
        ss.len() as u32,
    ) + enc_states(ss, state_order(ss)) + le_bytes(ts.len() as u32) + enc_transitions(ts, trans_order(ts))
}

pub open spec fn encoding(spec: DefinitionSpec) -> Seq<u8> {
    encoding_of(spec.initial, snodes(spec.states@), tnodes(spec.transitions@))
}

pub open spec fn fingerprint_of(initial: StateId, ss: Seq<SNode>, ts: Seq<TNode>) -> u64 {
    fnv(FNV_OFFSET, encoding_of(initial, ss, ts))
}

/// Fingerprint of a compiled definition.
pub open spec fn def_fingerprint(def: CompiledDefinition) -> u64 {
    fingerprint_of(def.spec_root(), def.spec_states(), def.spec_transitions())
}

pub open spec fn spec_fingerprint(spec: DefinitionSpec) -> u64 {
    fnv(FNV_OFFSET, encoding(spec))
}

proof fn lemma_state_order_is(ss: Seq<SNode>, l: Seq<int>)
    requires
        is_order(ss.len(), lt_by(state_keys(ss)), l),
    ensures
        state_order(ss) == l,
{
    let g = state_order(ss);
    assert(is_order(ss.len(), lt_by(state_keys(ss)), g));
    lemma_sorted_unique(l, g, lt_by(state_keys(ss)));
}

proof fn lemma_trans_order_is(ts: Seq<TNode>, l: Seq<int>)
    requires
        is_order(ts.len(), lt_by(trans_keys(ts)), l),
    ensures
        trans_order(ts) == l,
{
    let g = trans_order(ts);
    assert(is_order(ts.len(), lt_by(trans_keys(ts)), g));
    lemma_sorted_unique(l, g, lt_by(trans_keys(ts)));
}

pub open spec fn u128_ints(k: Seq<u128>) -> Seq<int> {
    k.map_values(|x: u128| x as int)
}

/// Indices `0..keys.len()` sorted by key, ties in index order.
fn sort_by_keys(keys: &Vec<u128>) -> (l: Vec<usize>)
    ensures
        is_order(keys@.len(), lt_by(u128_ints(keys@)), as_ints(l@)),
        forall|j: int| 0 <= j < l@.len() ==> l@[j] < keys@.len(),
        l@.len() == keys@.len(),
{
    let ghost ks = u128_ints(keys@);
    let n = keys.len();
    let mut l: Vec<usize> = Vec::new();
    let mut i: usize = 0;
    while i < n
        invariant
            n == keys@.len(),
            ks == u128_ints(keys@),
            i <= n,
            l@.len() == i,
            forall|j: int| 0 <= j < l@.len() ==> l@[j] < i,
            forall|x: int| #[trigger] as_ints(l@).contains(x) <==> 0 <= x < i,
            forall|a: int, b: int| 0 <= a < b < l@.len() ==> lt_by(ks)(l@[a] as int, l@[b] as int),
        decreases n - i,
    {
        let k = keys[i];
        let mut pos: usize = 0;
        while pos < l.len() && keys[l[pos]] <= k
            invariant
                n == keys@.len(),
                ks == u128_ints(keys@),
                pos <= l@.len(),
                forall|j: int| 0 <= j < l@.len() ==> l@[j] < i,
                i < n,
                k == keys@[i as int],
                forall|a: int| 0 <= a < pos ==> keys@[l@[a] as int] <= k,
            decreases l@.len() - pos,
        {
            pos = pos + 1;
        }
        let ghost old_l = l@;
        l.insert(pos, i);
        proof {
            assert forall|a: int, b: int| 0 <= a < b < l@.len() implies lt_by(ks)(l@[a] as int, l@[b] as int) by {
                if a < pos && b == pos {
                    assert(old_l[a] < i);
                } else if a == pos && b > pos {
                    assert(keys@[old_l[pos as int] as int] > k);
                    if b - 1 > pos {
                        assert(lt_by(ks)(old_l[pos as int] as int, old_l[b - 1] as int));
                    }
                } else if a < pos && b > pos {
                    assert(lt_by(ks)(old_l[a] as int, old_l[b - 1] as int));
                } else if a > pos {
                    assert(lt_by(ks)(old_l[a - 1] as int, old_l[b - 1] as int));
                }
            }
            assert forall|x: int| #[trigger] as_ints(l@).contains(x) <==> 0 <= x < i + 1 by {
                if 0 <= x < i + 1 {
                    if x == i {
                        assert(as_ints(l@)[pos as int] == x);
                    } else {
                        assert(as_ints(old_l).contains(x));
                        let a = choose|a: int| 0 <= a < old_l.len() && as_ints(old_l)[a] == x;
                        if a < pos {
                            assert(as_ints(l@)[a] == x);
                        } else {
                            assert(as_ints(l@)[a + 1] == x);
                        }
                    }
                }
                if as_ints(l@).contains(x) {
                    let a = choose|a: int| 0 <= a < l@.len() && as_ints(l@)[a] == x;
                    if a < pos {
                        assert(as_ints(old_l)[a] == x);
                        assert(as_ints(old_l).contains(x));
                    } else if a > pos {
                        assert(as_ints(old_l)[a - 1] == x);
                        assert(as_ints(old_l).contains(x));
                    }
                }
            }
        }
        i = i + 1;
    }
    l
}

fn opt_state_word(v: Option<StateId>) -> (r: Option<u32>)
    ensures
        r == match v {
            Some(p) => Some(p.0),
            None => None::<u32>,
        },
{
    match v {
        Some(p) => Some(p.0),
        None => None,
    }
}

fn hash_state(h: &mut Fnv1a, st: &StateSpec)
    ensures
        final(h).spec_state() == fnv(old(h).spec_state(), enc_state(snode(*st))),
{
    let ghost h0 = h.spec_state();
    let ghost node = snode(*st);
    h.word(st.id.0);
    h.opt(opt_state_word(st.parent));
    h.opt(opt_state_word(st.initial));
    h.list(&st.entry);
    h.list(&st.exit);
    proof {
        let a = le_bytes(node.id.0);
        let b = opt_bytes(
            match node.parent {
                Some(p) => Some(p.0),
                None => None,
            },
        );
        let c = opt_bytes(
            match node.initial {
                Some(i) => Some(i.0),
                None => None,
            },
        );
        let d = list_bytes(action_words(node.entry));
        let e = list_bytes(action_words(node.exit));
        lemma_fnv_concat(h0, a, b);
        lemma_fnv_concat(h0, a + b, c);
        lemma_fnv_concat(h0, a + b + c, d);
        lemma_fnv_concat(h0, a + b + c + d, e);
    }
}

fn hash_trans(h: &mut Fnv1a, t: &TransitionSpec)
    ensures
        final(h).spec_state() == fnv(old(h).spec_state(), enc_trans(tnode(*t))),
{
    let ghost h0 = h.spec_state();
    let ghost node = tnode(*t);
    h.word(t.id.0);
    h.word(t.source.0);
    h.word(t.event.0);
    h.word(t.priority);
    let g = match t.guard {
        Some(g) => Some(g.0),
        None => None,
    };
    h.opt(g);
    h.word(t.kind.tag());
    h.opt(opt_state_word(t.kind.target()));
    h.list(&t.actions);
    proof {
        let a1 = le_bytes(node.id.0);
        let a2 = le_bytes(node.source.0);
        let a3 = le_bytes(node.event.0);
        let a4 = le_bytes(node.priority);
        let a5 = opt_bytes(
            match node.guard {
                Some(g) => Some(g.0),
                None => None,
            },
        );
        let a6 = le_bytes(node.kind.spec_tag());
        let a7 = opt_bytes(
            match node.kind.spec_target() {
                Some(s) => Some(s.0),
                None => None,
            },
        );
        let a8 = list_bytes(action_words(node.actions));
        lemma_fnv_concat(h0, a1, a2);
        lemma_fnv_concat(h0, a1 + a2, a3);
        lemma_fnv_concat(h0, a1 + a2 + a3, a4);
        lemma_fnv_concat(h0, a1 + a2 + a3 + a4, a5);
        lemma_fnv_concat(h0, a1 + a2 + a3 + a4 + a5, a6);
        lemma_fnv_concat(h0, a1 + a2 + a3 + a4 + a5 + a6, a7);
        lemma_fnv_concat(h0, a1 + a2 + a3 + a4 + a5 + a6 + a7, a8);
    }
}

fn compute_fingerprint(spec: &DefinitionSpec) -> (r: u64)
    requires
        spec.states@.len() <= u32::MAX,
        spec.transitions@.len() <= u32::MAX,
    ensures
        r == spec_fingerprint(*spec),
{
    let ghost ss = snodes(spec.states@);
    let ghost ts = tnodes(spec.transitions@);
    let mut h = Fnv1a::new();
    let magic_bytes: [u8; 11] = [0x4c, 0x55, 0x4d, 0x49, 0x4f, 0x2d, 0x48, 0x46, 0x53, 0x4d, 0x00];
    assert(magic_bytes@ =~= magic());
    h.bytes(&magic_bytes);
    h.word(FORMAT_VERSION);
    h.word(SEMANTICS_VERSION);
    h.word(spec.initial.0);
    h.word(spec.states.len() as u32);
    let ghost head = magic() + le_bytes(FORMAT_VERSION) + le_bytes(SEMANTICS_VERSION) + le_bytes(spec.initial.0)
        + le_bytes(ss.len() as u32);
    proof {
        lemma_fnv_concat(FNV_OFFSET, magic(), le_bytes(FORMAT_VERSION));
        lemma_fnv_concat(FNV_OFFSET, magic() + le_bytes(FORMAT_VERSION), le_bytes(SEMANTICS_VERSION));
        lemma_fnv_concat(
            FNV_OFFSET,
            magic() + le_bytes(FORMAT_VERSION) + le_bytes(SEMANTICS_VERSION),
            le_bytes(spec.initial.0),
        );
        lemma_fnv_concat(
            FNV_OFFSET,
            magic() + le_bytes(FORMAT_VERSION) + le_bytes(SEMANTICS_VERSION) + le_bytes(spec.initial.0),
            le_bytes(ss.len() as u32),
        );
    }
    // States by id.
    let n = spec.states.len();
    let mut skeys: Vec<u128> = Vec::new();
    let mut i: usize = 0;
    while i < n
        invariant
            n == ss.len(),
            ss == snodes(spec.states@),
            i <= n,
            skeys@.len() == i,
            forall|j: int| 0 <= j < i ==> #[trigger] skeys@[j] == ss[j].id.0,
        decreases n - i,
    {
        skeys.push(spec.states[i].id.0 as u128);
        i = i + 1;
    }
    assert(u128_ints(skeys@) =~= state_keys(ss));
    let order = sort_by_keys(&skeys);
    proof {
        lemma_state_order_is(ss, as_ints(order@));
    }
    let ghost lo = as_ints(order@);
    let mut k: usize = 0;
    while k < order.len()
        invariant
            n == ss.len(),
            ss == snodes(spec.states@),
            lo == as_ints(order@),
            order@.len() == n,
            forall|j: int| 0 <= j < order@.len() ==> order@[j] < n,
            k <= order@.len(),
            h.spec_state() == fnv(FNV_OFFSET, head + enc_states(ss, lo.take(k as int))),
        decreases order@.len() - k,
    {
        let ghost before = head + enc_states(ss, lo.take(k as int));
        let st = &spec.states[order[k]];
        let ghost node = ss[order@[k as int] as int];
        assert(lo.take(k as int + 1).drop_last() =~= lo.take(k as int));
        assert(lo.take(k as int + 1).last() == order@[k as int] as int);
        hash_state(&mut h, st);
        proof {
            lemma_fnv_concat(FNV_OFFSET, before, enc_state(node));
            assert(before + enc_state(node) =~= head + enc_states(ss, lo.take(k as int + 1)));
        }
        k = k + 1;
    }
    assert(lo.take(n as int) =~= lo);
    let m = spec.transitions.len();
    let ghost mid = head + enc_states(ss, lo);
    h.word(m as u32);
    proof {
        lemma_fnv_concat(FNV_OFFSET, mid, le_bytes(ts.len() as u32));
    }
    let ghost head2 = mid + le_bytes(ts.len() as u32);
    let mut tkeys: Vec<u128> = Vec::new();
    let mut i: usize = 0;
    while i < m
        invariant
            m == ts.len(),
            ts == tnodes(spec.transitions@),
            i <= m,
            tkeys@.len() == i,
            forall|j: int| 0 <= j < i ==> #[trigger] tkeys@[j] == ts[j].source.0 as int * 0x1_0000_0000_0000_0000
                + ts[j].event.0 as int * 0x1_0000_0000 + ts[j].priority as int,
        decreases m - i,
    {
        let t = &spec.transitions[i];
        tkeys.push(t.source.0 as u128 * 0x1_0000_0000_0000_0000 + t.event.0 as u128 * 0x1_0000_0000 + t.priority as u128);
        i = i + 1;
    }
    assert(u128_ints(tkeys@) =~= trans_keys(ts));
    let torder = sort_by_keys(&tkeys);
    proof {
        lemma_trans_order_is(ts, as_ints(torder@));
    }
    let ghost lt = as_ints(torder@);
    let mut k: usize = 0;
    while k < torder.len()
        invariant
            m == ts.len(),
            ts == tnodes(spec.transitions@),
            lt == as_ints(torder@),
            torder@.len() == m,
            forall|j: int| 0 <= j < torder@.len() ==> torder@[j] < m,
            k <= torder@.len(),
            h.spec_state() == fnv(FNV_OFFSET, head2 + enc_transitions(ts, lt.take(k as int))),
        decreases torder@.len() - k,
    {
        let ghost before = head2 + enc_transitions(ts, lt.take(k as int));
        let t = &spec.transitions[torder[k]];
        let ghost node = ts[torder@[k as int] as int];
        assert(lt.take(k as int + 1).drop_last() =~= lt.take(k as int));
        assert(lt.take(k as int + 1).last() == torder@[k as int] as int);
        hash_trans(&mut h, t);
        proof {
            lemma_fnv_concat(FNV_OFFSET, before, enc_trans(node));
            assert(before + enc_trans(node) =~= head2 + enc_transitions(ts, lt.take(k as int + 1)));
        }
        k = k + 1;
    }
    assert(lt.take(m as int) =~= lt);
    assert(head2 + enc_transitions(ts, lt) =~= encoding(*spec));
    h.finish()
}


// ---------------------------------------------------------------------------------
// The whole validation, in order.

pub open spec fn failure_of(
    format_version: u32,
    initial: StateId,
    ss: Seq<SNode>,
    ts: Seq<TNode>,
    limits: HfsmLimits,
) -> Option<CompileError> {
    let fd = first_where(ss.len(), dup_state_pred(ss));
    let ft = first_where(ts.len(), dup_transition_pred(ts));
    let fl = first_where(ts.len(), local_pred(ss, ts));
    if !limits.spec_valid() {
        Some(cerr(CompileErrorKind::LimitsInvalid))
    } else if format_version != FORMAT_VERSION {
        Some(cerr(CompileErrorKind::FormatVersionUnsupported { found: format_version }))
    } else if ss.len() == 0 {
        Some(cerr(CompileErrorKind::EmptyDefinition))
    } else if fd < ss.len() {
        Some(cerr_state(CompileErrorKind::DuplicateStateId, ss[fd as int].id))
    } else if ss.len() > limits.max_states {
        Some(cerr(CompileErrorKind::StateCountExceeded { count: ss.len() as u32, max: limits.max_states }))
    } else if ts.len() > limits.max_transitions {
        Some(cerr(CompileErrorKind::TransitionCountExceeded { count: ts.len() as u32, max: limits.max_transitions }))
    } else if reference_error_of(initial, ss, ts) is Some {
        reference_error_of(initial, ss, ts)
    } else if depth_error(ss, limits) is Some {
        depth_error(ss, limits)
    } else if initial_error(ss) is Some {
        initial_error(ss)
    } else if ft < ts.len() {
        Some(cerr_transition(CompileErrorKind::DuplicateTransitionId, ts[ft as int].id))
    } else if fl < ts.len() {
        Some(cerr_transition(CompileErrorKind::LocalTargetNotStrictDescendant, ts[fl as int].id))
    } else if candidate_error(ts) is Some {
        candidate_error(ts)
    } else {
        plan_error(ss, ts, initial, limits.max_actions_per_plan)
    }
}

pub open spec fn compile_failure(spec: DefinitionSpec, limits: HfsmLimits) -> Option<CompileError> {
    failure_of(spec.format_version, spec.initial, snodes(spec.states@), tnodes(spec.transitions@), limits)
}

pub open spec fn depth_scan(ss: Seq<SNode>, k: int) -> nat
    decreases k,
{
    if k <= 0 || k > ss.len() {
        0
    } else {
        max2(depth_scan(ss, k - 1), depth_at(ss, k - 1))
    }
}

/// Depth of the deepest state.
pub open spec fn max_depth_of(ss: Seq<SNode>) -> nat {
    depth_scan(ss, ss.len() as int)
}

/// States entered when expanding `s` down to its leaf, `s` excluded.
pub open spec fn init_chain(ss: Seq<SNode>, s: StateId, fuel: nat) -> Seq<StateId>
    decreases fuel,
{
    match initial_in(ss, s) {
        None => Seq::empty(),
        Some(c) => if fuel == 0 {
            Seq::empty()
        } else {
            seq![c] + init_chain(ss, c, (fuel - 1) as nat)
        },
    }
}

pub open spec fn has_tid(ts: Seq<TNode>, id: TransitionId) -> bool {
    exists|i: int| 0 <= i < ts.len() && ts[i].id == id
}

pub open spec fn tidx_of(ts: Seq<TNode>, id: TransitionId) -> int {
    choose|i: int| 0 <= i < ts.len() && ts[i].id == id
}

/// Candidate transition ids of `(s, e)`, ascending priority.
pub open spec fn candidate_ids(ts: Seq<TNode>, s: StateId, e: EventKind) -> Seq<TransitionId> {
    group(ts, key_of_pair(s, e)).map_values(|i: int| ts[i].id)
}

#[derive(Clone, Debug, PartialEq, Eq)]
pub struct CompiledTransition {
    pub id: TransitionId,
    pub source: StateId,
    pub event: EventKind,
    pub priority: u32,
    pub guard: Option<GuardId>,
    pub kind: TransitionKind,
    pub actions: Vec<ActionId>,
}

pub open spec fn ctnode(t: CompiledTransition) -> TNode {
    TNode {
        id: t.id,
        source: t.source,
        event: t.event,
        priority: t.priority,
        guard: t.guard,
        kind: t.kind,
        actions: t.actions@,
    }
}

pub open spec fn ctnodes(v: Seq<CompiledTransition>) -> Seq<TNode> {
    v.map_values(|t: CompiledTransition| ctnode(t))
}

/// Immutable, shareable compiled graph.
#[derive(Debug)]
pub struct CompiledDefinition {
    pub(crate) limits: HfsmLimits,
    pub(crate) fingerprint: u64,
    pub(crate) root_initial: StateId,
    pub(crate) states: Vec<StateSpec>,
    pub(crate) depths: Vec<u32>,
    pub(crate) transitions: Vec<CompiledTransition>,
    pub(crate) candidates: Vec<CandidateGroup>,
    pub(crate) required: Vec<GuardGroup>,
    pub(crate) events: Vec<EventKind>,
    pub(crate) max_depth: u32,
    pub(crate) max_plan_actions: u32,
}

impl CompiledDefinition {
    #[verifier::type_invariant]
    pub(crate) open spec fn inv(self) -> bool {
        let ss = snodes(self.states@);
        let ts = ctnodes(self.transitions@);
        &&& failure_of(FORMAT_VERSION, self.root_initial, ss, ts, self.limits) is None
        &&& self.states@.len() <= u32::MAX
        &&& self.transitions@.len() <= u32::MAX
        &&& self.fingerprint == fingerprint_of(self.root_initial, ss, ts)
        &&& self.depths@.len() == ss.len()
        &&& forall|i: int| 0 <= i < ss.len() ==> #[trigger] self.depths@[i] == depth_at(ss, i)
        &&& table_ok(ss)
        &&& unique_tids(ts)
        &&& tr_refs_ok(ss, ts)
        &&& is_key_list(ts, key_list(ts))
        &&& cand_table_ok(ts, self.candidates@)
        &&& guard_table_ok(ss, ts, self.required@)
        &&& is_event_list(ts, event_ints(self.events@))
        &&& self.max_depth == max_depth_of(ss)
        &&& self.max_plan_actions == max_plan(ss, ts, self.root_initial)
        &&& forall|i: int| 0 <= i < ss.len() ==> !#[trigger] initial_bad(ss, i)
        &&& forall|i: int| 0 <= i < ts.len() ==> !#[trigger] local_bad(ss, ts, i)
    }

    /// The semantic state table (names excluded).
    pub closed spec fn spec_states(&self) -> Seq<SNode> {
        snodes(self.states@)
    }

    /// The semantic transition table.
    pub closed spec fn spec_transitions(&self) -> Seq<TNode> {
        ctnodes(self.transitions@)
    }

    /// Initial child of the synthetic root.
    pub closed spec fn spec_root(&self) -> StateId {
        self.root_initial
    }

    /// Diagnostic names, in declaration order.
    pub closed spec fn spec_names(&self) -> Seq<Option<String>> {
        self.states@.map_values(|s: StateSpec| s.name)
    }

    pub closed spec fn spec_limits(&self) -> HfsmLimits {
        self.limits
    }
}

fn copy_actions(v: &Vec<ActionId>) -> (r: Vec<ActionId>)
    ensures
        r@ == v@,
{
    let mut r: Vec<ActionId> = Vec::new();
    let mut i: usize = 0;
    while i < v.len()
        invariant
            i <= v@.len(),
            r@ == v@.take(i as int),
        decreases v@.len() - i,
    {
        r.push(v[i]);
        i = i + 1;
        assert(r@ =~= v@.take(i as int));
    }
    assert(v@.take(v@.len() as int) =~= v@);
    r
}

fn copy_states(v: &Vec<StateSpec>) -> (r: Vec<StateSpec>)
    ensures
        snodes(r@) == snodes(v@),
        r@.len() == v@.len(),
        forall|i: int| 0 <= i < v@.len() ==> #[trigger] r@[i].name == v@[i].name,
{
    let mut r: Vec<StateSpec> = Vec::new();
    let mut i: usize = 0;
    while i < v.len()
        invariant
            i <= v@.len(),
            r@.len() == i,
            forall|j: int| 0 <= j < i ==> #[trigger] snode(r@[j]) == snode(v@[j]),
            forall|j: int| 0 <= j < i ==> #[trigger] r@[j].name == v@[j].name,
        decreases v@.len() - i,
    {
        let s = &v[i];
        let name = match &s.name {
            Some(n) => Some(n.clone()),
            None => None,
        };
        r.push(
            StateSpec {
                id: s.id,
                parent: s.parent,
                initial: s.initial,
                entry: copy_actions(&s.entry),
                exit: copy_actions(&s.exit),
                name,
            },
        );
        i = i + 1;
    }
    assert(snodes(r@) =~= snodes(v@));
    r
}

fn copy_transitions(v: &Vec<TransitionSpec>) -> (r: Vec<CompiledTransition>)
    ensures
        ctnodes(r@) == tnodes(v@),
{
    let mut r: Vec<CompiledTransition> = Vec::new();
    let mut i: usize = 0;
    while i < v.len()
        invariant
            i <= v@.len(),
            r@.len() == i,
            forall|j: int| 0 <= j < i ==> #[trigger] ctnode(r@[j]) == tnode(v@[j]),
        decreases v@.len() - i,
    {
        let t = &v[i];
        r.push(
            CompiledTransition {
                id: t.id,
                source: t.source,
                event: t.event,
                priority: t.priority,
                guard: t.guard,
                kind: t.kind,
                actions: copy_actions(&t.actions),
            },
        );
        i = i + 1;
    }
    assert(ctnodes(r@) =~= tnodes(v@));
    r
}


pub open spec fn covered(table: Seq<GuardGroup>, leaf: StateId, e: EventKind) -> bool {
    exists|k: int| 0 <= k < table.len() && table[k].leaf == leaf && table[k].event == e
}

fn build_required(
    states: &Vec<StateSpec>,
    transitions: &Vec<TransitionSpec>,
    table: &Vec<CandidateGroup>,
    events: &Vec<EventKind>,
) -> (r: Vec<GuardGroup>)
    requires
        unique_ids(snodes(states@)),
        cand_table_ok(tnodes(transitions@), table@),
        is_key_list(tnodes(transitions@), key_list(tnodes(transitions@))),
        is_event_list(tnodes(transitions@), event_ints(events@)),
    ensures
        guard_table_ok(snodes(states@), tnodes(transitions@), r@),
{
    let ghost ss = snodes(states@);
    let ghost ts = tnodes(transitions@);
    let n = states.len();
    let ne = events.len();
    let mut out: Vec<GuardGroup> = Vec::new();
    let mut i: usize = 0;
    while i < n
        invariant
            ss == snodes(states@),
            ts == tnodes(transitions@),
            n == ss.len(),
            ne == events@.len(),
            unique_ids(ss),
            cand_table_ok(ts, table@),
            is_key_list(ts, key_list(ts)),
            is_event_list(ts, event_ints(events@)),
            i <= n,
            forall|k: int| 0 <= k < out@.len() ==> #[trigger] out@[k].guards@ == required_for(ss, ts, out@[k].leaf, out@[k].event),
            forall|j: int, q: int| 0 <= j < i && 0 <= q < ne && required_for(ss, ts, ss[j].id, events@[q]).len() > 0
                ==> #[trigger] covered(out@, ss[j].id, events@[q]),
        decreases n - i,
    {
        let leaf = states[i].id;
        let is_leaf = states[i].initial.is_none();
        proof {
            lemma_idx_of(ss, i as int);
        }
        let mut q: usize = 0;
        while q < ne
            invariant
                ss == snodes(states@),
                ts == tnodes(transitions@),
                n == ss.len(),
                ne == events@.len(),
                unique_ids(ss),
                cand_table_ok(ts, table@),
                is_key_list(ts, key_list(ts)),
                is_event_list(ts, event_ints(events@)),
                i < n,
                leaf == ss[i as int].id,
                is_leaf == (ss[i as int].initial is None),
                has_id(ss, leaf),
                idx_of(ss, leaf) == i,
                q <= ne,
                forall|k: int| 0 <= k < out@.len() ==> #[trigger] out@[k].guards@ == required_for(ss, ts, out@[k].leaf, out@[k].event),
                forall|j: int, qq: int| 0 <= j < i && 0 <= qq < ne && required_for(ss, ts, ss[j].id, events@[qq]).len() > 0
                    ==> #[trigger] covered(out@, ss[j].id, events@[qq]),
                forall|qq: int| 0 <= qq < q && required_for(ss, ts, leaf, events@[qq]).len() > 0
                    ==> #[trigger] covered(out@, leaf, events@[qq]),
            decreases ne - q,
        {
            let e = events[q];
            proof {
                assert(event_ints(events@).contains(e.0 as int)) by {
                    assert(event_ints(events@)[q as int] == e.0 as int);
                }
                let w = choose|w: int| 0 <= w < ts.len() && ts[w].event.0 == e.0 as int;
                assert(ts[w].event == e);
                assert(event_known(ts, e));
            }
            if is_leaf {
                let guards = collect_guards(states, transitions, table, leaf, e);
                if guards.len() > 0 {
                    let ghost old_out = out@;
                    out.push(GuardGroup { leaf, event: e, guards });
                    proof {
                        assert(out@[old_out.len() as int].leaf == leaf);
                        assert forall|k: int| 0 <= k < out@.len() implies #[trigger] out@[k].guards@ == required_for(ss, ts, out@[k].leaf, out@[k].event) by {
                            if k < old_out.len() {
                                assert(out@[k] == old_out[k]);
                            }
                        }
                        assert forall|j: int, qq: int| 0 <= j < i && 0 <= qq < ne && required_for(ss, ts, ss[j].id, events@[qq]).len() > 0
                            implies #[trigger] covered(out@, ss[j].id, events@[qq]) by {
                            assert(covered(old_out, ss[j].id, events@[qq]));
                            let k = choose|k: int| 0 <= k < old_out.len() && old_out[k].leaf == ss[j].id && old_out[k].event == events@[qq];
                            assert(out@[k] == old_out[k]);
                        }
                        assert forall|qq: int| 0 <= qq < q + 1 && required_for(ss, ts, leaf, events@[qq]).len() > 0
                            implies #[trigger] covered(out@, leaf, events@[qq]) by {
                            if qq < q {
                                assert(covered(old_out, leaf, events@[qq]));
                                let k = choose|k: int| 0 <= k < old_out.len() && old_out[k].leaf == leaf && old_out[k].event == events@[qq];
                                assert(out@[k] == old_out[k]);
                            } else {
                                let k = old_out.len() as int;
                                assert(out@[k].leaf == leaf && out@[k].event == events@[qq]);
                            }
                        }
                    }
                } else {
                    assert(required_for(ss, ts, leaf, e).len() == 0);
                }
            } else {
                assert(!is_leaf_in(ss, leaf));
                assert(required_for(ss, ts, leaf, e).len() == 0);
            }
            q = q + 1;
        }
        i = i + 1;
    }
    proof {
        assert forall|leaf: StateId, e: EventKind| #[trigger] required_for(ss, ts, leaf, e).len() > 0 implies covered(out@, leaf, e) by {
            let j = idx_of(ss, leaf);
            assert(event_ints(events@).contains(e.0 as int)) by {
                let w = choose|w: int| 0 <= w < ts.len() && ts[w].event == e;
                assert(ts[w].event.0 == e.0 as int);
            }
            let qq = choose|qq: int| 0 <= qq < event_ints(events@).len() && event_ints(events@)[qq] == e.0 as int;
            assert(events@[qq] == e);
            assert(ss[j].id == leaf);
        }
    }
    out
}

fn state_lists_fit(states: &Vec<StateSpec>)
    ensures
        lists_fit(snodes(states@)),
{
    let ghost ss = snodes(states@);
    assert forall|i: int| #![trigger ss[i]] 0 <= i < ss.len() implies ss[i].entry.len() < list_cap() && ss[i].exit.len() < list_cap() by {
        assert(states@[i].entry.len() == states@[i].entry@.len());
        assert(states@[i].exit.len() == states@[i].exit@.len());
    }
}

fn max_depth_exec(depths: &Vec<u32>) -> (r: u32)
    ensures
        r == max_depth_scan_u32(depths@, depths@.len() as int),
{
    let mut best: u32 = 0;
    let mut i: usize = 0;
    while i < depths.len()
        invariant
            i <= depths@.len(),
            best == max_depth_scan_u32(depths@, i as int),
        decreases depths@.len() - i,
    {
        if depths[i] > best {
            best = depths[i];
        }
        i = i + 1;
    }
    best
}

pub open spec fn max_depth_scan_u32(d: Seq<u32>, k: int) -> u32
    decreases k,
{
    if k <= 0 || k > d.len() {
        0
    } else {
        let rest = max_depth_scan_u32(d, k - 1);
        if d[k - 1] > rest {
            d[k - 1]
        } else {
            rest
        }
    }
}

proof fn lemma_depth_scan(ss: Seq<SNode>, d: Seq<u32>, k: int)
    requires
        d.len() == ss.len(),
        forall|i: int| 0 <= i < ss.len() ==> #[trigger] d[i] == depth_at(ss, i),
        0 <= k <= ss.len(),
    ensures
        max_depth_scan_u32(d, k) == depth_scan(ss, k),
    decreases k,
{
    if k > 0 {
        lemma_depth_scan(ss, d, k - 1);
        assert(d[k - 1] == depth_at(ss, k - 1));
    }
}

/// Validates `spec` against `limits` and builds the immutable graph.
pub fn compile(spec: &DefinitionSpec, limits: &HfsmLimits) -> (r: Result<CompiledDefinition, CompileError>)
    requires
        spec.states@.len() <= u32::MAX,
        spec.transitions@.len() <= u32::MAX,
    ensures
        match r {
            Ok(def) => {
                &&& compile_failure(*spec, *limits) is None
                &&& def.spec_states() == snodes(spec.states@)
                &&& def.spec_transitions() == tnodes(spec.transitions@)
                &&& def.spec_root() == spec.initial
                &&& def.spec_limits() == *limits
                &&& def.well_formed()
                &&& def.spec_names().len() == spec.states@.len()
                &&& forall|i: int| 0 <= i < spec.states@.len() ==> #[trigger] def.spec_names()[i] == spec.states@[i].name
            },
            Err(e) => compile_failure(*spec, *limits) == Some(e),
        },
{
    let ghost ss = snodes(spec.states@);
    let ghost ts = tnodes(spec.transitions@);
    if !limits.is_valid() {
        return Err(CompileError::new(CompileErrorKind::LimitsInvalid));
    }
    if spec.format_version != FORMAT_VERSION {
        return Err(CompileError::new(CompileErrorKind::FormatVersionUnsupported { found: spec.format_version }));
    }
    if spec.states.len() == 0 {
        return Err(CompileError::new(CompileErrorKind::EmptyDefinition));
    }
    index_states(&spec.states)?;
    let count = spec.states.len() as u32;
    if count > limits.max_states {
        return Err(CompileError::new(CompileErrorKind::StateCountExceeded { count, max: limits.max_states }));
    }
    let tcount = spec.transitions.len() as u32;
    if tcount > limits.max_transitions {
        return Err(CompileError::new(CompileErrorKind::TransitionCountExceeded { count: tcount, max: limits.max_transitions }));
    }
    check_references(spec)?;
    proof {
        let p = state_ref_pred(ss);
        lemma_first_where(ss.len(), p);
        assert forall|i: int| 0 <= i < ss.len() implies !#[trigger] state_ref_bad(ss, i) by {
            assert(!p(i));
        }
        let q = tr_ref_pred(ss, ts);
        lemma_first_where(ts.len(), q);
        assert forall|i: int| 0 <= i < ts.len() implies !#[trigger] tr_ref_bad(ss, ts, i) by {
            assert(!q(i));
        }
    }
    let depths = compute_depths(&spec.states, limits)?;
    check_initials(&spec.states)?;
    proof {
        let p = initial_pred(ss);
        lemma_first_where(ss.len(), p);
        assert forall|i: int| 0 <= i < ss.len() implies !#[trigger] initial_bad(ss, i) by {
            assert(!p(i));
        }
    }
    index_transitions(&spec.transitions)?;
    check_local_targets(&spec.states, &spec.transitions)?;
    proof {
        let p = local_pred(ss, ts);
        lemma_first_where(ts.len(), p);
        assert forall|i: int| 0 <= i < ts.len() implies !#[trigger] local_bad(ss, ts, i) by {
            assert(!p(i));
        }
    }
    let candidates = build_candidates(&spec.transitions)?;
    state_lists_fit(&spec.states);
    let max_plan_actions = compute_max_plan(&spec.states, &spec.transitions, spec.initial, limits.max_actions_per_plan)?;
    let events = build_events(&spec.transitions);
    proof {
        lemma_event_list_is(ts, event_ints(events@));
    }
    let required = build_required(&spec.states, &spec.transitions, &candidates, &events);
    let fingerprint = compute_fingerprint(spec);
    let max_depth = max_depth_exec(&depths);
    proof {
        lemma_depth_scan(ss, depths@, ss.len() as int);
    }
    let states = copy_states(&spec.states);
    let transitions = copy_transitions(&spec.transitions);
    Ok(CompiledDefinition {
        limits: *limits,
        fingerprint,
        root_initial: spec.initial,
        states,
        depths,
        transitions,
        candidates,
        required,
        events,
        max_depth,
        max_plan_actions,
    })
}


impl CompiledDefinition {
    pub fn fingerprint(&self) -> (r: u64)
        ensures
            r == def_fingerprint(*self),
    {
        proof {
            use_type_invariant(self);
        }
        self.fingerprint
    }

    pub fn limits(&self) -> (r: &HfsmLimits)
        ensures
            *r == self.spec_limits(),
    {
        &self.limits
    }

    pub fn state_count(&self) -> (r: u32)
        ensures
            r == self.spec_states().len(),
    {
        proof {
            use_type_invariant(self);
        }
        self.states.len() as u32
    }

    pub fn transition_count(&self) -> (r: u32)
        ensures
            r == self.spec_transitions().len(),
    {
        proof {
            use_type_invariant(self);
            assert(ctnodes(self.transitions@).len() == self.transitions@.len());
        }
        self.transitions.len() as u32
    }

    /// Depth of the deepest state (top-level states have depth 1).
    pub fn max_depth(&self) -> (r: u32)
        ensures
            r == max_depth_of(self.spec_states()),
    {
        proof {
            use_type_invariant(self);
        }
        self.max_depth
    }

    /// Worst-case `ActionRecord` count of any single plan from this definition.
    pub fn max_plan_actions(&self) -> (r: u32)
        ensures
            r == max_plan(self.spec_states(), self.spec_transitions(), self.spec_root()),
    {
        proof {
            use_type_invariant(self);
        }
        self.max_plan_actions
    }

    pub fn root_initial(&self) -> (r: StateId)
        ensures
            r == self.spec_root(),
    {
        proof {
            use_type_invariant(self);
        }
        self.root_initial
    }

    pub fn contains(&self, state: StateId) -> (r: bool)
        ensures
            r == has_id(self.spec_states(), state),
    {
        proof {
            use_type_invariant(self);
        }
        find_state(&self.states, state).is_some()
    }

    /// `None` for top-level states and for unknown ids (check `contains` first).
    pub fn parent_of(&self, state: StateId) -> (r: Option<StateId>)
        ensures
            r == parent_in(self.spec_states(), state),
    {
        proof {
            use_type_invariant(self);
        }
        parent_of_any(&self.states, state)
    }

    /// 1 for top-level states.
    pub fn depth_of(&self, state: StateId) -> (r: Option<u32>)
        ensures
            has_id(self.spec_states(), state) ==> r == Some(
                depth_at(self.spec_states(), idx_of(self.spec_states(), state)) as u32,
            ),
            !has_id(self.spec_states(), state) ==> r is None,
            r matches Some(d) ==> 1 <= d <= self.spec_limits().max_depth,
    {
        proof {
            use_type_invariant(self);
        }
        match find_state(&self.states, state) {
            None => None,
            Some(k) => {
                proof {
                    lemma_idx_of(snodes(self.states@), k as int);
                    lemma_depth_parent(snodes(self.states@), k as int);
                    let p = depth_pred(snodes(self.states@), self.limits);
                    lemma_first_where(self.states@.len(), p);
                    assert(!p(k as int));
                }
                Some(self.depths[k])
            },
        }
    }

    pub fn is_leaf(&self, state: StateId) -> (r: Option<bool>)
        ensures
            has_id(self.spec_states(), state) ==> r == Some(initial_in(self.spec_states(), state) is None),
            !has_id(self.spec_states(), state) ==> r is None,
    {
        proof {
            use_type_invariant(self);
        }
        match find_state(&self.states, state) {
            None => None,
            Some(k) => {
                proof {
                    lemma_idx_of(snodes(self.states@), k as int);
                }
                Some(self.states[k].initial.is_none())
            },
        }
    }

    /// States entered when expanding `state` down to its leaf (excluding `state`).
    pub fn initial_chain(&self, state: StateId) -> (r: Vec<StateId>)
        ensures
            r@ == init_chain(self.spec_states(), state, self.spec_states().len()),
    {
        proof {
            use_type_invariant(self);
        }
        let ghost ss = snodes(self.states@);
        let ghost whole = init_chain(ss, state, ss.len());
        let mut out: Vec<StateId> = Vec::new();
        let mut cursor = state;
        let mut fuel: usize = self.states.len();
        assert(out@ + whole =~= whole);
        loop
            invariant
                ss == snodes(self.states@),
                ss == snodes(self.states@),
                ss.len() == self.states@.len(),
                unique_ids(ss),
                whole == init_chain(ss, state, ss.len()),
                out@ + init_chain(ss, cursor, fuel as nat) == whole,
            decreases fuel,
        {
            if fuel == 0 {
                assert(init_chain(ss, cursor, 0) =~= Seq::<StateId>::empty());
                assert(out@ =~= whole);
                return out;
            }
            match initial_of_any(&self.states, cursor) {
                None => {
                    assert(out@ =~= whole);
                    return out;
                },
                Some(c) => {
                    let ghost o = out@;
                    out.push(c);
                    assert(o + (seq![c] + init_chain(ss, c, (fuel - 1) as nat)) =~= out@ + init_chain(ss, c, (fuel - 1) as nat));
                    cursor = c;
                    fuel = fuel - 1;
                },
            }
        }
    }

    pub fn entry_actions(&self, state: StateId) -> (r: &[ActionId])
        ensures
            has_id(self.spec_states(), state) ==> r@ == self.spec_states()[idx_of(self.spec_states(), state)].entry,
            !has_id(self.spec_states(), state) ==> r@.len() == 0,
    {
        proof {
            use_type_invariant(self);
        }
        match find_state(&self.states, state) {
            None => &[],
            Some(k) => {
                proof {
                    lemma_idx_of(snodes(self.states@), k as int);
                }
                self.states[k].entry.as_slice()
            },
        }
    }

    pub fn exit_actions(&self, state: StateId) -> (r: &[ActionId])
        ensures
            has_id(self.spec_states(), state) ==> r@ == self.spec_states()[idx_of(self.spec_states(), state)].exit,
            !has_id(self.spec_states(), state) ==> r@.len() == 0,
    {
        proof {
            use_type_invariant(self);
        }
        match find_state(&self.states, state) {
            None => &[],
            Some(k) => {
                proof {
                    lemma_idx_of(snodes(self.states@), k as int);
                }
                self.states[k].exit.as_slice()
            },
        }
    }

    /// Diagnostic name of `state`, when it has one.
    /// Diagnostic name of `state`, when it has one.
    pub fn name_of(&self, state: StateId) -> (r: Option<&str>)
        ensures
            r matches Some(x) ==> has_id(self.spec_states(), state) && self.spec_names()[idx_of(
                self.spec_states(),
                state,
            )] is Some && self.spec_names()[idx_of(self.spec_states(), state)]->0@ == x@,
            r is None ==> !has_id(self.spec_states(), state) || self.spec_names()[idx_of(
                self.spec_states(),
                state,
            )] is None,
    {
        proof {
            use_type_invariant(self);
        }
        match find_state(&self.states, state) {
            None => None,
            Some(k) => {
                proof {
                    lemma_idx_of(snodes(self.states@), k as int);
                }
                match &self.states[k].name {
                    Some(n) => Some(n.as_str()),
                    None => None,
                }
            },
        }
    }

    pub fn has_event(&self, event: EventKind) -> (r: bool)
        ensures
            r == event_known(self.spec_transitions(), event),
    {
        proof {
            use_type_invariant(self);
        }
        let ghost ts = ctnodes(self.transitions@);
        let mut i: usize = 0;
        while i < self.events.len()
            invariant
                i <= self.events@.len(),
                ts == ctnodes(self.transitions@),
                is_event_list(ts, event_ints(self.events@)),
                forall|j: int| 0 <= j < i ==> self.events@[j] != event,
            decreases self.events@.len() - i,
        {
            if self.events[i] == event {
                proof {
                    assert(event_ints(self.events@).contains(event.0 as int)) by {
                        assert(event_ints(self.events@)[i as int] == event.0 as int);
                    }
                    let w = choose|w: int| 0 <= w < ts.len() && ts[w].event.0 == event.0 as int;
                    assert(ts[w].event == event);
                }
                return true;
            }
            i = i + 1;
        }
        proof {
            if event_known(ts, event) {
                let w = choose|w: int| 0 <= w < ts.len() && ts[w].event == event;
                assert(event_ints(self.events@).contains(event.0 as int));
                let a = choose|a: int| 0 <= a < event_ints(self.events@).len() && event_ints(self.events@)[a] == event.0 as int;
                assert(self.events@[a] == event);
            }
        }
        false
    }

    /// Transitions declared on `state` for `event`, ascending priority.
    pub fn candidates(&self, state: StateId, event: EventKind) -> (r: &[TransitionId])
        ensures
            r@ == candidate_ids(self.spec_transitions(), state, event),
            forall|k: int| 0 <= k < group(self.spec_transitions(), key_of_pair(state, event)).len()
                ==> 0 <= #[trigger] group(self.spec_transitions(), key_of_pair(state, event))[k] < self.spec_transitions().len(),
    {
        proof {
            use_type_invariant(self);
        }
        let ghost ts = ctnodes(self.transitions@);
        let key = state.0 as u64 * 0x1_0000_0000 + event.0 as u64;
        match find_group(&self.candidates, key) {
            None => {
                proof {
                    let kl = key_list(ts);
                    if kl.contains(key as int) {
                        let k = choose|k: int| 0 <= k < kl.len() && kl[k] == key as int;
                        assert(group_ok(ts, kl[k], self.candidates@[k]));
                    }
                    lemma_group_empty(ts, key as int);
                    assert(candidate_ids(ts, state, event) =~= Seq::<TransitionId>::empty());
                }
                &[]
            },
            Some(g) => {
                proof {
                    let kl = key_list(ts);
                    assert(group_ok(ts, kl[g as int], self.candidates@[g as int]));
                    let grp = self.candidates@[g as int];
                    assert(candidate_ids(ts, state, event) =~= grp.ids@);
                    assert forall|k: int| 0 <= k < group(ts, key_of_pair(state, event)).len()
                        implies 0 <= #[trigger] group(ts, key_of_pair(state, event))[k] < ts.len() by {
                        assert(as_ints(grp.members@)[k] == grp.members@[k] as int);
                        assert(grp.members@[k] < ts.len());
                    }
                }
                self.candidates[g].ids.as_slice()
            },
        }
    }

    /// Guards the host must supply for `event` when `leaf` is active (bubbling order, deduped).
    pub fn required_guards(&self, leaf: StateId, event: EventKind) -> (r: &[GuardId])
        ensures
            r@ == required_for(self.spec_states(), self.spec_transitions(), leaf, event),
    {
        proof {
            use_type_invariant(self);
        }
        let ghost ss = snodes(self.states@);
        let ghost ts = ctnodes(self.transitions@);
        let mut k: usize = 0;
        while k < self.required.len()
            invariant
                k <= self.required@.len(),
                ss == snodes(self.states@),
                ts == ctnodes(self.transitions@),
                guard_table_ok(ss, ts, self.required@),
                forall|j: int| 0 <= j < k ==> !(self.required@[j].leaf == leaf && self.required@[j].event == event),
            decreases self.required@.len() - k,
        {
            if self.required[k].leaf == leaf && self.required[k].event == event {
                proof {
                    assert(self.required@[k as int].guards@ == required_for(ss, ts, leaf, event));
                }
                return self.required[k].guards.as_slice();
            }
            k = k + 1;
        }
        proof {
            if required_for(ss, ts, leaf, event).len() > 0 {
                assert(covered(self.required@, leaf, event));
            }
        }
        &[]
    }

    pub fn transition(&self, id: TransitionId) -> (r: Option<&CompiledTransition>)
        ensures
            r is Some <==> has_tid(self.spec_transitions(), id),
            r matches Some(t) ==> ctnode(*t) == self.spec_transitions()[tidx_of(self.spec_transitions(), id)],
    {
        proof {
            use_type_invariant(self);
        }
        let ghost ts = ctnodes(self.transitions@);
        let mut k: usize = 0;
        while k < self.transitions.len()
            invariant
                k <= self.transitions@.len(),
                ts == ctnodes(self.transitions@),
                ctnodes(self.transitions@) == ts,
                unique_tids(ts),
                forall|j: int| 0 <= j < k ==> self.transitions@[j].id != id,
            decreases self.transitions@.len() - k,
        {
            if self.transitions[k].id == id {
                proof {
                    assert(ts[k as int].id == id);
                    assert(has_tid(ts, id));
                    let w = tidx_of(ts, id);
                    assert(ts[w].id == id);
                }
                return Some(&self.transitions[k]);
            }
            k = k + 1;
        }
        proof {
            if has_tid(ts, id) {
                let w = choose|w: int| 0 <= w < ts.len() && ts[w].id == id;
                assert(self.transitions@[w].id == ts[w].id);
            }
        }
        None
    }
}


impl CompiledDefinition {
    /// Facts of every compiled definition that the evaluator relies on.
    pub(crate) proof fn lemma_facts(&self)
        requires
            self.inv(),
        ensures
            table_ok(self.spec_states()),
            unique_tids(self.spec_transitions()),
            self.spec_states().len() <= u32::MAX,
    {
    }

    /// Strict common ancestor of `a` and `b` (`None` is the synthetic root).
    pub(crate) fn strict_common_ancestor(&self, a: StateId, b: StateId) -> (r: Option<StateId>)
        ensures
            r == strict_common_ancestor(self.spec_states(), a, b),
    {
        proof {
            use_type_invariant(self);
        }
        strict_common_ancestor_exec(&self.states, a, b)
    }
}


impl CompiledDefinition {
    /// Holds of every compiled definition (it is the type's invariant).
    pub closed spec fn well_formed(&self) -> bool {
        self.inv()
    }

    /// What every compiled definition guarantees about its tables.
    pub proof fn lemma_well_formed(&self)
        requires
            self.well_formed(),
        ensures
            table_ok(self.spec_states()),
            unique_tids(self.spec_transitions()),
            tr_refs_ok(self.spec_states(), self.spec_transitions()),
            forall|i: int| 0 <= i < self.spec_states().len() ==> !#[trigger] initial_bad(self.spec_states(), i),
            forall|i: int|
                0 <= i < self.spec_transitions().len() ==> !#[trigger] local_bad(
                    self.spec_states(),
                    self.spec_transitions(),
                    i,
                ),
            is_key_list(self.spec_transitions(), key_list(self.spec_transitions())),
            has_id(self.spec_states(), self.spec_root()),
            parent_in(self.spec_states(), self.spec_root()) is None,
    {
        let ss = self.spec_states();
        let ts = self.spec_transitions();
        assert(reference_error_of(self.root_initial, ss, ts) is None);
    }
}


/// Group lists exist whenever the key list does: every key's group is a sorted list of
/// exactly its members.
pub proof fn lemma_group_well_defined(ts: Seq<TNode>, key: int)
    requires
        is_key_list(ts, key_list(ts)),
    ensures
        is_group(ts, key, group(ts, key)),
{
    lemma_group_exists(ts, key, ts.len() as int);
}

/// Members of `key` among the first `n` transitions, as a sorted list.
proof fn lemma_group_exists(ts: Seq<TNode>, key: int, n: int)
    requires
        0 <= n <= ts.len(),
    ensures
        exists|l: Seq<int>| #[trigger] is_group_upto(ts, key, n, l),
        n == ts.len() ==> is_group(ts, key, group(ts, key)),
    decreases n,
{
    if n == 0 {
        let e = Seq::<int>::empty();
        assert(is_group_upto(ts, key, 0, e));
        if ts.len() == 0 {
            assert(is_group(ts, key, e));
            assert(is_group(ts, key, group(ts, key)));
        }
    } else {
        lemma_group_exists(ts, key, n - 1);
        let l = choose|l: Seq<int>| #[trigger] is_group_upto(ts, key, n - 1, l);
        if key_of(ts[n - 1]) == key {
            let pos = lemma_insert_point(ts, l, n - 1);
            let l2 = l.insert(pos, n - 1);
            assert forall|x: int| l2.contains(x) <==> (0 <= x < n && key_of(ts[x]) == key) by {
                if 0 <= x < n && key_of(ts[x]) == key {
                    if x == n - 1 {
                        assert(l2[pos] == x);
                    } else {
                        assert(l.contains(x));
                        let a = choose|a: int| 0 <= a < l.len() && l[a] == x;
                        if a < pos {
                            assert(l2[a] == x);
                        } else {
                            assert(l2[a + 1] == x);
                        }
                    }
                }
                if l2.contains(x) {
                    let a = choose|a: int| 0 <= a < l2.len() && l2[a] == x;
                    if a < pos {
                        assert(l[a] == x);
                        assert(l.contains(x));
                    } else if a > pos {
                        assert(l[a - 1] == x);
                        assert(l.contains(x));
                    }
                }
            }
            assert forall|i: int, j: int| 0 <= i < j < l2.len() implies lt_prio(ts)(l2[i], l2[j]) by {
                if i < pos && j == pos {
                } else if i == pos && j > pos {
                    if j - 1 > pos {
                        assert(lt_prio(ts)(l[pos], l[j - 1]));
                    }
                } else if i < pos && j > pos {
                    assert(lt_prio(ts)(l[i], l[j - 1]));
                } else if i > pos {
                    assert(lt_prio(ts)(l[i - 1], l[j - 1]));
                }
            }
            assert(is_group_upto(ts, key, n, l2));
        } else {
            assert forall|x: int| l.contains(x) <==> (0 <= x < n && key_of(ts[x]) == key) by {
                if 0 <= x < n && key_of(ts[x]) == key {
                    assert(x != n - 1);
                }
            }
            assert(is_group_upto(ts, key, n, l));
        }
        if n == ts.len() {
            let w = choose|l: Seq<int>| #[trigger] is_group_upto(ts, key, n, l);
            assert(is_group(ts, key, w));
            assert(is_group(ts, key, group(ts, key)));
        }
    }
}

pub open spec fn is_group_upto(ts: Seq<TNode>, key: int, n: int, l: Seq<int>) -> bool {
    &&& forall|x: int| l.contains(x) <==> (0 <= x < n && key_of(ts[x]) == key)
    &&& forall|i: int, j: int| 0 <= i < j < l.len() ==> lt_prio(ts)(l[i], l[j])
    &&& forall|i: int| 0 <= i < l.len() ==> 0 <= #[trigger] l[i] < n
}

/// Where `x`, larger than every element, goes to keep `l` sorted.
proof fn lemma_insert_point(ts: Seq<TNode>, l: Seq<int>, x: int) -> (pos: int)
    requires
        forall|i: int, j: int| 0 <= i < j < l.len() ==> lt_prio(ts)(l[i], l[j]),
        forall|i: int| 0 <= i < l.len() ==> #[trigger] l[i] < x,
    ensures
        0 <= pos <= l.len(),
        forall|i: int| 0 <= i < pos ==> lt_prio(ts)(#[trigger] l[i], x),
        forall|i: int| pos <= i < l.len() ==> lt_prio(ts)(x, #[trigger] l[i]),
    decreases l.len(),
{
    if l.len() == 0 {
        0
    } else if ts[l.last()].priority <= ts[x].priority {
        let pos = l.len() as int;
        assert forall|i: int| 0 <= i < pos implies lt_prio(ts)(#[trigger] l[i], x) by {
            if i < l.len() - 1 {
                assert(lt_prio(ts)(l[i], l.last()));
            }
        }
        pos
    } else {
        let p = lemma_insert_point(ts, l.drop_last(), x);
        assert forall|i: int| 0 <= i < p implies lt_prio(ts)(#[trigger] l[i], x) by {
            assert(l[i] == l.drop_last()[i]);
        }
        assert forall|i: int| p <= i < l.len() implies lt_prio(ts)(x, #[trigger] l[i]) by {
            if i < l.len() - 1 {
                assert(l[i] == l.drop_last()[i]);
            }
        }
        p
    }
}

} // verus!
