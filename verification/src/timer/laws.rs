//! Properties of the timer kernel that hold across all inputs.
use vstd::prelude::*;
use crate::timer::error::TimerError;
use crate::timer::ids::{AdvanceReport, CallbackSlot, DispatchId, FiringRecord, ScopeKind, TimerHandle, TimerScope};
use crate::timer::manager::{
    AdvanceState, SlotState, TimerManager, TimerSlot, advance_outcome, advance_start, deliver_all, deliver_step,
    handle_at, ins_pos, invalidated, invalidated_all, isort, lemma_scope_pos, live_in, owed, owed_all, reschedule_all,
    retired_slot, scope_pos, valid_in, valid_pending, ItemFilter, QueueItem, SlotMeta,
};

verus! {

/// Every firing a timer slot owes names that slot's live timer.
proof fn lemma_owed_live(ctx: u64, timers: Seq<TimerSlot>, to: u64, n: int)
    requires
        0 <= n <= timers.len(),
        timers.len() <= u32::MAX,
    ensures
        forall|k: int| 0 <= k < owed_all(ctx, timers, to, n).len() ==> live_in(
            ctx,
            timers,
            (#[trigger] owed_all(ctx, timers, to, n)[k]).handle,
        ),
    decreases n,
{
    if n > 0 {
        lemma_owed_live(ctx, timers, to, n - 1);
        let a = owed_all(ctx, timers, to, n - 1);
        let b = owed(ctx, n - 1, timers[n - 1], to);
        assert forall|k: int| 0 <= k < (a + b).len() implies live_in(ctx, timers, (#[trigger] (a + b)[k]).handle) by {
            if k < a.len() {
                assert((a + b)[k] == a[k]);
            } else {
                assert((a + b)[k] == b[k - a.len()]);
                assert(((n - 1) as u32) as int == n - 1);
            }
        }
    }
}

/// Sorting keeps only what was there.
proof fn lemma_isort_members(s: Seq<FiringRecord>)
    ensures
        isort(s).len() == s.len(),
        forall|k: int| 0 <= k < isort(s).len() ==> s.contains(#[trigger] isort(s)[k]),
    decreases s.len(),
{
    if s.len() > 0 {
        let front = s.drop_last();
        lemma_isort_members(front);
        let o = isort(front);
        lemma_ins_pos_range(o, s.last(), o.len() as int);
        let p = ins_pos(o, s.last(), o.len() as int);
        let r = o.insert(p, s.last());
        assert forall|k: int| 0 <= k < r.len() implies s.contains(#[trigger] r[k]) by {
            if k < p {
                assert(r[k] == o[k]);
                assert(front.contains(o[k]));
                let j = choose|j: int| 0 <= j < front.len() && front[j] == o[k];
                assert(s[j] == o[k]);
            } else if k == p {
                assert(s[s.len() - 1] == s.last());
            } else {
                assert(r[k] == o[k - 1]);
                assert(front.contains(o[k - 1]));
                let j = choose|j: int| 0 <= j < front.len() && front[j] == o[k - 1];
                assert(s[j] == o[k - 1]);
            }
        }
    }
}

proof fn lemma_ins_pos_range(out: Seq<FiringRecord>, x: FiringRecord, p: int)
    requires
        0 <= p <= out.len(),
    ensures
        0 <= ins_pos(out, x, p) <= p,
    decreases p,
{
    if p > 0 {
        lemma_ins_pos_range(out, x, p - 1);
    }
}

/// Delivery queues only firings it was handed.
proof fn lemma_delivered_members(m: &TimerManager, d: AdvanceState, recs: Seq<FiringRecord>)
    ensures
        forall|k: int| 0 <= k < deliver_all(m, d, recs).firings.len() ==> d.firings.contains(
            #[trigger] deliver_all(m, d, recs).firings[k],
        ) || recs.contains(deliver_all(m, d, recs).firings[k]),
    decreases recs.len(),
{
    if recs.len() > 0 {
        let front = recs.drop_last();
        lemma_delivered_members(m, d, front);
        let e = deliver_all(m, d, front);
        let f = deliver_all(m, d, recs).firings;
        assert(deliver_all(m, d, recs) == deliver_step(m, e, recs.last()));
        assert forall|k: int| 0 <= k < f.len() implies d.firings.contains(#[trigger] f[k]) || recs.contains(f[k]) by {
            if k < e.firings.len() {
                assert(f[k] == e.firings[k]);
                if recs.drop_last().contains(f[k]) {
                    let j = choose|j: int| 0 <= j < front.len() && front[j] == f[k];
                    assert(recs[j] == f[k]);
                }
            } else {
                assert(f[k] == recs.last());
                assert(recs[recs.len() - 1] == recs.last());
            }
        }
    }
}

/// Moving timers on leaves the firings as they are.
proof fn lemma_reschedule_firings(m: &TimerManager, d: AdvanceState, es: Seq<(TimerHandle, Option<u64>)>)
    ensures
        reschedule_all(m, d, es).firings == d.firings,
    decreases es.len(),
{
    if es.len() > 0 {
        lemma_reschedule_firings(m, d, es.drop_last());
    }
}

/// A handle that no longer names a live timer (cancelled, fired once, or retired with
/// its scope) never fires again: advancing the clock delivers no firing for it.
pub proof fn law_dead_handle_never_fires(m: &TimerManager, h: TimerHandle, to: u64, k: int)
    requires
        m.wf(),
        !m.spec_timer_live(h),
        0 <= k < advance_outcome(m, to).firings.len(),
    ensures
        advance_outcome(m, to).firings[k].handle != h,
{
    m.lemma_wf_timers_len();
    let ctx = m.spec_context();
    let timers = m.spec_timers();
    let n = timers.len() as int;
    let owed_recs = owed_all(ctx, timers, to, n);
    let sorted = isort(owed_recs);
    let start = advance_start(m);
    let delivered = deliver_all(m, start, sorted);
    lemma_reschedule_firings(m, delivered, crate::timer::manager::next_all(ctx, timers, to, n));
    lemma_delivered_members(m, start, sorted);
    lemma_isort_members(owed_recs);
    lemma_owed_live(ctx, timers, to, n);
    let r = advance_outcome(m, to).firings[k];
    assert(delivered.firings[k] == r);
    assert(sorted.contains(r));
    let j = choose|j: int| 0 <= j < sorted.len() && sorted[j] == r;
    assert(owed_recs.contains(sorted[j]));
    let i = choose|i: int| 0 <= i < owed_recs.len() && owed_recs[i] == r;
    assert(live_in(ctx, timers, owed_recs[i].handle));
}

/// Retiring a timer moves its slot to a new generation, so a handle to the old timer
/// can never name a timer later scheduled in the same slot.
pub proof fn law_retired_slot_gets_new_generation(t: TimerSlot)
    requires
        t.generation < u32::MAX,
    ensures
        retired_slot(t).generation != t.generation,
        retired_slot(t).record is None,
{
}

/// A cancelled timer cannot be cancelled again: once `cancel` has succeeded on a
/// handle, a later `cancel` of it is refused as stale.
pub proof fn law_cancel_is_once(m0: &TimerManager, m1: &TimerManager, m2: &TimerManager, h: TimerHandle, r2: Result<bool, TimerError>)
    requires
        m0.spec_cancel(m1, h, Ok(true)),
        m1.spec_cancel(m2, h, r2),
    ensures
        r2 == Err::<bool, TimerError>(TimerError::StaleHandle),
{
}

/// A handle of another manager's context never names a timer of this one: `cancel`
/// refuses it as stale.
pub proof fn law_foreign_handle_is_stale(m: &TimerManager, n: &TimerManager, h: TimerHandle, r: Result<bool, TimerError>)
    requires
        m.spec_ensure_running() is None,
        h.context != m.spec_context(),
        m.spec_cancel(n, h, r),
    ensures
        r == Err::<bool, TimerError>(TimerError::StaleHandle),
{
}

/// Once shut down, a manager refuses every mutating call with `ManagerShutdown`:
/// scheduling on any scope and slot, and advancing to any tick.
pub proof fn law_shutdown_refuses_work(m: &TimerManager)
    requires
        !m.spec_running(),
    ensures
        m.spec_ensure_running() == Some(TimerError::ManagerShutdown),
        forall|scope: TimerScope, due: u64, slot: CallbackSlot| #[trigger] m.spec_schedule_error(scope, due, slot)
            == Some(TimerError::ManagerShutdown),
        forall|n: TimerManager, to: u64, r: Result<AdvanceReport, TimerError>| #[trigger] m.spec_advance(&n, to, r)
            ==> (r matches Err(e) && e == TimerError::ManagerShutdown),
        forall|n: TimerManager, h: TimerHandle, r: Result<bool, TimerError>| #[trigger] m.spec_cancel(&n, h, r)
            ==> r == Err::<bool, TimerError>(TimerError::ManagerShutdown),
{
}

/// A closed slot stays closed: binding it is refused, and so is scheduling on it
/// whenever the manager runs and the scope is live.
pub proof fn law_closed_slot_refuses_work(m: &TimerManager, slot: CallbackSlot, id: DispatchId, scope: TimerScope, due: u64)
    requires
        m.spec_slot_valid(slot),
        m.spec_slots()[slot.index as int].state == SlotState::Closed,
    ensures
        m.spec_bind_precheck(slot, id) == Some(TimerError::SlotClosed),
        m.spec_ensure_running() is None && m.spec_resolve(scope) is Ok ==> m.spec_schedule_error(scope, due, slot)
            == Some(TimerError::SlotClosed),
{
}

/// A destroyed scope comes back under a newer generation: registering its id again
/// after `destroy_scope` succeeded gives a generation above the one it had.
pub proof fn law_destroyed_scope_returns_newer(m0: &TimerManager, m1: &TimerManager, id: u64, kind: ScopeKind,
    r: Result<TimerScope, TimerError>, scopes: Seq<crate::timer::manager::ScopeRecord>)
    requires
        m0.wf(),
        m0.spec_destroy_scope(m1, id, Ok(())),
        m1.scope_revivable(id),
        m1.spec_register_scope(id, kind, r, scopes),
        r is Ok,
    ensures
        m0.scope_of(id) matches Some(rec) && r->Ok_0.generation > rec.generation,
{
    m0.lemma_wf_scope_ids();
    let j = scope_pos(m0.spec_scopes(), id)->0;
    lemma_scope_pos(m0.spec_scopes(), j);
    assert(m1.spec_scopes()[j].id == id);
    assert forall|a: int, b: int| 0 <= a < m1.spec_scopes().len() && 0 <= b < m1.spec_scopes().len() && a != b
        implies m1.spec_scopes()[a].id != m1.spec_scopes()[b].id by {
        assert(m0.spec_scopes()[a].id != m0.spec_scopes()[b].id);
    }
    lemma_scope_pos(m1.spec_scopes(), j);
    assert(m1.scope_of(id) == Some(m1.spec_scopes()[j]));
    assert(!m1.spec_scopes()[j].alive);
    assert(m1.spec_scopes()[j].generation == m0.spec_scopes()[j].generation);
}

/// A queue whose entries were all invalidated holds no valid entry.
proof fn lemma_invalidated_queue_empty(q: Seq<QueueItem>)
    ensures
        valid_in(invalidated(q, ItemFilter::All)) == 0,
    decreases q.len(),
{
    if q.len() > 0 {
        lemma_invalidated_queue_empty(q.drop_last());
        assert(invalidated(q, ItemFilter::All).drop_last() =~= invalidated(q.drop_last(), ItemFilter::All));
    }
}

/// After shutdown nothing is pending: every queue shutdown leaves behind (each entry
/// invalidated) counts no valid entry, whatever the slots.
pub proof fn law_shutdown_leaves_nothing_pending(slots: Seq<SlotMeta>, qs: Seq<Seq<QueueItem>>)
    ensures
        valid_pending(slots, invalidated_all(qs, ItemFilter::All)) == 0,
    decreases qs.len(),
{
    let inv = invalidated_all(qs, ItemFilter::All);
    if qs.len() > 0 && slots.len() > 0 {
        law_shutdown_leaves_nothing_pending(slots.drop_last(), qs.drop_last());
        assert(inv.drop_last() =~= invalidated_all(qs.drop_last(), ItemFilter::All));
        lemma_invalidated_queue_empty(qs.last());
        assert(inv.last() == invalidated(qs.last(), ItemFilter::All));
    }
}

} // verus!
