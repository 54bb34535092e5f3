//! Single-thread-owned timer kernel. Advance preflights work before allocation.
use vstd::prelude::*;
use crate::kernel::handle::{occupied_count, occupied_prefix, lemma_occupied_update, lemma_occupied_prefix_bound, lemma_all_empty};
use crate::timer::error::{TimerError, TimerResult};
use crate::timer::ids::{
    AdvanceReport, CallbackSlot, Delivery, DispatchId, DrainReport, FiringRecord, FiringRejection,
    ScopeKind, SliceTrace, SliceTraceEvent, SlotLifecycle, TimerBudget, TimerDiagnostic, TimerHandle,
    TimerLimits, TimerMode, TimerScope, DispatchTarget, TRACE_CAPACITY, DELIVERY_QUEUE_DEPTH_PER_SLOT, MAX_ACTIVE_TIMERS_PER_SCOPE,
    MAX_SCHEDULES_PER_PUMP, MAX_SCHEDULES_PER_TICK, MIN_INTERVAL_MS, MIN_INTERVAL_TICKS, bump_generation,
};

verus! {

#[derive(Clone, Copy, Debug, PartialEq, Eq, Structural)]
pub enum SlotState {
    Unbound,
    Armed,
    Closed,
}

/// Bookkeeping of one registered scope id.
#[derive(Clone, Copy, Debug, PartialEq, Eq, Structural)]
pub struct ScopeRecord {
    pub id: u64,
    pub kind: ScopeKind,
    pub generation: u32,
    pub active: u32,
    pub alive: bool,
}

/// A firing waiting in a callback slot's delivery queue.
#[derive(Clone, Copy, Debug, PartialEq, Eq, Structural)]
pub struct QueueItem {
    pub record: FiringRecord,
    pub scope: TimerScope,
    pub valid: bool,
}

/// Lifecycle and binding of one callback slot.
#[derive(Clone, Copy, Debug, PartialEq, Eq, Structural)]
pub struct SlotMeta {
    pub generation: u32,
    pub state: SlotState,
    pub dispatch_id: Option<DispatchId>,
}

/// A scheduled timer.
#[derive(Clone, Copy, Debug, PartialEq, Eq, Structural)]
pub struct TimerRecord {
    pub scope: TimerScope,
    pub due: u64,
    pub interval: Option<u64>,
    pub sequence: u64,
    pub slot: CallbackSlot,
    pub dispatch: DispatchId,
    pub queued: bool,
}

/// One reusable timer slot.
#[derive(Clone, Copy, Debug, PartialEq, Eq, Structural)]
pub struct TimerSlot {
    pub generation: u32,
    pub record: Option<TimerRecord>,
}

pub struct TimerManager {
    context: u64,
    mode: TimerMode,
    limits: TimerLimits,
    budget: TimerBudget,
    config_error: Option<TimerError>,
    running: bool,
    committed_tick: u64,
    schedules_this_tick: u32,
    next_sequence: u64,
    live: u32,
    pending: usize,
    scopes: Vec<ScopeRecord>,
    timers: Vec<TimerSlot>,
    timer_free: Vec<u32>,
    slots: Vec<SlotMeta>,
    queues: Vec<Vec<QueueItem>>,
    dispatch_table: Vec<DispatchId>,
    trace: SliceTrace,
    diagnostics: Vec<TimerDiagnostic>,
    diagnostics_dropped: u64,
}

/// What `with_budget` records as the configuration error.
pub open spec fn spec_config_error(limits: TimerLimits, budget: TimerBudget) -> Option<TimerError> {
    match limits.spec_validate() {
        Some(e) => Some(e),
        None => if budget.spec_valid() {
            None
        } else {
            Some(TimerError::ScheduleBudgetExceeded)
        },
    }
}

/// A live timer is due after tick zero and never repeats with a zero interval.
pub open spec fn interval_ok(t: TimerSlot) -> bool {
    match t.record {
        Some(r) => r.due >= 1 && match r.interval {
            Some(iv) => iv > 0,
            None => true,
        },
        None => true,
    }
}

pub open spec fn records_of(timers: Seq<TimerSlot>) -> Seq<Option<TimerRecord>> {
    timers.map_values(|t: TimerSlot| t.record)
}

/// Index of the scope record for `id`, if any (ids are unique).
pub open spec fn scope_pos(scopes: Seq<ScopeRecord>, id: u64) -> Option<int> {
    if exists|j: int| 0 <= j < scopes.len() && scopes[j].id == id {
        Some(choose|j: int| 0 <= j < scopes.len() && scopes[j].id == id)
    } else {
        None
    }
}

pub open spec fn unique_scope_ids(scopes: Seq<ScopeRecord>) -> bool {
    forall|i: int, j: int|
        0 <= i < scopes.len() && 0 <= j < scopes.len() && i != j ==> scopes[i].id != scopes[j].id
}

pub open spec fn unique_dispatch(table: Seq<DispatchId>) -> bool {
    forall|i: int, j: int|
        0 <= i < table.len() && 0 <= j < table.len() && i != j ==> table[i] != table[j]
}

pub proof fn lemma_scope_pos(scopes: Seq<ScopeRecord>, i: int)
    requires
        unique_scope_ids(scopes),
        0 <= i < scopes.len(),
    ensures
        scope_pos(scopes, scopes[i].id) == Some(i),
{
}

pub proof fn lemma_scope_pos_some(scopes: Seq<ScopeRecord>, id: u64)
    ensures
        scope_pos(scopes, id) matches Some(j) ==> 0 <= j < scopes.len() && scopes[j].id == id,
        scope_pos(scopes, id) is None ==> forall|j: int| 0 <= j < scopes.len() ==> scopes[j].id != id,
{
}

/// `a` and `b` hold the same scopes, apart from their active counts.
pub open spec fn same_scopes_but_active(a: Seq<ScopeRecord>, b: Seq<ScopeRecord>) -> bool {
    &&& a.len() == b.len()
    &&& forall|i: int| 0 <= i < a.len() ==> #[trigger] a[i] == ScopeRecord { active: a[i].active, ..b[i] }
}

pub proof fn lemma_resolve_same(m1: &TimerManager, m2: &TimerManager, scope: TimerScope)
    requires
        same_scopes_but_active(m1.spec_scopes(), m2.spec_scopes()),
        unique_scope_ids(m2.spec_scopes()),
    ensures
        (m1.spec_resolve(scope) is Ok) == (m2.spec_resolve(scope) is Ok),
{
    let a = m1.spec_scopes();
    let b = m2.spec_scopes();
    let id = scope.scope_id;
    assert forall|i: int| 0 <= i < a.len() implies a[i].id == b[i].id by {
        assert(a[i] == ScopeRecord { active: a[i].active, ..b[i] });
    }
    lemma_scope_pos_some(a, id);
    lemma_scope_pos_some(b, id);
    match scope_pos(b, id) {
        Some(j) => {
            assert(a[j].id == id);
            match scope_pos(a, id) {
                Some(k) => {
                    assert(b[k].id == id);
                    assert(k == j);
                    assert(a[j] == ScopeRecord { active: a[j].active, ..b[j] });
                },
                None => {
                    assert(false);
                },
            }
        },
        None => {
            match scope_pos(a, id) {
                Some(k) => {
                    assert(b[k].id == id);
                },
                None => {},
            }
        },
    }
}

/// Sum of the queue lengths.
pub open spec fn queued_total(queues: Seq<Seq<QueueItem>>) -> nat
    decreases queues.len(),
{
    if queues.len() == 0 {
        0
    } else {
        queued_total(queues.drop_last()) + queues.last().len()
    }
}

/// Valid items in the queues of slots that are not closed.
pub open spec fn valid_pending(slots: Seq<SlotMeta>, queues: Seq<Seq<QueueItem>>) -> nat
    decreases queues.len(),
{
    if queues.len() == 0 || slots.len() == 0 {
        0
    } else {
        valid_pending(slots.drop_last(), queues.drop_last()) + if slots.last().state
            == SlotState::Closed {
            0
        } else {
            valid_in(queues.last())
        }
    }
}

pub open spec fn valid_in(q: Seq<QueueItem>) -> nat
    decreases q.len(),
{
    if q.len() == 0 {
        0
    } else {
        valid_in(q.drop_last()) + if q.last().valid {
            1nat
        } else {
            0nat
        }
    }
}

impl TimerManager {
    pub closed spec fn spec_context(&self) -> u64 {
        self.context
    }

    pub closed spec fn spec_mode(&self) -> TimerMode {
        self.mode
    }

    pub closed spec fn spec_limits(&self) -> TimerLimits {
        self.limits
    }

    pub closed spec fn spec_budget(&self) -> TimerBudget {
        self.budget
    }

    pub closed spec fn spec_config_error(&self) -> Option<TimerError> {
        self.config_error
    }

    pub closed spec fn spec_running(&self) -> bool {
        self.running
    }

    pub closed spec fn spec_committed_tick(&self) -> u64 {
        self.committed_tick
    }

    pub closed spec fn spec_schedules_this_tick(&self) -> u32 {
        self.schedules_this_tick
    }

    pub closed spec fn spec_next_sequence(&self) -> u64 {
        self.next_sequence
    }

    pub closed spec fn spec_live(&self) -> u32 {
        self.live
    }

    pub closed spec fn spec_pending(&self) -> usize {
        self.pending
    }

    pub closed spec fn spec_scopes(&self) -> Seq<ScopeRecord> {
        self.scopes@
    }

    pub closed spec fn spec_timers(&self) -> Seq<TimerSlot> {
        self.timers@
    }

    pub closed spec fn spec_timer_free(&self) -> Seq<u32> {
        self.timer_free@
    }

    pub closed spec fn spec_slots(&self) -> Seq<SlotMeta> {
        self.slots@
    }

    pub closed spec fn spec_queues(&self) -> Seq<Seq<QueueItem>> {
        self.queues@.map_values(|q: Vec<QueueItem>| q@)
    }

    pub closed spec fn spec_dispatch_table(&self) -> Seq<DispatchId> {
        self.dispatch_table@
    }

    pub closed spec fn spec_trace(&self) -> SliceTrace {
        self.trace
    }

    pub closed spec fn spec_diagnostics(&self) -> Seq<TimerDiagnostic> {
        self.diagnostics@
    }

    pub closed spec fn spec_diagnostics_dropped(&self) -> u64 {
        self.diagnostics_dropped
    }

    /// The manager's structural invariant.
    pub closed spec fn wf(&self) -> bool {
        &&& self.config_error == spec_config_error(self.limits, self.budget)
        &&& self.slots@.len() == self.queues@.len()
        &&& self.slots@.len() <= u32::MAX
        &&& self.timers@.len() <= u32::MAX
        &&& forall|i: int| 0 <= i < self.timer_free@.len() ==> (#[trigger] self.timer_free@[i]) < self.timers@.len()
        &&& forall|i: int| 0 <= i < self.timer_free@.len() ==> self.timers@[#[trigger] self.timer_free@[i] as int].record is None
        &&& forall|i: int, j: int| 0 <= i < j < self.timer_free@.len() ==> #[trigger] self.timer_free@[i] != #[trigger] self.timer_free@[j]
        &&& self.live == occupied_count(records_of(self.timers@))
        &&& forall|i: int| 0 <= i < self.timers@.len() ==> interval_ok(#[trigger] self.timers@[i])
        &&& self.pending == queued_total(self.spec_queues())
        &&& unique_scope_ids(self.scopes@)
        &&& unique_dispatch(self.dispatch_table@)
        &&& self.trace.wf()
        &&& self.timers_retirable()
        &&& self.timers_due_ahead()
    }

    /// A well-formed manager keeps one record per scope id.
    pub proof fn lemma_wf_scope_ids(&self)
        requires
            self.wf(),
        ensures
            unique_scope_ids(self.spec_scopes()),
    {
    }

    /// A well-formed manager holds no more timer slots than a `u32` can index.
    pub proof fn lemma_wf_timers_len(&self)
        requires
            self.wf(),
        ensures
            self.spec_timers().len() <= u32::MAX,
    {
    }

    /// Every live timer that has not been queued for delivery is due after the
    /// committed tick.
    pub closed spec fn timers_due_ahead(&self) -> bool {
        forall|i: int| 0 <= i < self.timers@.len() && (#[trigger] self.timers@[i]).record is Some
            && !self.timers@[i].record->0.queued ==> self.timers@[i].record->0.due > self.committed_tick
    }

    /// Live timers can still be retired without exhausting their generation.
    pub closed spec fn timers_retirable(&self) -> bool {
        forall|i: int| 0 <= i < self.timers@.len() && (#[trigger] self.timers@[i]).record is Some
            ==> self.timers@[i].generation < u32::MAX
    }

    /// What every mutating operation checks first.
    pub open spec fn spec_ensure_running(&self) -> Option<TimerError> {
        if !self.spec_running() {
            Some(TimerError::ManagerShutdown)
        } else {
            self.spec_config_error()
        }
    }

    /// The scope record registered under `id`.
    pub open spec fn scope_of(&self, id: u64) -> Option<ScopeRecord> {
        match scope_pos(self.spec_scopes(), id) {
            Some(j) => Some(self.spec_scopes()[j]),
            None => None,
        }
    }

    /// A manager in its initial state for the given configuration.
    pub open spec fn is_initial(&self, context: u64, mode: TimerMode, limits: TimerLimits, budget: TimerBudget) -> bool {
        &&& self.wf()
        &&& self.spec_context() == context
        &&& self.spec_mode() == mode
        &&& self.spec_limits() == limits
        &&& self.spec_budget() == budget
        &&& self.spec_config_error() == spec_config_error(limits, budget)
        &&& self.spec_running()
        &&& self.spec_committed_tick() == 0
        &&& self.spec_schedules_this_tick() == 0
        &&& self.spec_next_sequence() == 1
        &&& self.spec_live() == 0
        &&& self.spec_pending() == 0
        &&& self.spec_scopes().len() == 0
        &&& self.spec_timers().len() == 0
        &&& self.spec_timer_free().len() == 0
        &&& self.spec_slots().len() == 0
        &&& self.spec_dispatch_table().len() == 0
        &&& self.spec_trace().spec_events().len() == 0
        &&& self.spec_trace().spec_dropped() == 0
        &&& self.spec_diagnostics().len() == 0
        &&& self.spec_diagnostics_dropped() == 0
    }

    pub fn new(context: u64) -> (m: Self)
        ensures
            m.is_initial(context, TimerMode::TickFrame, TimerLimits::contract_spec(), TimerBudget::default_spec()),
    {
        Self::with_mode(context, TimerMode::TickFrame)
    }

    pub fn with_mode(context: u64, mode: TimerMode) -> (m: Self)
        ensures
            m.is_initial(context, mode, TimerLimits::contract_spec(), TimerBudget::default_spec()),
    {
        Self::with_mode_and_limits(context, mode, TimerLimits::contract())
    }

    pub fn with_limits(context: u64, limits: TimerLimits) -> (m: Self)
        ensures
            m.is_initial(context, TimerMode::TickFrame, limits, TimerBudget::default_spec()),
    {
        Self::with_mode_and_limits(context, TimerMode::TickFrame, limits)
    }

    pub fn with_mode_and_limits(context: u64, mode: TimerMode, limits: TimerLimits) -> (m: Self)
        ensures
            m.is_initial(context, mode, limits, TimerBudget::default_spec()),
    {
        Self::with_budget(context, mode, limits, TimerBudget::default())
    }

    /// Invalid limits fail all mutating operations rather than enabling a zero
    /// interval loop. `try_with_budget` provides a fallible constructor.
    pub fn with_budget(context: u64, mode: TimerMode, limits: TimerLimits, budget: TimerBudget) -> (m: Self)
        ensures
            m.is_initial(context, mode, limits, budget),
    {
        let config_error = match limits.validate() {
            Err(e) => Some(e),
            Ok(()) => match budget.validate() {
                Err(e) => Some(e),
                Ok(()) => None,
            },
        };
        let m = TimerManager {
            context,
            mode,
            limits,
            budget,
            config_error,
            running: true,
            committed_tick: 0,
            schedules_this_tick: 0,
            next_sequence: 1,
            live: 0,
            pending: 0,
            scopes: Vec::new(),
            timers: Vec::new(),
            timer_free: Vec::new(),
            slots: Vec::new(),
            queues: Vec::new(),
            dispatch_table: Vec::new(),
            trace: SliceTrace::new(),
            diagnostics: Vec::new(),
            diagnostics_dropped: 0,
        };
        proof {
            assert(records_of(m.timers@) =~= Seq::<Option<TimerRecord>>::empty());
        }
        m
    }

    pub fn try_with_budget(context: u64, mode: TimerMode, limits: TimerLimits, budget: TimerBudget) -> (r: TimerResult<Self>)
        ensures
            match spec_config_error(limits, budget) {
                Some(e) => r matches Err(x) && x == e,
                None => r matches Ok(m) && m.is_initial(context, mode, limits, budget),
            },
    {
        limits.validate()?;
        budget.validate()?;
        Ok(Self::with_budget(context, mode, limits, budget))
    }

    fn ensure_running(&self) -> (r: TimerResult<()>)
        ensures
            match self.spec_ensure_running() {
                Some(e) => r == Err::<(), TimerError>(e),
                None => r is Ok,
            },
    {
        if !self.running {
            return Err(TimerError::ManagerShutdown);
        }
        if let Some(error) = self.config_error {
            return Err(error);
        }
        Ok(())
    }

    pub fn committed_tick(&self) -> (r: u64)
        ensures
            r == self.spec_committed_tick(),
    {
        self.committed_tick
    }

    pub fn mode(&self) -> (r: TimerMode)
        ensures
            r == self.spec_mode(),
    {
        self.mode
    }

    pub fn is_running(&self) -> (r: bool)
        ensures
            r == (self.spec_running() && self.spec_config_error() is None),
    {
        self.running && self.config_error.is_none()
    }

    pub fn live_timer_count(&self) -> (r: u32)
        ensures
            r == self.spec_live(),
    {
        self.live
    }

    pub fn diagnostics(&self) -> (r: &[TimerDiagnostic])
        ensures
            r@ == self.spec_diagnostics(),
    {
        self.diagnostics.as_slice()
    }

    pub fn diagnostics_dropped(&self) -> (r: u64)
        ensures
            r == self.spec_diagnostics_dropped(),
    {
        self.diagnostics_dropped
    }

    pub fn take_diagnostics(&mut self) -> (r: Vec<TimerDiagnostic>)
        ensures
            r@ == old(self).spec_diagnostics(),
            final(self).spec_diagnostics().len() == 0,
            final(self).unchanged_except_diagnostics(old(self)),
    {
        let mut out: Vec<TimerDiagnostic> = Vec::new();
        std::mem::swap(&mut out, &mut self.diagnostics);
        out
    }

    /// Everything but the diagnostics buffer is as in `other`.
    pub closed spec fn unchanged_except_diagnostics(&self, other: &Self) -> bool {
        &&& self.context == other.context
        &&& self.mode == other.mode
        &&& self.limits == other.limits
        &&& self.budget == other.budget
        &&& self.config_error == other.config_error
        &&& self.running == other.running
        &&& self.committed_tick == other.committed_tick
        &&& self.schedules_this_tick == other.schedules_this_tick
        &&& self.next_sequence == other.next_sequence
        &&& self.live == other.live
        &&& self.pending == other.pending
        &&& self.scopes@ == other.scopes@
        &&& self.timers@ == other.timers@
        &&& self.timer_free@ == other.timer_free@
        &&& self.slots@ == other.slots@
        &&& self.spec_queues() == other.spec_queues()
        &&& self.dispatch_table@ == other.dispatch_table@
        &&& self.trace == other.trace
        &&& self.diagnostics_dropped == other.diagnostics_dropped
        &&& self.wf() == other.wf()
    }

    pub fn trace(&self) -> (r: &SliceTrace)
        ensures
            *r == self.spec_trace(),
    {
        &self.trace
    }

    pub fn clear_trace(&mut self)
        requires
            old(self).wf(),
        ensures
            final(self).wf(),
            final(self).spec_trace().spec_events().len() == 0,
            final(self).spec_trace().spec_dropped() == 0,
            final(self).spec_scopes() == old(self).spec_scopes(),
            final(self).spec_timers() == old(self).spec_timers(),
            final(self).spec_slots() == old(self).spec_slots(),
            final(self).spec_queues() == old(self).spec_queues(),
            final(self).spec_running() == old(self).spec_running(),
            final(self).spec_committed_tick() == old(self).spec_committed_tick(),
    {
        self.trace.clear();
    }

    /// Position of the scope record for `id`.
    fn find_scope(&self, id: u64) -> (r: Option<usize>)
        requires
            unique_scope_ids(self.scopes@),
        ensures
            r matches Some(i) ==> i < self.scopes@.len() && scope_pos(self.scopes@, id) == Some(i as int),
            r is None ==> scope_pos(self.scopes@, id) is None,
    {
        let mut i: usize = 0;
        while i < self.scopes.len()
            invariant
                i <= self.scopes@.len(),
                unique_scope_ids(self.scopes@),
                forall|j: int| 0 <= j < i ==> self.scopes@[j].id != id,
            decreases self.scopes@.len() - i,
        {
            if self.scopes[i].id == id {
                proof {
                    lemma_scope_pos(self.scopes@, i as int);
                }
                return Some(i);
            }
            i = i + 1;
        }
        None
    }

    pub fn is_scope_alive(&self, id: u64) -> (r: bool)
        requires
            self.wf(),
        ensures
            r == (self.scope_of(id) matches Some(s) && s.alive),
    {
        proof {
            lemma_scope_pos_some(self.scopes@, id);
        }
        match self.find_scope(id) {
            Some(i) => {
                self.scopes[i].alive
            },
            None => false,
        }
    }

    fn find_dispatch(&self, id: DispatchId) -> (r: Option<usize>)
        ensures
            r matches Some(i) ==> i < self.dispatch_table@.len() && self.dispatch_table@[i as int] == id,
            r is None ==> !self.dispatch_table@.contains(id),
    {
        let mut i: usize = 0;
        while i < self.dispatch_table.len()
            invariant
                i <= self.dispatch_table@.len(),
                forall|j: int| 0 <= j < i ==> self.dispatch_table@[j] != id,
            decreases self.dispatch_table@.len() - i,
        {
            if self.dispatch_table[i] == id {
                return Some(i);
            }
            i = i + 1;
        }
        None
    }

    pub fn is_dispatch_registered(&self, id: DispatchId) -> (r: bool)
        ensures
            r == self.spec_dispatch_table().contains(id),
    {
        self.find_dispatch(id).is_some()
    }
}

/// Which queue entries an invalidation pass marks invalid.
#[derive(Clone, Copy, Debug, PartialEq, Eq, Structural)]
pub enum ItemFilter {
    All,
    Scope(u64),
    Handle(TimerHandle),
}

/// `table` without the (unique) entry `id`.
pub open spec fn dispatch_without(table: Seq<DispatchId>, id: DispatchId) -> Seq<DispatchId> {
    if table.contains(id) {
        table.remove(table.index_of(id))
    } else {
        table
    }
}

pub open spec fn filter_hits(f: ItemFilter, item: QueueItem) -> bool {
    match f {
        ItemFilter::All => true,
        ItemFilter::Scope(id) => item.scope.scope_id == id,
        ItemFilter::Handle(h) => item.record.handle == h,
    }
}

pub open spec fn invalidated_item(item: QueueItem, f: ItemFilter) -> QueueItem {
    if filter_hits(f, item) {
        QueueItem { record: item.record, scope: item.scope, valid: false }
    } else {
        item
    }
}

pub open spec fn invalidated(q: Seq<QueueItem>, f: ItemFilter) -> Seq<QueueItem> {
    q.map_values(|it: QueueItem| invalidated_item(it, f))
}

pub open spec fn invalidated_all(qs: Seq<Seq<QueueItem>>, f: ItemFilter) -> Seq<Seq<QueueItem>> {
    qs.map_values(|q: Seq<QueueItem>| invalidated(q, f))
}

fn invalidate_queue(q: &mut Vec<QueueItem>, f: ItemFilter)
    ensures
        final(q)@ == invalidated(old(q)@, f),
{
    let mut i: usize = 0;
    while i < q.len()
        invariant
            i <= q@.len(),
            q@.len() == old(q)@.len(),
            forall|j: int| 0 <= j < i ==> q@[j] == invalidated_item(old(q)@[j], f),
            forall|j: int| i <= j < q@.len() ==> q@[j] == old(q)@[j],
        decreases q@.len() - i,
    {
        let item = q[i];
        let hit = match f {
            ItemFilter::All => true,
            ItemFilter::Scope(id) => item.scope.scope_id == id,
            ItemFilter::Handle(h) => item.record.handle == h,
        };
        if hit {
            q.set(i, QueueItem { record: item.record, scope: item.scope, valid: false });
        }
        i = i + 1;
    }
    proof {
        assert(q@ =~= invalidated(old(q)@, f));
    }
}

impl TimerManager {
    /// Timers, the free list and the live count are as in `o`.
    pub open spec fn same_timers(&self, o: &Self) -> bool {
        &&& self.spec_timers() == o.spec_timers()
        &&& self.spec_timer_free() == o.spec_timer_free()
        &&& self.spec_live() == o.spec_live()
        &&& self.spec_next_sequence() == o.spec_next_sequence()
        &&& self.spec_schedules_this_tick() == o.spec_schedules_this_tick()
    }

    /// Configuration, clock and reporting state are as in `o`.
    pub open spec fn same_core(&self, o: &Self) -> bool {
        &&& self.spec_context() == o.spec_context()
        &&& self.spec_mode() == o.spec_mode()
        &&& self.spec_limits() == o.spec_limits()
        &&& self.spec_budget() == o.spec_budget()
        &&& self.spec_config_error() == o.spec_config_error()
        &&& self.spec_running() == o.spec_running()
        &&& self.spec_committed_tick() == o.spec_committed_tick()
        &&& self.spec_trace() == o.spec_trace()
        &&& self.spec_diagnostics() == o.spec_diagnostics()
        &&& self.spec_diagnostics_dropped() == o.spec_diagnostics_dropped()
    }

    /// Callback slots, their queues and the pending count are as in `o`.
    pub open spec fn same_slots(&self, o: &Self) -> bool {
        &&& self.spec_slots() == o.spec_slots()
        &&& self.spec_queues() == o.spec_queues()
        &&& self.spec_pending() == o.spec_pending()
    }

    /// Mark matching entries of every delivery queue invalid.
    fn invalidate_queues(&mut self, f: ItemFilter)
        requires
            old(self).wf(),
        ensures
            final(self).wf(),
            final(self).same_core(old(self)),
            final(self).same_timers(old(self)),
            final(self).spec_scopes() == old(self).spec_scopes(),
            final(self).spec_dispatch_table() == old(self).spec_dispatch_table(),
            final(self).spec_slots() == old(self).spec_slots(),
            final(self).spec_pending() == old(self).spec_pending(),
            final(self).spec_queues() == invalidated_all(old(self).spec_queues(), f),
    {
        let mut i: usize = 0;
        while i < self.queues.len()
            invariant
                i <= self.queues@.len(),
                self.wf(),
                self.queues@.len() == old(self).queues@.len(),
                self.same_core(old(self)),
                self.same_timers(old(self)),
                self.scopes@ == old(self).scopes@,
                self.dispatch_table@ == old(self).dispatch_table@,
                self.slots@ == old(self).slots@,
                self.pending == old(self).pending,
                forall|j: int| 0 <= j < i ==> self.queues@[j]@ == invalidated(old(self).queues@[j]@, f),
                forall|j: int| i <= j < self.queues@.len() ==> self.queues@[j]@ == old(self).queues@[j]@,
            decreases self.queues@.len() - i,
        {
            let ghost before = self.spec_queues();
            let mut q: Vec<QueueItem> = Vec::new();
            std::mem::swap(&mut q, &mut self.queues[i]);
            invalidate_queue(&mut q, f);
            std::mem::swap(&mut q, &mut self.queues[i]);
            proof {
                assert(self.spec_queues() =~= before.update(i as int, invalidated(before[i as int], f)));
                lemma_qt_update(before, i as int, invalidated(before[i as int], f));
            }
            i = i + 1;
        }
        proof {
            assert(self.spec_queues() =~= invalidated_all(old(self).spec_queues(), f));
        }
    }

    /// Stop for good: every queued entry becomes invalid, every timer record is
    /// dropped and every scope's active count is reset.
    pub fn shutdown(&mut self)
        requires
            old(self).wf(),
        ensures
            final(self).wf(),
            !final(self).spec_running(),
            final(self).spec_live() == 0,
            final(self).spec_queues() == invalidated_all(old(self).spec_queues(), ItemFilter::All),
            final(self).spec_timers().len() == old(self).spec_timers().len(),
            forall|i: int| 0 <= i < final(self).spec_timers().len() ==> #[trigger] final(self).spec_timers()[i]
                == (TimerSlot { generation: old(self).spec_timers()[i].generation, record: None }),
            final(self).spec_timer_free() == old(self).spec_timer_free(),
            final(self).spec_scopes().len() == old(self).spec_scopes().len(),
            forall|i: int| 0 <= i < final(self).spec_scopes().len() ==> #[trigger] final(self).spec_scopes()[i]
                == (ScopeRecord { active: 0, ..old(self).spec_scopes()[i] }),
            final(self).spec_slots() == old(self).spec_slots(),
            final(self).spec_dispatch_table() == old(self).spec_dispatch_table(),
            final(self).spec_committed_tick() == old(self).spec_committed_tick(),
            final(self).spec_context() == old(self).spec_context(),
    {
        self.running = false;
        self.invalidate_queues(ItemFilter::All);
        let ghost mid = *self;
        let mut i: usize = 0;
        while i < self.timers.len()
            invariant
                i <= self.timers@.len(),
                self.scopes@ == mid.scopes@,
                self.slots@ == mid.slots@,
                self.queues@ == mid.queues@,
                self.pending == mid.pending,
                self.dispatch_table@ == mid.dispatch_table@,
                self.timer_free@ == mid.timer_free@,
                self.running == mid.running,
                self.committed_tick == mid.committed_tick,
                self.context == mid.context,
                self.config_error == mid.config_error,
                self.limits == mid.limits,
                self.budget == mid.budget,
                self.trace == mid.trace,
                mid.timers@ == old(self).timers@,
                self.timers@.len() == old(self).timers@.len(),
                forall|j: int| 0 <= j < i ==> self.timers@[j] == (TimerSlot { generation: old(self).timers@[j].generation, record: None }),
                forall|j: int| i <= j < self.timers@.len() ==> self.timers@[j] == old(self).timers@[j],
            decreases self.timers@.len() - i,
        {
            let g = self.timers[i].generation;
            self.timers.set(i, TimerSlot { generation: g, record: None });
            i = i + 1;
        }
        let ghost mid2 = *self;
        let mut k: usize = 0;
        while k < self.scopes.len()
            invariant
                k <= self.scopes@.len(),
                self.timers@ == mid2.timers@,
                self.slots@ == mid2.slots@,
                self.queues@ == mid2.queues@,
                self.pending == mid2.pending,
                self.dispatch_table@ == mid2.dispatch_table@,
                self.timer_free@ == mid2.timer_free@,
                self.running == mid2.running,
                self.committed_tick == mid2.committed_tick,
                self.context == mid2.context,
                self.config_error == mid2.config_error,
                self.limits == mid2.limits,
                self.budget == mid2.budget,
                self.trace == mid2.trace,
                mid2.scopes@ == old(self).scopes@,
                self.scopes@.len() == old(self).scopes@.len(),
                forall|j: int| 0 <= j < k ==> self.scopes@[j] == (ScopeRecord { active: 0, ..old(self).scopes@[j] }),
                forall|j: int| k <= j < self.scopes@.len() ==> self.scopes@[j] == old(self).scopes@[j],
            decreases self.scopes@.len() - k,
        {
            let r = self.scopes[k];
            self.scopes.set(k, ScopeRecord { active: 0, ..r });
            k = k + 1;
        }
        self.live = 0;
        proof {
            let recs = records_of(self.timers@);
            assert forall|j: int| 0 <= j < recs.len() implies recs[j] is None by {}
            lemma_all_empty(recs, recs.len() as int);
            assert forall|a: int, b: int| 0 <= a < self.scopes@.len() && 0 <= b < self.scopes@.len() && a != b
                implies self.scopes@[a].id != self.scopes@[b].id by {
                assert(old(self).scopes@[a].id != old(self).scopes@[b].id);
            }
        }
    }

    pub open spec fn spec_slot_valid(&self, slot: CallbackSlot) -> bool {
        &&& slot.index < self.spec_slots().len()
        &&& self.spec_slots()[slot.index as int].generation == slot.generation
    }

    pub fn create_slot(&mut self) -> (r: TimerResult<CallbackSlot>)
        requires
            old(self).wf(),
        ensures
            final(self).wf(),
            final(self).same_core(old(self)),
            final(self).same_timers(old(self)),
            final(self).spec_scopes() == old(self).spec_scopes(),
            final(self).spec_dispatch_table() == old(self).spec_dispatch_table(),
            final(self).spec_pending() == old(self).spec_pending(),
            match old(self).spec_ensure_running() {
                Some(e) => r == Err::<CallbackSlot, TimerError>(e) && final(self).same_slots(old(self)),
                None => if old(self).spec_slots().len() >= old(self).spec_budget().max_slots {
                    r == Err::<CallbackSlot, TimerError>(TimerError::ScheduleBudgetExceeded)
                        && final(self).same_slots(old(self))
                } else {
                    &&& r == Ok::<CallbackSlot, TimerError>(CallbackSlot { index: old(self).spec_slots().len() as u32, generation: 1 })
                    &&& final(self).spec_slots() == old(self).spec_slots().push(
                        SlotMeta { generation: 1, state: SlotState::Unbound, dispatch_id: None })
                    &&& final(self).spec_queues() == old(self).spec_queues().push(Seq::empty())
                },
            },
    {
        self.ensure_running()?;
        if self.slots.len() >= self.budget.max_slots {
            return Err(TimerError::ScheduleBudgetExceeded);
        }
        let index = self.slots.len() as u32;
        self.slots.push(SlotMeta { generation: 1, state: SlotState::Unbound, dispatch_id: None });
        self.queues.push(Vec::new());
        proof {
            assert(self.spec_queues() =~= old(self).spec_queues().push(Seq::empty()));
            lemma_qt_push_empty(old(self).spec_queues());
        }
        Ok(CallbackSlot { index, generation: 1 })
    }

    /// Fixture convenience: a slot that must be creatable.
    pub fn allocate_slot(&mut self) -> (slot: CallbackSlot)
        requires
            old(self).wf(),
            old(self).spec_ensure_running() is None,
            old(self).spec_slots().len() < old(self).spec_budget().max_slots,
        ensures
            final(self).wf(),
            slot == (CallbackSlot { index: old(self).spec_slots().len() as u32, generation: 1 }),
            final(self).spec_slots() == old(self).spec_slots().push(
                SlotMeta { generation: 1, state: SlotState::Unbound, dispatch_id: None }),
    {
        match self.create_slot() {
            Ok(slot) => slot,
            Err(_) => CallbackSlot { index: 0, generation: 0 },
        }
    }

    pub fn try_register_dispatch(&mut self, id: DispatchId) -> (r: TimerResult<()>)
        requires
            old(self).wf(),
        ensures
            final(self).wf(),
            final(self).same_core(old(self)),
            final(self).same_timers(old(self)),
            final(self).same_slots(old(self)),
            final(self).spec_scopes() == old(self).spec_scopes(),
            match old(self).spec_ensure_running() {
                Some(e) => r == Err::<(), TimerError>(e) && final(self).spec_dispatch_table() == old(self).spec_dispatch_table(),
                None => if old(self).spec_dispatch_table().contains(id) {
                    r is Ok && final(self).spec_dispatch_table() == old(self).spec_dispatch_table()
                } else if old(self).spec_dispatch_table().len() >= old(self).spec_budget().max_slots {
                    r == Err::<(), TimerError>(TimerError::ScheduleBudgetExceeded)
                        && final(self).spec_dispatch_table() == old(self).spec_dispatch_table()
                } else {
                    r is Ok && final(self).spec_dispatch_table() == old(self).spec_dispatch_table().push(id)
                },
            },
    {
        self.ensure_running()?;
        if self.find_dispatch(id).is_some() {
            return Ok(());
        }
        if self.dispatch_table.len() >= self.budget.max_slots {
            return Err(TimerError::ScheduleBudgetExceeded);
        }
        self.dispatch_table.push(id);
        Ok(())
    }

    /// Fixture convenience: register a dispatch id that must be accepted.
    pub fn register_dispatch(&mut self, id: DispatchId, target: DispatchTarget)
        requires
            old(self).wf(),
            old(self).spec_ensure_running() is None,
            old(self).spec_dispatch_table().contains(id) || old(self).spec_dispatch_table().len()
                < old(self).spec_budget().max_slots,
        ensures
            final(self).wf(),
            final(self).spec_dispatch_table().contains(id),
            final(self).spec_dispatch_table() == if old(self).spec_dispatch_table().contains(id) {
                old(self).spec_dispatch_table()
            } else {
                old(self).spec_dispatch_table().push(id)
            },
            final(self).same_core(old(self)),
            final(self).same_timers(old(self)),
            final(self).same_slots(old(self)),
            final(self).spec_scopes() == old(self).spec_scopes(),
    {
        let _ = target;
        let _ = self.try_register_dispatch(id);
        proof {
            if !old(self).spec_dispatch_table().contains(id) {
                assert(self.spec_dispatch_table()[self.spec_dispatch_table().len() - 1] == id);
            }
        }
    }

    pub fn remove_dispatch_binding(&mut self, id: DispatchId)
        requires
            old(self).wf(),
        ensures
            final(self).wf(),
            final(self).same_core(old(self)),
            final(self).same_timers(old(self)),
            final(self).same_slots(old(self)),
            final(self).spec_scopes() == old(self).spec_scopes(),
            final(self).spec_dispatch_table() == dispatch_without(old(self).spec_dispatch_table(), id),
            !final(self).spec_dispatch_table().contains(id),
    {
        match self.find_dispatch(id) {
            Some(i) => {
                proof {
                    assert forall|j: int| 0 <= j < self.dispatch_table@.len() && j != i implies self.dispatch_table@[j] != id by {}
                    assert(self.dispatch_table@.contains(id));
                    let k = self.dispatch_table@.index_of(id);
                    assert(self.dispatch_table@[k] == id);
                    assert(k == i as int);
                }
                self.dispatch_table.remove(i);
                proof {
                    assert(self.dispatch_table@ =~= old(self).dispatch_table@.remove(i as int));
                    assert forall|a: int, b: int| 0 <= a < self.dispatch_table@.len() && 0 <= b < self.dispatch_table@.len() && a != b
                        implies self.dispatch_table@[a] != self.dispatch_table@[b] by {
                        let a0 = if a < i { a } else { a + 1 };
                        let b0 = if b < i { b } else { b + 1 };
                        assert(old(self).dispatch_table@[a0] != old(self).dispatch_table@[b0]);
                    }
                    assert forall|j: int| 0 <= j < self.dispatch_table@.len() implies self.dispatch_table@[j] != id by {
                        let j0 = if j < i { j } else { j + 1 };
                        assert(old(self).dispatch_table@[j0] != id);
                    }
                }
            },
            None => {
                proof {
                    assert(old(self).dispatch_table@ =~= old(self).dispatch_table@);
                }
            },
        }
    }

    pub fn remove_dispatch(&mut self, id: DispatchId)
        requires
            old(self).wf(),
        ensures
            final(self).wf(),
            final(self).same_core(old(self)),
            final(self).same_timers(old(self)),
            final(self).same_slots(old(self)),
            final(self).spec_scopes() == old(self).spec_scopes(),
            final(self).spec_dispatch_table() == dispatch_without(old(self).spec_dispatch_table(), id),
    {
        self.remove_dispatch_binding(id);
    }
}

impl TimerManager {
    /// What binding `slot` to `id` would refuse before registering the dispatch.
    pub open spec fn spec_bind_precheck(&self, slot: CallbackSlot, id: DispatchId) -> Option<TimerError> {
        if !self.spec_slot_valid(slot) {
            Some(TimerError::SlotClosed)
        } else {
            let rec = self.spec_slots()[slot.index as int];
            if rec.state == SlotState::Closed || (rec.state == SlotState::Armed && rec.dispatch_id
                != Some(id)) {
                Some(TimerError::SlotClosed)
            } else {
                None
            }
        }
    }

    /// Outcome of arming `slot` with `id` on this state.
    pub open spec fn spec_arm(&self, slot: CallbackSlot, id: DispatchId) -> Result<bool, TimerError> {
        if !self.spec_dispatch_table().contains(id) {
            Err(TimerError::SlotDispatchMismatch)
        } else if !self.spec_slot_valid(slot) {
            Err(TimerError::SlotClosed)
        } else {
            let rec = self.spec_slots()[slot.index as int];
            match rec.state {
                SlotState::Unbound => Ok(true),
                SlotState::Armed => if rec.dispatch_id == Some(id) {
                    Ok(false)
                } else {
                    Err(TimerError::SlotClosed)
                },
                SlotState::Closed => Err(TimerError::SlotClosed),
            }
        }
    }

    /// Arm an unbound slot with a registered dispatch id; idempotent for the same id.
    pub fn arm_slot(&mut self, slot: CallbackSlot, id: DispatchId) -> (r: TimerResult<()>)
        requires
            old(self).wf(),
        ensures
            final(self).wf(),
            final(self).same_core(old(self)),
            final(self).same_timers(old(self)),
            final(self).spec_scopes() == old(self).spec_scopes(),
            final(self).spec_dispatch_table() == old(self).spec_dispatch_table(),
            final(self).spec_queues() == old(self).spec_queues(),
            final(self).spec_pending() == old(self).spec_pending(),
            match old(self).spec_ensure_running() {
                Some(e) => r == Err::<(), TimerError>(e) && final(self).spec_slots() == old(self).spec_slots(),
                None => match old(self).spec_arm(slot, id) {
                    Err(e) => r == Err::<(), TimerError>(e) && final(self).spec_slots() == old(self).spec_slots(),
                    Ok(changed) => r is Ok && if changed {
                        final(self).spec_slots() == old(self).spec_slots().update(
                            slot.index as int,
                            SlotMeta { generation: slot.generation, state: SlotState::Armed, dispatch_id: Some(id) },
                        )
                    } else {
                        final(self).spec_slots() == old(self).spec_slots()
                    },
                },
            },
    {
        self.ensure_running()?;
        if self.find_dispatch(id).is_none() {
            return Err(TimerError::SlotDispatchMismatch);
        }
        let index = slot.index as usize;
        if index >= self.slots.len() || self.slots[index].generation != slot.generation {
            return Err(TimerError::SlotClosed);
        }
        let rec = self.slots[index];
        match rec.state {
            SlotState::Unbound => {
                self.slots.set(index, SlotMeta { generation: rec.generation, state: SlotState::Armed, dispatch_id: Some(id) });
                Ok(())
            },
            SlotState::Armed => {
                if rec.dispatch_id == Some(id) {
                    Ok(())
                } else {
                    Err(TimerError::SlotClosed)
                }
            },
            SlotState::Closed => Err(TimerError::SlotClosed),
        }
    }

    /// Register `id` if needed and arm `slot` with it.
    pub fn bind_slot(&mut self, slot: CallbackSlot, id: DispatchId) -> (r: TimerResult<()>)
        requires
            old(self).wf(),
        ensures
            final(self).wf(),
            final(self).same_core(old(self)),
            final(self).same_timers(old(self)),
            final(self).spec_scopes() == old(self).spec_scopes(),
            final(self).spec_queues() == old(self).spec_queues(),
            final(self).spec_pending() == old(self).spec_pending(),
            match old(self).spec_ensure_running() {
                Some(e) => r == Err::<(), TimerError>(e) && final(self).spec_slots() == old(self).spec_slots()
                    && final(self).spec_dispatch_table() == old(self).spec_dispatch_table(),
                None => match old(self).spec_bind_precheck(slot, id) {
                    Some(e) => r == Err::<(), TimerError>(e) && final(self).spec_slots() == old(self).spec_slots()
                        && final(self).spec_dispatch_table() == old(self).spec_dispatch_table(),
                    None => if !old(self).spec_dispatch_table().contains(id)
                        && old(self).spec_dispatch_table().len() >= old(self).spec_budget().max_slots {
                        r == Err::<(), TimerError>(TimerError::ScheduleBudgetExceeded)
                            && final(self).spec_slots() == old(self).spec_slots()
                            && final(self).spec_dispatch_table() == old(self).spec_dispatch_table()
                    } else {
                        &&& r is Ok
                        &&& final(self).spec_dispatch_table().contains(id)
                        &&& final(self).spec_dispatch_table() == if old(self).spec_dispatch_table().contains(id) {
                            old(self).spec_dispatch_table()
                        } else {
                            old(self).spec_dispatch_table().push(id)
                        }
                        &&& final(self).spec_slots() == old(self).spec_slots().update(
                            slot.index as int,
                            SlotMeta { generation: slot.generation, state: SlotState::Armed, dispatch_id: Some(id) },
                        )
                    },
                },
            },
    {
        self.ensure_running()?;
        let index = slot.index as usize;
        if index >= self.slots.len() || self.slots[index].generation != slot.generation {
            return Err(TimerError::SlotClosed);
        }
        let rec = self.slots[index];
        if rec.state == SlotState::Closed || (rec.state == SlotState::Armed && rec.dispatch_id != Some(id)) {
            return Err(TimerError::SlotClosed);
        }
        self.try_register_dispatch(id)?;
        proof {
            if !old(self).spec_dispatch_table().contains(id) {
                assert(self.spec_dispatch_table()[self.spec_dispatch_table().len() - 1] == id);
            }
        }
        let r = self.arm_slot(slot, id);
        proof {
            if rec.state == SlotState::Armed {
                assert(old(self).spec_slots().update(slot.index as int, SlotMeta {
                    generation: slot.generation, state: SlotState::Armed, dispatch_id: Some(id) })
                    =~= old(self).spec_slots());
            }
        }
        r
    }

    /// Close an armed slot; its queued entries become invalid.
    pub fn close_slot(&mut self, slot: CallbackSlot) -> (r: TimerResult<()>)
        requires
            old(self).wf(),
        ensures
            final(self).wf(),
            final(self).same_core(old(self)),
            final(self).same_timers(old(self)),
            final(self).spec_scopes() == old(self).spec_scopes(),
            final(self).spec_dispatch_table() == old(self).spec_dispatch_table(),
            final(self).spec_pending() == old(self).spec_pending(),
            match old(self).spec_ensure_running() {
                Some(e) => r == Err::<(), TimerError>(e) && final(self).same_slots(old(self)),
                None => if !old(self).spec_slot_valid(slot) {
                    r == Err::<(), TimerError>(TimerError::SlotClosed) && final(self).same_slots(old(self))
                } else {
                    match old(self).spec_slots()[slot.index as int].state {
                        SlotState::Unbound => r == Err::<(), TimerError>(TimerError::SlotUnbound)
                            && final(self).same_slots(old(self)),
                        SlotState::Closed => r == Err::<(), TimerError>(TimerError::SlotClosed)
                            && final(self).same_slots(old(self)),
                        SlotState::Armed => {
                            &&& r is Ok
                            &&& final(self).spec_slots() == old(self).spec_slots().update(
                                slot.index as int,
                                SlotMeta { state: SlotState::Closed, ..old(self).spec_slots()[slot.index as int] },
                            )
                            &&& final(self).spec_queues() == old(self).spec_queues().update(
                                slot.index as int,
                                invalidated(old(self).spec_queues()[slot.index as int], ItemFilter::All),
                            )
                        },
                    }
                },
            },
    {
        self.ensure_running()?;
        let index = slot.index as usize;
        if index >= self.slots.len() || self.slots[index].generation != slot.generation {
            return Err(TimerError::SlotClosed);
        }
        let rec = self.slots[index];
        match rec.state {
            SlotState::Unbound => Err(TimerError::SlotUnbound),
            SlotState::Closed => Err(TimerError::SlotClosed),
            SlotState::Armed => {
                self.slots.set(index, SlotMeta { state: SlotState::Closed, ..rec });
                let mut q: Vec<QueueItem> = Vec::new();
                std::mem::swap(&mut q, &mut self.queues[index]);
                invalidate_queue(&mut q, ItemFilter::All);
                std::mem::swap(&mut q, &mut self.queues[index]);
                proof {
                    assert(self.spec_queues() =~= old(self).spec_queues().update(
                        slot.index as int,
                        invalidated(old(self).spec_queues()[slot.index as int], ItemFilter::All),
                    ));
                    lemma_qt_update(old(self).spec_queues(), slot.index as int,
                        invalidated(old(self).spec_queues()[slot.index as int], ItemFilter::All));
                }
                Ok(())
            },
        }
    }

    pub fn slot_lifecycle(&self, slot: CallbackSlot) -> (r: TimerResult<SlotLifecycle>)
        requires
            self.wf(),
        ensures
            !self.spec_slot_valid(slot) ==> r == Err::<SlotLifecycle, TimerError>(TimerError::SlotClosed),
            self.spec_slot_valid(slot) ==> r == Ok::<SlotLifecycle, TimerError>(
                match self.spec_slots()[slot.index as int].state {
                    SlotState::Unbound => SlotLifecycle::Unbound,
                    SlotState::Armed => SlotLifecycle::Armed,
                    SlotState::Closed => SlotLifecycle::Closed,
                },
            ),
    {
        let index = slot.index as usize;
        if index >= self.slots.len() || self.slots[index].generation != slot.generation {
            return Err(TimerError::SlotClosed);
        }
        Ok(match self.slots[index].state {
            SlotState::Unbound => SlotLifecycle::Unbound,
            SlotState::Armed => SlotLifecycle::Armed,
            SlotState::Closed => SlotLifecycle::Closed,
        })
    }

    /// Whether registering `id` as `kind` would need a generation bump that is exhausted.
    pub open spec fn scope_revivable(&self, id: u64) -> bool {
        match self.scope_of(id) {
            Some(rec) => !rec.alive ==> rec.generation < u32::MAX,
            None => true,
        }
    }

    pub fn register_scope_from_u8(&mut self, kind: u8, id: u64) -> (r: TimerResult<TimerScope>)
        requires
            old(self).wf(),
            old(self).scope_revivable(id),
        ensures
            final(self).wf(),
            final(self).same_core(old(self)),
            final(self).same_timers(old(self)),
            final(self).same_slots(old(self)),
            match ScopeKind::spec_from_abi(kind) {
                None => r == Err::<TimerScope, TimerError>(TimerError::ScopeInvalid)
                    && final(self).spec_scopes() == old(self).spec_scopes(),
                Some(k) => old(self).spec_register_scope(id, k, r, final(self).spec_scopes()),
            },
    {
        let k = ScopeKind::from_abi(kind)?;
        self.register_scope(id, k)
    }

    /// `r` and `scopes` are what registering `id` as `kind` yields on this state.
    pub open spec fn spec_register_scope(&self, id: u64, kind: ScopeKind, r: TimerResult<TimerScope>, scopes: Seq<ScopeRecord>) -> bool {
        match self.spec_ensure_running() {
            Some(e) => r == Err::<TimerScope, TimerError>(e) && scopes == self.spec_scopes(),
            None => match scope_pos(self.spec_scopes(), id) {
                Some(j) => {
                    let rec = self.spec_scopes()[j];
                    if rec.alive && rec.kind != kind {
                        r == Err::<TimerScope, TimerError>(TimerError::ScopeInvalid) && scopes == self.spec_scopes()
                    } else if rec.alive {
                        r == Ok::<TimerScope, TimerError>(TimerScope { scope_id: id, kind, generation: rec.generation })
                            && scopes == self.spec_scopes()
                    } else {
                        let g = (rec.generation + 1) as u32;
                        &&& r == Ok::<TimerScope, TimerError>(TimerScope { scope_id: id, kind, generation: g })
                        &&& scopes == self.spec_scopes().update(j, ScopeRecord { id, kind, generation: g, active: 0, alive: true })
                    }
                },
                None => if self.spec_scopes().len() >= self.spec_budget().max_scopes {
                    r == Err::<TimerScope, TimerError>(TimerError::ScheduleBudgetExceeded) && scopes == self.spec_scopes()
                } else {
                    &&& r == Ok::<TimerScope, TimerError>(TimerScope { scope_id: id, kind, generation: 1 })
                    &&& scopes == self.spec_scopes().push(ScopeRecord { id, kind, generation: 1, active: 0, alive: true })
                },
            },
        }
    }

    pub fn register_scope(&mut self, id: u64, kind: ScopeKind) -> (r: TimerResult<TimerScope>)
        requires
            old(self).wf(),
            old(self).scope_revivable(id),
        ensures
            final(self).wf(),
            final(self).same_core(old(self)),
            final(self).same_timers(old(self)),
            final(self).same_slots(old(self)),
            final(self).spec_dispatch_table() == old(self).spec_dispatch_table(),
            old(self).spec_register_scope(id, kind, r, final(self).spec_scopes()),
    {
        self.ensure_running()?;
        proof {
            lemma_scope_pos_some(self.scopes@, id);
        }
        match self.find_scope(id) {
            Some(i) => {
                let rec = self.scopes[i];
                if rec.alive && rec.kind != kind {
                    return Err(TimerError::ScopeInvalid);
                }
                if !rec.alive {
                    let generation = bump_generation(rec.generation);
                    self.scopes.set(i, ScopeRecord { id, kind, generation, active: 0, alive: true });
                    proof {
                        assert forall|a: int, b: int| 0 <= a < self.scopes@.len() && 0 <= b < self.scopes@.len() && a != b
                            implies self.scopes@[a].id != self.scopes@[b].id by {
                            assert(old(self).scopes@[a].id != old(self).scopes@[b].id);
                        }
                    }
                    return Ok(TimerScope { scope_id: id, kind, generation });
                }
                Ok(TimerScope { scope_id: id, kind, generation: rec.generation })
            },
            None => {
                if self.scopes.len() >= self.budget.max_scopes {
                    return Err(TimerError::ScheduleBudgetExceeded);
                }
                self.scopes.push(ScopeRecord { id, kind, generation: 1, active: 0, alive: true });
                proof {
                    assert forall|a: int, b: int| 0 <= a < self.scopes@.len() && 0 <= b < self.scopes@.len() && a != b
                        implies self.scopes@[a].id != self.scopes@[b].id by {
                        if a < old(self).scopes@.len() && b < old(self).scopes@.len() {
                            assert(old(self).scopes@[a].id != old(self).scopes@[b].id);
                        }
                    }
                }
                Ok(TimerScope { scope_id: id, kind, generation: 1 })
            },
        }
    }

    /// The live scope record `scope` names, or why it does not.
    pub open spec fn spec_resolve(&self, scope: TimerScope) -> Result<ScopeRecord, TimerError> {
        match self.scope_of(scope.scope_id) {
            Some(rec) => if !rec.alive {
                Err(TimerError::ScopeInvalid)
            } else if rec.generation != scope.generation {
                Err(TimerError::ScopeGenerationMismatch)
            } else if rec.kind != scope.kind {
                Err(TimerError::ScopeInvalid)
            } else {
                Ok(rec)
            },
            None => Err(TimerError::ScopeInvalid),
        }
    }

    fn resolve_scope(&self, scope: TimerScope) -> (r: Result<usize, TimerError>)
        requires
            self.wf(),
        ensures
            match self.spec_resolve(scope) {
                Ok(rec) => r matches Ok(i) && i < self.spec_scopes().len() && self.spec_scopes()[i as int] == rec
                    && scope_pos(self.spec_scopes(), scope.scope_id) == Some(i as int),
                Err(e) => r == Err::<usize, TimerError>(e),
            },
    {
        proof {
            lemma_scope_pos_some(self.scopes@, scope.scope_id);
        }
        let i = match self.find_scope(scope.scope_id) {
            Some(i) => i,
            None => return Err(TimerError::ScopeInvalid),
        };
        let rec = self.scopes[i];
        if !rec.alive {
            return Err(TimerError::ScopeInvalid);
        }
        if rec.generation != scope.generation {
            return Err(TimerError::ScopeGenerationMismatch);
        }
        if rec.kind != scope.kind {
            return Err(TimerError::ScopeInvalid);
        }
        Ok(i)
    }
}

/// Indices below `n` whose timer is live and belongs to scope `id`, ascending.
pub open spec fn scope_hits(timers: Seq<TimerSlot>, id: u64, n: int) -> Seq<u32>
    decreases n,
{
    if n <= 0 {
        Seq::empty()
    } else {
        let rest = scope_hits(timers, id, n - 1);
        if timers[n - 1].record matches Some(r) && r.scope.scope_id == id {
            rest.push((n - 1) as u32)
        } else {
            rest
        }
    }
}

pub open spec fn hits_scope(t: TimerSlot, id: u64) -> bool {
    t.record matches Some(r) && r.scope.scope_id == id
}

/// The slot after its timer is retired.
pub open spec fn retired_slot(t: TimerSlot) -> TimerSlot {
    TimerSlot { generation: (t.generation + 1) as u32, record: None }
}

pub open spec fn dec_active(rec: ScopeRecord, k: nat) -> ScopeRecord {
    ScopeRecord { active: if rec.active >= k { (rec.active - k) as u32 } else { 0u32 }, ..rec }
}

pub proof fn lemma_scope_hits_bound(timers: Seq<TimerSlot>, id: u64, n: int)
    requires
        0 <= n <= timers.len(),
        timers.len() <= u32::MAX,
    ensures
        scope_hits(timers, id, n).len() <= n,
        forall|k: int| 0 <= k < scope_hits(timers, id, n).len() ==> (#[trigger] scope_hits(timers, id, n)[k]) < n
            && hits_scope(timers[scope_hits(timers, id, n)[k] as int], id),
    decreases n,
{
    if n > 0 {
        lemma_scope_hits_bound(timers, id, n - 1);
        let rest = scope_hits(timers, id, n - 1);
        if hits_scope(timers[n - 1], id) {
            assert(scope_hits(timers, id, n) == rest.push((n - 1) as u32));
            assert(((n - 1) as u32) as int == n - 1);
        }
    }
}

impl TimerManager {
    /// Index of the live timer `handle` names, if it still names one.
    pub open spec fn spec_timer_live(&self, handle: TimerHandle) -> bool {
        &&& handle.context == self.spec_context()
        &&& handle.index < self.spec_timers().len()
        &&& self.spec_timers()[handle.index as int].generation == handle.generation
        &&& self.spec_timers()[handle.index as int].record is Some
    }

    fn get_timer(&self, handle: TimerHandle) -> (r: TimerResult<TimerRecord>)
        ensures
            self.spec_timer_live(handle) ==> r == Ok::<TimerRecord, TimerError>(
                self.spec_timers()[handle.index as int].record->0),
            !self.spec_timer_live(handle) ==> r == Err::<TimerRecord, TimerError>(TimerError::StaleHandle),
    {
        if handle.context != self.context {
            return Err(TimerError::StaleHandle);
        }
        let index = handle.index as usize;
        if index >= self.timers.len() || self.timers[index].generation != handle.generation {
            return Err(TimerError::StaleHandle);
        }
        match self.timers[index].record {
            Some(r) => Ok(r),
            None => Err(TimerError::StaleHandle),
        }
    }

    /// Drop the timer in slot `index`, bump the slot's generation and free it.
    fn retire_index(&mut self, index: u32)
        requires
            old(self).wf(),
            index < old(self).timers@.len(),
            old(self).timers@[index as int].record is Some ==> old(self).timers@[index as int].generation < u32::MAX,
        ensures
            final(self).wf(),
            final(self).same_core(old(self)),
            final(self).same_slots(old(self)),
            final(self).spec_dispatch_table() == old(self).spec_dispatch_table(),
            final(self).spec_next_sequence() == old(self).spec_next_sequence(),
            final(self).spec_schedules_this_tick() == old(self).spec_schedules_this_tick(),
            match old(self).timers@[index as int].record {
                None => final(self).same_timers(old(self)) && final(self).spec_scopes() == old(self).spec_scopes(),
                Some(rec) => {
                    &&& final(self).spec_timers() == old(self).spec_timers().update(
                        index as int, retired_slot(old(self).spec_timers()[index as int]))
                    &&& final(self).spec_timer_free() == old(self).spec_timer_free().push(index)
                    &&& final(self).spec_live() + 1 == old(self).spec_live()
                    &&& final(self).spec_scopes() == match scope_pos(old(self).spec_scopes(), rec.scope.scope_id) {
                        Some(j) => old(self).spec_scopes().update(j, dec_active(old(self).spec_scopes()[j], 1)),
                        None => old(self).spec_scopes(),
                    }
                },
            },
    {
        let i = index as usize;
        let t = self.timers[i];
        let record = match t.record {
            Some(r) => r,
            None => return,
        };
        proof {
            lemma_scope_pos_some(self.scopes@, record.scope.scope_id);
        }
        match self.find_scope(record.scope.scope_id) {
            Some(j) => {
                let s = self.scopes[j];
                self.scopes.set(j, ScopeRecord { active: s.active.saturating_sub(1), ..s });
                proof {
                    assert forall|a: int, b: int| 0 <= a < self.scopes@.len() && 0 <= b < self.scopes@.len() && a != b
                        implies self.scopes@[a].id != self.scopes@[b].id by {
                        assert(old(self).scopes@[a].id != old(self).scopes@[b].id);
                    }
                }
            },
            None => {},
        }
        let ghost old_recs = records_of(self.timers@);
        proof {
            lemma_occupied_update(old_recs, i as int, None, old_recs.len() as int);
            lemma_occupied_prefix_bound(old_recs, old_recs.len() as int);
        }
        self.live = self.live - 1;
        let generation = bump_generation(t.generation);
        self.timers.set(i, TimerSlot { generation, record: None });
        proof {
            assert(records_of(self.timers@) =~= old_recs.update(i as int, None));
            assert forall|k: int| 0 <= k < self.timer_free@.len() implies #[trigger] self.timer_free@[k] != index by {}
        }
        self.timer_free.push(index);
        proof {
            assert forall|k: int| 0 <= k < self.timer_free@.len() implies self.timers@[
                #[trigger] self.timer_free@[k] as int].record is None by {
                if k < self.timer_free@.len() - 1 {
                    assert(self.timer_free@[k] == old(self).timer_free@[k]);
                }
            }
        }
    }

    /// Retire the timer `handle` names, if it still names one.
    fn retire(&mut self, handle: TimerHandle)
        requires
            old(self).wf(),
        ensures
            final(self).wf(),
            final(self).same_core(old(self)),
            final(self).same_slots(old(self)),
            final(self).spec_dispatch_table() == old(self).spec_dispatch_table(),
            final(self).spec_next_sequence() == old(self).spec_next_sequence(),
            final(self).spec_schedules_this_tick() == old(self).spec_schedules_this_tick(),
            same_scopes_but_active(final(self).spec_scopes(), old(self).spec_scopes()),
            !old(self).spec_timer_live(handle) ==> final(self).same_timers(old(self)) && final(self).spec_scopes() == old(self).spec_scopes(),
            old(self).spec_timer_live(handle) ==> {
                let rec = old(self).spec_timers()[handle.index as int].record->0;
                &&& final(self).spec_timers() == old(self).spec_timers().update(
                    handle.index as int, retired_slot(old(self).spec_timers()[handle.index as int]))
                &&& final(self).spec_timer_free() == old(self).spec_timer_free().push(handle.index)
                &&& final(self).spec_live() + 1 == old(self).spec_live()
                &&& final(self).spec_scopes() == match scope_pos(old(self).spec_scopes(), rec.scope.scope_id) {
                    Some(j) => old(self).spec_scopes().update(j, dec_active(old(self).spec_scopes()[j], 1)),
                    None => old(self).spec_scopes(),
                }
            },
    {
        proof {
            lemma_scope_pos_some(self.scopes@, 0);
        }
        if self.get_timer(handle).is_ok() {
            self.retire_index(handle.index);
            proof {
                let rec = old(self).spec_timers()[handle.index as int].record->0;
                lemma_scope_pos_some(old(self).scopes@, rec.scope.scope_id);
            }
            proof {
                assert forall|i: int| 0 <= i < self.timers@.len() && (#[trigger] self.timers@[i]).record is Some
                    implies self.timers@[i].generation < u32::MAX by {
                    assert(i != handle.index);
                    assert(self.timers@[i] == old(self).timers@[i]);
                }
            }
        }
    }

    /// Retire every live timer of scope `id` and invalidate its queued entries.
    fn retire_scope_timers(&mut self, id: u64)
        requires
            old(self).wf(),
        ensures
            final(self).wf(),
            final(self).same_core(old(self)),
            final(self).spec_dispatch_table() == old(self).spec_dispatch_table(),
            final(self).spec_slots() == old(self).spec_slots(),
            final(self).spec_pending() == old(self).spec_pending(),
            final(self).spec_next_sequence() == old(self).spec_next_sequence(),
            final(self).spec_schedules_this_tick() == old(self).spec_schedules_this_tick(),
            final(self).spec_queues() == invalidated_all(old(self).spec_queues(), ItemFilter::Scope(id)),
            final(self).spec_timers().len() == old(self).spec_timers().len(),
            forall|i: int| 0 <= i < old(self).spec_timers().len() ==> #[trigger] final(self).spec_timers()[i]
                == if hits_scope(old(self).spec_timers()[i], id) {
                    retired_slot(old(self).spec_timers()[i])
                } else {
                    old(self).spec_timers()[i]
                },
            final(self).spec_timer_free() == old(self).spec_timer_free() + scope_hits(
                old(self).spec_timers(), id, old(self).spec_timers().len() as int),
            final(self).spec_live() + scope_hits(old(self).spec_timers(), id, old(self).spec_timers().len() as int).len()
                == old(self).spec_live(),
            final(self).spec_scopes() == match scope_pos(old(self).spec_scopes(), id) {
                Some(j) => old(self).spec_scopes().update(j, dec_active(old(self).spec_scopes()[j],
                    scope_hits(old(self).spec_timers(), id, old(self).spec_timers().len() as int).len())),
                None => old(self).spec_scopes(),
            },
    {
        let n = self.timers.len();
        let mut index: usize = 0;
        while index < n
            invariant
                n == old(self).timers@.len(),
                index <= n,
                self.wf(),
                self.timers_retirable(),
                self.same_core(old(self)),
                self.same_slots(old(self)),
                self.dispatch_table@ == old(self).dispatch_table@,
                self.next_sequence == old(self).next_sequence,
                self.schedules_this_tick == old(self).schedules_this_tick,
                self.timers@.len() == n,
                forall|i: int| 0 <= i < index ==> #[trigger] self.timers@[i]
                    == if hits_scope(old(self).timers@[i], id) {
                        retired_slot(old(self).timers@[i])
                    } else {
                        old(self).timers@[i]
                    },
                forall|i: int| index <= i < n ==> #[trigger] self.timers@[i] == old(self).timers@[i],
                self.timer_free@ == old(self).timer_free@ + scope_hits(old(self).timers@, id, index as int),
                self.live + scope_hits(old(self).timers@, id, index as int).len() == old(self).live,
                self.scopes@ == match scope_pos(old(self).scopes@, id) {
                    Some(j) => old(self).scopes@.update(j, dec_active(old(self).scopes@[j],
                        scope_hits(old(self).timers@, id, index as int).len())),
                    None => old(self).scopes@,
                },
            decreases n - index,
        {
            let hit = match self.timers[index].record {
                Some(r) => r.scope.scope_id == id,
                None => false,
            };
            proof {
                lemma_scope_pos_some(old(self).scopes@, id);
                assert(self.timers@[index as int] == old(self).timers@[index as int]);
            }
            if hit {
                let ghost before = *self;
                self.retire_index(index as u32);
                proof {
                    assert(scope_hits(old(self).timers@, id, index + 1) == scope_hits(old(self).timers@, id, index as int).push(index as u32));
                    assert(self.timer_free@ =~= old(self).timer_free@ + scope_hits(old(self).timers@, id, index + 1));
                    match scope_pos(old(self).scopes@, id) {
                        Some(j) => {
                            lemma_scope_pos(before.scopes@, j);
                            assert(before.scopes@[j].id == id);
                            assert(self.scopes@ =~= old(self).scopes@.update(j, dec_active(old(self).scopes@[j],
                                scope_hits(old(self).timers@, id, index + 1).len())));
                        },
                        None => {
                            assert forall|k: int| 0 <= k < before.scopes@.len() implies before.scopes@[k].id != id by {}
                            assert(scope_pos(before.scopes@, id) is None);
                        },
                    }
                    assert forall|i: int| 0 <= i < self.timers@.len() && (#[trigger] self.timers@[i]).record is Some
                        implies self.timers@[i].generation < u32::MAX by {
                        assert(i != index);
                        assert(self.timers@[i] == before.timers@[i]);
                    }
                }
            } else {
                proof {
                    assert(scope_hits(old(self).timers@, id, index + 1) == scope_hits(old(self).timers@, id, index as int));
                }
            }
            index = index + 1;
        }
        self.invalidate_queues(ItemFilter::Scope(id));
    }

    /// Retire the scope's timers and move it to a new generation; the scope stays alive.
    pub fn teardown_scope(&mut self, id: u64) -> (r: TimerResult<TimerScope>)
        requires
            old(self).wf(),
            old(self).scope_of(id) matches Some(rec) ==> rec.generation < u32::MAX,
        ensures
            final(self).wf(),
            final(self).same_core(old(self)),
            final(self).spec_dispatch_table() == old(self).spec_dispatch_table(),
            final(self).spec_slots() == old(self).spec_slots(),
            match old(self).spec_ensure_running() {
                Some(e) => r == Err::<TimerScope, TimerError>(e) && final(self).same_timers(old(self))
                    && final(self).same_slots(old(self)) && final(self).spec_scopes() == old(self).spec_scopes(),
                None => match old(self).scope_of(id) {
                    Some(rec) if rec.alive => {
                        let hits = scope_hits(old(self).spec_timers(), id, old(self).spec_timers().len() as int);
                        &&& r == Ok::<TimerScope, TimerError>(TimerScope { scope_id: id, kind: rec.kind, generation: (rec.generation + 1) as u32 })
                        &&& final(self).spec_scopes() == old(self).spec_scopes().update(
                            scope_pos(old(self).spec_scopes(), id)->0,
                            ScopeRecord { generation: (rec.generation + 1) as u32, ..dec_active(rec, hits.len()) })
                        &&& final(self).spec_queues() == invalidated_all(old(self).spec_queues(), ItemFilter::Scope(id))
                        &&& forall|i: int| 0 <= i < old(self).spec_timers().len() ==> #[trigger] final(self).spec_timers()[i]
                            == if hits_scope(old(self).spec_timers()[i], id) {
                                retired_slot(old(self).spec_timers()[i])
                            } else {
                                old(self).spec_timers()[i]
                            }
                        &&& final(self).spec_timers().len() == old(self).spec_timers().len()
                        &&& final(self).spec_timer_free() == old(self).spec_timer_free() + hits
                        &&& final(self).spec_live() + hits.len() == old(self).spec_live()
                    },
                    _ => r == Err::<TimerScope, TimerError>(TimerError::ScopeInvalid) && final(self).same_timers(old(self))
                        && final(self).same_slots(old(self)) && final(self).spec_scopes() == old(self).spec_scopes(),
                },
            },
    {
        self.ensure_running()?;
        proof {
            lemma_scope_pos_some(self.scopes@, id);
        }
        let j = match self.find_scope(id) {
            Some(j) => j,
            None => return Err(TimerError::ScopeInvalid),
        };
        if !self.scopes[j].alive {
            return Err(TimerError::ScopeInvalid);
        }
        let generation = bump_generation(self.scopes[j].generation);
        self.retire_scope_timers(id);
        let rec = self.scopes[j];
        self.scopes.set(j, ScopeRecord { generation, ..rec });
        proof {
            assert forall|a: int, b: int| 0 <= a < self.scopes@.len() && 0 <= b < self.scopes@.len() && a != b
                implies self.scopes@[a].id != self.scopes@[b].id by {
                assert(old(self).scopes@[a].id != old(self).scopes@[b].id);
            }
        }
        Ok(TimerScope { scope_id: id, kind: rec.kind, generation })
    }

    /// What destroying scope `id` yields, from this state to `new`.
    pub open spec fn spec_destroy_scope(&self, new: &Self, id: u64, r: TimerResult<()>) -> bool {
        &&& new.same_core(self)
        &&& new.spec_dispatch_table() == self.spec_dispatch_table()
        &&& new.spec_slots() == self.spec_slots()
        &&& match self.spec_ensure_running() {
            Some(e) => r == Err::<(), TimerError>(e) && new.same_timers(self)
                && new.same_slots(self) && new.spec_scopes() == self.spec_scopes(),
            None => match self.scope_of(id) {
                Some(rec) if rec.alive => {
                    let hits = scope_hits(self.spec_timers(), id, self.spec_timers().len() as int);
                    &&& r is Ok
                    &&& new.spec_scopes() == self.spec_scopes().update(
                        scope_pos(self.spec_scopes(), id)->0,
                        ScopeRecord { alive: false, ..dec_active(rec, hits.len()) })
                    &&& new.spec_queues() == invalidated_all(self.spec_queues(), ItemFilter::Scope(id))
                    &&& forall|i: int| 0 <= i < self.spec_timers().len() ==> #[trigger] new.spec_timers()[i]
                        == if hits_scope(self.spec_timers()[i], id) {
                            retired_slot(self.spec_timers()[i])
                        } else {
                            self.spec_timers()[i]
                        }
                    &&& new.spec_timers().len() == self.spec_timers().len()
                    &&& new.spec_timer_free() == self.spec_timer_free() + hits
                    &&& new.spec_live() + hits.len() == self.spec_live()
                },
                _ => r == Err::<(), TimerError>(TimerError::ScopeInvalid) && new.same_timers(self)
                    && new.same_slots(self) && new.spec_scopes() == self.spec_scopes(),
            },
        }
    }

    /// Retire the scope's timers and mark it dead; its id can be registered again.
    pub fn destroy_scope(&mut self, id: u64) -> (r: TimerResult<()>)
        requires
            old(self).wf(),
        ensures
            final(self).wf(),
            old(self).spec_destroy_scope(final(self), id, r),
    {
        self.ensure_running()?;
        if !self.is_scope_alive(id) {
            return Err(TimerError::ScopeInvalid);
        }
        let ghost j0 = scope_pos(old(self).scopes@, id)->0;
        let ghost hits = scope_hits(old(self).spec_timers(), id, old(self).spec_timers().len() as int);
        self.retire_scope_timers(id);
        proof {
            lemma_scope_pos_some(old(self).scopes@, id);
            assert(self.scopes@[j0].id == id);
            lemma_scope_pos(self.scopes@, j0);
        }
        let j = match self.find_scope(id) {
            Some(j) => j,
            None => return Ok(()),
        };
        let rec = self.scopes[j];
        self.scopes.set(j, ScopeRecord { alive: false, ..rec });
        proof {
            assert forall|a: int, b: int| 0 <= a < self.scopes@.len() && 0 <= b < self.scopes@.len() && a != b
                implies self.scopes@[a].id != self.scopes@[b].id by {
                assert(old(self).scopes@[a].id != old(self).scopes@[b].id);
            }
            assert(j == j0);
            assert(self.spec_scopes() =~= old(self).spec_scopes().update(j0,
                ScopeRecord { alive: false, ..dec_active(old(self).spec_scopes()[j0], hits.len()) }));
        }
        Ok(())
    }
}

impl TimerManager {
    /// Per-tick (tick mode) or per-pump (wall-clock mode) scheduling limit.
    pub open spec fn spec_schedule_limit(&self) -> u32 {
        if self.spec_mode() == TimerMode::WallClock {
            self.spec_limits().max_schedules_per_pump
        } else {
            self.spec_limits().max_schedules_per_tick
        }
    }

    /// Why scheduling on this state would be refused, checked in the documented order.
    pub open spec fn spec_schedule_error(&self, scope: TimerScope, due: u64, slot: CallbackSlot) -> Option<TimerError> {
        match self.spec_ensure_running() {
            Some(e) => Some(e),
            None => match self.spec_resolve(scope) {
                Err(e) => Some(e),
                Ok(srec) => if !self.spec_slot_valid(slot) {
                    Some(TimerError::SlotClosed)
                } else {
                    let rec = self.spec_slots()[slot.index as int];
                    if rec.state == SlotState::Unbound {
                        Some(TimerError::SlotUnbound)
                    } else if rec.state == SlotState::Closed {
                        Some(TimerError::SlotClosed)
                    } else if rec.dispatch_id is None {
                        Some(TimerError::SlotUnbound)
                    } else if due <= self.spec_committed_tick() {
                        Some(TimerError::InvalidDueTick)
                    } else if self.spec_schedules_this_tick() >= self.spec_schedule_limit()
                        || srec.active >= self.spec_limits().max_active_timers_per_scope
                        || (!self.spec_reusable() && self.spec_timers().len()
                            >= self.spec_budget().max_timers) || self.spec_next_sequence() == u64::MAX {
                        Some(TimerError::ScheduleBudgetExceeded)
                    } else {
                        None
                    }
                },
            },
        }
    }

    /// The most recently freed timer slot can take a new timer: its generation is
    /// not exhausted, so the new timer can itself be retired later.
    pub open spec fn spec_reusable(&self) -> bool {
        &&& self.spec_timer_free().len() > 0
        &&& self.spec_timers()[self.spec_timer_free().last() as int].generation < u32::MAX
    }

    /// The state after a successful schedule: the new record sits in the most
    /// recently freed timer slot, or in a new slot at the end. A freed slot whose
    /// generation is exhausted leaves the free list for good instead of being reused.
    pub open spec fn spec_scheduled(&self, new: &Self, scope: TimerScope, due: u64, interval: Option<u64>, slot: CallbackSlot, h: TimerHandle) -> bool {
        let record = TimerRecord {
            scope,
            due,
            interval,
            sequence: self.spec_next_sequence(),
            slot,
            dispatch: self.spec_slots()[slot.index as int].dispatch_id->0,
            queued: false,
        };
        let j = scope_pos(self.spec_scopes(), scope.scope_id)->0;
        &&& new.spec_next_sequence() == self.spec_next_sequence() + 1
        &&& new.spec_schedules_this_tick() == self.spec_schedules_this_tick() + 1
        &&& new.spec_live() == self.spec_live() + 1
        &&& new.spec_scopes() == self.spec_scopes().update(j,
            ScopeRecord { active: (self.spec_scopes()[j].active + 1) as u32, ..self.spec_scopes()[j] })
        &&& if self.spec_reusable() {
            let index = self.spec_timer_free().last();
            &&& h == (TimerHandle { index, generation: self.spec_timers()[index as int].generation, context: self.spec_context() })
            &&& new.spec_timers() == self.spec_timers().update(index as int,
                TimerSlot { generation: self.spec_timers()[index as int].generation, record: Some(record) })
            &&& new.spec_timer_free() == self.spec_timer_free().drop_last()
        } else {
            &&& h == (TimerHandle { index: self.spec_timers().len() as u32, generation: 1, context: self.spec_context() })
            &&& new.spec_timers() == self.spec_timers().push(TimerSlot { generation: 1, record: Some(record) })
            &&& new.spec_timer_free() == if self.spec_timer_free().len() > 0 {
                self.spec_timer_free().drop_last()
            } else {
                self.spec_timer_free()
            }
        }
    }

    fn schedule(&mut self, scope: TimerScope, due: u64, interval: Option<u64>, slot: CallbackSlot) -> (r: TimerResult<TimerHandle>)
        requires
            old(self).wf(),
            interval matches Some(iv) ==> iv > 0,
        ensures
            final(self).wf(),
            final(self).same_core(old(self)),
            final(self).same_slots(old(self)),
            final(self).spec_dispatch_table() == old(self).spec_dispatch_table(),
            match old(self).spec_schedule_error(scope, due, slot) {
                Some(e) => r == Err::<TimerHandle, TimerError>(e) && final(self).same_timers(old(self))
                    && final(self).spec_scopes() == old(self).spec_scopes(),
                None => r matches Ok(h) && old(self).spec_scheduled(final(self), scope, due, interval, slot, h),
            },
    {
        self.ensure_running()?;
        let j = self.resolve_scope(scope)?;
        let active = self.scopes[j].active;
        let index = slot.index as usize;
        if index >= self.slots.len() || self.slots[index].generation != slot.generation {
            return Err(TimerError::SlotClosed);
        }
        let rec = self.slots[index];
        match rec.state {
            SlotState::Unbound => return Err(TimerError::SlotUnbound),
            SlotState::Closed => return Err(TimerError::SlotClosed),
            SlotState::Armed => {},
        }
        let dispatch = match rec.dispatch_id {
            Some(d) => d,
            None => return Err(TimerError::SlotUnbound),
        };
        if due <= self.committed_tick {
            return Err(TimerError::InvalidDueTick);
        }
        let schedule_limit = if self.mode == TimerMode::WallClock {
            self.limits.max_schedules_per_pump
        } else {
            self.limits.max_schedules_per_tick
        };
        let reuse = self.timer_free.len() > 0
            && self.timers[self.timer_free[self.timer_free.len() - 1] as usize].generation < u32::MAX;
        if self.schedules_this_tick >= schedule_limit || active >= self.limits.max_active_timers_per_scope
            || (!reuse && self.timers.len() >= self.budget.max_timers) {
            return Err(TimerError::ScheduleBudgetExceeded);
        }
        let sequence = self.next_sequence;
        let next = match sequence.checked_add(1) {
            Some(n) => n,
            None => return Err(TimerError::ScheduleBudgetExceeded),
        };
        let record = TimerRecord { scope, due, interval, sequence, slot, dispatch, queued: false };
        let ghost old_recs = records_of(self.timers@);
        let handle = if reuse {
            let free_index = self.timer_free.pop().unwrap();
            let t = self.timers[free_index as usize];
            proof {
                lemma_occupied_update(old_recs, free_index as int, Some(record), old_recs.len() as int);
                lemma_occupied_prefix_bound(old_recs.update(free_index as int, Some(record)), old_recs.len() as int);
            }
            self.timers.set(free_index as usize, TimerSlot { generation: t.generation, record: Some(record) });
            proof {
                assert(records_of(self.timers@) =~= old_recs.update(free_index as int, Some(record)));
                assert forall|k: int| 0 <= k < self.timer_free@.len() implies self.timers@[
                    #[trigger] self.timer_free@[k] as int].record is None by {
                    assert(old(self).timer_free@[k] != old(self).timer_free@[old(self).timer_free@.len() - 1]);
                }
            }
            TimerHandle { index: free_index, generation: t.generation, context: self.context }
        } else {
            if self.timer_free.len() > 0 {
                let _exhausted = self.timer_free.pop();
                proof {
                    assert forall|k: int| 0 <= k < self.timer_free@.len() implies self.timers@[
                        #[trigger] self.timer_free@[k] as int].record is None by {
                        assert(self.timer_free@[k] == old(self).timer_free@[k]);
                    }
                }
            }
            let new_index = self.timers.len() as u32;
            self.timers.push(TimerSlot { generation: 1, record: Some(record) });
            proof {
                let recs = records_of(self.timers@);
                assert(recs =~= old_recs.push(Some(record)));
                assert(recs.drop_last() =~= old_recs);
                assert(occupied_prefix(recs, old_recs.len() as int) == occupied_prefix(old_recs, old_recs.len() as int)) by {
                    lemma_prefix_extend(old_recs, Some(record), old_recs.len() as int);
                }
                lemma_occupied_prefix_bound(recs, recs.len() as int);
            }
            TimerHandle { index: new_index, generation: 1, context: self.context }
        };
        self.next_sequence = next;
        self.schedules_this_tick = self.schedules_this_tick + 1;
        self.live = self.live + 1;
        let s = self.scopes[j];
        self.scopes.set(j, ScopeRecord { active: s.active + 1, ..s });
        proof {
            assert forall|a: int, b: int| 0 <= a < self.scopes@.len() && 0 <= b < self.scopes@.len() && a != b
                implies self.scopes@[a].id != self.scopes@[b].id by {
                assert(old(self).scopes@[a].id != old(self).scopes@[b].id);
            }
        }
        Ok(handle)
    }

    pub fn schedule_one_shot(&mut self, scope: TimerScope, due: u64, slot: CallbackSlot) -> (r: TimerResult<TimerHandle>)
        requires
            old(self).wf(),
        ensures
            final(self).wf(),
            final(self).same_core(old(self)),
            final(self).same_slots(old(self)),
            final(self).spec_dispatch_table() == old(self).spec_dispatch_table(),
            match old(self).spec_schedule_error(scope, due, slot) {
                Some(e) => r == Err::<TimerHandle, TimerError>(e) && final(self).same_timers(old(self))
                    && final(self).spec_scopes() == old(self).spec_scopes(),
                None => r matches Ok(h) && old(self).spec_scheduled(final(self), scope, due, None, slot, h),
            },
    {
        self.schedule(scope, due, None, slot)
    }

    /// Minimum repeat interval for the manager's clock mode.
    pub open spec fn spec_min_interval(&self) -> u64 {
        if self.spec_mode() == TimerMode::WallClock {
            self.spec_limits().min_interval_ms
        } else {
            self.spec_limits().min_interval_ticks
        }
    }

    pub fn schedule_repeating(&mut self, scope: TimerScope, due: u64, interval: u64, slot: CallbackSlot) -> (r: TimerResult<TimerHandle>)
        requires
            old(self).wf(),
        ensures
            final(self).wf(),
            final(self).same_core(old(self)),
            final(self).same_slots(old(self)),
            final(self).spec_dispatch_table() == old(self).spec_dispatch_table(),
            match old(self).spec_ensure_running() {
                Some(e) => r == Err::<TimerHandle, TimerError>(e) && final(self).same_timers(old(self))
                    && final(self).spec_scopes() == old(self).spec_scopes(),
                None => if interval < old(self).spec_min_interval() {
                    r == Err::<TimerHandle, TimerError>(TimerError::InvalidInterval) && final(self).same_timers(old(self))
                        && final(self).spec_scopes() == old(self).spec_scopes()
                } else {
                    match old(self).spec_schedule_error(scope, due, slot) {
                        Some(e) => r == Err::<TimerHandle, TimerError>(e) && final(self).same_timers(old(self))
                            && final(self).spec_scopes() == old(self).spec_scopes(),
                        None => r matches Ok(h) && old(self).spec_scheduled(final(self), scope, due, Some(interval), slot, h),
                    }
                },
            },
    {
        self.ensure_running()?;
        let min = if self.mode == TimerMode::WallClock {
            self.limits.min_interval_ms
        } else {
            self.limits.min_interval_ticks
        };
        if interval < min {
            return Err(TimerError::InvalidInterval);
        }
        self.schedule(scope, due, Some(interval), slot)
    }

    /// What cancelling `handle` yields, from this state to `new`.
    pub open spec fn spec_cancel(&self, new: &Self, handle: TimerHandle, r: TimerResult<bool>) -> bool {
        &&& new.same_core(self)
        &&& new.spec_dispatch_table() == self.spec_dispatch_table()
        &&& new.spec_slots() == self.spec_slots()
        &&& new.spec_pending() == self.spec_pending()
        &&& match self.spec_ensure_running() {
            Some(e) => r == Err::<bool, TimerError>(e) && new.same_timers(self)
                && new.same_slots(self) && new.spec_scopes() == self.spec_scopes(),
            None => if !self.spec_timer_live(handle) {
                r == Err::<bool, TimerError>(TimerError::StaleHandle) && new.same_timers(self)
                    && new.same_slots(self) && new.spec_scopes() == self.spec_scopes()
            } else {
                let rec = self.spec_timers()[handle.index as int].record->0;
                &&& r == Ok::<bool, TimerError>(true)
                &&& new.spec_queues() == invalidated_all(self.spec_queues(), ItemFilter::Handle(handle))
                &&& new.spec_timers() == self.spec_timers().update(
                    handle.index as int, retired_slot(self.spec_timers()[handle.index as int]))
                &&& new.spec_timer_free() == self.spec_timer_free().push(handle.index)
                &&& new.spec_live() + 1 == self.spec_live()
                &&& new.spec_scopes() == match scope_pos(self.spec_scopes(), rec.scope.scope_id) {
                    Some(j) => self.spec_scopes().update(j, dec_active(self.spec_scopes()[j], 1)),
                    None => self.spec_scopes(),
                }
                &&& !new.spec_timer_live(handle)
            },
        }
    }

    /// Cancel a live timer: its queued entries become invalid and its slot is freed.
    pub fn cancel(&mut self, handle: TimerHandle) -> (r: TimerResult<bool>)
        requires
            old(self).wf(),
        ensures
            final(self).wf(),
            old(self).spec_cancel(final(self), handle, r),
    {
        self.ensure_running()?;
        self.get_timer(handle)?;
        self.invalidate_queues(ItemFilter::Handle(handle));
        self.retire(handle);
        Ok(true)
    }
}

pub proof fn lemma_prefix_extend<T>(vals: Seq<Option<T>>, x: Option<T>, n: int)
    requires
        0 <= n <= vals.len(),
    ensures
        occupied_prefix(vals.push(x), n) == occupied_prefix(vals, n),
    decreases n,
{
    if n > 0 {
        lemma_prefix_extend(vals, x, n - 1);
    }
}

/// Firings timer slot `t` owes when the clock reaches `to`.
pub open spec fn firing_count(t: TimerSlot, to: u64) -> nat {
    match t.record {
        None => 0,
        Some(r) => if r.queued || r.due > to {
            0
        } else {
            match r.interval {
                Some(iv) => ((to - r.due) as int / iv as int + 1) as nat,
                None => 1,
            }
        },
    }
}

/// The handle naming timer slot `index` of context `ctx`.
pub open spec fn handle_at(ctx: u64, index: int, t: TimerSlot) -> TimerHandle {
    TimerHandle { index: index as u32, generation: t.generation, context: ctx }
}

/// The repeat interval of `r`, 0 for a one-shot timer.
pub open spec fn step_of(r: TimerRecord) -> int {
    match r.interval {
        Some(iv) => iv as int,
        None => 0,
    }
}

/// The firings timer slot `index` owes by tick `to`, earliest first.
pub open spec fn owed(ctx: u64, index: int, t: TimerSlot, to: u64) -> Seq<FiringRecord> {
    match t.record {
        None => Seq::empty(),
        Some(r) => Seq::new(
            firing_count(t, to),
            |k: int| FiringRecord {
                handle: handle_at(ctx, index, t),
                due_tick: (r.due + k * step_of(r)) as u64,
                schedule_sequence: r.sequence,
                slot_dispatch_id: r.dispatch,
            },
        ),
    }
}

/// The firings the first `n` timer slots owe by `to`, slot by slot.
pub open spec fn owed_all(ctx: u64, timers: Seq<TimerSlot>, to: u64, n: int) -> Seq<FiringRecord>
    decreases n,
{
    if n <= 0 {
        Seq::empty()
    } else {
        owed_all(ctx, timers, to, n - 1) + owed(ctx, n - 1, timers[n - 1], to)
    }
}

/// Where a repeating timer that fires by `to` is due next (`None` past `u64::MAX`).
pub open spec fn next_of(ctx: u64, index: int, t: TimerSlot, to: u64) -> Seq<(TimerHandle, Option<u64>)> {
    match t.record {
        Some(r) => if !(r.queued || r.due > to) && r.interval is Some {
            let next = r.due + firing_count(t, to) * step_of(r);
            seq![(handle_at(ctx, index, t), if next <= u64::MAX { Some(next as u64) } else { None })]
        } else {
            Seq::empty()
        },
        None => Seq::empty(),
    }
}

pub open spec fn next_all(ctx: u64, timers: Seq<TimerSlot>, to: u64, n: int) -> Seq<(TimerHandle, Option<u64>)>
    decreases n,
{
    if n <= 0 {
        Seq::empty()
    } else {
        next_all(ctx, timers, to, n - 1) + next_of(ctx, n - 1, timers[n - 1], to)
    }
}

/// A repeating timer's last owed firing is the one below `to` whose successor is past it.
proof fn lemma_last_step(d: int, iv: int, k: int, to: int)
    requires
        iv > 0,
        k >= 0,
        d + k * iv <= to,
        d + (k + 1) * iv > to,
        d <= to,
    ensures
        (to - d) / iv == k,
{
    assert((to - d) / iv == k) by (nonlinear_arith)
        requires
            k * iv <= to - d,
            to - d < (k + 1) * iv,
            iv > 0,
            k >= 0,
    {
        vstd::arithmetic::div_mod::lemma_fundamental_div_mod(to - d, iv);
        let q = (to - d) / iv;
        assert(to - d == iv * q + (to - d) % iv);
        assert(0 <= (to - d) % iv < iv);
        if q < k {
            assert(iv * q + iv <= iv * k);
        }
        if q > k {
            assert(iv * (k + 1) <= iv * q);
        }
    }
}

/// Firings owed by the first `n` timer slots.
pub open spec fn preflight_total(timers: Seq<TimerSlot>, to: u64, n: int) -> nat
    decreases n,
{
    if n <= 0 {
        0
    } else {
        preflight_total(timers, to, n - 1) + firing_count(timers[n - 1], to)
    }
}

pub proof fn lemma_preflight_mono(timers: Seq<TimerSlot>, to: u64, j: int, k: int)
    requires
        0 <= j <= k,
    ensures
        preflight_total(timers, to, j) <= preflight_total(timers, to, k),
    decreases k - j,
{
    if j < k {
        lemma_preflight_mono(timers, to, j, k - 1);
    }
}

/// Sort key of a firing: due tick, then schedule sequence, then timer slot.
pub open spec fn firing_le(a: FiringRecord, b: FiringRecord) -> bool {
    a.due_tick < b.due_tick || (a.due_tick == b.due_tick && (a.schedule_sequence
        < b.schedule_sequence || (a.schedule_sequence == b.schedule_sequence && a.handle.index
        <= b.handle.index)))
}

pub open spec fn firings_sorted(s: Seq<FiringRecord>) -> bool {
    forall|i: int, j: int| 0 <= i < j < s.len() ==> firing_le(#[trigger] s[i], #[trigger] s[j])
}

fn firing_less(a: &FiringRecord, b: &FiringRecord) -> (r: bool)
    ensures
        r == !firing_le(*b, *a),
{
    if a.due_tick != b.due_tick {
        a.due_tick < b.due_tick
    } else if a.schedule_sequence != b.schedule_sequence {
        a.schedule_sequence < b.schedule_sequence
    } else {
        a.handle.index < b.handle.index
    }
}

/// Where `x` goes among the first `p` entries of `out`: after the last one that does
/// not come after it.
pub open spec fn ins_pos(out: Seq<FiringRecord>, x: FiringRecord, p: int) -> int
    decreases p,
{
    if p > 0 && !firing_le(out[p - 1], x) {
        ins_pos(out, x, p - 1)
    } else {
        p
    }
}

/// `s` sorted by firing key by insertion, entries with equal keys kept in order.
pub open spec fn isort(s: Seq<FiringRecord>) -> Seq<FiringRecord>
    decreases s.len(),
{
    if s.len() == 0 {
        s
    } else {
        let o = isort(s.drop_last());
        o.insert(ins_pos(o, s.last(), o.len() as int), s.last())
    }
}

/// Stable insertion sort by firing key.
fn sort_firings(v: Vec<FiringRecord>) -> (out: Vec<FiringRecord>)
    ensures
        out@ == isort(v@),
        firings_sorted(out@),
        out@.len() == v@.len(),
        forall|k: int| 0 <= k < out@.len() ==> v@.contains(#[trigger] out@[k]),
        forall|k: int| 0 <= k < v@.len() ==> out@.contains(#[trigger] v@[k]),
{
    let mut out: Vec<FiringRecord> = Vec::new();
    let mut i: usize = 0;
    while i < v.len()
        invariant
            i <= v@.len(),
            out@.len() == i,
            out@ == isort(v@.take(i as int)),
            firings_sorted(out@),
            forall|k: int| 0 <= k < out@.len() ==> v@.contains(#[trigger] out@[k]),
            forall|k: int| 0 <= k < i ==> out@.contains(#[trigger] v@[k]),
        decreases v@.len() - i,
    {
        let x = v[i];
        let mut p: usize = out.len();
        while p > 0 && firing_less(&x, &out[p - 1])
            invariant
                p <= out@.len(),
                forall|k: int| p <= k < out@.len() ==> !firing_le(#[trigger] out@[k], x),
                ins_pos(out@, x, out@.len() as int) == ins_pos(out@, x, p as int),
            decreases p,
        {
            p = p - 1;
        }
        proof {
            assert(v@.take(i + 1).drop_last() =~= v@.take(i as int));
            assert(v@.take(i + 1).last() == x);
        }
        proof {
            if p > 0 {
                assert(firing_le(out@[p - 1], x));
            }
        }
        let ghost before = out@;
        out.insert(p, x);
        proof {
            assert(out@ == before.insert(p as int, x));
            assert forall|a: int, b: int| 0 <= a < b < out@.len() implies firing_le(#[trigger] out@[a], #[trigger] out@[b]) by {
                if a < p && b < p {
                    assert(out@[a] == before[a] && out@[b] == before[b]);
                } else if a < p && b == p {
                    assert(out@[a] == before[a]);
                    assert(firing_le(before[a], before[p - 1]) || a == p - 1);
                } else if a < p && b > p {
                    assert(out@[a] == before[a] && out@[b] == before[b - 1]);
                } else if a == p {
                    assert(out@[b] == before[b - 1]);
                    assert(!firing_le(before[b - 1], x));
                } else {
                    assert(out@[a] == before[a - 1] && out@[b] == before[b - 1]);
                }
            }
            assert forall|k: int| 0 <= k < out@.len() implies v@.contains(#[trigger] out@[k]) by {
                if k < p {
                    assert(out@[k] == before[k]);
                } else if k == p {
                    assert(v@[i as int] == x);
                } else {
                    assert(out@[k] == before[k - 1]);
                }
            }
            assert forall|k: int| 0 <= k < i + 1 implies out@.contains(#[trigger] v@[k]) by {
                if k == i {
                    assert(out@[p as int] == x);
                } else {
                    assert(before.contains(v@[k]));
                    let j = choose|j: int| 0 <= j < before.len() && before[j] == v@[k];
                    if j < p {
                        assert(out@[j] == before[j]);
                    } else {
                        assert(out@[j + 1] == before[j]);
                    }
                }
            }
        }
        i = i + 1;
    }
    proof {
        assert(v@.take(v@.len() as int) =~= v@);
    }
    out
}

/// The timers with the one-shot timer in slot `index` marked as queued.
pub open spec fn queued_at(timers: Seq<TimerSlot>, index: int) -> Seq<TimerSlot> {
    match timers[index].record {
        Some(r) => timers.update(index, TimerSlot { record: Some(TimerRecord { queued: true, ..r }), ..timers[index] }),
        None => timers,
    }
}

/// The timers with the repeating timer in slot `index` due at `due`.
pub open spec fn due_at(timers: Seq<TimerSlot>, index: int, due: u64) -> Seq<TimerSlot> {
    match timers[index].record {
        Some(r) => timers.update(index, TimerSlot { record: Some(TimerRecord { due, ..r }), ..timers[index] }),
        None => timers,
    }
}

/// What advancing changes, as plain values: the timers with their free list, live
/// count and scope counts; the delivery queues; the diagnostics; and the report.
pub ghost struct AdvanceState {
    pub timers: Seq<TimerSlot>,
    pub timer_free: Seq<u32>,
    pub live: nat,
    pub scopes: Seq<ScopeRecord>,
    pub queues: Seq<Seq<QueueItem>>,
    pub pending: nat,
    pub diagnostics: Seq<TimerDiagnostic>,
    pub dropped: u64,
    pub firings: Seq<FiringRecord>,
    pub rejections: Seq<FiringRejection>,
}

/// `m`'s state before advancing, with an empty report.
pub open spec fn advance_start(m: &TimerManager) -> AdvanceState {
    AdvanceState {
        timers: m.spec_timers(),
        timer_free: m.spec_timer_free(),
        live: m.spec_live() as nat,
        scopes: m.spec_scopes(),
        queues: m.spec_queues(),
        pending: m.spec_pending() as nat,
        diagnostics: m.spec_diagnostics(),
        dropped: m.spec_diagnostics_dropped(),
        firings: Seq::empty(),
        rejections: Seq::empty(),
    }
}

/// `handle` names a live timer among `timers` of context `ctx`.
pub open spec fn live_in(ctx: u64, timers: Seq<TimerSlot>, handle: TimerHandle) -> bool {
    &&& handle.context == ctx
    &&& handle.index < timers.len()
    &&& timers[handle.index as int].generation == handle.generation
    &&& timers[handle.index as int].record is Some
}

/// Why a firing cannot be queued on `slot` with `pending` entries queued in all.
pub open spec fn enqueue_error_at(m: &TimerManager, pending: nat, queues: Seq<Seq<QueueItem>>, slot: CallbackSlot) -> Option<TimerError> {
    if pending >= m.spec_budget().max_pending_records {
        Some(TimerError::SlotQueueFull)
    } else if !m.spec_slot_valid(slot) {
        Some(TimerError::SlotClosed)
    } else {
        let rec = m.spec_slots()[slot.index as int];
        if rec.state == SlotState::Closed {
            Some(TimerError::SlotClosed)
        } else if rec.state == SlotState::Unbound {
            Some(TimerError::SlotUnbound)
        } else if queues[slot.index as int].len() >= m.spec_limits().delivery_queue_depth_per_slot {
            Some(TimerError::SlotQueueFull)
        } else {
            None
        }
    }
}

/// `d` with the live timer `handle` retired and its scope's count lowered.
pub open spec fn retired_in(d: AdvanceState, handle: TimerHandle) -> AdvanceState {
    let index = handle.index as int;
    let rec = d.timers[index].record->0;
    AdvanceState {
        timers: d.timers.update(index, retired_slot(d.timers[index])),
        timer_free: d.timer_free.push(handle.index),
        live: (d.live - 1) as nat,
        scopes: match scope_pos(d.scopes, rec.scope.scope_id) {
            Some(j) => d.scopes.update(j, dec_active(d.scopes[j], 1)),
            None => d.scopes,
        },
        ..d
    }
}

/// `d` with a diagnostic for `code` on `record`, or one more dropped when full.
pub open spec fn diagnosed_in(m: &TimerManager, d: AdvanceState, code: TimerError, record: FiringRecord) -> AdvanceState {
    if d.diagnostics.len() < m.spec_budget().max_diagnostics {
        AdvanceState {
            diagnostics: d.diagnostics.push(TimerDiagnostic {
                code,
                due_tick: Some(record.due_tick),
                schedule_sequence: Some(record.schedule_sequence),
            }),
            ..d
        }
    } else {
        AdvanceState { dropped: if d.dropped == u64::MAX { u64::MAX } else { (d.dropped + 1) as u64 }, ..d }
    }
}

/// Delivering one owed firing: queued on its timer's slot (a one-shot timer is then
/// marked queued), or rejected with the reason, diagnosed, and its timer retired. A
/// firing of a timer retired earlier in the same advance is dropped.
pub open spec fn deliver_step(m: &TimerManager, d: AdvanceState, r: FiringRecord) -> AdvanceState {
    if !live_in(m.spec_context(), d.timers, r.handle) {
        d
    } else {
        let index = r.handle.index as int;
        let rec = d.timers[index].record->0;
        match enqueue_error_at(m, d.pending, d.queues, rec.slot) {
            Some(e) => retired_in(
                diagnosed_in(
                    m,
                    AdvanceState {
                        rejections: d.rejections.push(FiringRejection {
                            handle: r.handle,
                            due_tick: r.due_tick,
                            schedule_sequence: r.schedule_sequence,
                            code: e,
                        }),
                        ..d
                    },
                    e,
                    r,
                ),
                r.handle,
            ),
            None => {
                let q = AdvanceState {
                    queues: d.queues.update(
                        rec.slot.index as int,
                        d.queues[rec.slot.index as int].push(QueueItem { record: r, scope: rec.scope, valid: true }),
                    ),
                    pending: d.pending + 1,
                    firings: d.firings.push(r),
                    ..d
                };
                if rec.interval is None {
                    AdvanceState { timers: queued_at(q.timers, index), ..q }
                } else {
                    q
                }
            },
        }
    }
}

/// Delivering `recs` in order.
pub open spec fn deliver_all(m: &TimerManager, d: AdvanceState, recs: Seq<FiringRecord>) -> AdvanceState
    decreases recs.len(),
{
    if recs.len() == 0 {
        d
    } else {
        deliver_step(m, deliver_all(m, d, recs.drop_last()), recs.last())
    }
}

/// Moving a repeating timer that is still live to its next due tick, or retiring it
/// when that tick does not exist.
pub open spec fn reschedule_step(m: &TimerManager, d: AdvanceState, e: (TimerHandle, Option<u64>)) -> AdvanceState {
    if !live_in(m.spec_context(), d.timers, e.0) {
        d
    } else {
        match e.1 {
            Some(due) => AdvanceState { timers: due_at(d.timers, e.0.index as int, due), ..d },
            None => retired_in(d, e.0),
        }
    }
}

pub open spec fn reschedule_all(m: &TimerManager, d: AdvanceState, es: Seq<(TimerHandle, Option<u64>)>) -> AdvanceState
    decreases es.len(),
{
    if es.len() == 0 {
        d
    } else {
        reschedule_step(m, reschedule_all(m, d, es.drop_last()), es.last())
    }
}

/// Everything advancing `m` to tick `to` does, once the budget check has passed: the
/// owed firings are delivered by firing key, then repeating timers move on.
pub open spec fn advance_outcome(m: &TimerManager, to: u64) -> AdvanceState {
    let n = m.spec_timers().len() as int;
    let delivered = deliver_all(m, advance_start(m), isort(owed_all(m.spec_context(), m.spec_timers(), to, n)));
    reschedule_all(m, delivered, next_all(m.spec_context(), m.spec_timers(), to, n))
}

/// Moving repeating timers on leaves the report as it is.
proof fn lemma_reschedule_keeps_report(m: &TimerManager, d: AdvanceState, es: Seq<(TimerHandle, Option<u64>)>)
    ensures
        reschedule_all(m, d, es).firings == d.firings,
        reschedule_all(m, d, es).rejections == d.rejections,
    decreases es.len(),
{
    if es.len() > 0 {
        lemma_reschedule_keeps_report(m, d, es.drop_last());
    }
}

/// `m` holds what `d` says of the state advancing changes.
pub open spec fn holds_state(m: &TimerManager, d: AdvanceState) -> bool {
    &&& m.spec_timers() == d.timers
    &&& m.spec_timer_free() == d.timer_free
    &&& m.spec_live() == d.live
    &&& m.spec_scopes() == d.scopes
    &&& m.spec_queues() == d.queues
    &&& m.spec_pending() == d.pending
    &&& m.spec_diagnostics() == d.diagnostics
    &&& m.spec_diagnostics_dropped() == d.dropped
}

/// Timer slot `t` holds a live timer, not yet queued, that is due by `to`.
pub open spec fn owes_by(t: TimerSlot, to: u64) -> bool {
    t.record matches Some(r) && !r.queued && r.due <= to
}

/// Some firing of `s` at or after position `lo` names `h`.
pub open spec fn lists_handle(s: Seq<FiringRecord>, h: TimerHandle, lo: int) -> bool {
    exists|k: int| lo <= k < s.len() && (#[trigger] s[k]).handle == h
}

/// Some entry of `s` at or after position `lo` names `h`.
pub open spec fn lists_next(s: Seq<(TimerHandle, Option<u64>)>, h: TimerHandle, lo: int) -> bool {
    exists|k: int| lo <= k < s.len() && (#[trigger] s[k]).0 == h
}

/// A timer that owes a firing by `to` has one among the owed firings.
proof fn lemma_owed_all_lists(ctx: u64, timers: Seq<TimerSlot>, to: u64, n: int, x: int)
    requires
        0 <= x < n <= timers.len(),
        owes_by(timers[x], to),
        interval_ok(timers[x]),
    ensures
        lists_handle(owed_all(ctx, timers, to, n), handle_at(ctx, x, timers[x]), 0),
    decreases n,
{
    let prev = owed_all(ctx, timers, to, n - 1);
    let all = owed_all(ctx, timers, to, n);
    let h = handle_at(ctx, x, timers[x]);
    if x == n - 1 {
        let o = owed(ctx, n - 1, timers[n - 1], to);
        let r = timers[x].record->0;
        match r.interval {
            Some(iv) => {
                assert((to - r.due) as int / iv as int >= 0) by (nonlinear_arith)
                    requires to >= r.due, iv > 0;
            },
            None => {},
        }
        assert(o.len() >= 1);
        assert(all[prev.len() as int] == o[0]);
        assert(all[prev.len() as int].handle == h);
    } else {
        lemma_owed_all_lists(ctx, timers, to, n - 1, x);
        let k = choose|k: int| 0 <= k < prev.len() && (#[trigger] prev[k]).handle == h;
        assert(all[k] == prev[k]);
    }
}

/// A repeating timer that owes firings by `to` has an entry among the next due ticks.
proof fn lemma_next_all_lists(ctx: u64, timers: Seq<TimerSlot>, to: u64, n: int, x: int)
    requires
        0 <= x < n <= timers.len(),
        owes_by(timers[x], to),
        timers[x].record->0.interval is Some,
    ensures
        lists_next(next_all(ctx, timers, to, n), handle_at(ctx, x, timers[x]), 0),
    decreases n,
{
    let prev = next_all(ctx, timers, to, n - 1);
    let all = next_all(ctx, timers, to, n);
    let h = handle_at(ctx, x, timers[x]);
    if x == n - 1 {
        let o = next_of(ctx, n - 1, timers[n - 1], to);
        assert(o.len() == 1);
        assert(all[prev.len() as int] == o[0]);
        assert(all[prev.len() as int].0 == h);
    } else {
        lemma_next_all_lists(ctx, timers, to, n - 1, x);
        let k = choose|k: int| 0 <= k < prev.len() && (#[trigger] prev[k]).0 == h;
        assert(all[k] == prev[k]);
    }
}

/// A firing that timer slot `t` of `m` owes by tick `to`.
pub open spec fn firing_of(m: &TimerManager, f: FiringRecord, to: u64) -> bool {
    &&& m.spec_timer_live(f.handle)
    &&& f.due_tick <= to
    &&& {
        let r = m.spec_timers()[f.handle.index as int].record->0;
        &&& !r.queued
        &&& f.schedule_sequence == r.sequence
        &&& f.slot_dispatch_id == r.dispatch
        &&& f.due_tick >= r.due
    }
}

impl TimerManager {
    /// Count the firings owed by `to`; refuse when they exceed the per-advance budget.
    fn preflight(&self, to: u64) -> (r: TimerResult<u64>)
        requires
            self.wf(),
        ensures
            preflight_total(self.spec_timers(), to, self.spec_timers().len() as int)
                <= self.spec_budget().max_firings_per_advance ==> r == Ok::<u64, TimerError>(
                preflight_total(self.spec_timers(), to, self.spec_timers().len() as int) as u64),
            preflight_total(self.spec_timers(), to, self.spec_timers().len() as int)
                > self.spec_budget().max_firings_per_advance ==> r == Err::<u64, TimerError>(
                TimerError::ScheduleBudgetExceeded),
    {
        let mut total: u64 = 0;
        let mut i: usize = 0;
        let n = self.timers.len();
        while i < n
            invariant
                n == self.timers@.len(),
                i <= n,
                self.wf(),
                total == preflight_total(self.timers@, to, i as int),
                total <= self.budget.max_firings_per_advance,
            decreases n - i,
        {
            let t = self.timers[i];
            proof {
                assert(interval_ok(self.timers@[i as int]));
                lemma_preflight_mono(self.timers@, to, i + 1, n as int);
            }
            match t.record {
                Some(rec) => {
                    if !(rec.queued || rec.due > to) {
                        let count: u64 = match rec.interval {
                            Some(interval) => (to - rec.due) / interval + 1,
                            None => 1,
                        };
                        total = match total.checked_add(count) {
                            Some(t2) => t2,
                            None => return Err(TimerError::ScheduleBudgetExceeded),
                        };
                        if total as u128 > self.budget.max_firings_per_advance as u128 {
                            return Err(TimerError::ScheduleBudgetExceeded);
                        }
                    }
                },
                None => {},
            }
            i = i + 1;
        }
        Ok(total)
    }

    /// Every firing owed by `to`, per timer in slot order, plus each repeating
    /// timer's next due tick (`None` when it would overflow).
    fn collect(&self, to: u64) -> (r: (Vec<FiringRecord>, Vec<(TimerHandle, Option<u64>)>))
        requires
            self.wf(),
        ensures
            r.0@ == owed_all(self.spec_context(), self.spec_timers(), to, self.spec_timers().len() as int),
            r.1@ == next_all(self.spec_context(), self.spec_timers(), to, self.spec_timers().len() as int),
            r.0@.len() <= preflight_total(self.spec_timers(), to, self.spec_timers().len() as int),
            forall|k: int| 0 <= k < r.0@.len() ==> firing_of(self, #[trigger] r.0@[k], to),
            forall|k: int| 0 <= k < r.1@.len() ==> #[trigger] r.1@[k].0.context == self.spec_context(),
            forall|k: int| 0 <= k < r.1@.len() ==> (#[trigger] r.1@[k].1 matches Some(d) ==> d > to),
    {
        let mut collected: Vec<FiringRecord> = Vec::new();
        let mut next_due: Vec<(TimerHandle, Option<u64>)> = Vec::new();
        let n = self.timers.len();
        let mut index: usize = 0;
        while index < n
            invariant
                n == self.timers@.len(),
                index <= n,
                self.wf(),
                collected@ == owed_all(self.context, self.timers@, to, index as int),
                next_due@ == next_all(self.context, self.timers@, to, index as int),
                collected@.len() <= preflight_total(self.timers@, to, index as int),
                forall|k: int| 0 <= k < collected@.len() ==> firing_of(self, #[trigger] collected@[k], to),
                forall|k: int| 0 <= k < next_due@.len() ==> #[trigger] next_due@[k].0.context == self.context,
                forall|k: int| 0 <= k < next_due@.len() ==> (#[trigger] next_due@[k].1 matches Some(d) ==> d > to),
            decreases n - index,
        {
            let t = self.timers[index];
            proof {
                assert(interval_ok(self.timers@[index as int]));
            }
            match t.record {
                Some(rec) => {
                    if !(rec.queued || rec.due > to) {
                        let handle = TimerHandle { index: index as u32, generation: t.generation, context: self.context };
                        let mut due = rec.due;
                        let ghost start = collected@.len();
                        let ghost base = collected@;
                        let ghost nbase = next_due@;
                        let ghost mut k: int = 0;
                        loop
                            invariant_except_break
                                rec.due <= due <= to,
                                collected@.len() == start + k,
                                collected@ == base + owed(self.context, index as int, t, to).take(k),
                                next_due@ == nbase,
                                k < firing_count(t, to),
                                0 <= k,
                                rec.interval matches Some(iv) ==> due == rec.due + k * iv,
                                rec.interval is None ==> k == 0 && due == rec.due,
                            invariant
                                self.wf(),
                                index < n,
                                n == self.timers@.len(),
                                t == self.timers@[index as int],
                                t.record == Some(rec),
                                !(rec.queued || rec.due > to),
                                interval_ok(t),
                                handle == (TimerHandle { index: index as u32, generation: t.generation, context: self.context }),
                                forall|j: int| 0 <= j < collected@.len() ==> firing_of(self, #[trigger] collected@[j], to),
                                forall|j: int| 0 <= j < next_due@.len() ==> #[trigger] next_due@[j].0.context == self.context,
                                forall|j: int| 0 <= j < next_due@.len() ==> (#[trigger] next_due@[j].1 matches Some(d) ==> d > to),
                                collected@.len() >= start,
                            ensures
                                collected@.len() <= start + firing_count(t, to),
                                collected@ == base + owed(self.context, index as int, t, to),
                                next_due@ == nbase + next_of(self.context, index as int, t, to),
                            decreases to - due,
                        {
                            let ghost owed_t = owed(self.context, index as int, t, to);
                            proof {
                                assert(rec.due + k * step_of(rec) == due);
                                assert(owed_t[k] == (FiringRecord {
                                    handle,
                                    due_tick: due,
                                    schedule_sequence: rec.sequence,
                                    slot_dispatch_id: rec.dispatch,
                                }));
                            }
                            collected.push(FiringRecord {
                                handle,
                                due_tick: due,
                                schedule_sequence: rec.sequence,
                                slot_dispatch_id: rec.dispatch,
                            });
                            proof {
                                assert(collected@ =~= base + owed_t.take(k + 1));
                            }
                            match rec.interval {
                                None => {
                                    proof {
                                        assert(owed_t.take(k + 1) =~= owed_t);
                                        assert(next_of(self.context, index as int, t, to) =~= Seq::<(TimerHandle, Option<u64>)>::empty());
                                        assert(nbase + next_of(self.context, index as int, t, to) =~= nbase);
                                    }
                                    break;
                                },
                                Some(interval) => {
                                    proof {
                                        lemma_steps_bound(rec.due as int, interval as int, k, to as int);
                                    }
                                    match due.checked_add(interval) {
                                        Some(next) => {
                                            if next <= to {
                                                due = next;
                                                proof {
                                                    k = k + 1;
                                                    assert(due == rec.due + k * interval) by (nonlinear_arith)
                                                        requires due == rec.due + (k - 1) * interval + interval;
                                                    lemma_steps_bound(rec.due as int, interval as int, k, to as int);
                                                }
                                            } else {
                                                proof {
                                                    assert(rec.due + (k + 1) * interval == next) by (nonlinear_arith)
                                                        requires due == rec.due + k * interval, next == due + interval;
                                                    lemma_last_step(rec.due as int, interval as int, k, to as int);
                                                    assert(owed_t.take(k + 1) =~= owed_t);
                                                    assert(next_of(self.context, index as int, t, to) =~= seq![(handle, Some(next))]);
                                                }
                                                next_due.push((handle, Some(next)));
                                                break;
                                            }
                                        },
                                        None => {
                                            proof {
                                                assert(rec.due + (k + 1) * interval == due + interval) by (nonlinear_arith)
                                                    requires due == rec.due + k * interval;
                                                lemma_last_step(rec.due as int, interval as int, k, to as int);
                                                assert(owed_t.take(k + 1) =~= owed_t);
                                                assert(next_of(self.context, index as int, t, to) =~= seq![(handle, None::<u64>)]);
                                            }
                                            next_due.push((handle, None));
                                            break;
                                        },
                                    }
                                },
                            }
                        }
                    }
                },
                None => {},
            }
            proof {
                let t0 = self.timers@[index as int];
                if !(t0.record matches Some(r0) && !(r0.queued || r0.due > to)) {
                    assert(owed(self.context, index as int, t0, to) =~= Seq::<FiringRecord>::empty());
                    assert(next_of(self.context, index as int, t0, to) =~= Seq::<(TimerHandle, Option<u64>)>::empty());
                }
                assert(owed_all(self.context, self.timers@, to, index + 1) == owed_all(self.context, self.timers@, to, index as int)
                    + owed(self.context, index as int, t0, to));
                assert(next_all(self.context, self.timers@, to, index + 1) == next_all(self.context, self.timers@, to, index as int)
                    + next_of(self.context, index as int, t0, to));
            }
            index = index + 1;
        }
        (collected, next_due)
    }
}

/// `k + 1` steps of `iv` from `d` that stay within `to` are no more than the
/// firings `firing_count` owes.
pub proof fn lemma_steps_bound(d: int, iv: int, k: int, to: int)
    requires
        iv > 0,
        k >= 0,
        d + k * iv <= to,
        d <= to,
    ensures
        k + 1 <= (to - d) / iv + 1,
{
    assert(k * iv <= to - d);
    assert(k <= (to - d) / iv) by (nonlinear_arith)
        requires
            k * iv <= to - d,
            iv > 0,
            k >= 0,
    {
        vstd::arithmetic::div_mod::lemma_fundamental_div_mod(to - d, iv);
        assert(to - d == iv * ((to - d) / iv) + (to - d) % iv);
        assert(0 <= (to - d) % iv < iv);
    }
}

impl TimerManager {
    /// Why delivering into `slot` would be refused.
    pub open spec fn spec_enqueue_error(&self, slot: CallbackSlot) -> Option<TimerError> {
        if self.spec_pending() >= self.spec_budget().max_pending_records {
            Some(TimerError::SlotQueueFull)
        } else if !self.spec_slot_valid(slot) {
            Some(TimerError::SlotClosed)
        } else {
            let rec = self.spec_slots()[slot.index as int];
            if rec.state == SlotState::Closed {
                Some(TimerError::SlotClosed)
            } else if rec.state == SlotState::Unbound {
                Some(TimerError::SlotUnbound)
            } else if self.spec_queues()[slot.index as int].len() >= self.spec_limits().delivery_queue_depth_per_slot {
                Some(TimerError::SlotQueueFull)
            } else {
                None
            }
        }
    }

    /// Append a valid entry to `slot`'s delivery queue.
    fn enqueue(&mut self, record: FiringRecord, scope: TimerScope, slot: CallbackSlot) -> (r: TimerResult<()>)
        requires
            old(self).wf(),
        ensures
            final(self).wf(),
            final(self).same_core(old(self)),
            final(self).same_timers(old(self)),
            final(self).spec_scopes() == old(self).spec_scopes(),
            final(self).spec_dispatch_table() == old(self).spec_dispatch_table(),
            final(self).spec_slots() == old(self).spec_slots(),
            match old(self).spec_enqueue_error(slot) {
                Some(e) => r == Err::<(), TimerError>(e) && final(self).same_slots(old(self)),
                None => {
                    &&& r is Ok
                    &&& final(self).spec_pending() == old(self).spec_pending() + 1
                    &&& final(self).spec_queues() == old(self).spec_queues().update(
                        slot.index as int,
                        old(self).spec_queues()[slot.index as int].push(QueueItem { record, scope, valid: true }))
                },
            },
    {
        let depth = self.limits.delivery_queue_depth_per_slot;
        if self.pending >= self.budget.max_pending_records {
            return Err(TimerError::SlotQueueFull);
        }
        let index = slot.index as usize;
        if index >= self.slots.len() || self.slots[index].generation != slot.generation {
            return Err(TimerError::SlotClosed);
        }
        match self.slots[index].state {
            SlotState::Closed => return Err(TimerError::SlotClosed),
            SlotState::Unbound => return Err(TimerError::SlotUnbound),
            SlotState::Armed => {},
        }
        if self.queues[index].len() >= depth {
            return Err(TimerError::SlotQueueFull);
        }
        let mut q: Vec<QueueItem> = Vec::new();
        std::mem::swap(&mut q, &mut self.queues[index]);
        q.push(QueueItem { record, scope, valid: true });
        std::mem::swap(&mut q, &mut self.queues[index]);
        self.pending = self.pending + 1;
        proof {
            assert(self.spec_queues() =~= old(self).spec_queues().update(
                slot.index as int,
                old(self).spec_queues()[slot.index as int].push(QueueItem { record, scope, valid: true })));
            lemma_qt_update(old(self).spec_queues(), slot.index as int,
                old(self).spec_queues()[slot.index as int].push(QueueItem { record, scope, valid: true }));
        }
        Ok(())
    }

    /// Record a diagnostic while the buffer has room; otherwise count it as dropped.
    fn diagnose(&mut self, code: TimerError, record: FiringRecord)
        ensures
            final(self).spec_timers() == old(self).spec_timers(),
            final(self).spec_timer_free() == old(self).spec_timer_free(),
            final(self).spec_live() == old(self).spec_live(),
            final(self).spec_scopes() == old(self).spec_scopes(),
            final(self).spec_slots() == old(self).spec_slots(),
            final(self).spec_queues() == old(self).spec_queues(),
            final(self).spec_pending() == old(self).spec_pending(),
            final(self).spec_dispatch_table() == old(self).spec_dispatch_table(),
            final(self).spec_context() == old(self).spec_context(),
            final(self).spec_mode() == old(self).spec_mode(),
            final(self).spec_limits() == old(self).spec_limits(),
            final(self).spec_budget() == old(self).spec_budget(),
            final(self).spec_config_error() == old(self).spec_config_error(),
            final(self).spec_running() == old(self).spec_running(),
            final(self).spec_committed_tick() == old(self).spec_committed_tick(),
            final(self).spec_trace() == old(self).spec_trace(),
            final(self).spec_next_sequence() == old(self).spec_next_sequence(),
            final(self).spec_schedules_this_tick() == old(self).spec_schedules_this_tick(),
            final(self).wf() == old(self).wf(),
            final(self).timers_retirable() == old(self).timers_retirable(),
            old(self).spec_diagnostics().len() < old(self).spec_budget().max_diagnostics ==> {
                &&& final(self).spec_diagnostics() == old(self).spec_diagnostics().push(TimerDiagnostic {
                    code,
                    due_tick: Some(record.due_tick),
                    schedule_sequence: Some(record.schedule_sequence),
                })
                &&& final(self).spec_diagnostics_dropped() == old(self).spec_diagnostics_dropped()
            },
            old(self).spec_diagnostics().len() >= old(self).spec_budget().max_diagnostics ==> {
                &&& final(self).spec_diagnostics() == old(self).spec_diagnostics()
                &&& final(self).spec_diagnostics_dropped() == if old(self).spec_diagnostics_dropped() == u64::MAX {
                    u64::MAX
                } else {
                    (old(self).spec_diagnostics_dropped() + 1) as u64
                }
            },
    {
        if self.diagnostics.len() < self.budget.max_diagnostics {
            self.diagnostics.push(TimerDiagnostic {
                code,
                due_tick: Some(record.due_tick),
                schedule_sequence: Some(record.schedule_sequence),
            });
        } else {
            self.diagnostics_dropped = self.diagnostics_dropped.saturating_add(1);
        }
    }

    /// Number of valid entries waiting in slots that are not closed.
    pub fn pending_record_count(&self) -> (r: u32)
        requires
            self.wf(),
        ensures
            r == valid_pending(self.spec_slots(), self.spec_queues()) as u32,
    {
        let mut total: usize = 0;
        let mut i: usize = 0;
        while i < self.slots.len()
            invariant
                i <= self.slots@.len(),
                self.slots@.len() == self.queues@.len(),
                self.wf(),
                total as nat == valid_pending(self.slots@.subrange(0, i as int), self.spec_queues().subrange(0, i as int)),
                total <= queued_total(self.spec_queues().subrange(0, i as int)),
            decreases self.slots@.len() - i,
        {
            proof {
                assert(self.slots@.subrange(0, i + 1).drop_last() =~= self.slots@.subrange(0, i as int));
                assert(self.spec_queues().subrange(0, i + 1).drop_last() =~= self.spec_queues().subrange(0, i as int));
            }
            if self.slots[i].state != SlotState::Closed {
                let q = &self.queues[i];
                let mut c: usize = 0;
                let mut k: usize = 0;
                while k < q.len()
                    invariant
                        k <= q@.len(),
                        c as nat == valid_in(q@.subrange(0, k as int)),
                        c <= k,
                    decreases q@.len() - k,
                {
                    proof {
                        assert(q@.subrange(0, k + 1).drop_last() =~= q@.subrange(0, k as int));
                    }
                    if q[k].valid {
                        c = c + 1;
                    }
                    k = k + 1;
                }
                proof {
                    assert(q@.subrange(0, k as int) =~= q@);
                    assert(self.spec_queues()[i as int] == q@);
                    lemma_total_bound(self.spec_queues().subrange(0, i + 1));
                    lemma_qt_prefix(self.spec_queues(), i + 1);
                    assert(self.spec_queues().subrange(0, i + 1).last() == q@);
                }
                total = total + c;
            } else {
                proof {
                    lemma_total_bound(self.spec_queues().subrange(0, i + 1));
                }
            }
            proof {
                assert(self.spec_queues().subrange(0, i + 1).last() == self.spec_queues()[i as int]);
            }
            i = i + 1;
        }
        proof {
            assert(self.slots@.subrange(0, i as int) =~= self.slots@);
            assert(self.spec_queues().subrange(0, i as int) =~= self.spec_queues());
        }
        total as u32
    }
}

pub proof fn lemma_total_bound(qs: Seq<Seq<QueueItem>>)
    ensures
        qs.len() > 0 ==> queued_total(qs) == queued_total(qs.drop_last()) + qs.last().len(),
{
}

pub proof fn lemma_qt_update(qs: Seq<Seq<QueueItem>>, i: int, q: Seq<QueueItem>)
    requires
        0 <= i < qs.len(),
    ensures
        queued_total(qs.update(i, q)) + qs[i].len() == queued_total(qs) + q.len(),
    decreases qs.len(),
{
    if i < qs.len() - 1 {
        assert(qs.update(i, q).drop_last() =~= qs.drop_last().update(i, q));
        lemma_qt_update(qs.drop_last(), i, q);
    } else {
        assert(qs.update(i, q).drop_last() =~= qs.drop_last());
    }
}

pub proof fn lemma_qt_prefix(qs: Seq<Seq<QueueItem>>, n: int)
    requires
        0 <= n <= qs.len(),
    ensures
        queued_total(qs.subrange(0, n)) <= queued_total(qs),
    decreases qs.len(),
{
    if n < qs.len() {
        assert(qs.drop_last().subrange(0, n) =~= qs.subrange(0, n));
        lemma_qt_prefix(qs.drop_last(), n);
    } else {
        assert(qs.subrange(0, n) =~= qs);
    }
}

pub proof fn lemma_qt_invalidated(qs: Seq<Seq<QueueItem>>, f: ItemFilter)
    ensures
        queued_total(invalidated_all(qs, f)) == queued_total(qs),
    decreases qs.len(),
{
    if qs.len() > 0 {
        assert(invalidated_all(qs, f).drop_last() =~= invalidated_all(qs.drop_last(), f));
        lemma_qt_invalidated(qs.drop_last(), f);
    }
}

pub proof fn lemma_qt_push_empty(qs: Seq<Seq<QueueItem>>)
    ensures
        queued_total(qs.push(Seq::empty())) == queued_total(qs),
{
    assert(qs.push(Seq::<QueueItem>::empty()).drop_last() =~= qs);
}

impl TimerManager {
    /// Nothing observable differs from `o`.
    pub open spec fn same_all(&self, o: &Self) -> bool {
        &&& self.same_core(o)
        &&& self.same_timers(o)
        &&& self.same_slots(o)
        &&& self.spec_scopes() == o.spec_scopes()
        &&& self.spec_dispatch_table() == o.spec_dispatch_table()
    }

    /// Configuration and bindings that advancing the clock leaves alone.
    pub open spec fn same_config(&self, o: &Self) -> bool {
        &&& self.spec_context() == o.spec_context()
        &&& self.spec_mode() == o.spec_mode()
        &&& self.spec_limits() == o.spec_limits()
        &&& self.spec_budget() == o.spec_budget()
        &&& self.spec_config_error() == o.spec_config_error()
        &&& self.spec_running() == o.spec_running()
        &&& self.spec_trace() == o.spec_trace()
        &&& self.spec_slots() == o.spec_slots()
        &&& self.spec_dispatch_table() == o.spec_dispatch_table()
    }

    /// Mark the one-shot timer in slot `index` as delivered to its queue.
    fn mark_queued(&mut self, index: usize)
        requires
            old(self).wf(),
            index < old(self).timers@.len(),
        ensures
            final(self).wf(),
            final(self).same_core(old(self)),
            final(self).same_slots(old(self)),
            final(self).spec_scopes() == old(self).spec_scopes(),
            final(self).spec_dispatch_table() == old(self).spec_dispatch_table(),
            final(self).spec_timer_free() == old(self).spec_timer_free(),
            final(self).spec_live() == old(self).spec_live(),
            final(self).spec_next_sequence() == old(self).spec_next_sequence(),
            final(self).spec_schedules_this_tick() == old(self).spec_schedules_this_tick(),
            final(self).spec_timers().len() == old(self).spec_timers().len(),
            forall|h: TimerHandle| #[trigger] final(self).spec_timer_live(h) == old(self).spec_timer_live(h),
            final(self).spec_timers() == queued_at(old(self).spec_timers(), index as int),
    {
        let t = self.timers[index];
        if let Some(rec) = t.record {
            let ghost old_recs = records_of(self.timers@);
            let nrec = TimerRecord { queued: true, ..rec };
            self.timers.set(index, TimerSlot { generation: t.generation, record: Some(nrec) });
            proof {
                lemma_occupied_update(old_recs, index as int, Some(nrec), old_recs.len() as int);
                assert(records_of(self.timers@) =~= old_recs.update(index as int, Some(nrec)));
                assert forall|k: int| 0 <= k < self.timer_free@.len() implies self.timers@[
                    #[trigger] self.timer_free@[k] as int].record is None by {
                    assert(old(self).timers@[old(self).timer_free@[k] as int].record is None);
                }
                assert forall|i: int| 0 <= i < self.timers@.len() implies interval_ok(#[trigger] self.timers@[i]) by {
                    assert(interval_ok(old(self).timers@[i]));
                }
                assert forall|i: int| 0 <= i < self.timers@.len() && (#[trigger] self.timers@[i]).record is Some
                    implies self.timers@[i].generation < u32::MAX by {
                    assert(old(self).timers@[i].record is Some);
                }
            }
        }
    }

    /// Move the repeating timer in slot `index` to its next due tick.
    fn set_due(&mut self, index: usize, due: u64)
        requires
            old(self).wf(),
            index < old(self).timers@.len(),
            due > old(self).committed_tick,
        ensures
            final(self).wf(),
            final(self).same_core(old(self)),
            final(self).same_slots(old(self)),
            final(self).spec_scopes() == old(self).spec_scopes(),
            final(self).spec_dispatch_table() == old(self).spec_dispatch_table(),
            final(self).spec_timer_free() == old(self).spec_timer_free(),
            final(self).spec_live() == old(self).spec_live(),
            final(self).spec_next_sequence() == old(self).spec_next_sequence(),
            final(self).spec_schedules_this_tick() == old(self).spec_schedules_this_tick(),
            final(self).spec_timers().len() == old(self).spec_timers().len(),
            final(self).spec_timers() == due_at(old(self).spec_timers(), index as int, due),
    {
        let t = self.timers[index];
        if let Some(rec) = t.record {
            let ghost old_recs = records_of(self.timers@);
            let nrec = TimerRecord { due, ..rec };
            self.timers.set(index, TimerSlot { generation: t.generation, record: Some(nrec) });
            proof {
                lemma_occupied_update(old_recs, index as int, Some(nrec), old_recs.len() as int);
                assert(records_of(self.timers@) =~= old_recs.update(index as int, Some(nrec)));
                assert forall|k: int| 0 <= k < self.timer_free@.len() implies self.timers@[
                    #[trigger] self.timer_free@[k] as int].record is None by {
                    assert(old(self).timers@[old(self).timer_free@[k] as int].record is None);
                }
                assert forall|i: int| 0 <= i < self.timers@.len() implies interval_ok(#[trigger] self.timers@[i]) by {
                    assert(interval_ok(old(self).timers@[i]));
                }
                assert forall|i: int| 0 <= i < self.timers@.len() && (#[trigger] self.timers@[i]).record is Some
                    implies self.timers@[i].generation < u32::MAX by {
                    assert(old(self).timers@[i].record is Some);
                }
                assert forall|i: int| 0 <= i < self.timers@.len() && (#[trigger] self.timers@[i]).record is Some
                    && !self.timers@[i].record->0.queued implies self.timers@[i].record->0.due > self.committed_tick by {
                    if i != index {
                        assert(old(self).timers@[i] == self.timers@[i]);
                    }
                }
            }
        }
    }

    pub fn pump(&mut self, now_ms: u64) -> (r: TimerResult<AdvanceReport>)
        requires
            old(self).wf(),
        ensures
            final(self).wf(),
            old(self).spec_advance(final(self), now_ms, r),
    {
        self.advance(now_ms)
    }

    /// What advancing the clock to `to` yields, from this state to `new`.
    pub open spec fn spec_advance(&self, new: &Self, to: u64, r: TimerResult<AdvanceReport>) -> bool {
        match self.spec_ensure_running() {
            Some(e) => r matches Err(x) && x == e && new.same_all(self),
            None => if to < self.spec_committed_tick() {
                r matches Err(x) && x == TimerError::InvalidDueTick && new.same_all(self)
            } else if to == self.spec_committed_tick() {
                r matches Ok(rep) && rep.spec_firings().len() == 0 && rep.spec_rejections().len() == 0
                    && new.same_all(self)
            } else if preflight_total(self.spec_timers(), to, self.spec_timers().len() as int)
                > self.spec_budget().max_firings_per_advance {
                r matches Err(x) && x == TimerError::ScheduleBudgetExceeded && new.same_all(self)
            } else {
                &&& r matches Ok(rep) && {
                    &&& firings_sorted(rep.spec_firings())
                    &&& forall|k: int| 0 <= k < rep.spec_firings().len() ==> firing_of(self, #[trigger] rep.spec_firings()[k], to)
                    &&& forall|k: int| 0 <= k < rep.spec_firings().len()
                        ==> self.spec_committed_tick() < (#[trigger] rep.spec_firings()[k]).due_tick
                    &&& forall|k: int| 0 <= k < rep.spec_rejections().len() ==> (#[trigger] rep.spec_rejections()[k]).due_tick <= to
                    &&& forall|k: int| 0 <= k < rep.spec_rejections().len()
                        ==> self.spec_committed_tick() < (#[trigger] rep.spec_rejections()[k]).due_tick
                    &&& rep.spec_firings().len() + rep.spec_rejections().len()
                        <= preflight_total(self.spec_timers(), to, self.spec_timers().len() as int)
                    &&& rep.spec_firings() == advance_outcome(self, to).firings
                    &&& rep.spec_rejections() == advance_outcome(self, to).rejections
                }
                &&& holds_state(new, advance_outcome(self, to))
                &&& same_scopes_but_active(new.spec_scopes(), self.spec_scopes())
                &&& new.spec_next_sequence() == self.spec_next_sequence()
                &&& new.spec_committed_tick() == to
                &&& new.spec_schedules_this_tick() == 0
                &&& new.same_config(self)
            },
        }
    }

    /// Reject excessive catch-up atomically. The caller can retry smaller windows;
    /// no tick is committed, firing dropped, or allocation proportional to an
    /// unbounded time jump performed when this budget is exceeded.
    pub fn advance(&mut self, to_tick: u64) -> (r: TimerResult<AdvanceReport>)
        requires
            old(self).wf(),
        ensures
            final(self).wf(),
            old(self).spec_advance(final(self), to_tick, r),
    {
        self.ensure_running()?;
        if to_tick < self.committed_tick {
            return Err(TimerError::InvalidDueTick);
        }
        if to_tick == self.committed_tick {
            return Ok(AdvanceReport::new());
        }
        let _total = self.preflight(to_tick)?;
        let (collected, next_due) = self.collect(to_tick);
        let ghost owed_seq = collected@;
        let sorted = sort_firings(collected);
        let mut report = AdvanceReport::new();
        let ghost start = advance_start(old(self));
        let ghost ctx = old(self).context;
        proof {
            // Every one-shot timer owing a firing has that firing among the sorted ones,
            // and every owed firing is due after the committed tick.
            assert forall|x: int| 0 <= x < old(self).timers@.len() && owes_by(#[trigger] old(self).timers@[x], to_tick)
                && old(self).timers@[x].record->0.interval is None
                implies lists_handle(sorted@, handle_at(ctx, x, old(self).timers@[x]), 0) by {
                lemma_owed_all_lists(ctx, old(self).timers@, to_tick, old(self).timers@.len() as int, x);
                let h = handle_at(ctx, x, old(self).timers@[x]);
                let k = choose|k: int| 0 <= k < owed_seq.len() && (#[trigger] owed_seq[k]).handle == h;
                assert(sorted@.contains(owed_seq[k]));
                let j = choose|j: int| 0 <= j < sorted@.len() && sorted@[j] == owed_seq[k];
                assert(sorted@[j].handle == h);
            }
            assert forall|k: int| 0 <= k < sorted@.len() implies old(self).committed_tick < (#[trigger] sorted@[k]).due_tick by {
                assert(firing_of(old(self), sorted@[k], to_tick));
                let x = sorted@[k].handle.index as int;
                assert(old(self).timers@[x].record is Some);
            }
        }
        let mut i: usize = 0;
        while i < sorted.len()
            invariant
                i <= sorted@.len(),
                sorted@ == isort(owed_all(old(self).spec_context(), old(self).spec_timers(), to_tick, old(self).spec_timers().len() as int)),
                next_due@ == next_all(old(self).spec_context(), old(self).spec_timers(), to_tick, old(self).spec_timers().len() as int),
                start == advance_start(old(self)),
                holds_state(self, deliver_all(old(self), start, sorted@.take(i as int))),
                self.spec_next_sequence() == old(self).spec_next_sequence(),
                report.spec_firings() == deliver_all(old(self), start, sorted@.take(i as int)).firings,
                report.spec_rejections() == deliver_all(old(self), start, sorted@.take(i as int)).rejections,
                self.wf(),
                self.timers_retirable(),
                self.same_config(old(self)),
                self.committed_tick == old(self).committed_tick,
                self.schedules_this_tick == old(self).schedules_this_tick,
                firings_sorted(sorted@),
                forall|k: int| 0 <= k < sorted@.len() ==> firing_of(old(self), #[trigger] sorted@[k], to_tick),
                sorted@.len() <= preflight_total(old(self).spec_timers(), to_tick, old(self).spec_timers().len() as int),
                firings_sorted(report.spec_firings()),
                i < sorted@.len() ==> forall|k: int| 0 <= k < report.spec_firings().len()
                    ==> firing_le(#[trigger] report.spec_firings()[k], sorted@[i as int]),
                forall|k: int| 0 <= k < report.spec_firings().len() ==> firing_of(old(self), #[trigger] report.spec_firings()[k], to_tick),
                forall|k: int| 0 <= k < report.spec_rejections().len() ==> (#[trigger] report.spec_rejections()[k]).due_tick <= to_tick,
                report.spec_firings().len() + report.spec_rejections().len() <= i,
                ctx == old(self).context,
                self.context == ctx,
                self.timers@.len() == old(self).timers@.len(),
                same_scopes_but_active(self.spec_scopes(), old(self).spec_scopes()),
                forall|k: int| 0 <= k < sorted@.len() ==> old(self).committed_tick < (#[trigger] sorted@[k]).due_tick,
                forall|k: int| 0 <= k < report.spec_rejections().len()
                    ==> old(self).committed_tick < (#[trigger] report.spec_rejections()[k]).due_tick,
                forall|x: int| 0 <= x < self.timers@.len() && (#[trigger] self.timers@[x]).record is Some
                    && !self.timers@[x].record->0.queued ==> self.timers@[x] == old(self).timers@[x],
                forall|x: int| 0 <= x < self.timers@.len() && (#[trigger] self.timers@[x]) == old(self).timers@[x]
                    && owes_by(old(self).timers@[x], to_tick) && old(self).timers@[x].record->0.interval is None
                    ==> lists_handle(sorted@, handle_at(ctx, x, old(self).timers@[x]), i as int),
            decreases sorted@.len() - i,
        {
            let record = sorted[i];
            let ghost before = self.timers@;
            let ghost idx = record.handle.index as int;
            let ghost was_live = self.spec_timer_live(record.handle);
            let ghost d = deliver_all(old(self), start, sorted@.take(i as int));
            proof {
                assert(firing_of(old(self), sorted@[i as int], to_tick));
                assert(sorted@.take(i + 1).drop_last() =~= sorted@.take(i as int));
                assert(sorted@.take(i + 1).last() == record);
                assert(deliver_all(old(self), start, sorted@.take(i + 1)) == deliver_step(old(self), d, record));
                assert(self.spec_timer_live(record.handle) == live_in(old(self).spec_context(), d.timers, record.handle));
            }
            match self.get_timer(record.handle) {
                Err(_) => {},
                Ok(timer) => {
                    let slot = timer.slot;
                    let scope = timer.scope;
                    let one_shot = timer.interval.is_none();
                    match self.enqueue(record, scope, slot) {
                        Ok(()) => {
                            let ghost before = report.spec_firings();
                            report.push_firing(record);
                            proof {
                                assert forall|a: int, b: int| 0 <= a < b < report.spec_firings().len()
                                    implies firing_le(#[trigger] report.spec_firings()[a], #[trigger] report.spec_firings()[b]) by {
                                    if b == before.len() {
                                        assert(firing_le(before[a], sorted@[i as int]));
                                    }
                                }
                            }
                            if one_shot {
                                self.mark_queued(record.handle.index as usize);
                            }
                        },
                        Err(code) => {
                            report.push_rejection(FiringRejection {
                                handle: record.handle,
                                due_tick: record.due_tick,
                                schedule_sequence: record.schedule_sequence,
                                code,
                            });
                            self.diagnose(code, record);
                            self.retire(record.handle);
                        },
                    }
                },
            }
            proof {
                // Only the firing's own timer slot may have changed: retired, or (a
                // delivered one-shot) marked queued.
                assert(self.timers@.len() == before.len());
                assert forall|x: int| 0 <= x < self.timers@.len() && x != idx
                    implies #[trigger] self.timers@[x] == before[x] by {}
                assert(was_live && before[idx].record->0.interval is None ==> self.timers@[idx].record is None
                    || self.timers@[idx].record->0.queued);
                assert(was_live ==> self.timers@[idx] == before[idx] || self.timers@[idx].record is None
                    || self.timers@[idx].record->0.queued);
                assert(!was_live ==> self.timers@[idx] == before[idx]);
                assert forall|x: int| 0 <= x < self.timers@.len() && (#[trigger] self.timers@[x]).record is Some
                    && !self.timers@[x].record->0.queued implies self.timers@[x] == old(self).timers@[x] by {
                    if x != idx {
                        assert(self.timers@[x] == before[x]);
                    }
                }
                assert forall|x: int| 0 <= x < self.timers@.len() && (#[trigger] self.timers@[x]) == old(self).timers@[x]
                    && owes_by(old(self).timers@[x], to_tick) && old(self).timers@[x].record->0.interval is None
                    implies lists_handle(sorted@, handle_at(ctx, x, old(self).timers@[x]), i + 1) by {
                    let h = handle_at(ctx, x, old(self).timers@[x]);
                    assert(before[x] == old(self).timers@[x]);
                    let k = choose|k: int| i <= k < sorted@.len() && (#[trigger] sorted@[k]).handle == h;
                    if k == i {
                        assert(record.handle == h);
                        assert(idx == x);
                        assert(was_live);
                        assert(false);
                    }
                    assert(sorted@[k].handle == h);
                }
                if i + 1 < sorted@.len() {
                    assert(firing_le(sorted@[i as int], sorted@[i + 1]));
                    assert forall|k: int| 0 <= k < report.spec_firings().len()
                        implies firing_le(#[trigger] report.spec_firings()[k], sorted@[i + 1]) by {
                        if k == report.spec_firings().len() - 1 {
                        }
                    }
                }
            }
            i = i + 1;
        }
        proof {
            assert(sorted@.take(sorted@.len() as int) =~= sorted@);
        }
        let ghost delivered = deliver_all(old(self), start, sorted@);
        proof {
            // A live timer still waiting to fire is either due after `to_tick`, or a
            // repeating timer untouched so far that has its next due tick listed.
            assert forall|x: int| 0 <= x < self.timers@.len() && (#[trigger] self.timers@[x]).record is Some
                && !self.timers@[x].record->0.queued && self.timers@[x].record->0.due <= to_tick
                implies self.timers@[x] == old(self).timers@[x] && owes_by(old(self).timers@[x], to_tick)
                    && old(self).timers@[x].record->0.interval is Some
                    && lists_next(next_due@, handle_at(ctx, x, old(self).timers@[x]), 0) by {
                assert(self.timers@[x] == old(self).timers@[x]);
                if old(self).timers@[x].record->0.interval is None {
                    let h = handle_at(ctx, x, old(self).timers@[x]);
                    assert(lists_handle(sorted@, h, i as int));
                    assert(false);
                }
                lemma_next_all_lists(ctx, old(self).timers@, to_tick, old(self).timers@.len() as int, x);
            }
        }
        let mut j: usize = 0;
        while j < next_due.len()
            invariant
                j <= next_due@.len(),
                next_due@ == next_all(old(self).spec_context(), old(self).spec_timers(), to_tick, old(self).spec_timers().len() as int),
                holds_state(self, reschedule_all(old(self), delivered, next_due@.take(j as int))),
                self.spec_next_sequence() == old(self).spec_next_sequence(),
                report.spec_firings() == delivered.firings,
                report.spec_rejections() == delivered.rejections,
                self.wf(),
                self.timers_retirable(),
                self.same_config(old(self)),
                self.committed_tick == old(self).committed_tick,
                to_tick > old(self).committed_tick,
                forall|k: int| 0 <= k < next_due@.len() ==> (#[trigger] next_due@[k].1 matches Some(d) ==> d > to_tick),
                ctx == old(self).context,
                self.context == ctx,
                self.timers@.len() == old(self).timers@.len(),
                same_scopes_but_active(self.spec_scopes(), old(self).spec_scopes()),
                forall|x: int| 0 <= x < self.timers@.len() && (#[trigger] self.timers@[x]).record is Some
                    && !self.timers@[x].record->0.queued && self.timers@[x].record->0.due <= to_tick
                    ==> self.timers@[x] == old(self).timers@[x] && owes_by(old(self).timers@[x], to_tick)
                        && old(self).timers@[x].record->0.interval is Some
                        && lists_next(next_due@, handle_at(ctx, x, old(self).timers@[x]), j as int),
            decreases next_due@.len() - j,
        {
            let (handle, next) = next_due[j];
            let ghost before = self.timers@;
            let ghost idx = handle.index as int;
            let ghost was_live = self.spec_timer_live(handle);
            let ghost d = reschedule_all(old(self), delivered, next_due@.take(j as int));
            proof {
                assert(next_due@[j as int].1 == next);
                assert(next_due@.take(j + 1).drop_last() =~= next_due@.take(j as int));
                assert(next_due@.take(j + 1).last() == (handle, next));
                assert(self.spec_timer_live(handle) == live_in(old(self).spec_context(), d.timers, handle));
            }
            if self.get_timer(handle).is_ok() {
                match next {
                    Some(due) => self.set_due(handle.index as usize, due),
                    None => self.retire(handle),
                }
            }
            proof {
                // Only this entry's timer slot may have changed: moved past `to_tick` or retired.
                assert(self.timers@.len() == before.len());
                assert forall|x: int| 0 <= x < self.timers@.len() && x != idx
                    implies #[trigger] self.timers@[x] == before[x] by {}
                assert(was_live ==> self.timers@[idx].record is None
                    || self.timers@[idx].record->0.due > to_tick);
                assert(!was_live ==> self.timers@[idx] == before[idx]);
                assert forall|x: int| 0 <= x < self.timers@.len() && (#[trigger] self.timers@[x]).record is Some
                    && !self.timers@[x].record->0.queued && self.timers@[x].record->0.due <= to_tick
                    implies self.timers@[x] == old(self).timers@[x] && owes_by(old(self).timers@[x], to_tick)
                        && old(self).timers@[x].record->0.interval is Some
                        && lists_next(next_due@, handle_at(ctx, x, old(self).timers@[x]), j + 1) by {
                    let h = handle_at(ctx, x, old(self).timers@[x]);
                    if x == idx {
                        assert(!was_live);
                    }
                    assert(self.timers@[x] == before[x]);
                    let k = choose|k: int| j <= k < next_due@.len() && (#[trigger] next_due@[k]).0 == h;
                    if k == j {
                        assert(handle == h);
                        assert(idx == x);
                        assert(was_live);
                        assert(false);
                    }
                    assert(next_due@[k].0 == h);
                }
            }
            j = j + 1;
        }
        proof {
            assert(next_due@.take(next_due@.len() as int) =~= next_due@);
            lemma_reschedule_keeps_report(old(self), delivered, next_due@);
        }
        self.committed_tick = to_tick;
        self.schedules_this_tick = 0;
        Ok(report)
    }
}

/// A queue entry lifted out of its slot for ordered delivery, with the slot's state
/// and binding at that moment.
#[derive(Clone, Copy)]
pub struct Staged {
    pub state: SlotState,
    pub dispatch: Option<DispatchId>,
    pub item: QueueItem,
}

/// The entries of the first `n` delivery queues, slot by slot, each with its slot's
/// state and binding.
pub open spec fn staged_from(slots: Seq<SlotMeta>, queues: Seq<Seq<QueueItem>>, n: int) -> Seq<Staged>
    decreases n,
{
    if n <= 0 {
        Seq::empty()
    } else {
        staged_from(slots, queues, n - 1) + queues[n - 1].map_values(
            |item: QueueItem| Staged { state: slots[n - 1].state, dispatch: slots[n - 1].dispatch_id, item },
        )
    }
}

/// Where `x` goes among the first `p` staged entries of `out`.
pub open spec fn ins_pos_staged(out: Seq<Staged>, x: Staged, p: int) -> int
    decreases p,
{
    if p > 0 && !firing_le(out[p - 1].item.record, x.item.record) {
        ins_pos_staged(out, x, p - 1)
    } else {
        p
    }
}

/// `s` sorted by firing key by insertion, entries with equal keys kept in order.
pub open spec fn isort_staged(s: Seq<Staged>) -> Seq<Staged>
    decreases s.len(),
{
    if s.len() == 0 {
        s
    } else {
        let o = isort_staged(s.drop_last());
        o.insert(ins_pos_staged(o, s.last(), o.len() as int), s.last())
    }
}

/// What draining changes, as plain values.
pub ghost struct DrainState {
    pub timers: Seq<TimerSlot>,
    pub timer_free: Seq<u32>,
    pub live: nat,
    pub scopes: Seq<ScopeRecord>,
    pub events: Seq<SliceTraceEvent>,
    pub dropped: u64,
    pub records: Seq<FiringRecord>,
    pub delivered: Seq<Delivery>,
    pub rejections: Seq<FiringRejection>,
}

pub open spec fn drain_start(m: &TimerManager) -> DrainState {
    DrainState {
        timers: m.spec_timers(),
        timer_free: m.spec_timer_free(),
        live: m.spec_live() as nat,
        scopes: m.spec_scopes(),
        events: m.spec_trace().spec_events(),
        dropped: m.spec_trace().spec_dropped(),
        records: Seq::empty(),
        delivered: Seq::empty(),
        rejections: Seq::empty(),
    }
}

/// Why a queued entry is not delivered, if it is not: it is late when the manager is
/// shut down, the entry was invalidated, its slot closed or its scope is gone; it is
/// misrouted when its slot is bound elsewhere or its dispatch id was removed.
pub open spec fn drain_code(m: &TimerManager, st: Staged) -> Option<TimerError> {
    let id = st.item.record.slot_dispatch_id;
    if !m.spec_running() || !st.item.valid || st.state == SlotState::Closed || m.spec_resolve(st.item.scope) is Err {
        Some(TimerError::LateCompletion)
    } else if st.dispatch != Some(id) || !m.spec_dispatch_table().contains(id) {
        Some(TimerError::SlotDispatchMismatch)
    } else {
        None
    }
}

/// `d` with the timer `handle` retired, if it is live.
pub open spec fn drain_retired(ctx: u64, d: DrainState, handle: TimerHandle) -> DrainState {
    if !live_in(ctx, d.timers, handle) {
        d
    } else {
        let index = handle.index as int;
        let rec = d.timers[index].record->0;
        DrainState {
            timers: d.timers.update(index, retired_slot(d.timers[index])),
            timer_free: d.timer_free.push(handle.index),
            live: (d.live - 1) as nat,
            scopes: match scope_pos(d.scopes, rec.scope.scope_id) {
                Some(j) => d.scopes.update(j, dec_active(d.scopes[j], 1)),
                None => d.scopes,
            },
            ..d
        }
    }
}

/// Draining one entry: rejected with its code and its timer retired, or delivered,
/// traced when asked, and a one-shot timer retired.
pub open spec fn drain_step(m: &TimerManager, emit: bool, d: DrainState, st: Staged) -> DrainState {
    let r = st.item.record;
    match drain_code(m, st) {
        Some(code) => drain_retired(
            m.spec_context(),
            DrainState {
                rejections: d.rejections.push(FiringRejection {
                    handle: r.handle,
                    due_tick: r.due_tick,
                    schedule_sequence: r.schedule_sequence,
                    code,
                }),
                ..d
            },
            r.handle,
        ),
        None => {
            let d1 = DrainState {
                records: d.records.push(r),
                delivered: d.delivered.push(Delivery { dispatch_id: r.slot_dispatch_id, due_tick: r.due_tick, handle: r.handle }),
                ..d
            };
            let event = SliceTraceEvent::Dispatched { dispatch_id: r.slot_dispatch_id, due_tick: r.due_tick };
            let d2 = if !emit {
                d1
            } else if d1.events.len() < TRACE_CAPACITY {
                DrainState { events: d1.events.push(event), ..d1 }
            } else {
                DrainState { dropped: if d1.dropped == u64::MAX { u64::MAX } else { (d1.dropped + 1) as u64 }, ..d1 }
            };
            if live_in(m.spec_context(), d2.timers, r.handle) && d2.timers[r.handle.index as int].record->0.interval is None {
                drain_retired(m.spec_context(), d2, r.handle)
            } else {
                d2
            }
        },
    }
}

pub open spec fn drain_all(m: &TimerManager, emit: bool, d: DrainState, sts: Seq<Staged>) -> DrainState
    decreases sts.len(),
{
    if sts.len() == 0 {
        d
    } else {
        drain_step(m, emit, drain_all(m, emit, d, sts.drop_last()), sts.last())
    }
}

/// Everything draining `m` does: every queued entry, by firing key, is delivered or
/// rejected.
pub open spec fn drain_outcome(m: &TimerManager, emit: bool) -> DrainState {
    drain_all(m, emit, drain_start(m), isort_staged(staged_from(m.spec_slots(), m.spec_queues(), m.spec_slots().len() as int)))
}

/// `m` holds what `d` says of the state draining changes.
pub open spec fn holds_drain(m: &TimerManager, d: DrainState) -> bool {
    &&& m.spec_timers() == d.timers
    &&& m.spec_timer_free() == d.timer_free
    &&& m.spec_live() == d.live
    &&& m.spec_scopes() == d.scopes
    &&& m.spec_trace().spec_events() == d.events
    &&& m.spec_trace().spec_dropped() == d.dropped
}

spec fn staged_sorted(s: Seq<Staged>) -> bool {
    forall|i: int, j: int| 0 <= i < j < s.len() ==> firing_le(#[trigger] s[i].item.record, #[trigger] s[j].item.record)
}

/// `item` waits in a queue of `m` whose slot is in `state` bound to `dispatch`.
pub open spec fn queued_in(m: &TimerManager, state: SlotState, dispatch: Option<DispatchId>, item: QueueItem) -> bool {
    exists|i: int| 0 <= i < m.spec_slots().len() && m.spec_slots()[i].state == state
        && m.spec_slots()[i].dispatch_id == dispatch && #[trigger] m.spec_queues()[i].contains(item)
}

/// Stable insertion sort of staged entries by firing key.
fn sort_staged(v: Vec<Staged>) -> (out: Vec<Staged>)
    ensures
        out@ == isort_staged(v@),
        staged_sorted(out@),
        out@.len() == v@.len(),
        forall|k: int| 0 <= k < out@.len() ==> v@.contains(#[trigger] out@[k]),
{
    let mut out: Vec<Staged> = Vec::new();
    let mut i: usize = 0;
    while i < v.len()
        invariant
            i <= v@.len(),
            out@.len() == i,
            out@ == isort_staged(v@.take(i as int)),
            staged_sorted(out@),
            forall|k: int| 0 <= k < out@.len() ==> v@.contains(#[trigger] out@[k]),
            forall|k: int| 0 <= k < i ==> out@.contains(#[trigger] v@[k]),
        decreases v@.len() - i,
    {
        let x = v[i];
        let mut p: usize = out.len();
        while p > 0 && firing_less(&x.item.record, &out[p - 1].item.record)
            invariant
                p <= out@.len(),
                forall|k: int| p <= k < out@.len() ==> !firing_le(#[trigger] out@[k].item.record, x.item.record),
                ins_pos_staged(out@, x, out@.len() as int) == ins_pos_staged(out@, x, p as int),
            decreases p,
        {
            p = p - 1;
        }
        proof {
            assert(v@.take(i + 1).drop_last() =~= v@.take(i as int));
            assert(v@.take(i + 1).last() == x);
        }
        proof {
            if p > 0 {
                assert(firing_le(out@[p - 1].item.record, x.item.record));
            }
        }
        let ghost before = out@;
        out.insert(p, x);
        proof {
            assert(out@ == before.insert(p as int, x));
            assert forall|a: int, b: int| 0 <= a < b < out@.len() implies firing_le(
                #[trigger] out@[a].item.record, #[trigger] out@[b].item.record) by {
                if a < p && b < p {
                    assert(out@[a] == before[a] && out@[b] == before[b]);
                } else if a < p && b == p {
                    assert(out@[a] == before[a]);
                    assert(firing_le(before[a].item.record, before[p - 1].item.record) || a == p - 1);
                } else if a < p && b > p {
                    assert(out@[a] == before[a] && out@[b] == before[b - 1]);
                } else if a == p {
                    assert(out@[b] == before[b - 1]);
                    assert(!firing_le(before[b - 1].item.record, x.item.record));
                } else {
                    assert(out@[a] == before[a - 1] && out@[b] == before[b - 1]);
                }
            }
            assert forall|k: int| 0 <= k < out@.len() implies v@.contains(#[trigger] out@[k]) by {
                if k < p {
                    assert(out@[k] == before[k]);
                } else if k == p {
                    assert(v@[i as int] == x);
                } else {
                    assert(out@[k] == before[k - 1]);
                }
            }
            assert forall|k: int| 0 <= k < i + 1 implies out@.contains(#[trigger] v@[k]) by {
                if k == i {
                    assert(out@[p as int] == x);
                } else {
                    assert(before.contains(v@[k]));
                    let j = choose|j: int| 0 <= j < before.len() && before[j] == v@[k];
                    if j < p {
                        assert(out@[j] == before[j]);
                    } else {
                        assert(out@[j + 1] == before[j]);
                    }
                }
            }
        }
        i = i + 1;
    }
    proof {
        assert(v@.take(v@.len() as int) =~= v@);
    }
    out
}

/// A delivered firing came from a valid entry of a slot that was not closed,
/// bound to the record's dispatch id, in a live scope.
pub open spec fn deliverable(m: &TimerManager, r: FiringRecord) -> bool {
    exists|item: QueueItem, state: SlotState|
        #![trigger queued_in(m, state, Some(r.slot_dispatch_id), item)]
        item.record == r && item.valid && state != SlotState::Closed
        && queued_in(m, state, Some(r.slot_dispatch_id), item)
        && m.spec_dispatch_table().contains(r.slot_dispatch_id)
        && m.spec_resolve(item.scope) is Ok
}

impl TimerManager {
    /// Lift every queued entry out of its slot, in slot order then queue order.
    fn take_queues(&mut self) -> (staged: Vec<Staged>)
        requires
            old(self).wf(),
        ensures
            final(self).wf(),
            final(self).same_core(old(self)),
            final(self).same_timers(old(self)),
            final(self).spec_scopes() == old(self).spec_scopes(),
            final(self).spec_dispatch_table() == old(self).spec_dispatch_table(),
            final(self).spec_slots() == old(self).spec_slots(),
            final(self).spec_pending() == 0,
            final(self).spec_queues().len() == old(self).spec_queues().len(),
            forall|i: int| 0 <= i < final(self).spec_queues().len() ==> (#[trigger] final(self).spec_queues()[i]).len() == 0,
            staged@.len() == old(self).spec_pending(),
            staged@ == staged_from(old(self).spec_slots(), old(self).spec_queues(), old(self).spec_slots().len() as int),
            forall|k: int| 0 <= k < staged@.len() ==> queued_in(old(self), #[trigger] staged@[k].state, staged@[k].dispatch, staged@[k].item),
    {
        let mut staged: Vec<Staged> = Vec::new();
        let n = self.slots.len();
        let mut i: usize = 0;
        while i < n
            invariant
                n == self.slots@.len(),
                i <= n,
                self.slots@ == old(self).slots@,
                self.queues@.len() == n,
                self.same_core(old(self)),
                self.same_timers(old(self)),
                self.scopes@ == old(self).scopes@,
                self.dispatch_table@ == old(self).dispatch_table@,
                self.pending == old(self).pending,
                old(self).wf(),
                forall|j: int| 0 <= j < i ==> (#[trigger] self.queues@[j])@.len() == 0,
                forall|j: int| i <= j < n ==> (#[trigger] self.queues@[j])@ == old(self).queues@[j]@,
                staged@.len() == queued_total(old(self).spec_queues().subrange(0, i as int)),
                staged@ == staged_from(old(self).spec_slots(), old(self).spec_queues(), i as int),
                forall|k: int| 0 <= k < staged@.len() ==> queued_in(old(self), #[trigger] staged@[k].state, staged@[k].dispatch, staged@[k].item),
            decreases n - i,
        {
            let mut q: Vec<QueueItem> = Vec::new();
            std::mem::swap(&mut q, &mut self.queues[i]);
            let meta = self.slots[i];
            proof {
                assert(q@ == old(self).spec_queues()[i as int]);
                lemma_qt_prefix(old(self).spec_queues(), i + 1);
                assert(old(self).spec_queues().subrange(0, i + 1).drop_last() =~= old(self).spec_queues().subrange(0, i as int));
                assert(old(self).spec_queues().subrange(0, i + 1).last() == q@);
            }
            let ghost start = staged@.len();
            let ghost base = staged@;
            let mut k: usize = 0;
            while k < q.len()
                invariant
                    k <= q@.len(),
                    staged@.len() == start + k,
                    base.len() == start,
                    staged@.subrange(0, start as int) == base,
                    forall|j: int| 0 <= j < k ==> #[trigger] staged@[start + j] == (Staged {
                        state: meta.state,
                        dispatch: meta.dispatch_id,
                        item: q@[j],
                    }),
                    q@ == old(self).spec_queues()[i as int],
                    i < n,
                    n == old(self).slots@.len(),
                    meta == old(self).slots@[i as int],
                    start + q@.len() <= old(self).pending,
                    old(self).wf(),
                    forall|j: int| 0 <= j < staged@.len() ==> queued_in(old(self), #[trigger] staged@[j].state, staged@[j].dispatch, staged@[j].item),
                decreases q@.len() - k,
            {
                let item = q[k];
                let ghost before = staged@;
                staged.push(Staged { state: meta.state, dispatch: meta.dispatch_id, item });
                proof {
                    assert(staged@.subrange(0, start as int) =~= before.subrange(0, start as int));
                    assert forall|j: int| 0 <= j < k + 1 implies #[trigger] staged@[start + j] == (Staged {
                        state: meta.state,
                        dispatch: meta.dispatch_id,
                        item: q@[j],
                    }) by {
                        if j < k {
                            assert(staged@[start + j] == before[start + j]);
                        }
                    }
                    assert(old(self).spec_queues()[i as int].contains(item)) by {
                        assert(old(self).spec_queues()[i as int][k as int] == item);
                    }
                    assert(queued_in(old(self), meta.state, meta.dispatch_id, item));
                }
                k = k + 1;
            }
            proof {
                let f = |item: QueueItem| Staged {
                    state: old(self).spec_slots()[i as int].state,
                    dispatch: old(self).spec_slots()[i as int].dispatch_id,
                    item,
                };
                let tail = old(self).spec_queues()[i as int].map_values(f);
                assert(staged_from(old(self).spec_slots(), old(self).spec_queues(), i + 1) == base + tail);
                assert forall|j: int| 0 <= j < staged@.len() implies #[trigger] staged@[j] == (base + tail)[j] by {
                    if j < start {
                        assert(staged@[j] == staged@.subrange(0, start as int)[j]);
                    } else {
                        assert(staged@[start + (j - start)] == (Staged { state: meta.state, dispatch: meta.dispatch_id, item: q@[j - start] }));
                    }
                }
                assert(staged@ =~= base + tail);
            }
            i = i + 1;
        }
        proof {
            assert(old(self).spec_queues().subrange(0, n as int) =~= old(self).spec_queues());
        }
        self.pending = 0;
        proof {
            assert forall|j: int| 0 <= j < self.spec_queues().len() implies (#[trigger] self.spec_queues()[j]).len() == 0 by {}
            lemma_qt_all_empty(self.spec_queues());
        }
        staged
    }

    pub fn drain_records(&mut self) -> (r: TimerResult<Vec<FiringRecord>>)
        requires
            old(self).wf(),
        ensures
            final(self).wf(),
            match old(self).spec_ensure_running() {
                Some(e) => r == Err::<Vec<FiringRecord>, TimerError>(e) && final(self).same_all(old(self)),
                None => r matches Ok(v) && exists|rep: DrainReport| old(self).spec_drain(final(self), false, rep)
                    && v@ == rep.spec_records(),
            },
    {
        self.ensure_running()?;
        let report = self.drain_internal(false);
        Ok(report.into_records())
    }

    pub fn drain(&mut self) -> (r: DrainReport)
        requires
            old(self).wf(),
        ensures
            final(self).wf(),
            old(self).spec_drain(final(self), true, r),
    {
        self.drain_internal(true)
    }

    /// What draining every queue yields, from this state to `new`.
    pub open spec fn spec_drain(&self, new: &Self, emit_trace: bool, r: DrainReport) -> bool {
        &&& new.spec_pending() == 0
        &&& new.spec_queues().len() == self.spec_queues().len()
        &&& forall|i: int| 0 <= i < new.spec_queues().len() ==> (#[trigger] new.spec_queues()[i]).len() == 0
        &&& r.spec_records().len() + r.spec_rejections().len() == self.spec_pending()
        &&& r.spec_delivered().len() == r.spec_records().len()
        &&& firings_sorted(r.spec_records())
        &&& forall|k: int| 0 <= k < r.spec_records().len() ==> #[trigger] r.spec_delivered()[k] == (Delivery {
            dispatch_id: r.spec_records()[k].slot_dispatch_id,
            due_tick: r.spec_records()[k].due_tick,
            handle: r.spec_records()[k].handle,
        })
        &&& forall|k: int| 0 <= k < r.spec_records().len() ==> deliverable(self, #[trigger] r.spec_records()[k])
        &&& forall|k: int| 0 <= k < r.spec_rejections().len() ==> (#[trigger] r.spec_rejections()[k]).code
            == TimerError::LateCompletion || r.spec_rejections()[k].code == TimerError::SlotDispatchMismatch
        &&& !self.spec_running() ==> r.spec_records().len() == 0
        &&& !emit_trace ==> new.spec_trace() == self.spec_trace()
        &&& holds_drain(new, drain_outcome(self, emit_trace))
        &&& same_scopes_but_active(new.spec_scopes(), self.spec_scopes())
        &&& r.spec_records() == drain_outcome(self, emit_trace).records
        &&& r.spec_delivered() == drain_outcome(self, emit_trace).delivered
        &&& r.spec_rejections() == drain_outcome(self, emit_trace).rejections
        &&& new.spec_diagnostics() == self.spec_diagnostics()
        &&& new.spec_diagnostics_dropped() == self.spec_diagnostics_dropped()
        &&& new.spec_next_sequence() == self.spec_next_sequence()
        &&& new.spec_schedules_this_tick() == self.spec_schedules_this_tick()
        &&& new.spec_mode() == self.spec_mode()
        &&& new.spec_limits() == self.spec_limits()
        &&& new.spec_budget() == self.spec_budget()
        &&& new.spec_context() == self.spec_context()
        &&& new.spec_running() == self.spec_running()
        &&& new.spec_committed_tick() == self.spec_committed_tick()
        &&& new.spec_slots() == self.spec_slots()
        &&& new.spec_dispatch_table() == self.spec_dispatch_table()
        &&& new.spec_config_error() == self.spec_config_error()
    }

    fn drain_internal(&mut self, emit_trace: bool) -> (r: DrainReport)
        requires
            old(self).wf(),
        ensures
            final(self).wf(),
            old(self).spec_drain(final(self), emit_trace, r),
    {
        let mut report = DrainReport::new();
        let taken = self.take_queues();
        let staged = sort_staged(taken);
        let ghost mid = *self;
        let ghost start = drain_start(old(self));
        let mut i: usize = 0;
        while i < staged.len()
            invariant
                i <= staged@.len(),
                staged@ == isort_staged(staged_from(old(self).spec_slots(), old(self).spec_queues(), old(self).spec_slots().len() as int)),
                start == drain_start(old(self)),
                holds_drain(self, drain_all(old(self), emit_trace, start, staged@.take(i as int))),
                report.spec_records() == drain_all(old(self), emit_trace, start, staged@.take(i as int)).records,
                report.spec_delivered() == drain_all(old(self), emit_trace, start, staged@.take(i as int)).delivered,
                report.spec_rejections() == drain_all(old(self), emit_trace, start, staged@.take(i as int)).rejections,
                self.spec_diagnostics() == old(self).spec_diagnostics(),
                self.spec_diagnostics_dropped() == old(self).spec_diagnostics_dropped(),
                self.spec_next_sequence() == old(self).spec_next_sequence(),
                self.spec_schedules_this_tick() == old(self).spec_schedules_this_tick(),
                self.spec_mode() == old(self).spec_mode(),
                self.spec_limits() == old(self).spec_limits(),
                self.spec_budget() == old(self).spec_budget(),
                self.wf(),
                self.timers_retirable(),
                self.pending == 0,
                self.spec_queues() == mid.spec_queues(),
                forall|j: int| 0 <= j < self.spec_queues().len() ==> (#[trigger] self.spec_queues()[j]).len() == 0,
                self.spec_queues().len() == old(self).spec_queues().len(),
                self.context == old(self).context,
                self.running == old(self).running,
                self.committed_tick == old(self).committed_tick,
                self.slots@ == old(self).slots@,
                self.dispatch_table@ == old(self).dispatch_table@,
                self.config_error == old(self).config_error,
                !emit_trace ==> self.trace == old(self).trace,
                staged@.len() == old(self).pending,
                staged_sorted(staged@),
                forall|k: int| 0 <= k < staged@.len() ==> taken@.contains(#[trigger] staged@[k]),
                forall|k: int| 0 <= k < taken@.len() ==> queued_in(old(self), #[trigger] taken@[k].state, taken@[k].dispatch, taken@[k].item),
                same_scopes_but_active(self.spec_scopes(), old(self).spec_scopes()),
                unique_scope_ids(old(self).spec_scopes()),
                report.spec_records().len() + report.spec_rejections().len() == i,
                report.spec_delivered().len() == report.spec_records().len(),
                firings_sorted(report.spec_records()),
                i < staged@.len() ==> forall|k: int| 0 <= k < report.spec_records().len()
                    ==> firing_le(#[trigger] report.spec_records()[k], staged@[i as int].item.record),
                forall|k: int| 0 <= k < report.spec_records().len() ==> #[trigger] report.spec_delivered()[k] == (Delivery {
                    dispatch_id: report.spec_records()[k].slot_dispatch_id,
                    due_tick: report.spec_records()[k].due_tick,
                    handle: report.spec_records()[k].handle,
                }),
                forall|k: int| 0 <= k < report.spec_records().len() ==> deliverable(old(self), #[trigger] report.spec_records()[k]),
                forall|k: int| 0 <= k < report.spec_rejections().len() ==> (#[trigger] report.spec_rejections()[k]).code
                    == TimerError::LateCompletion || report.spec_rejections()[k].code == TimerError::SlotDispatchMismatch,
                !self.running ==> report.spec_records().len() == 0,
            decreases staged@.len() - i,
        {
            let st = staged[i];
            let item = st.item;
            let ghost d = drain_all(old(self), emit_trace, start, staged@.take(i as int));
            proof {
                assert(staged@.take(i + 1).drop_last() =~= staged@.take(i as int));
                assert(staged@.take(i + 1).last() == st);
                assert(drain_all(old(self), emit_trace, start, staged@.take(i + 1)) == drain_step(old(self), emit_trace, d, st));
                lemma_resolve_same(self, old(self), item.scope);
                assert(taken@.contains(staged@[i as int]));
                let t = choose|t: int| 0 <= t < taken@.len() && taken@[t] == staged@[i as int];
                assert(queued_in(old(self), taken@[t].state, taken@[t].dispatch, taken@[t].item));
            }
            let late = !self.running || !item.valid || st.state == SlotState::Closed
                || self.resolve_scope(item.scope).is_err();
            let code = if late {
                Some(TimerError::LateCompletion)
            } else if st.dispatch != Some(item.record.slot_dispatch_id)
                || self.find_dispatch(item.record.slot_dispatch_id).is_none() {
                Some(TimerError::SlotDispatchMismatch)
            } else {
                None
            };
            match code {
                Some(code) => {
                    report.push_rejection(FiringRejection {
                        handle: item.record.handle,
                        due_tick: item.record.due_tick,
                        schedule_sequence: item.record.schedule_sequence,
                        code,
                    });
                    self.retire(item.record.handle);
                },
                None => {
                    proof {
                        assert(old(self).spec_resolve(item.scope) is Ok) by {
                            assert(self.spec_resolve(item.scope) is Ok);
                            lemma_resolve_same(self, old(self), item.scope);
                        }
                        assert(deliverable(old(self), item.record)) by {
                            assert(queued_in(old(self), st.state, Some(item.record.slot_dispatch_id), item));
                        }
                    }
                    let ghost before = report.spec_records();
                    report.push_record(item.record);
                    report.push_delivery(Delivery {
                        dispatch_id: item.record.slot_dispatch_id,
                        due_tick: item.record.due_tick,
                        handle: item.record.handle,
                    });
                    proof {
                        assert forall|a: int, b: int| 0 <= a < b < report.spec_records().len()
                            implies firing_le(#[trigger] report.spec_records()[a], #[trigger] report.spec_records()[b]) by {
                            if b == before.len() {
                                assert(firing_le(before[a], staged@[i as int].item.record));
                            }
                        }
                    }
                    if emit_trace {
                        self.trace.push(SliceTraceEvent::Dispatched {
                            dispatch_id: item.record.slot_dispatch_id,
                            due_tick: item.record.due_tick,
                        });
                    }
                    let one_shot = match self.get_timer(item.record.handle) {
                        Ok(t) => t.interval.is_none(),
                        Err(_) => false,
                    };
                    if one_shot {
                        self.retire(item.record.handle);
                    }
                },
            }
            proof {
                if i + 1 < staged@.len() {
                    assert(firing_le(staged@[i as int].item.record, staged@[i + 1].item.record));
                }
            }
            i = i + 1;
        }
        proof {
            assert(staged@.take(staged@.len() as int) =~= staged@);
        }
        report
    }
}

pub proof fn lemma_qt_all_empty(qs: Seq<Seq<QueueItem>>)
    requires
        forall|i: int| 0 <= i < qs.len() ==> (#[trigger] qs[i]).len() == 0,
    ensures
        queued_total(qs) == 0,
    decreases qs.len(),
{
    if qs.len() > 0 {
        lemma_qt_all_empty(qs.drop_last());
    }
}

impl TimerManager {
    /// Test hook: give the live timer `handle` names another generation and
    /// return the handle that now names it. A live timer at the last generation
    /// could never be retired, so that generation is not accepted here.
    pub fn force_timer_generation(&mut self, handle: TimerHandle, generation: u32) -> (r: TimerHandle)
        requires
            old(self).wf(),
            generation < u32::MAX,
        ensures
            final(self).wf(),
            r == (TimerHandle { index: handle.index, generation, context: handle.context }),
            old(self).spec_timer_live(handle) ==> final(self).spec_timers() == old(self).spec_timers().update(
                handle.index as int,
                TimerSlot { generation, record: old(self).spec_timers()[handle.index as int].record },
            ),
            !old(self).spec_timer_live(handle) ==> final(self).spec_timers() == old(self).spec_timers(),
            final(self).spec_timer_free() == old(self).spec_timer_free(),
            final(self).same_core(old(self)),
            final(self).same_slots(old(self)),
            final(self).spec_scopes() == old(self).spec_scopes(),
    {
        if self.get_timer(handle).is_ok() {
            let i = handle.index as usize;
            let t = self.timers[i];
            let ghost old_recs = records_of(self.timers@);
            self.timers.set(i, TimerSlot { generation, record: t.record });
            proof {
                assert(records_of(self.timers@) =~= old_recs);
                assert forall|k: int| 0 <= k < self.timers@.len() implies interval_ok(#[trigger] self.timers@[k]) by {
                    assert(interval_ok(old(self).timers@[k]));
                }
                assert forall|k: int| 0 <= k < self.timers@.len() && (#[trigger] self.timers@[k]).record is Some
                    implies self.timers@[k].generation < u32::MAX by {
                    if k != i {
                        assert(old(self).timers@[k].record is Some);
                    }
                }
            }
        }
        TimerHandle { index: handle.index, generation, context: handle.context }
    }

    /// Test hook: set the generation of scope `id`, if registered.
    pub fn force_scope_generation(&mut self, id: u64, generation: u32)
        requires
            old(self).wf(),
        ensures
            final(self).wf(),
            final(self).spec_scopes() == match scope_pos(old(self).spec_scopes(), id) {
                Some(j) => old(self).spec_scopes().update(j, ScopeRecord { generation, ..old(self).spec_scopes()[j] }),
                None => old(self).spec_scopes(),
            },
            final(self).same_core(old(self)),
            final(self).same_slots(old(self)),
            final(self).same_timers(old(self)),
    {
        proof {
            lemma_scope_pos_some(self.scopes@, id);
        }
        if let Some(j) = self.find_scope(id) {
            let r = self.scopes[j];
            self.scopes.set(j, ScopeRecord { generation, ..r });
            proof {
                assert forall|a: int, b: int| 0 <= a < self.scopes@.len() && 0 <= b < self.scopes@.len() && a != b
                    implies self.scopes@[a].id != self.scopes@[b].id by {
                    assert(old(self).scopes@[a].id != old(self).scopes@[b].id);
                }
            }
        }
    }
}

impl TimerLimits {
    pub open spec fn contract_spec() -> TimerLimits {
        TimerLimits {
            max_active_timers_per_scope: MAX_ACTIVE_TIMERS_PER_SCOPE,
            max_schedules_per_tick: MAX_SCHEDULES_PER_TICK,
            max_schedules_per_pump: MAX_SCHEDULES_PER_PUMP,
            delivery_queue_depth_per_slot: DELIVERY_QUEUE_DEPTH_PER_SLOT,
            min_interval_ticks: MIN_INTERVAL_TICKS,
            min_interval_ms: MIN_INTERVAL_MS,
        }
    }
}

impl TimerBudget {
    pub open spec fn default_spec() -> TimerBudget {
        TimerBudget {
            max_scopes: 4096,
            max_slots: 4096,
            max_timers: 65536,
            max_pending_records: 65536,
            max_firings_per_advance: 16384,
            max_diagnostics: 1024,
        }
    }
}

} // verus!
