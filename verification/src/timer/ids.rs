//! Domain-neutral timer identities, budgets and bounded diagnostics.
use vstd::prelude::*;
use crate::timer::error::{TimerError, TimerResult};

verus! {

pub const MAX_ACTIVE_TIMERS_PER_SCOPE: u32 = 1024;
pub const MAX_SCHEDULES_PER_TICK: u32 = 4096;
pub const MAX_SCHEDULES_PER_PUMP: u32 = 4096;
pub const DELIVERY_QUEUE_DEPTH_PER_SLOT: usize = 256;
pub const MIN_INTERVAL_TICKS: u64 = 1;
pub const MIN_INTERVAL_MS: u64 = 1;
/// Trace events kept before further events are only counted.
pub const TRACE_CAPACITY: usize = 1024;

#[derive(Clone, Copy, Debug, PartialEq, Eq, Structural)]
pub enum TimerMode {
    WallClock,
    TickFrame,
}

impl TimerMode {
    pub fn from_abi(raw: u32) -> (m: Option<Self>)
        ensures
            raw == 0 ==> m == Some(TimerMode::WallClock),
            raw == 1 ==> m == Some(TimerMode::TickFrame),
            raw > 1 ==> m is None,
    {
        match raw {
            0 => Some(TimerMode::WallClock),
            1 => Some(TimerMode::TickFrame),
            _ => None,
        }
    }

    pub fn to_abi(self) -> (raw: u32)
        ensures
            raw == (if self == TimerMode::WallClock { 0u32 } else { 1u32 }),
    {
        match self {
            TimerMode::WallClock => 0,
            TimerMode::TickFrame => 1,
        }
    }
}

#[derive(Clone, Copy, Debug, PartialEq, Eq, Structural)]
pub struct TimerLimits {
    pub max_active_timers_per_scope: u32,
    pub max_schedules_per_tick: u32,
    pub max_schedules_per_pump: u32,
    pub delivery_queue_depth_per_slot: usize,
    pub min_interval_ticks: u64,
    pub min_interval_ms: u64,
}

impl TimerLimits {
    /// The contractual limits.
    pub fn contract() -> (l: Self)
        ensures
            l.max_active_timers_per_scope == MAX_ACTIVE_TIMERS_PER_SCOPE,
            l.max_schedules_per_tick == MAX_SCHEDULES_PER_TICK,
            l.max_schedules_per_pump == MAX_SCHEDULES_PER_PUMP,
            l.delivery_queue_depth_per_slot == DELIVERY_QUEUE_DEPTH_PER_SLOT,
            l.min_interval_ticks == MIN_INTERVAL_TICKS,
            l.min_interval_ms == MIN_INTERVAL_MS,
    {
        TimerLimits {
            max_active_timers_per_scope: MAX_ACTIVE_TIMERS_PER_SCOPE,
            max_schedules_per_tick: MAX_SCHEDULES_PER_TICK,
            max_schedules_per_pump: MAX_SCHEDULES_PER_PUMP,
            delivery_queue_depth_per_slot: DELIVERY_QUEUE_DEPTH_PER_SLOT,
            min_interval_ticks: MIN_INTERVAL_TICKS,
            min_interval_ms: MIN_INTERVAL_MS,
        }
    }

    /// Zero intervals come first, then zero budgets.
    pub open spec fn spec_validate(self) -> Option<TimerError> {
        if self.min_interval_ticks == 0 || self.min_interval_ms == 0 {
            Some(TimerError::InvalidInterval)
        } else if self.max_active_timers_per_scope == 0 || self.max_schedules_per_tick == 0
            || self.max_schedules_per_pump == 0 || self.delivery_queue_depth_per_slot == 0 {
            Some(TimerError::ScheduleBudgetExceeded)
        } else {
            None
        }
    }

    pub fn validate(self) -> (r: TimerResult<()>)
        ensures
            match self.spec_validate() {
                Some(e) => r == Err::<(), TimerError>(e),
                None => r is Ok,
            },
    {
        if self.min_interval_ticks == 0 || self.min_interval_ms == 0 {
            return Err(TimerError::InvalidInterval);
        }
        if self.max_active_timers_per_scope == 0 || self.max_schedules_per_tick == 0
            || self.max_schedules_per_pump == 0 || self.delivery_queue_depth_per_slot == 0 {
            return Err(TimerError::ScheduleBudgetExceeded);
        }
        Ok(())
    }
}

/// Manager-wide bounds, including tombstones, invalid queue entries and staging.
#[derive(Clone, Copy, Debug, PartialEq, Eq, Structural)]
pub struct TimerBudget {
    pub max_scopes: usize,
    pub max_slots: usize,
    pub max_timers: usize,
    pub max_pending_records: usize,
    pub max_firings_per_advance: usize,
    pub max_diagnostics: usize,
}

impl Default for TimerBudget {
    fn default() -> (b: Self)
        ensures
            b.max_scopes == 4096,
            b.max_slots == 4096,
            b.max_timers == 65536,
            b.max_pending_records == 65536,
            b.max_firings_per_advance == 16384,
            b.max_diagnostics == 1024,
    {
        TimerBudget {
            max_scopes: 4096,
            max_slots: 4096,
            max_timers: 65536,
            max_pending_records: 65536,
            max_firings_per_advance: 16384,
            max_diagnostics: 1024,
        }
    }
}

impl TimerBudget {
    pub open spec fn spec_valid(self) -> bool {
        !(self.max_scopes == 0 || self.max_slots == 0 || self.max_timers == 0 || self.max_slots
            > u32::MAX || self.max_timers > u32::MAX || self.max_pending_records == 0
            || self.max_pending_records > u32::MAX || self.max_firings_per_advance == 0)
    }

    pub fn validate(self) -> (r: TimerResult<()>)
        ensures
            self.spec_valid() ==> r is Ok,
            !self.spec_valid() ==> r == Err::<(), TimerError>(TimerError::ScheduleBudgetExceeded),
    {
        if self.max_scopes == 0 || self.max_slots == 0 || self.max_timers == 0 || self.max_slots
            > u32::MAX as usize || self.max_timers > u32::MAX as usize
            || self.max_pending_records == 0 || self.max_pending_records > u32::MAX as usize
            || self.max_firings_per_advance == 0 {
            return Err(TimerError::ScheduleBudgetExceeded);
        }
        Ok(())
    }
}

#[derive(Clone, Copy, Debug, PartialEq, Eq, Hash, Structural)]
pub struct TimerHandle {
    pub index: u32,
    pub generation: u32,
    pub context: u64,
}

impl TimerHandle {
    pub fn from_abi(index: u32, generation: u32, context: u64) -> (h: Self)
        ensures
            h == (TimerHandle { index, generation, context }),
    {
        TimerHandle { index, generation, context }
    }

    pub fn index(self) -> (r: u32)
        ensures
            r == self.index,
    {
        self.index
    }

    pub fn generation(self) -> (r: u32)
        ensures
            r == self.generation,
    {
        self.generation
    }

    pub fn context(self) -> (r: u64)
        ensures
            r == self.context,
    {
        self.context
    }
}

#[derive(Clone, Copy, Debug, PartialEq, Eq, Hash, PartialOrd, Ord, Structural)]
pub struct DispatchId(pub u32);

impl DispatchId {
    pub fn from_raw(raw: u32) -> (d: Self)
        ensures
            d.0 == raw,
    {
        DispatchId(raw)
    }

    pub fn raw(self) -> (r: u32)
        ensures
            r == self.0,
    {
        self.0
    }
}

pub type SlotDispatchId = DispatchId;

#[derive(Clone, Copy, Debug, PartialEq, Eq, Structural)]
pub enum DispatchTarget {
    Registered,
    BotChatCadence,
    ServerPeriodicCheckpoint,
}

#[derive(Clone, Copy, Debug, PartialEq, Eq, Hash, Structural)]
pub struct CallbackSlot {
    pub index: u32,
    pub generation: u32,
}

impl CallbackSlot {
    pub fn from_abi(index: u32, generation: u32) -> (s: Self)
        ensures
            s == (CallbackSlot { index, generation }),
    {
        CallbackSlot { index, generation }
    }

    pub fn index(self) -> (r: u32)
        ensures
            r == self.index,
    {
        self.index
    }

    pub fn generation(self) -> (r: u32)
        ensures
            r == self.generation,
    {
        self.generation
    }
}

#[derive(Clone, Copy, Debug, PartialEq, Eq, Structural)]
pub enum ScopeKind {
    World,
    Session,
    Adapter,
}

impl ScopeKind {
    pub open spec fn spec_from_abi(raw: u8) -> Option<ScopeKind> {
        if raw == 0 {
            Some(ScopeKind::World)
        } else if raw == 1 {
            Some(ScopeKind::Session)
        } else if raw == 2 {
            Some(ScopeKind::Adapter)
        } else {
            None
        }
    }

    pub fn from_abi(raw: u8) -> (r: TimerResult<Self>)
        ensures
            match Self::spec_from_abi(raw) {
                Some(k) => r == Ok::<ScopeKind, TimerError>(k),
                None => r == Err::<ScopeKind, TimerError>(TimerError::ScopeInvalid),
            },
    {
        match raw {
            0 => Ok(ScopeKind::World),
            1 => Ok(ScopeKind::Session),
            2 => Ok(ScopeKind::Adapter),
            _ => Err(TimerError::ScopeInvalid),
        }
    }

    pub fn to_abi(self) -> (raw: u8)
        ensures
            Self::spec_from_abi(raw) == Some(self),
    {
        match self {
            ScopeKind::World => 0,
            ScopeKind::Session => 1,
            ScopeKind::Adapter => 2,
        }
    }
}

#[derive(Clone, Copy, Debug, PartialEq, Eq, Structural)]
pub struct TimerScope {
    pub scope_id: u64,
    pub kind: ScopeKind,
    pub generation: u32,
}

impl TimerScope {
    pub fn new(scope_id: u64, kind: ScopeKind, generation: u32) -> (s: Self)
        ensures
            s == (TimerScope { scope_id, kind, generation }),
    {
        TimerScope { scope_id, kind, generation }
    }

    pub fn scope_id(self) -> (r: u64)
        ensures
            r == self.scope_id,
    {
        self.scope_id
    }

    pub fn kind(self) -> (r: ScopeKind)
        ensures
            r == self.kind,
    {
        self.kind
    }

    pub fn generation(self) -> (r: u32)
        ensures
            r == self.generation,
    {
        self.generation
    }

    /// A scope value that no manager registered (fixture helper).
    pub fn debug_unregistered(id: u64, kind: ScopeKind, generation: u32) -> (s: Self)
        ensures
            s == (TimerScope { scope_id: id, kind, generation }),
    {
        Self::new(id, kind, generation)
    }
}

#[derive(Clone, Copy, Debug, PartialEq, Eq, Structural)]
pub enum TimerKind {
    OneShot,
    Repeating,
}

#[derive(Clone, Copy, Debug, PartialEq, Eq, Structural)]
pub struct FiringRecord {
    pub handle: TimerHandle,
    pub due_tick: u64,
    pub schedule_sequence: u64,
    pub slot_dispatch_id: DispatchId,
}

#[derive(Clone, Copy, Debug, PartialEq, Eq)]
pub struct DrainOutcome {
    pub record: FiringRecord,
    pub result: Result<(), TimerError>,
}

#[derive(Clone, Copy, Debug, PartialEq, Eq, Structural)]
pub struct FiringRejection {
    pub handle: TimerHandle,
    pub due_tick: u64,
    pub schedule_sequence: u64,
    pub code: TimerError,
}

#[derive(Clone, Debug, PartialEq, Eq)]
pub struct AdvanceReport {
    firings: Vec<FiringRecord>,
    rejections: Vec<FiringRejection>,
}

impl AdvanceReport {
    pub closed spec fn spec_firings(&self) -> Seq<FiringRecord> {
        self.firings@
    }

    pub closed spec fn spec_rejections(&self) -> Seq<FiringRejection> {
        self.rejections@
    }

    pub fn new() -> (r: Self)
        ensures
            r.spec_firings() == Seq::<FiringRecord>::empty(),
            r.spec_rejections() == Seq::<FiringRejection>::empty(),
    {
        AdvanceReport { firings: Vec::new(), rejections: Vec::new() }
    }

    pub fn firings(&self) -> (r: &[FiringRecord])
        ensures
            r@ == self.spec_firings(),
    {
        self.firings.as_slice()
    }

    pub fn rejections(&self) -> (r: &[FiringRejection])
        ensures
            r@ == self.spec_rejections(),
    {
        self.rejections.as_slice()
    }

    pub fn push_firing(&mut self, record: FiringRecord)
        ensures
            final(self).spec_firings() == old(self).spec_firings().push(record),
            final(self).spec_rejections() == old(self).spec_rejections(),
    {
        self.firings.push(record);
    }

    pub fn push_rejection(&mut self, record: FiringRejection)
        ensures
            final(self).spec_firings() == old(self).spec_firings(),
            final(self).spec_rejections() == old(self).spec_rejections().push(record),
    {
        self.rejections.push(record);
    }
}

#[derive(Clone, Debug, PartialEq, Eq)]
pub struct DrainReport {
    delivered: Vec<Delivery>,
    rejections: Vec<FiringRejection>,
    records: Vec<FiringRecord>,
}

impl DrainReport {
    pub closed spec fn spec_delivered(&self) -> Seq<Delivery> {
        self.delivered@
    }

    pub closed spec fn spec_rejections(&self) -> Seq<FiringRejection> {
        self.rejections@
    }

    pub closed spec fn spec_records(&self) -> Seq<FiringRecord> {
        self.records@
    }

    pub fn new() -> (r: Self)
        ensures
            r.spec_delivered() == Seq::<Delivery>::empty(),
            r.spec_rejections() == Seq::<FiringRejection>::empty(),
            r.spec_records() == Seq::<FiringRecord>::empty(),
    {
        DrainReport { delivered: Vec::new(), rejections: Vec::new(), records: Vec::new() }
    }

    pub fn delivered(&self) -> (r: &[Delivery])
        ensures
            r@ == self.spec_delivered(),
    {
        self.delivered.as_slice()
    }

    pub fn rejections(&self) -> (r: &[FiringRejection])
        ensures
            r@ == self.spec_rejections(),
    {
        self.rejections.as_slice()
    }

    pub fn records(&self) -> (r: &[FiringRecord])
        ensures
            r@ == self.spec_records(),
    {
        self.records.as_slice()
    }

    /// The delivered records, consuming the report.
    pub fn into_records(self) -> (r: Vec<FiringRecord>)
        ensures
            r@ == self.spec_records(),
    {
        self.records
    }

    pub fn push_delivery(&mut self, delivery: Delivery)
        ensures
            final(self).spec_delivered() == old(self).spec_delivered().push(delivery),
            final(self).spec_rejections() == old(self).spec_rejections(),
            final(self).spec_records() == old(self).spec_records(),
    {
        self.delivered.push(delivery);
    }

    pub fn push_record(&mut self, record: FiringRecord)
        ensures
            final(self).spec_delivered() == old(self).spec_delivered(),
            final(self).spec_rejections() == old(self).spec_rejections(),
            final(self).spec_records() == old(self).spec_records().push(record),
    {
        self.records.push(record);
    }

    pub fn push_rejection(&mut self, rejection: FiringRejection)
        ensures
            final(self).spec_delivered() == old(self).spec_delivered(),
            final(self).spec_rejections() == old(self).spec_rejections().push(rejection),
            final(self).spec_records() == old(self).spec_records(),
    {
        self.rejections.push(rejection);
    }
}

#[derive(Clone, Copy, Debug, PartialEq, Eq, Structural)]
pub struct Delivery {
    pub dispatch_id: DispatchId,
    pub due_tick: u64,
    pub handle: TimerHandle,
}

#[derive(Clone, Copy, Debug, PartialEq, Eq, Structural)]
pub struct TimerDiagnostic {
    pub code: TimerError,
    pub due_tick: Option<u64>,
    pub schedule_sequence: Option<u64>,
}

#[derive(Clone, Copy, Debug, PartialEq, Eq, Structural)]
pub enum SlotLifecycle {
    Unbound,
    Armed,
    Closed,
}

#[derive(Clone, Copy, Debug, PartialEq, Eq, Structural)]
pub enum SliceTraceEvent {
    Dispatched { dispatch_id: DispatchId, due_tick: u64 },
}

/// Bounded record of dispatched firings; overflow is only counted.
#[derive(Clone, Debug, PartialEq, Eq)]
pub struct SliceTrace {
    events: Vec<SliceTraceEvent>,
    dropped: u64,
}

/// Due ticks of the events in `events` that went to `id`, in order.
pub open spec fn ticks_for(events: Seq<SliceTraceEvent>, id: DispatchId) -> Seq<u64>
    decreases events.len(),
{
    if events.len() == 0 {
        Seq::empty()
    } else {
        let rest = ticks_for(events.drop_last(), id);
        match events.last() {
            SliceTraceEvent::Dispatched { dispatch_id, due_tick } => if dispatch_id == id {
                rest.push(due_tick)
            } else {
                rest
            },
        }
    }
}

impl SliceTrace {
    pub closed spec fn spec_events(&self) -> Seq<SliceTraceEvent> {
        self.events@
    }

    pub closed spec fn spec_dropped(&self) -> u64 {
        self.dropped
    }

    pub open spec fn wf(&self) -> bool {
        self.spec_events().len() <= TRACE_CAPACITY
    }

    pub fn new() -> (t: Self)
        ensures
            t.spec_events() == Seq::<SliceTraceEvent>::empty(),
            t.spec_dropped() == 0,
    {
        SliceTrace { events: Vec::new(), dropped: 0 }
    }

    /// Keep the event while fewer than the capacity are held; otherwise count it.
    pub fn push(&mut self, event: SliceTraceEvent)
        ensures
            old(self).spec_events().len() < TRACE_CAPACITY ==> {
                &&& final(self).spec_events() == old(self).spec_events().push(event)
                &&& final(self).spec_dropped() == old(self).spec_dropped()
            },
            old(self).spec_events().len() >= TRACE_CAPACITY ==> {
                &&& final(self).spec_events() == old(self).spec_events()
                &&& final(self).spec_dropped() == if old(self).spec_dropped() == u64::MAX {
                    u64::MAX
                } else {
                    (old(self).spec_dropped() + 1) as u64
                }
            },
    {
        if self.events.len() < TRACE_CAPACITY {
            self.events.push(event);
        } else {
            self.dropped = self.dropped.saturating_add(1);
        }
    }

    pub fn events(&self) -> (r: &[SliceTraceEvent])
        ensures
            r@ == self.spec_events(),
    {
        self.events.as_slice()
    }

    pub fn dropped(&self) -> (r: u64)
        ensures
            r == self.spec_dropped(),
    {
        self.dropped
    }

    pub fn clear(&mut self)
        ensures
            final(self).spec_events() == Seq::<SliceTraceEvent>::empty(),
            final(self).spec_dropped() == 0,
    {
        self.events.clear();
        self.dropped = 0;
    }

    /// Due ticks of the events dispatched to `id`, in trace order.
    pub fn dispatched_ticks(&self, id: DispatchId) -> (r: Vec<u64>)
        ensures
            r@ == ticks_for(self.spec_events(), id),
    {
        let mut out: Vec<u64> = Vec::new();
        let mut i: usize = 0;
        while i < self.events.len()
            invariant
                i <= self.events@.len(),
                out@ == ticks_for(self.events@.subrange(0, i as int), id),
            decreases self.events@.len() - i,
        {
            proof {
                assert(self.events@.subrange(0, i + 1).drop_last() =~= self.events@.subrange(0, i as int));
            }
            match self.events[i] {
                SliceTraceEvent::Dispatched { dispatch_id, due_tick } => {
                    if dispatch_id == id {
                        out.push(due_tick);
                    }
                },
            }
            i = i + 1;
        }
        proof {
            assert(self.events@.subrange(0, i as int) =~= self.events@);
        }
        out
    }
}

/// Successor generation; the caller guarantees it exists.
pub fn bump_generation(current: u32) -> (next: u32)
    requires
        current < u32::MAX,
    ensures
        next == current + 1,
{
    current + 1
}

} // verus!
