//! The scheduler's bookkeeping for a job system: admission, the run queue, the
//! ready list and reaping. The host owns threads, clocks, byte budgets and the
//! operation registry; it asks this state what to do and reports what happened.
use vstd::prelude::*;
use crate::job::completion::JobCompletion;
use crate::job::id::{JobId, OperationId};
use crate::job::state::JobState;
use crate::kernel::capability::ConfiguredLimits;
use crate::kernel::context::{Deadline, QuiesceReport, QuiesceState};
use crate::kernel::error::{ErrorCategory, ErrorDetail, KernelError, KernelResult, error_of};
use crate::kernel::handle::ContextKey;

verus! {

broadcast use vstd::std_specs::hash::group_hash_axioms;

#[derive(Clone, Copy, Debug, PartialEq, Eq, Structural)]
pub struct JobSystemConfig {
    pub queue_capacity: usize,
    /// Zero selects deterministic caller-driven pump mode.
    pub worker_count: usize,
}

#[derive(Clone, Copy, Debug, PartialEq, Eq, Structural)]
pub struct JobRequest {
    pub operation: OperationId,
    pub deadline: Deadline,
}

/// Names one job of one job system of one context.
#[derive(Clone, Copy, Debug, PartialEq, Eq, Hash)]
pub struct JobHandle {
    id: JobId,
    system: u64,
    context: ContextKey,
}

impl JobHandle {
    pub closed spec fn spec_id(self) -> JobId {
        self.id
    }

    pub closed spec fn spec_system(self) -> u64 {
        self.system
    }

    pub closed spec fn spec_context(self) -> ContextKey {
        self.context
    }

    pub fn id(self) -> (r: JobId)
        ensures
            r == self.spec_id(),
    {
        self.id
    }
}

#[derive(Clone, Copy, Debug, PartialEq, Eq, Structural)]
pub struct JobSnapshot {
    pub id: JobId,
    pub state: JobState,
}

#[derive(Clone, Copy, Debug, PartialEq, Eq, Structural)]
pub enum CancelOutcome {
    Cancelled { previous: JobState },
    Requested,
    AlreadyTerminal(JobState),
}

/// A reaped job: its final state and the bytes it wrote.
#[derive(Debug)]
pub struct JobResult {
    pub id: JobId,
    pub state: JobState,
    pub deadline_exceeded: bool,
    pub error: Option<KernelError>,
    output: Vec<u8>,
}

impl JobResult {
    pub closed spec fn spec_bytes(&self) -> Seq<u8> {
        self.output@
    }

    /// Id, final state, whether the deadline had passed, and the error, if any.
    pub closed spec fn spec_summary(&self) -> (JobId, JobState, bool, Option<KernelError>) {
        (self.id, self.state, self.deadline_exceeded, self.error)
    }

    pub fn bytes(&self) -> (r: &[u8])
        ensures
            r@ == self.spec_bytes(),
    {
        self.output.as_slice()
    }
}

/// Everything the scheduler keeps of one job.
pub struct JobRecord {
    pub request: JobRequest,
    pub state: JobState,
    pub input: Vec<u8>,
    pub output: Vec<u8>,
    pub output_len: usize,
    pub error: Option<KernelError>,
    pub deadline_exceeded: bool,
}

/// A job handed to a worker: the record keeps neither buffer while it runs.
pub struct Work {
    pub id: JobId,
    pub operation: OperationId,
    pub input: Vec<u8>,
    pub output: Vec<u8>,
}

/// The scheduler as plain values.
pub ghost struct SchedulerModel {
    pub accepting: bool,
    pub jobs: Map<u64, JobRecord>,
    /// Queued jobs, oldest first.
    pub queue: Seq<u64>,
    /// Finished jobs not yet drained, by ascending id.
    pub ready: Seq<u64>,
    pub running: nat,
    pub max_running: nat,
    pub queue_capacity: nat,
    pub max_live: nat,
    pub system: u64,
    pub context: ContextKey,
}

pub open spec fn sorted(s: Seq<u64>) -> bool {
    forall|i: int, j: int| 0 <= i < j < s.len() ==> s[i] < s[j]
}

pub open spec fn distinct(s: Seq<u64>) -> bool {
    forall|i: int, j: int| 0 <= i < j < s.len() ==> s[i] != s[j]
}

/// The jobs of `jobs` that are running now.
pub open spec fn running_ids(jobs: Map<u64, JobRecord>) -> Set<u64> {
    jobs.dom().filter(|k: u64| jobs[k].state == JobState::Running)
}

/// Where `x` first occurs in `s`.
pub open spec fn first_index(s: Seq<u64>, x: u64) -> int {
    choose|i: int| 0 <= i < s.len() && s[i] == x && forall|j: int| 0 <= j < i ==> s[j] != x
}

/// `s` without its first `x`, if it holds one.
pub open spec fn remove_value(s: Seq<u64>, x: u64) -> Seq<u64> {
    if s.contains(x) {
        s.remove(first_index(s, x))
    } else {
        s
    }
}

/// The error with no detail of `category`.
pub open spec fn fail(category: ErrorCategory) -> KernelError {
    KernelError { category, detail: ErrorDetail::NoDetail }
}

impl SchedulerModel {
    pub open spec fn wf(self) -> bool {
        &&& self.jobs.dom().finite()
        &&& distinct(self.queue)
        &&& forall|i: int| 0 <= i < self.queue.len() ==> self.jobs.contains_key(#[trigger] self.queue[i])
            && self.jobs[self.queue[i]].state == JobState::Queued
        &&& forall|k: u64| #[trigger] self.jobs.contains_key(k) && self.jobs[k].state == JobState::Queued
            ==> self.queue.contains(k)
        &&& sorted(self.ready)
        &&& forall|i: int| 0 <= i < self.ready.len() ==> self.jobs.contains_key(#[trigger] self.ready[i])
            && self.jobs[self.ready[i]].state.spec_is_terminal()
        &&& forall|k: u64| #[trigger] self.jobs.contains_key(k) ==> self.jobs[k].state != JobState::TimedOut
            && self.jobs[k].output_len <= self.jobs[k].output@.len()
            && (!self.jobs[k].state.spec_is_terminal() ==> self.jobs[k].output_len == 0)
        &&& self.running == running_ids(self.jobs).len()
        &&& 1 <= self.max_running
        &&& self.running <= self.max_running
        &&& self.queue.len() <= self.queue_capacity
        &&& self.jobs.len() <= self.max_live
        &&& self.max_running <= usize::MAX
    }

    /// What a submission of `input_len` bytes with `output_capacity` bytes of output
    /// is answered before anything is reserved: the bytes to reserve, or why not.
    pub open spec fn submission(
        self,
        operation_available: bool,
        input_len: usize,
        output_capacity: usize,
    ) -> KernelResult<u64> {
        if !self.accepting {
            Err(fail(ErrorCategory::ContextClosing))
        } else if self.queue.len() >= self.queue_capacity || self.jobs.len() >= self.max_live {
            Err(fail(ErrorCategory::CapacityExceeded))
        } else if !operation_available {
            Err(fail(ErrorCategory::CapabilityUnavailable))
        } else if input_len + output_capacity > usize::MAX {
            Err(fail(ErrorCategory::CapacityExceeded))
        } else {
            Ok((input_len + output_capacity) as u64)
        }
    }

    /// Why a job `id` cannot be queued now, if it cannot.
    pub open spec fn enqueue_error(self, id: u64) -> Option<KernelError> {
        if !self.accepting {
            Some(fail(ErrorCategory::ContextClosing))
        } else if self.queue.len() >= self.queue_capacity || self.jobs.len() >= self.max_live {
            Some(fail(ErrorCategory::CapacityExceeded))
        } else if self.jobs.contains_key(id) {
            Some(fail(ErrorCategory::InternalInvariant))
        } else {
            None
        }
    }

    /// The limits and identity of the system, which no operation changes.
    pub open spec fn same_settings(self, other: Self) -> bool {
        &&& self.max_running == other.max_running
        &&& self.queue_capacity == other.queue_capacity
        &&& self.max_live == other.max_live
        &&& self.system == other.system
        &&& self.context == other.context
    }

    /// Whether a worker may take the next queued job now.
    pub open spec fn can_take(self) -> bool {
        self.accepting && self.running < self.max_running && self.queue.len() > 0
    }

    /// Why `handle` is refused by this system, if it is.
    pub open spec fn handle_error(self, handle: JobHandle) -> Option<KernelError> {
        if handle.spec_context() != self.context {
            Some(fail(ErrorCategory::WrongContext))
        } else if handle.spec_system() != self.system {
            Some(fail(ErrorCategory::InvalidHandle))
        } else if !self.jobs.contains_key(handle.spec_id().0) {
            Some(fail(ErrorCategory::InvalidHandle))
        } else {
            None
        }
    }
}

/// What a kernel's result amounts to once its claimed length is checked against the
/// output buffer it was given.
pub open spec fn checked_outcome(result: KernelResult<usize>, output_len: nat) -> KernelResult<usize> {
    match result {
        Ok(w) => if w > output_len {
            Err(fail(ErrorCategory::InternalInvariant))
        } else {
            Ok(w)
        },
        Err(e) => Err(e),
    }
}

/// The final state of a job that ended with `e`: a cancellation or a timeout cancels
/// it, anything else fails it.
pub open spec fn failed_state(e: KernelError) -> JobState {
    if e.category == ErrorCategory::Cancelled || e.category == ErrorCategory::TimedOut {
        JobState::Cancelled
    } else {
        JobState::Failed
    }
}

/// What a job must check before its kernel runs: a passed deadline times it out, a
/// cancellation request cancels it.
pub fn check_cancelled(deadline_exceeded: bool, cancel_requested: bool) -> (r: KernelResult<()>)
    ensures
        deadline_exceeded ==> r == Err::<(), KernelError>(fail(ErrorCategory::TimedOut)),
        !deadline_exceeded && cancel_requested ==> r == Err::<(), KernelError>(
            fail(ErrorCategory::Cancelled),
        ),
        !deadline_exceeded && !cancel_requested ==> r is Ok,
{
    if deadline_exceeded {
        return Err(error_of(ErrorCategory::TimedOut));
    }
    if cancel_requested {
        return Err(error_of(ErrorCategory::Cancelled));
    }
    Ok(())
}

/// The configuration error of a job system, if `config` does not fit `limits`.
pub open spec fn config_error(config: JobSystemConfig, limits: ConfiguredLimits) -> bool {
    config.queue_capacity == 0 || config.queue_capacity > limits.max_jobs_queued
        || config.worker_count > limits.max_jobs_running
}

pub open spec fn min(a: nat, b: nat) -> nat {
    if a <= b { a } else { b }
}

proof fn lemma_running_finite(jobs: Map<u64, JobRecord>)
    requires
        jobs.dom().finite(),
    ensures
        running_ids(jobs).finite(),
{
    jobs.dom().lemma_len_filter(|k: u64| jobs[k].state == JobState::Running);
}

/// How the running set changes when one record is written.
proof fn lemma_running_insert(jobs: Map<u64, JobRecord>, k: u64, r: JobRecord)
    requires
        jobs.dom().finite(),
    ensures
        running_ids(jobs.insert(k, r)) == (if r.state == JobState::Running {
            running_ids(jobs).insert(k)
        } else {
            running_ids(jobs).remove(k)
        }),
        running_ids(jobs).finite(),
        running_ids(jobs.insert(k, r)).finite(),
{
    let a = running_ids(jobs.insert(k, r));
    let b = if r.state == JobState::Running {
        running_ids(jobs).insert(k)
    } else {
        running_ids(jobs).remove(k)
    };
    assert(a =~= b);
    lemma_running_finite(jobs);
    lemma_running_finite(jobs.insert(k, r));
}

/// How the running set changes when one record is dropped.
proof fn lemma_running_remove(jobs: Map<u64, JobRecord>, k: u64)
    requires
        jobs.dom().finite(),
    ensures
        running_ids(jobs.remove(k)) == running_ids(jobs).remove(k),
        running_ids(jobs).finite(),
{
    assert(running_ids(jobs.remove(k)) =~= running_ids(jobs).remove(k));
    lemma_running_finite(jobs);
}

/// Inserts `x` into the ascending `v`, which does not hold it.
fn insert_sorted(v: &mut Vec<u64>, x: u64)
    requires
        sorted(old(v)@),
        !old(v)@.contains(x),
    ensures
        sorted(final(v)@),
        final(v)@.len() == old(v)@.len() + 1,
        forall|y: u64| final(v)@.contains(y) <==> (old(v)@.contains(y) || y == x),
{
    let mut p: usize = 0;
    while p < v.len() && v[p] < x
        invariant
            p <= v.len(),
            forall|j: int| 0 <= j < p ==> v@[j] < x,
        decreases v.len() - p,
    {
        p = p + 1;
    }
    proof {
        if p < v@.len() {
            assert(v@[p as int] != x);
        }
    }
    let ghost old_v = v@;
    v.insert(p, x);
    proof {
        assert(v@ =~= old_v.insert(p as int, x));
        assert forall|y: u64| v@.contains(y) <==> (old_v.contains(y) || y == x) by {
            if v@.contains(y) {
                let i = choose|i: int| 0 <= i < v@.len() && v@[i] == y;
                if i < p {
                    assert(old_v[i] == y);
                } else if i > p {
                    assert(old_v[i - 1] == y);
                }
            }
            if old_v.contains(y) {
                let i = choose|i: int| 0 <= i < old_v.len() && old_v[i] == y;
                if i < p {
                    assert(v@[i] == y);
                } else {
                    assert(v@[i + 1] == y);
                }
            }
            if y == x {
                assert(v@[p as int] == x);
            }
        }
    }
}

proof fn lemma_first_index(s: Seq<u64>, x: u64, p: int)
    requires
        0 <= p < s.len(),
        s[p] == x,
        forall|j: int| 0 <= j < p ==> s[j] != x,
    ensures
        first_index(s, x) == p,
        s.contains(x),
{
    let i = first_index(s, x);
    assert(s[p] == x);
    assert(exists|i: int| 0 <= i < s.len() && s[i] == x && forall|j: int| 0 <= j < i ==> s[j] != x);
    if i < p {
        assert(s[i] != x);
    } else if i > p {
        assert(s[p] != x);
    }
}

/// Removes the first `x` from `v`, if there is one.
fn remove_first(v: &mut Vec<u64>, x: u64)
    ensures
        final(v)@ == remove_value(old(v)@, x),
{
    let mut p: usize = 0;
    while p < v.len() && v[p] != x
        invariant
            p <= v.len(),
            forall|j: int| 0 <= j < p ==> v@[j] != x,
        decreases v.len() - p,
    {
        p = p + 1;
    }
    if p < v.len() {
        proof {
            lemma_first_index(v@, x, p as int);
        }
        v.remove(p);
    } else {
        proof {
            assert(!v@.contains(x));
        }
    }
}

proof fn lemma_has_first(s: Seq<u64>, x: u64, i: int)
    requires
        0 <= i < s.len(),
        s[i] == x,
    ensures
        exists|p: int| 0 <= p < s.len() && s[p] == x && forall|j: int| 0 <= j < p ==> s[j] != x,
    decreases i,
{
    if exists|j: int| 0 <= j < i && s[j] == x {
        let j = choose|j: int| 0 <= j < i && s[j] == x;
        lemma_has_first(s, x, j);
    } else {
        assert(forall|j: int| 0 <= j < i ==> s[j] != x);
    }
}

proof fn lemma_first_index_len(s: Seq<u64>, x: u64)
    requires
        s.contains(x),
    ensures
        remove_value(s, x).len() == s.len() - 1,
        0 <= first_index(s, x) < s.len(),
{
    let i = choose|i: int| 0 <= i < s.len() && s[i] == x;
    lemma_has_first(s, x, i);
    let p = choose|p: int| 0 <= p < s.len() && s[p] == x && forall|j: int| 0 <= j < p ==> s[j] != x;
    lemma_first_index(s, x, p);
}

/// Removing a value from a sorted sequence keeps it sorted and drops just that value.
proof fn lemma_remove_value_sorted(s: Seq<u64>, x: u64)
    requires
        sorted(s),
    ensures
        sorted(remove_value(s, x)),
        forall|y: u64| remove_value(s, x).contains(y) <==> (s.contains(y) && y != x),
        remove_value(s, x).len() == (if s.contains(x) { s.len() - 1 } else { s.len() as int }),
{
    if s.contains(x) {
        let p = first_index(s, x);
        let w = s.remove(p);
        assert forall|y: u64| w.contains(y) <==> (s.contains(y) && y != x) by {
            if w.contains(y) {
                let i = choose|i: int| 0 <= i < w.len() && w[i] == y;
                if i < p {
                    assert(s[i] == y);
                } else {
                    assert(s[i + 1] == y);
                }
            }
            if s.contains(y) && y != x {
                let i = choose|i: int| 0 <= i < s.len() && s[i] == y;
                if i < p {
                    assert(w[i] == y);
                } else {
                    assert(i != p);
                    assert(w[i - 1] == y);
                }
            }
        }
    }
}

/// Removing a value from a sequence without repeats keeps the rest in order.
proof fn lemma_remove_value_distinct(s: Seq<u64>, x: u64)
    requires
        distinct(s),
    ensures
        distinct(remove_value(s, x)),
        forall|y: u64| remove_value(s, x).contains(y) <==> (s.contains(y) && y != x),
{
    if s.contains(x) {
        let p = first_index(s, x);
        let w = s.remove(p);
        assert forall|y: u64| w.contains(y) <==> (s.contains(y) && y != x) by {
            if w.contains(y) {
                let i = choose|i: int| 0 <= i < w.len() && w[i] == y;
                if i < p {
                    assert(s[i] == y);
                } else {
                    assert(s[i + 1] == y);
                }
            }
            if s.contains(y) && y != x {
                let i = choose|i: int| 0 <= i < s.len() && s[i] == y;
                if i < p {
                    assert(w[i] == y);
                } else {
                    assert(i != p);
                    assert(w[i - 1] == y);
                }
            }
        }
    }
}

/// `InvalidArgument` unless the queue holds at least one job and neither the queue
/// nor the worker count exceeds what the context allows.
pub fn validate_config(config: JobSystemConfig, limits: ConfiguredLimits) -> (r: KernelResult<()>)
    ensures
        config_error(config, limits) ==> r == Err::<(), KernelError>(fail(ErrorCategory::InvalidArgument)),
        !config_error(config, limits) ==> r is Ok,
{
    if config.queue_capacity == 0 || config.queue_capacity > limits.max_jobs_queued as usize
        || config.worker_count > limits.max_jobs_running as usize {
        return Err(error_of(ErrorCategory::InvalidArgument));
    }
    Ok(())
}

/// The scheduler state of one job system.
pub struct Scheduler {
    accepting: bool,
    jobs: std::collections::HashMap<u64, JobRecord>,
    queue: Vec<u64>,
    ready: Vec<u64>,
    running: usize,
    max_running: usize,
    queue_capacity: usize,
    max_live: usize,
    system: u64,
    context: ContextKey,
}

impl View for Scheduler {
    type V = SchedulerModel;

    closed spec fn view(&self) -> SchedulerModel {
        SchedulerModel {
            accepting: self.accepting,
            jobs: self.jobs@,
            queue: self.queue@,
            ready: self.ready@,
            running: self.running as nat,
            max_running: self.max_running as nat,
            queue_capacity: self.queue_capacity as nat,
            max_live: self.max_live as nat,
            system: self.system,
            context: self.context,
        }
    }
}

impl Scheduler {
    /// A scheduler for a new system `system` of `context`, or `InvalidArgument` where
    /// the configuration does not fit the context's limits. At most
    /// `max(worker_count, 1)` jobs run at once; at most the smaller of the handle and
    /// completion limits are retained.
    pub fn create(config: JobSystemConfig, limits: ConfiguredLimits, system: u64, context: ContextKey)
        -> (r: KernelResult<Scheduler>)
        ensures
            config_error(config, limits) <==> r is Err,
            r matches Err(e) ==> e == fail(ErrorCategory::InvalidArgument),
            r matches Ok(s) ==> {
                &&& s@.wf()
                &&& s@.accepting
                &&& s@.jobs.is_empty()
                &&& s@.queue.len() == 0
                &&& s@.ready.len() == 0
                &&& s@.running == 0
                &&& s@.max_running == (if config.worker_count == 0 { 1 } else { config.worker_count as nat })
                &&& s@.queue_capacity == config.queue_capacity
                &&& s@.max_live == min(limits.max_handles as nat, limits.max_completion_items as nat)
                &&& s@.system == system
                &&& s@.context == context
            },
    {
        validate_config(config, limits)?;
        let max_running = if config.worker_count == 0 { 1 } else { config.worker_count };
        let max_live = if limits.max_handles <= limits.max_completion_items {
            limits.max_handles
        } else {
            limits.max_completion_items
        };
        let s = Scheduler {
            accepting: true,
            jobs: std::collections::HashMap::new(),
            queue: Vec::new(),
            ready: Vec::new(),
            running: 0,
            max_running,
            queue_capacity: config.queue_capacity,
            max_live: max_live as usize,
            system,
            context,
        };
        proof {
            assert(running_ids(s.jobs@) =~= Set::<u64>::empty());
        }
        Ok(s)
    }

    /// Whether a submission may go ahead, and how many bytes it reserves.
    pub fn check_submission(&self, operation_available: bool, input_len: usize, output_capacity: usize)
        -> (r: KernelResult<u64>)
        requires
            self@.wf(),
        ensures
            r == self@.submission(operation_available, input_len, output_capacity),
    {
        if !self.accepting {
            return Err(error_of(ErrorCategory::ContextClosing));
        }
        if self.queue.len() >= self.queue_capacity || self.jobs.len() >= self.max_live {
            return Err(error_of(ErrorCategory::CapacityExceeded));
        }
        if !operation_available {
            return Err(error_of(ErrorCategory::CapabilityUnavailable));
        }
        match input_len.checked_add(output_capacity) {
            Some(bytes) => Ok(bytes as u64),
            None => Err(error_of(ErrorCategory::CapacityExceeded)),
        }
    }

    /// Queues job `id` with its owned input and zeroed output buffer.
    pub fn enqueue(&mut self, id: JobId, request: JobRequest, input: Vec<u8>, output: Vec<u8>)
        -> (r: KernelResult<JobHandle>)
        requires
            old(self)@.wf(),
        ensures
            final(self)@.wf(),
            match old(self)@.enqueue_error(id.0) {
                Some(e) => r == Err::<JobHandle, KernelError>(e) && final(self)@ == old(self)@,
                None => {
                    let m = old(self)@;
                    let n = final(self)@;
                    &&& r matches Ok(h) && h.spec_id() == id && h.spec_system() == m.system
                        && h.spec_context() == m.context
                    &&& n.queue == m.queue.push(id.0)
                    &&& n.jobs == m.jobs.insert(id.0, n.jobs[id.0])
                    &&& n.jobs[id.0].request == request
                    &&& n.jobs[id.0].state == JobState::Queued
                    &&& n.jobs[id.0].input@ == input@
                    &&& n.jobs[id.0].output@ == output@
                    &&& n.jobs[id.0].output_len == 0
                    &&& n.jobs[id.0].error is None
                    &&& !n.jobs[id.0].deadline_exceeded
                    &&& n.ready == m.ready
                    &&& n.running == m.running
                    &&& n.accepting == m.accepting
                    &&& n.same_settings(m)
                },
            },
    {
        if !self.accepting {
            return Err(error_of(ErrorCategory::ContextClosing));
        }
        if self.queue.len() >= self.queue_capacity || self.jobs.len() >= self.max_live {
            return Err(error_of(ErrorCategory::CapacityExceeded));
        }
        if self.jobs.contains_key(&id.0) {
            return Err(error_of(ErrorCategory::InternalInvariant));
        }
        let record = JobRecord {
            request,
            state: JobState::Queued,
            input,
            output,
            output_len: 0,
            error: None,
            deadline_exceeded: false,
        };
        let ghost old_jobs = self.jobs@;
        let ghost old_queue = self.queue@;
        proof {
            lemma_running_insert(old_jobs, id.0, record);
        }
        self.jobs.insert(id.0, record);
        self.queue.push(id.0);
        proof {
            assert(!running_ids(old_jobs).contains(id.0));
            assert(running_ids(self.jobs@) =~= running_ids(old_jobs));
            assert forall|i: int| 0 <= i < self.queue@.len() implies self.jobs@.contains_key(
                #[trigger] self.queue@[i],
            ) && self.jobs@[self.queue@[i]].state == JobState::Queued by {
                if i < old_queue.len() {
                    assert(self.queue@[i] == old_queue[i]);
                    assert(old_queue[i] != id.0);
                }
            }
            assert forall|k: u64| #[trigger] self.jobs@.contains_key(k) && self.jobs@[k].state
                == JobState::Queued implies self.queue@.contains(k) by {
                if k == id.0 {
                    assert(self.queue@[old_queue.len() as int] == k);
                } else {
                    assert(old_queue.contains(k));
                    let i = choose|i: int| 0 <= i < old_queue.len() && old_queue[i] == k;
                    assert(self.queue@[i] == k);
                }
            }
            assert forall|i: int, j: int| 0 <= i < j < self.queue@.len() implies self.queue@[i]
                != self.queue@[j] by {
                if j == old_queue.len() {
                    assert(old_queue[i] != id.0);
                }
            }
            assert(self.jobs@.len() == old_jobs.len() + 1);
        }
        Ok(JobHandle { id, system: self.system, context: self.context })
    }

    /// Hands the oldest queued job to a worker, if the system accepts work and a
    /// worker slot is free.
    pub fn take_work(&mut self) -> (r: Option<Work>)
        requires
            old(self)@.wf(),
        ensures
            final(self)@.wf(),
            !old(self)@.can_take() ==> r is None && final(self)@ == old(self)@,
            old(self)@.can_take() ==> {
                let m = old(self)@;
                let n = final(self)@;
                let k = m.queue[0];
                &&& r matches Some(w) && w.id == JobId(k) && w.operation == m.jobs[k].request.operation
                    && w.input@ == m.jobs[k].input@ && w.output@ == m.jobs[k].output@
                &&& n.queue == m.queue.drop_first()
                &&& n.jobs == m.jobs.insert(k, n.jobs[k])
                &&& n.jobs[k].state == JobState::Running
                &&& n.jobs[k].request == m.jobs[k].request
                &&& n.jobs[k].output_len == m.jobs[k].output_len
                &&& n.jobs[k].error == m.jobs[k].error
                &&& n.jobs[k].deadline_exceeded == m.jobs[k].deadline_exceeded
                &&& n.jobs[k].input@.len() == 0
                &&& n.jobs[k].output@.len() == 0
                &&& n.ready == m.ready
                &&& n.running == m.running + 1
                &&& n.accepting == m.accepting
                &&& n.same_settings(m)
            },
    {
        if !self.accepting || self.running >= self.max_running || self.queue.len() == 0 {
            return None;
        }
        let ghost m = self@;
        let k = self.queue.remove(0);
        let removed = self.jobs.remove(&k);
        match removed {
            Some(record) => {
                let JobRecord { request, state, input, output, output_len, error, deadline_exceeded } = record;
                let started = JobRecord {
                    request,
                    state: JobState::Running,
                    input: Vec::new(),
                    output: Vec::new(),
                    output_len,
                    error,
                    deadline_exceeded,
                };
                proof {
                    lemma_running_insert(m.jobs, k, started);
                    assert(m.jobs.remove(k).insert(k, started) =~= m.jobs.insert(k, started));
                    assert(!running_ids(m.jobs).contains(k));
                }
                self.jobs.insert(k, started);
                self.running = self.running + 1;
                proof {
                    let n = self@;
                    assert(n.jobs =~= m.jobs.insert(k, started));
                    assert(n.queue =~= m.queue.drop_first());
                    assert forall|i: int| 0 <= i < n.queue.len() implies n.jobs.contains_key(
                        #[trigger] n.queue[i],
                    ) && n.jobs[n.queue[i]].state == JobState::Queued by {
                        assert(n.queue[i] == m.queue[i + 1]);
                        assert(m.queue[0] != m.queue[i + 1]);
                    }
                    assert forall|k2: u64| #[trigger] n.jobs.contains_key(k2) && n.jobs[k2].state
                        == JobState::Queued implies n.queue.contains(k2) by {
                        assert(k2 != k);
                        let i = choose|i: int| 0 <= i < m.queue.len() && m.queue[i] == k2;
                        assert(i != 0);
                        assert(n.queue[i - 1] == k2);
                    }
                    assert forall|i: int| 0 <= i < n.ready.len() implies n.jobs.contains_key(
                        #[trigger] n.ready[i],
                    ) && n.jobs[n.ready[i]].state.spec_is_terminal() by {
                        assert(m.ready[i] != k);
                    }
                }
                Some(Work { id: JobId(k), operation: request.operation, input, output })
            },
            None => {
                proof {
                    assert(m.jobs.contains_key(m.queue[0]));
                }
                None
            },
        }
    }

    /// Records how job `id`'s run ended: the output buffer comes back, and the job
    /// succeeds, is cancelled or fails. Only a running job is affected.
    pub fn finish(&mut self, id: JobId, output: Vec<u8>, result: KernelResult<usize>, exceeded: bool)
        requires
            old(self)@.wf(),
        ensures
            final(self)@.wf(),
            !(old(self)@.jobs.contains_key(id.0) && old(self)@.jobs[id.0].state == JobState::Running)
                ==> final(self)@ == old(self)@,
            old(self)@.jobs.contains_key(id.0) && old(self)@.jobs[id.0].state == JobState::Running ==> {
                let m = old(self)@;
                let n = final(self)@;
                let k = id.0;
                &&& n.jobs == m.jobs.insert(k, n.jobs[k])
                &&& n.jobs[k].request == m.jobs[k].request
                &&& n.jobs[k].input@ == m.jobs[k].input@
                &&& n.jobs[k].output@ == output@
                &&& n.jobs[k].deadline_exceeded == exceeded
                &&& match checked_outcome(result, output@.len()) {
                    Ok(w) => n.jobs[k].state == JobState::Succeeded && n.jobs[k].output_len == w
                        && n.jobs[k].error == m.jobs[k].error,
                    Err(e) => n.jobs[k].state == failed_state(e) && n.jobs[k].error == Some(e)
                        && n.jobs[k].output_len == m.jobs[k].output_len,
                }
                &&& forall|y: u64| n.ready.contains(y) <==> (m.ready.contains(y) || y == k)
                &&& n.queue == m.queue
                &&& n.running == m.running - 1
                &&& n.accepting == m.accepting
                &&& n.same_settings(m)
            },
    {
        let k = id.0;
        let ghost m = self@;
        let removed = self.jobs.remove(&k);
        let record = match removed {
            Some(record) => record,
            None => {
                proof {
                    assert(self.jobs@ =~= m.jobs);
                }
                return;
            },
        };
        if record.state != JobState::Running {
            self.jobs.insert(k, record);
            proof {
                assert(self.jobs@ =~= m.jobs);
            }
            return;
        }
        let outcome = match result {
            Ok(written) => if written > output.len() {
                Err(error_of(ErrorCategory::InternalInvariant))
            } else {
                Ok(written)
            },
            Err(e) => Err(e),
        };
        let JobRecord { request, state, input, output: _, output_len, error, deadline_exceeded: _ } = record;
        let done = match outcome {
            Ok(written) => JobRecord {
                request,
                state: JobState::Succeeded,
                input,
                output,
                output_len: written,
                error,
                deadline_exceeded: exceeded,
            },
            Err(failure) => {
                let cancelled = match failure.category {
                    ErrorCategory::Cancelled | ErrorCategory::TimedOut => true,
                    _ => false,
                };
                JobRecord {
                    request,
                    state: if cancelled { JobState::Cancelled } else { JobState::Failed },
                    input,
                    output,
                    output_len,
                    error: Some(failure),
                    deadline_exceeded: exceeded,
                }
            },
        };
        proof {
            lemma_running_insert(m.jobs, k, done);
            assert(m.jobs.remove(k).insert(k, done) =~= m.jobs.insert(k, done));
            assert(running_ids(m.jobs).contains(k));
            assert(!m.ready.contains(k)) by {
                if m.ready.contains(k) {
                    let i = choose|i: int| 0 <= i < m.ready.len() && m.ready[i] == k;
                    assert(m.jobs[m.ready[i]].state.spec_is_terminal());
                }
            }
        }
        self.jobs.insert(k, done);
        insert_sorted(&mut self.ready, k);
        self.running = self.running - 1;
        proof {
            let n = self@;
            assert(n.jobs =~= m.jobs.insert(k, done));
            assert forall|i: int| 0 <= i < n.queue.len() implies n.jobs.contains_key(
                #[trigger] n.queue[i],
            ) && n.jobs[n.queue[i]].state == JobState::Queued by {
                assert(n.queue[i] != k);
            }
            assert forall|i: int| 0 <= i < n.ready.len() implies n.jobs.contains_key(
                #[trigger] n.ready[i],
            ) && n.jobs[n.ready[i]].state.spec_is_terminal() by {
                let y = n.ready[i];
                assert(n.ready.contains(y));
                if y != k {
                    assert(m.ready.contains(y));
                    let j = choose|j: int| 0 <= j < m.ready.len() && m.ready[j] == y;
                    assert(m.jobs[m.ready[j]].state.spec_is_terminal());
                }
            }
        }
    }

    /// Stops admitting and starting work, and cancels every queued job. Running jobs
    /// keep running; the host raises their cancellation tokens.
    pub fn stop(&mut self)
        requires
            old(self)@.wf(),
        ensures
            final(self)@.wf(),
            ({
                let m = old(self)@;
                let n = final(self)@;
                &&& !n.accepting
                &&& n.queue.len() == 0
                &&& n.jobs.dom() == m.jobs.dom()
                &&& forall|k: u64| #[trigger] m.jobs.contains_key(k) ==> if m.queue.contains(k) {
                    n.jobs[k] == JobRecord {
                        state: JobState::Cancelled,
                        error: Some(fail(ErrorCategory::Cancelled)),
                        ..m.jobs[k]
                    }
                } else {
                    n.jobs[k] == m.jobs[k]
                }
                &&& forall|y: u64| n.ready.contains(y) <==> (m.ready.contains(y) || m.queue.contains(y))
                &&& n.running == m.running
                &&& n.same_settings(m)
            }),
    {
        let ghost m = self@;
        self.accepting = false;
        let mut i: usize = 0;
        while i < self.queue.len()
            invariant
                m.wf(),
                self.queue@ == m.queue,
                !self.accepting,
                self.running == m.running,
                self@.same_settings(m),
                0 <= i <= m.queue.len(),
                self.jobs@.dom() == m.jobs.dom(),
                forall|k: u64| #[trigger] m.jobs.contains_key(k) ==> if m.queue.take(i as int).contains(k) {
                    self.jobs@[k] == JobRecord {
                        state: JobState::Cancelled,
                        error: Some(fail(ErrorCategory::Cancelled)),
                        ..m.jobs[k]
                    }
                } else {
                    self.jobs@[k] == m.jobs[k]
                },
                sorted(self.ready@),
                forall|y: u64| #[trigger] self.ready@.contains(y) <==> (m.ready.contains(y) || m.queue.take(
                    i as int,
                ).contains(y)),
                running_ids(self.jobs@) == running_ids(m.jobs),
            decreases m.queue.len() - i,
        {
            let k = self.queue[i];
            let ghost before = self.jobs@;
            proof {
                assert(m.jobs.contains_key(k));
                assert(!m.queue.take(i as int).contains(k)) by {
                    if m.queue.take(i as int).contains(k) {
                        let j = choose|j: int| 0 <= j < i && #[trigger] m.queue.take(i as int)[j] == k;
                        assert(m.queue[j] == m.queue[i as int]);
                    }
                }
                assert(!self.ready@.contains(k)) by {
                    if m.ready.contains(k) {
                        let j = choose|j: int| 0 <= j < m.ready.len() && m.ready[j] == k;
                        assert(m.jobs[m.ready[j]].state.spec_is_terminal());
                    }
                }
            }
            let removed = self.jobs.remove(&k);
            match removed {
                Some(record) => {
                    let JobRecord { request, state, input, output, output_len, error, deadline_exceeded } = record;
                    let cancelled = JobRecord {
                        request,
                        state: JobState::Cancelled,
                        input,
                        output,
                        output_len,
                        error: Some(error_of(ErrorCategory::Cancelled)),
                        deadline_exceeded,
                    };
                    proof {
                        lemma_running_insert(before, k, cancelled);
                        assert(before.remove(k).insert(k, cancelled) =~= before.insert(k, cancelled));
                        assert(!running_ids(before).contains(k));
                        assert(running_ids(before.insert(k, cancelled)) =~= running_ids(before));
                    }
                    self.jobs.insert(k, cancelled);
                },
                None => {},
            }
            let ghost ready_before = self.ready@;
            insert_sorted(&mut self.ready, k);
            proof {
                assert(m.queue.take(i + 1) =~= m.queue.take(i as int).push(k));
                assert forall|y: u64| m.queue.take(i + 1).contains(y) <==> (m.queue.take(i as int).contains(
                    y,
                ) || y == k) by {
                    if m.queue.take(i + 1).contains(y) {
                        let j = choose|j: int| 0 <= j < i + 1 && #[trigger] m.queue.take(i + 1)[j] == y;
                        if j < i {
                            assert(m.queue.take(i as int)[j] == y);
                        }
                    }
                    if m.queue.take(i as int).contains(y) {
                        let j = choose|j: int| 0 <= j < i && #[trigger] m.queue.take(i as int)[j] == y;
                        assert(m.queue.take(i + 1)[j] == y);
                    }
                    if y == k {
                        assert(m.queue.take(i + 1)[i as int] == y);
                    }
                }
                assert forall|y: u64| self.ready@.contains(y) <==> (m.ready.contains(y)
                    || m.queue.take(i + 1).contains(y)) by {
                    assert(self.ready@.contains(y) <==> (ready_before.contains(y) || y == k));
                    assert(ready_before.contains(y) <==> (m.ready.contains(y) || m.queue.take(
                        i as int,
                    ).contains(y)));
                }
            }
            i = i + 1;
        }
        self.queue = Vec::new();
        proof {
            let n = self@;
            assert(m.queue.take(m.queue.len() as int) =~= m.queue);
            assert(running_ids(n.jobs) == running_ids(m.jobs));
            assert(n.jobs.len() == m.jobs.len()) by {
                assert(n.jobs.dom() =~= m.jobs.dom());
            }
            assert forall|k: u64| #[trigger] n.jobs.contains_key(k) && n.jobs[k].state
                == JobState::Queued implies n.queue.contains(k) by {
                if !m.queue.contains(k) {
                    assert(m.jobs[k].state != JobState::Queued);
                }
            }
            assert forall|i: int| 0 <= i < n.ready.len() implies n.jobs.contains_key(
                #[trigger] n.ready[i],
            ) && n.jobs[n.ready[i]].state.spec_is_terminal() by {
                let y = n.ready[i];
                assert(n.ready.contains(y));
                assert(m.ready.contains(y) || m.queue.contains(y));
                if !m.queue.contains(y) {
                    let j = choose|j: int| 0 <= j < m.ready.len() && m.ready[j] == y;
                    assert(m.jobs.contains_key(m.ready[j]) && m.jobs[m.ready[j]].state.spec_is_terminal());
                    assert(m.jobs.contains_key(y));
                    assert(n.jobs[y] == m.jobs[y]);
                } else {
                    assert(m.jobs.contains_key(y));
                }
            }
        }
    }

    /// What `handle`'s job is doing now.
    pub fn poll(&self, handle: JobHandle) -> (r: KernelResult<JobSnapshot>)
        requires
            self@.wf(),
        ensures
            match self@.handle_error(handle) {
                Some(e) => r == Err::<JobSnapshot, KernelError>(e),
                None => r == Ok::<JobSnapshot, KernelError>(
                    JobSnapshot { id: handle.spec_id(), state: self@.jobs[handle.spec_id().0].state },
                ),
            },
    {
        if handle.context != self.context {
            return Err(error_of(ErrorCategory::WrongContext));
        }
        if handle.system != self.system {
            return Err(error_of(ErrorCategory::InvalidHandle));
        }
        match self.jobs.get(&handle.id.0) {
            Some(record) => Ok(JobSnapshot { id: handle.id, state: record.state }),
            None => Err(error_of(ErrorCategory::InvalidHandle)),
        }
    }

    /// Cancels `handle`'s job: a queued job is cancelled at once, a running job only
    /// gets the request (the host raises its token), a finished job is left as it is.
    pub fn cancel(&mut self, handle: JobHandle) -> (r: KernelResult<CancelOutcome>)
        requires
            old(self)@.wf(),
        ensures
            final(self)@.wf(),
            ({
                let m = old(self)@;
                let n = final(self)@;
                let k = handle.spec_id().0;
                match m.handle_error(handle) {
                    Some(e) => r == Err::<CancelOutcome, KernelError>(e) && n == m,
                    None => if m.jobs[k].state.spec_is_terminal() {
                        r == Ok::<CancelOutcome, KernelError>(CancelOutcome::AlreadyTerminal(m.jobs[k].state))
                            && n == m
                    } else if m.jobs[k].state == JobState::Running {
                        r == Ok::<CancelOutcome, KernelError>(CancelOutcome::Requested) && n == m
                    } else {
                        &&& r == Ok::<CancelOutcome, KernelError>(
                            CancelOutcome::Cancelled { previous: m.jobs[k].state },
                        )
                        &&& n.jobs == m.jobs.insert(
                            k,
                            JobRecord {
                                state: JobState::Cancelled,
                                error: Some(fail(ErrorCategory::Cancelled)),
                                ..m.jobs[k]
                            },
                        )
                        &&& n.queue == remove_value(m.queue, k)
                        &&& forall|y: u64| n.ready.contains(y) <==> (m.ready.contains(y) || y == k)
                        &&& n.running == m.running
                        &&& n.accepting == m.accepting
                        &&& n.same_settings(m)
                    },
                }
            }),
    {
        if handle.context != self.context {
            return Err(error_of(ErrorCategory::WrongContext));
        }
        if handle.system != self.system {
            return Err(error_of(ErrorCategory::InvalidHandle));
        }
        let k = handle.id.0;
        let previous = match self.jobs.get(&k) {
            Some(record) => record.state,
            None => {
                return Err(error_of(ErrorCategory::InvalidHandle));
            },
        };
        if previous.is_terminal() {
            return Ok(CancelOutcome::AlreadyTerminal(previous));
        }
        if previous == JobState::Running {
            return Ok(CancelOutcome::Requested);
        }
        let ghost m = self@;
        let removed = self.jobs.remove(&k);
        let record = match removed {
            Some(record) => record,
            None => {
                return Err(error_of(ErrorCategory::InvalidHandle));
            },
        };
        let JobRecord { request, state, input, output, output_len, error, deadline_exceeded } = record;
        let cancelled = JobRecord {
            request,
            state: JobState::Cancelled,
            input,
            output,
            output_len,
            error: Some(error_of(ErrorCategory::Cancelled)),
            deadline_exceeded,
        };
        proof {
            lemma_running_insert(m.jobs, k, cancelled);
            assert(m.jobs.remove(k).insert(k, cancelled) =~= m.jobs.insert(k, cancelled));
            assert(!running_ids(m.jobs).contains(k));
            assert(running_ids(m.jobs.insert(k, cancelled)) =~= running_ids(m.jobs));
            assert(!m.ready.contains(k)) by {
                if m.ready.contains(k) {
                    let i = choose|i: int| 0 <= i < m.ready.len() && m.ready[i] == k;
                    assert(m.jobs[m.ready[i]].state.spec_is_terminal());
                }
            }
            lemma_remove_value_distinct(m.queue, k);
        }
        self.jobs.insert(k, cancelled);
        remove_first(&mut self.queue, k);
        insert_sorted(&mut self.ready, k);
        proof {
            let n = self@;
            assert(n.jobs =~= m.jobs.insert(k, cancelled));
            assert(n.jobs.len() == m.jobs.len());
            assert(m.queue.contains(k));
            assert(n.queue.len() == m.queue.len() - 1) by {
                lemma_first_index_len(m.queue, k);
            }
            assert forall|i: int| 0 <= i < n.queue.len() implies n.jobs.contains_key(
                #[trigger] n.queue[i],
            ) && n.jobs[n.queue[i]].state == JobState::Queued by {
                let y = n.queue[i];
                assert(n.queue.contains(y));
                assert(m.queue.contains(y) && y != k);
                let j = choose|j: int| 0 <= j < m.queue.len() && m.queue[j] == y;
                assert(m.jobs.contains_key(m.queue[j]) && m.jobs[m.queue[j]].state == JobState::Queued);
            }
            assert forall|k2: u64| #[trigger] n.jobs.contains_key(k2) && n.jobs[k2].state
                == JobState::Queued implies n.queue.contains(k2) by {
                assert(k2 != k);
                assert(m.queue.contains(k2));
            }
            assert forall|i: int| 0 <= i < n.ready.len() implies n.jobs.contains_key(
                #[trigger] n.ready[i],
            ) && n.jobs[n.ready[i]].state.spec_is_terminal() by {
                let y = n.ready[i];
                assert(n.ready.contains(y));
                if y != k {
                    assert(m.ready.contains(y));
                    let j = choose|j: int| 0 <= j < m.ready.len() && m.ready[j] == y;
                    assert(m.jobs.contains_key(m.ready[j]) && m.jobs[m.ready[j]].state.spec_is_terminal());
                }
            }
        }
        Ok(CancelOutcome::Cancelled { previous })
    }

    /// Moves up to `out.len()` finished jobs, lowest id first, into `out` and returns
    /// how many it moved. A drained job stays retained until its result is taken.
    pub fn drain_completions(&mut self, out: &mut [JobCompletion]) -> (count: usize)
        requires
            old(self)@.wf(),
        ensures
            final(self)@.wf(),
            ({
                let m = old(self)@;
                let n = final(self)@;
                &&& count == min(old(out)@.len(), m.ready.len())
                &&& final(out)@.len() == old(out)@.len()
                &&& forall|i: int| 0 <= i < count ==> #[trigger] final(out)@[i] == (JobCompletion {
                    id: JobId(m.ready[i]),
                    state: m.jobs[m.ready[i]].state,
                })
                &&& forall|i: int| count <= i < old(out)@.len() ==> #[trigger] final(out)@[i] == old(out)@[i]
                &&& n.ready == m.ready.skip(count as int)
                &&& n.jobs == m.jobs
                &&& n.queue == m.queue
                &&& n.running == m.running
                &&& n.accepting == m.accepting
                &&& n.same_settings(m)
            }),
    {
        let count = if out.len() <= self.ready.len() { out.len() } else { self.ready.len() };
        let mut i: usize = 0;
        while i < count
            invariant
                self@.wf(),
                count <= out@.len(),
                count <= self.ready@.len(),
                i <= count,
                out@.len() == old(out)@.len(),
                forall|j: int| 0 <= j < i ==> #[trigger] out@[j] == (JobCompletion {
                    id: JobId(self.ready@[j]),
                    state: self.jobs@[self.ready@[j]].state,
                }),
                forall|j: int| i <= j < out@.len() ==> #[trigger] out@[j] == old(out)@[j],
            decreases count - i,
        {
            let k = self.ready[i];
            let state = match self.jobs.get(&k) {
                Some(record) => record.state,
                None => {
                    proof {
                        assert(self.jobs@.contains_key(self.ready@[i as int]));
                    }
                    JobState::Failed
                },
            };
            out[i] = JobCompletion { id: JobId(k), state };
            i = i + 1;
        }
        let ghost m = self@;
        let rest = self.ready.split_off(count);
        self.ready = rest;
        proof {
            let n = self@;
            assert(n.ready =~= m.ready.skip(count as int));
            assert forall|i: int, j: int| 0 <= i < j < n.ready.len() implies n.ready[i] < n.ready[j] by {
                assert(n.ready[i] == m.ready[i + count]);
                assert(n.ready[j] == m.ready[j + count]);
            }
            assert forall|i: int| 0 <= i < n.ready.len() implies n.jobs.contains_key(
                #[trigger] n.ready[i],
            ) && n.jobs[n.ready[i]].state.spec_is_terminal() by {
                assert(n.ready[i] == m.ready[i + count]);
            }
        }
        count
    }

    /// Reaps `handle`'s finished job: its record leaves the system and its result,
    /// with the bytes it wrote, goes to the caller. A job still queued or running
    /// cannot be reaped.
    pub fn take_result(&mut self, handle: JobHandle) -> (r: KernelResult<JobResult>)
        requires
            old(self)@.wf(),
        ensures
            final(self)@.wf(),
            ({
                let m = old(self)@;
                let n = final(self)@;
                let k = handle.spec_id().0;
                match m.handle_error(handle) {
                    Some(e) => r == Err::<JobResult, KernelError>(e) && n == m,
                    None => if !m.jobs[k].state.spec_is_terminal() {
                        r == Err::<JobResult, KernelError>(fail(ErrorCategory::InvalidArgument)) && n == m
                    } else {
                        &&& r matches Ok(res) && res.spec_summary() == (
                            handle.spec_id(),
                            m.jobs[k].state,
                            m.jobs[k].deadline_exceeded,
                            m.jobs[k].error,
                        ) && res.spec_bytes() == m.jobs[k].output@.take(m.jobs[k].output_len as int)
                        &&& n.jobs == m.jobs.remove(k)
                        &&& n.ready == remove_value(m.ready, k)
                        &&& n.queue == m.queue
                        &&& n.running == m.running
                        &&& n.accepting == m.accepting
                        &&& n.same_settings(m)
                    },
                }
            }),
    {
        if handle.context != self.context {
            return Err(error_of(ErrorCategory::WrongContext));
        }
        if handle.system != self.system {
            return Err(error_of(ErrorCategory::InvalidHandle));
        }
        let k = handle.id.0;
        let terminal = match self.jobs.get(&k) {
            Some(record) => record.state.is_terminal(),
            None => {
                return Err(error_of(ErrorCategory::InvalidHandle));
            },
        };
        if !terminal {
            return Err(error_of(ErrorCategory::InvalidArgument));
        }
        let ghost m = self@;
        let removed = self.jobs.remove(&k);
        let record = match removed {
            Some(record) => record,
            None => {
                return Err(error_of(ErrorCategory::InvalidHandle));
            },
        };
        proof {
            lemma_running_remove(m.jobs, k);
            assert(!running_ids(m.jobs).contains(k));
            assert(running_ids(m.jobs.remove(k)) =~= running_ids(m.jobs));
            lemma_remove_value_sorted(m.ready, k);
        }
        remove_first(&mut self.ready, k);
        let JobRecord { request, state, input, output, output_len, error, deadline_exceeded } = record;
        let mut output = output;
        output.truncate(output_len);
        proof {
            let n = self@;
            assert(n.jobs.len() == m.jobs.len() - 1);
            assert forall|i: int| 0 <= i < n.queue.len() implies n.jobs.contains_key(
                #[trigger] n.queue[i],
            ) && n.jobs[n.queue[i]].state == JobState::Queued by {
                assert(m.jobs.contains_key(m.queue[i]) && m.jobs[m.queue[i]].state == JobState::Queued);
                assert(n.queue[i] != k);
            }
            assert forall|k2: u64| #[trigger] n.jobs.contains_key(k2) && n.jobs[k2].state
                == JobState::Queued implies n.queue.contains(k2) by {
                assert(m.jobs.contains_key(k2));
            }
            assert forall|i: int| 0 <= i < n.ready.len() implies n.jobs.contains_key(
                #[trigger] n.ready[i],
            ) && n.jobs[n.ready[i]].state.spec_is_terminal() by {
                let y = n.ready[i];
                assert(n.ready.contains(y));
                assert(m.ready.contains(y) && y != k);
                let j = choose|j: int| 0 <= j < m.ready.len() && m.ready[j] == y;
                assert(m.jobs.contains_key(m.ready[j]) && m.jobs[m.ready[j]].state.spec_is_terminal());
            }
        }
        Ok(JobResult { id: handle.id, state, deadline_exceeded, error, output })
    }

    /// Stops the system and reports whether anything still runs: the jobs running
    /// now and the host's `live_workers` worker threads that have not finished.
    pub fn quiesce(&mut self, live_workers: usize) -> (r: QuiesceReport)
        requires
            old(self)@.wf(),
        ensures
            final(self)@.wf(),
            !final(self)@.accepting,
            final(self)@.queue.len() == 0,
            final(self)@.running == old(self)@.running,
            old(self)@.running + live_workers == 0 ==> r.state == QuiesceState::Quiesced,
            old(self)@.running + live_workers > 0 ==> r.state == (QuiesceState::Pending {
                remaining: if old(self)@.running + live_workers > u32::MAX {
                    u32::MAX
                } else {
                    (old(self)@.running + live_workers) as u32
                },
            }),
    {
        self.stop();
        let remaining = self.running.saturating_add(live_workers);
        if remaining == 0 {
            QuiesceReport { state: QuiesceState::Quiesced }
        } else {
            let clamped = if remaining > u32::MAX as usize { u32::MAX } else { remaining as u32 };
            QuiesceReport { state: QuiesceState::Pending { remaining: clamped } }
        }
    }

    /// Drops every job record once nothing runs.
    pub fn clear(&mut self)
        requires
            old(self)@.wf(),
            old(self)@.running == 0,
        ensures
            final(self)@.wf(),
            final(self)@.jobs.is_empty(),
            final(self)@.queue.len() == 0,
            final(self)@.ready.len() == 0,
            final(self)@.accepting == old(self)@.accepting,
            final(self)@.same_settings(old(self)@),
    {
        self.queue = Vec::new();
        self.ready = Vec::new();
        self.jobs = std::collections::HashMap::new();
        proof {
            assert(running_ids(self.jobs@) =~= Set::<u64>::empty());
        }
    }

    pub fn retained_jobs(&self) -> (n: usize)
        requires
            self@.wf(),
        ensures
            n == self@.jobs.len(),
    {
        self.jobs.len()
    }

    pub fn is_accepting(&self) -> (b: bool)
        ensures
            b == self@.accepting,
    {
        self.accepting
    }

    pub fn running(&self) -> (n: usize)
        ensures
            n == self@.running,
    {
        self.running
    }
}

/// Completed but unreaped jobs still count against the system's capacity: a system
/// holding as many jobs as it may retain refuses every submission, and never holds
/// more.
pub proof fn law_unreaped_jobs_apply_backpressure(
    m: SchedulerModel,
    operation_available: bool,
    input_len: usize,
    output_capacity: usize,
)
    requires
        m.wf(),
        m.accepting,
        m.jobs.len() >= m.max_live,
    ensures
        m.jobs.len() == m.max_live,
        m.submission(operation_available, input_len, output_capacity) == Err::<u64, KernelError>(
            fail(ErrorCategory::CapacityExceeded),
        ),
{
}

/// No more jobs run at once than the system has worker slots.
pub proof fn law_running_is_bounded(m: SchedulerModel)
    requires
        m.wf(),
    ensures
        running_ids(m.jobs).len() <= m.max_running,
{
}

/// Taking a result reaps the job: its handle is refused from then on.
pub proof fn law_reaped_handle_is_invalid(m: SchedulerModel, handle: JobHandle)
    requires
        m.wf(),
        m.handle_error(handle) is None,
        m.jobs[handle.spec_id().0].state.spec_is_terminal(),
    ensures
        (SchedulerModel { jobs: m.jobs.remove(handle.spec_id().0), ..m }).handle_error(handle)
            == Some(fail(ErrorCategory::InvalidHandle)),
{
}

/// A handle of another system or another context is refused.
pub proof fn law_foreign_handle_is_refused(m: SchedulerModel, handle: JobHandle)
    requires
        handle.spec_system() != m.system || handle.spec_context() != m.context,
    ensures
        m.handle_error(handle) is Some,
{
}

/// Completions are drained lowest id first: every drained id is below every id left
/// to drain, and each names a finished job.
pub proof fn law_completions_drain_in_id_order(m: SchedulerModel, count: int, i: int, j: int)
    requires
        m.wf(),
        0 <= i < count <= m.ready.len(),
        count <= j < m.ready.len(),
    ensures
        m.ready[i] < m.ready[j],
        m.jobs[m.ready[i]].state.spec_is_terminal(),
{
}

/// A job is queued exactly when it waits in the run queue, and every queued job
/// waits there once.
pub proof fn law_queue_holds_exactly_the_queued_jobs(m: SchedulerModel, k: u64)
    requires
        m.wf(),
    ensures
        (m.jobs.contains_key(k) && m.jobs[k].state == JobState::Queued) <==> m.queue.contains(k),
        distinct(m.queue),
{
    if m.queue.contains(k) {
        let i = choose|i: int| 0 <= i < m.queue.len() && m.queue[i] == k;
        assert(m.jobs.contains_key(m.queue[i]));
    }
}

} // verus!
