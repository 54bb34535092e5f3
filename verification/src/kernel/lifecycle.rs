//! Resumable, non-blocking context close, as a state machine.
//!
//! The host owns the resources and the clock: it performs each action this machine
//! names and reports what happened. A resource that is still pending is never
//! destroyed, a timed-out pass keeps everything for a retry, and a failure or a
//! finished close is answered the same way from then on.
use vstd::prelude::*;
use crate::kernel::context::{Deadline, QuiesceState};
use crate::kernel::error::{ErrorCategory, ErrorDetail, KernelError, KernelResult, error_of};

verus! {

#[derive(Clone, Copy, Debug, PartialEq, Eq, Structural)]
pub enum ContextPhase {
    Running,
    Quiescing,
    Closed,
}

/// How far a close pass got: the names of the close steps it went through, in the
/// order reject new work, cancel, quiesce, wait for quiescence, drain, destroy,
/// mark closed.
#[derive(Clone, Copy, Debug, PartialEq, Eq)]
pub struct ContextCloseReport {
    pub steps: &'static [&'static str],
    pub phase: ContextPhase,
}

/// The phase of a context as seen by work asking to be admitted.
#[derive(Clone, Copy, Debug)]
pub struct ContextStateGate {
    phase: ContextPhase,
}

/// What a request for admission is answered in `phase`.
pub open spec fn admission_of(phase: ContextPhase) -> KernelResult<()> {
    match phase {
        ContextPhase::Running => Ok(()),
        ContextPhase::Quiescing => Err(fail(ErrorCategory::ContextClosing)),
        ContextPhase::Closed => Err(fail(ErrorCategory::ContextDestroyed)),
    }
}

impl ContextStateGate {
    pub closed spec fn spec_phase(&self) -> ContextPhase {
        self.phase
    }

    pub fn new_running() -> (g: Self)
        ensures
            g.spec_phase() == ContextPhase::Running,
    {
        ContextStateGate { phase: ContextPhase::Running }
    }

    pub fn phase(&self) -> (p: ContextPhase)
        ensures
            p == self.spec_phase(),
    {
        self.phase
    }

    /// New work is admitted only while the context runs.
    pub fn try_admit(&self) -> (r: KernelResult<()>)
        ensures
            r == admission_of(self.spec_phase()),
    {
        match self.phase {
            ContextPhase::Running => Ok(()),
            ContextPhase::Quiescing => Err(error_of(ErrorCategory::ContextClosing)),
            ContextPhase::Closed => Err(error_of(ErrorCategory::ContextDestroyed)),
        }
    }

    /// A running context starts closing; a closing or closed one stays as it is.
    pub fn begin_close(&mut self)
        ensures
            final(self).spec_phase() == (if old(self).spec_phase() == ContextPhase::Running {
                ContextPhase::Quiescing
            } else {
                old(self).spec_phase()
            }),
    {
        if self.phase == ContextPhase::Running {
            self.phase = ContextPhase::Quiescing;
        }
    }

    pub fn mark_closed(&mut self)
        ensures
            final(self).spec_phase() == ContextPhase::Closed,
    {
        self.phase = ContextPhase::Closed;
    }
}

/// Once a close has begun, no new work is admitted again.
pub proof fn law_no_admission_after_close_begins(phase: ContextPhase)
    requires
        phase != ContextPhase::Running,
    ensures
        admission_of(phase) is Err,
        admission_of(if phase == ContextPhase::Running { ContextPhase::Quiescing } else { phase }) is Err,
        admission_of(ContextPhase::Closed) is Err,
{
}

/// Every close step, in order.
pub open spec fn spec_close_steps() -> &'static [&'static str] {
    &["reject_new_work", "cancel_requested", "quiesce", "wait_quiesce", "drain", "destroy", "mark_closed"]
}

/// The close steps a pass that waits for quiescence went through: the first three.
pub open spec fn spec_quiescing_steps() -> &'static [&'static str] {
    &["reject_new_work", "cancel_requested", "quiesce"]
}

/// The names of all seven close steps.
pub fn close_steps() -> (r: &'static [&'static str])
    ensures
        r == spec_close_steps(),
        r@.len() == 7,
{
    &["reject_new_work", "cancel_requested", "quiesce", "wait_quiesce", "drain", "destroy", "mark_closed"]
}

/// The names of the first three close steps.
pub fn quiescing_steps() -> (r: &'static [&'static str])
    ensures
        r == spec_quiescing_steps(),
        r@.len() == 3,
        r@ == spec_close_steps()@.take(3),
{
    &["reject_new_work", "cancel_requested", "quiesce"]
}

/// What a resource's `quiesce` call came back with.
#[derive(Clone, Copy, Debug)]
pub enum QuiesceResult {
    Reported(QuiesceState),
    Failed(KernelError),
    Panicked,
}

/// What a resource's `destroy` call came back with.
#[derive(Clone, Copy, Debug)]
pub enum DestroyResult {
    Done,
    Failed(KernelError),
    Panicked,
}

/// What the host must do next.
#[derive(Clone, Copy, Debug)]
pub enum CloseAction {
    /// End the pass with this answer, then call `end_pass`.
    Reply(KernelResult<ContextCloseReport>),
    /// Stop admitting work and snapshot the registered resources.
    Snapshot,
    Cancel { index: usize },
    Quiesce { index: usize },
    /// Check whether the pass's effective deadline has passed.
    CheckDeadline,
    Destroy { index: usize },
    /// Drop the resource set and mark the context closed.
    MarkClosed,
}

/// What the host reports back.
#[derive(Clone, Copy, Debug)]
pub enum CloseEvent {
    Snapshotted { count: usize },
    CancelReturned { panicked: bool },
    QuiesceReturned(QuiesceResult),
    DeadlineChecked { expired: bool },
    DestroyReturned(DestroyResult),
    Closed,
}

#[derive(Clone, Copy, Debug, PartialEq, Eq, Structural)]
pub enum PassStage {
    Idle,
    Quiescing { cursor: usize },
    Destroying,
}

/// The close progress as plain values.
pub ghost struct CloseModel {
    pub started: bool,
    pub count: nat,
    pub cancelled: nat,
    pub quiesced: Seq<bool>,
    pub destroy_remaining: nat,
    pub report: Option<ContextCloseReport>,
    pub failure: Option<KernelError>,
    pub reply: Option<KernelResult<ContextCloseReport>>,
    pub stage: PassStage,
}

pub open spec fn fail(category: ErrorCategory) -> KernelError {
    KernelError { category, detail: ErrorDetail::NoDetail }
}

pub open spec fn all_true(s: Seq<bool>) -> bool {
    forall|i: int| 0 <= i < s.len() ==> #[trigger] s[i]
}

/// The answer of a pass that found resources still pending before its deadline.
pub open spec fn quiescing_report() -> ContextCloseReport {
    ContextCloseReport { steps: spec_quiescing_steps(), phase: ContextPhase::Quiescing }
}

/// The answer of a complete close.
pub open spec fn closed_report() -> ContextCloseReport {
    ContextCloseReport { steps: spec_close_steps(), phase: ContextPhase::Closed }
}

impl CloseModel {
    pub open spec fn wf(self) -> bool {
        &&& self.count <= usize::MAX
        &&& self.started ==> self.quiesced.len() == self.count
        &&& !self.started ==> self.count == 0 && self.cancelled == 0 && self.destroy_remaining == 0
            && self.quiesced.len() == 0
        &&& self.cancelled <= self.count
        &&& self.destroy_remaining <= self.count
        &&& self.destroy_remaining < self.count ==> all_true(self.quiesced)
        &&& match self.stage {
            PassStage::Idle => true,
            PassStage::Quiescing { cursor } => self.started && self.cancelled == self.count
                && cursor <= self.count,
            PassStage::Destroying => self.started && self.cancelled == self.count
                && all_true(self.quiesced),
        }
        &&& self.reply is Some ==> self.stage == PassStage::Idle
        &&& self.report is Some ==> self.stage == PassStage::Idle
        &&& self.failure is Some ==> self.stage == PassStage::Idle
        &&& self.report is Some ==> self.failure is None
    }

    /// The action owed in this state.
    pub open spec fn next(self) -> CloseAction {
        if self.reply is Some {
            CloseAction::Reply(self.reply->0)
        } else {
            match self.stage {
                PassStage::Idle => if self.report is Some {
                    CloseAction::Reply(Ok(self.report->0))
                } else if self.failure is Some {
                    CloseAction::Reply(Err(self.failure->0))
                } else if !self.started {
                    CloseAction::Snapshot
                } else if self.cancelled < self.count {
                    CloseAction::Cancel { index: self.cancelled as usize }
                } else {
                    self.quiesce_from(0)
                },
                PassStage::Quiescing { cursor } => self.quiesce_from(cursor as int),
                PassStage::Destroying => self.destroy_next(),
            }
        }
    }

    /// The first resource at or after `cursor` that has not reported quiescence; past
    /// the end, destruction if every resource has, else a deadline check.
    pub open spec fn quiesce_from(self, cursor: int) -> CloseAction
        decreases self.count - cursor,
    {
        if cursor >= self.count {
            if all_true(self.quiesced) {
                self.destroy_next()
            } else {
                CloseAction::CheckDeadline
            }
        } else if cursor >= 0 && self.quiesced[cursor] {
            self.quiesce_from(cursor + 1)
        } else {
            CloseAction::Quiesce { index: cursor as usize }
        }
    }

    /// Resources are destroyed from the last registered to the first.
    pub open spec fn destroy_next(self) -> CloseAction {
        if self.destroy_remaining > 0 {
            CloseAction::Destroy { index: (self.destroy_remaining - 1) as usize }
        } else {
            CloseAction::MarkClosed
        }
    }

    /// This state, answering `answer`, with the pass ended.
    pub open spec fn answering(self, answer: KernelResult<ContextCloseReport>) -> Self {
        CloseModel { reply: Some(answer), stage: PassStage::Idle, ..self }
    }

    /// This state after a failure that every later pass reports.
    pub open spec fn failing(self, e: KernelError) -> Self {
        CloseModel { failure: Some(e), reply: Some(Err(e)), stage: PassStage::Idle, ..self }
    }

    /// The state after the host reports `ev` in answer to the owed action. An event
    /// that does not answer that action changes nothing.
    pub open spec fn after(self, ev: CloseEvent) -> Self {
        match (self.next(), ev) {
            (CloseAction::Snapshot, CloseEvent::Snapshotted { count }) => CloseModel {
                started: true,
                count: count as nat,
                cancelled: 0,
                quiesced: Seq::new(count as nat, |i: int| false),
                destroy_remaining: count as nat,
                ..self
            },
            (CloseAction::Cancel { index }, CloseEvent::CancelReturned { panicked }) => if panicked {
                self.failing(fail(ErrorCategory::PanicBoundary))
            } else {
                CloseModel { cancelled: self.cancelled + 1, ..self }
            },
            (CloseAction::Quiesce { index }, CloseEvent::QuiesceReturned(r)) => match r {
                QuiesceResult::Reported(state) => CloseModel {
                    quiesced: self.quiesced.update(index as int, state == QuiesceState::Quiesced),
                    stage: PassStage::Quiescing { cursor: (index + 1) as usize },
                    ..self
                },
                QuiesceResult::Failed(e) => if e.category == ErrorCategory::TimedOut {
                    self.answering(Err(e))
                } else {
                    self.failing(e)
                },
                QuiesceResult::Panicked => self.failing(fail(ErrorCategory::PanicBoundary)),
            },
            (CloseAction::CheckDeadline, CloseEvent::DeadlineChecked { expired }) => if expired {
                self.answering(Err(fail(ErrorCategory::TimedOut)))
            } else {
                self.answering(Ok(quiescing_report()))
            },
            (CloseAction::Destroy { index }, CloseEvent::DestroyReturned(r)) => match r {
                DestroyResult::Done => CloseModel {
                    destroy_remaining: (self.destroy_remaining - 1) as nat,
                    stage: PassStage::Destroying,
                    ..self
                },
                DestroyResult::Failed(e) => self.failing(e),
                DestroyResult::Panicked => self.failing(fail(ErrorCategory::PanicBoundary)),
            },
            (CloseAction::MarkClosed, CloseEvent::Closed) => CloseModel {
                report: Some(closed_report()),
                reply: Some(Ok(closed_report())),
                stage: PassStage::Idle,
                ..self
            },
            _ => self,
        }
    }

    /// The state once the host has delivered a `Reply`.
    pub open spec fn ended(self) -> Self {
        CloseModel { reply: None, stage: PassStage::Idle, ..self }
    }
}

/// What the action owed after a quiescence scan from `cursor` tells of the state.
proof fn lemma_quiesce_from_shape(m: CloseModel, cursor: int)
    requires
        m.wf(),
        m.started,
        0 <= cursor <= m.count,
    ensures
        m.quiesce_from(cursor) matches CloseAction::Quiesce { index } ==> cursor <= index < m.count
            && !m.quiesced[index as int],
        m.quiesce_from(cursor) is CheckDeadline ==> !all_true(m.quiesced),
        m.quiesce_from(cursor) is Destroy || m.quiesce_from(cursor) is MarkClosed ==> all_true(
            m.quiesced,
        ) && m.quiesce_from(cursor) == m.destroy_next(),
        m.quiesce_from(cursor) is Quiesce || m.quiesce_from(cursor) is CheckDeadline
            || m.quiesce_from(cursor) is Destroy || m.quiesce_from(cursor) is MarkClosed,
    decreases m.count - cursor,
{
    if cursor < m.count && m.quiesced[cursor] {
        lemma_quiesce_from_shape(m, cursor + 1);
    }
}

/// What the owed action tells of the state it is owed in.
pub proof fn lemma_next_shape(m: CloseModel)
    requires
        m.wf(),
    ensures
        m.next() is Reply <==> (m.reply is Some || (m.stage == PassStage::Idle && (m.report is Some
            || m.failure is Some))),
        !(m.next() is Reply) ==> m.report is None && m.failure is None && m.reply is None,
        m.next() is Snapshot ==> !m.started,
        m.next() matches CloseAction::Cancel { index } ==> m.started && index == m.cancelled
            && m.cancelled < m.count && m.stage == PassStage::Idle,
        m.next() matches CloseAction::Quiesce { index } ==> m.started && index < m.count
            && !m.quiesced[index as int] && m.cancelled == m.count,
        m.next() is CheckDeadline ==> m.started && !all_true(m.quiesced) && m.cancelled == m.count,
        m.next() matches CloseAction::Destroy { index } ==> m.started && index + 1
            == m.destroy_remaining && all_true(m.quiesced) && m.cancelled == m.count,
        m.next() is MarkClosed ==> m.started && m.destroy_remaining == 0 && all_true(m.quiesced)
            && m.cancelled == m.count,
{
    if m.reply is None {
        match m.stage {
            PassStage::Idle => {
                if m.report is None && m.failure is None && m.started && m.cancelled >= m.count {
                    lemma_quiesce_from_shape(m, 0);
                }
            },
            PassStage::Quiescing { cursor } => {
                lemma_quiesce_from_shape(m, cursor as int);
            },
            PassStage::Destroying => {},
        }
    }
}

/// The deadline a pass works to: the caller's, or the configured one where the caller
/// gave none.
pub fn effective_deadline(deadline: Deadline, configured: Deadline) -> (d: Deadline)
    ensures
        d == (if deadline.at_ms is None { configured } else { deadline }),
{
    if deadline.at_ms.is_none() {
        configured
    } else {
        deadline
    }
}

/// Progress kept between close passes.
pub struct CloseProgress {
    started: bool,
    count: usize,
    cancelled: usize,
    quiesced: Vec<bool>,
    destroy_remaining: usize,
    report: Option<ContextCloseReport>,
    failure: Option<KernelError>,
    reply: Option<KernelResult<ContextCloseReport>>,
    stage: PassStage,
}

impl View for CloseProgress {
    type V = CloseModel;

    closed spec fn view(&self) -> CloseModel {
        CloseModel {
            started: self.started,
            count: self.count as nat,
            cancelled: self.cancelled as nat,
            quiesced: self.quiesced@,
            destroy_remaining: self.destroy_remaining as nat,
            report: self.report,
            failure: self.failure,
            reply: self.reply,
            stage: self.stage,
        }
    }
}

impl CloseProgress {
    pub fn new() -> (p: Self)
        ensures
            p@.wf(),
            !p@.started,
            p@.report is None,
            p@.failure is None,
            p@.reply is None,
            p@.stage == PassStage::Idle,
    {
        CloseProgress {
            started: false,
            count: 0,
            cancelled: 0,
            quiesced: Vec::new(),
            destroy_remaining: 0,
            report: None,
            failure: None,
            reply: None,
            stage: PassStage::Idle,
        }
    }

    fn destroy_next(&self) -> (a: CloseAction)
        requires
            self@.wf(),
        ensures
            a == self@.destroy_next(),
    {
        if self.destroy_remaining > 0 {
            CloseAction::Destroy { index: self.destroy_remaining - 1 }
        } else {
            CloseAction::MarkClosed
        }
    }

    fn quiesce_from(&self, cursor: usize) -> (a: CloseAction)
        requires
            self@.wf(),
            self@.started,
            cursor <= self@.count,
        ensures
            a == self@.quiesce_from(cursor as int),
    {
        let mut c: usize = cursor;
        while c < self.count && self.quiesced[c]
            invariant
                self@.wf(),
                self@.started,
                cursor <= c <= self.count,
                self@.quiesce_from(cursor as int) == self@.quiesce_from(c as int),
            decreases self.count - c,
        {
            c = c + 1;
        }
        if c < self.count {
            return CloseAction::Quiesce { index: c };
        }
        let mut all: bool = true;
        let mut i: usize = 0;
        while i < self.count
            invariant
                self@.wf(),
                self@.started,
                i <= self.count,
                all == (forall|j: int| 0 <= j < i ==> #[trigger] self.quiesced@[j]),
            decreases self.count - i,
        {
            all = all && self.quiesced[i];
            i = i + 1;
        }
        if all {
            self.destroy_next()
        } else {
            CloseAction::CheckDeadline
        }
    }

    /// The action owed in the current state.
    pub fn next_action(&self) -> (a: CloseAction)
        requires
            self@.wf(),
        ensures
            a == self@.next(),
    {
        if let Some(r) = self.reply {
            return CloseAction::Reply(r);
        }
        match self.stage {
            PassStage::Idle => {
                if let Some(report) = self.report {
                    CloseAction::Reply(Ok(report))
                } else if let Some(e) = self.failure {
                    CloseAction::Reply(Err(e))
                } else if !self.started {
                    CloseAction::Snapshot
                } else if self.cancelled < self.count {
                    CloseAction::Cancel { index: self.cancelled }
                } else {
                    self.quiesce_from(0)
                }
            },
            PassStage::Quiescing { cursor } => self.quiesce_from(cursor),
            PassStage::Destroying => self.destroy_next(),
        }
    }

    /// Ends the pass once its `Reply` has been delivered.
    pub fn end_pass(&mut self)
        requires
            old(self)@.wf(),
        ensures
            final(self)@ == old(self)@.ended(),
            final(self)@.wf(),
    {
        self.reply = None;
        self.stage = PassStage::Idle;
    }

    fn fail_with(&mut self, e: KernelError)
        requires
            old(self)@.wf(),
            old(self)@.report is None,
        ensures
            final(self)@ == old(self)@.failing(e),
    {
        self.failure = Some(e);
        self.reply = Some(Err(e));
        self.stage = PassStage::Idle;
    }

    /// Records what the host reports in answer to the owed action.
    pub fn on_event(&mut self, ev: CloseEvent)
        requires
            old(self)@.wf(),
        ensures
            final(self)@ == old(self)@.after(ev),
            final(self)@.wf(),
    {
        let action = self.next_action();
        proof {
            lemma_next_shape(self@);
        }
        match (action, ev) {
            (CloseAction::Snapshot, CloseEvent::Snapshotted { count }) => {
                let mut q: Vec<bool> = Vec::new();
                let mut i: usize = 0;
                while i < count
                    invariant
                        i <= count,
                        q@ == Seq::new(i as nat, |j: int| false),
                    decreases count - i,
                {
                    q.push(false);
                    i = i + 1;
                }
                self.started = true;
                self.count = count;
                self.cancelled = 0;
                self.quiesced = q;
                self.destroy_remaining = count;
            },
            (CloseAction::Cancel { index }, CloseEvent::CancelReturned { panicked }) => {
                if panicked {
                    self.fail_with(error_of(ErrorCategory::PanicBoundary));
                } else {
                    self.cancelled = self.cancelled + 1;
                }
            },
            (CloseAction::Quiesce { index }, CloseEvent::QuiesceReturned(r)) => {
                match r {
                    QuiesceResult::Reported(state) => {
                        let ready = match state {
                            QuiesceState::Quiesced => true,
                            QuiesceState::Pending { .. } => false,
                        };
                        self.quiesced.set(index, ready);
                        self.stage = PassStage::Quiescing { cursor: index + 1 };
                    },
                    QuiesceResult::Failed(e) => {
                        let timed_out = match e.category {
                            ErrorCategory::TimedOut => true,
                            _ => false,
                        };
                        if timed_out {
                            self.reply = Some(Err(e));
                            self.stage = PassStage::Idle;
                        } else {
                            self.fail_with(e);
                        }
                    },
                    QuiesceResult::Panicked => {
                        self.fail_with(error_of(ErrorCategory::PanicBoundary));
                    },
                }
            },
            (CloseAction::CheckDeadline, CloseEvent::DeadlineChecked { expired }) => {
                if expired {
                    self.reply = Some(Err(error_of(ErrorCategory::TimedOut)));
                } else {
                    self.reply = Some(
                        Ok(ContextCloseReport { steps: quiescing_steps(), phase: ContextPhase::Quiescing }),
                    );
                }
                self.stage = PassStage::Idle;
            },
            (CloseAction::Destroy { index }, CloseEvent::DestroyReturned(r)) => {
                match r {
                    DestroyResult::Done => {
                        self.destroy_remaining = self.destroy_remaining - 1;
                        self.stage = PassStage::Destroying;
                    },
                    DestroyResult::Failed(e) => {
                        self.fail_with(e);
                    },
                    DestroyResult::Panicked => {
                        self.fail_with(error_of(ErrorCategory::PanicBoundary));
                    },
                }
            },
            (CloseAction::MarkClosed, CloseEvent::Closed) => {
                let report = ContextCloseReport { steps: close_steps(), phase: ContextPhase::Closed };
                self.report = Some(report);
                self.reply = Some(Ok(report));
                self.stage = PassStage::Idle;
            },
            _ => {},
        }
    }
}

/// A resource is destroyed only once every resource has reported quiescence, and only
/// once every resource was asked to cancel: no pending resource is ever destroyed.
pub proof fn law_no_destroy_while_pending(m: CloseModel)
    requires
        m.wf(),
        m.next() is Destroy,
    ensures
        all_true(m.quiesced),
        m.cancelled == m.count,
        m.quiesced[m.next()->Destroy_index as int],
{
    lemma_next_shape(m);
}

/// Every resource is asked to cancel before any is quiesced.
pub proof fn law_cancel_before_quiesce(m: CloseModel)
    requires
        m.wf(),
        m.next() is Quiesce || m.next() is CheckDeadline,
    ensures
        m.cancelled == m.count,
{
    lemma_next_shape(m);
}

/// Once a close has finished, every later pass answers the same report and nothing
/// the host reports changes the state.
pub proof fn law_finished_close_is_final(m: CloseModel, ev: CloseEvent)
    requires
        m.wf(),
        m.report is Some,
    ensures
        m.ended().next() == CloseAction::Reply(Ok(m.report->0)),
        m.ended().after(ev) == m.ended(),
        m.ended().ended() == m.ended(),
{
}

/// Once a pass has failed on a resource callback, every later pass answers the same
/// error and nothing the host reports changes the state: no callback is called again.
pub proof fn law_failure_is_final(m: CloseModel, ev: CloseEvent)
    requires
        m.wf(),
        m.failure is Some,
    ensures
        m.ended().next() == CloseAction::Reply(Err(m.failure->0)),
        m.ended().after(ev) == m.ended(),
{
}

/// A pass that times out waiting for quiescence keeps everything for a retry: nothing
/// is destroyed, nothing is recorded as a failure, and what has quiesced stays
/// quiesced. (A destructor that itself fails, with whatever category, ends the close.)
pub proof fn law_timeout_keeps_progress(m: CloseModel, ev: CloseEvent)
    requires
        m.wf(),
        m.reply is None,
        !(m.next() is Destroy),
        m.after(ev).reply matches Some(Err(e)) && e.category == ErrorCategory::TimedOut,
    ensures
        m.after(ev).failure is None,
        m.after(ev).report is None,
        m.after(ev).destroy_remaining == m.destroy_remaining,
        m.after(ev).destroy_remaining == m.count,
        m.after(ev).quiesced == m.quiesced,
        m.after(ev).cancelled == m.cancelled,
        !(m.after(ev).ended().next() is Reply),
{
    lemma_next_shape(m);
    lemma_next_shape(m.after(ev).ended());
}

/// A resource that has reported quiescence stays quiesced.
pub proof fn law_quiescence_is_kept(m: CloseModel, ev: CloseEvent, i: int)
    requires
        m.wf(),
        m.started,
        0 <= i < m.count,
        m.quiesced[i],
    ensures
        m.after(ev).count == m.count,
        m.after(ev).quiesced[i],
{
    lemma_next_shape(m);
}

/// Resources are destroyed from the last to the first, each at most once: after a
/// destroy the next one owed has a smaller index, and a destroy that did not succeed
/// ends the close for good.
pub proof fn law_destroy_once_in_reverse(m: CloseModel, r: DestroyResult)
    requires
        m.wf(),
        m.next() is Destroy,
    ensures
        m.after(CloseEvent::DestroyReturned(r)).next() matches CloseAction::Destroy { index }
            ==> index < m.next()->Destroy_index,
        !(r is Done) ==> m.after(CloseEvent::DestroyReturned(r)).failure is Some,
{
    lemma_next_shape(m);
    let n = m.after(CloseEvent::DestroyReturned(r));
    lemma_next_shape(n);
}

} // verus!
