use lumio_core::kernel::context::{Deadline, QuiesceState};
use lumio_core::kernel::error::{ErrorCategory, ErrorDetail, KernelError, KernelResult};
use lumio_core::kernel::lifecycle::{
    close_steps, effective_deadline, quiescing_steps, CloseAction, CloseEvent, CloseProgress, ContextCloseReport,
    ContextPhase, DestroyResult, QuiesceResult,
};

const QUIESCING: &[&str] = &["reject_new_work", "cancel_requested", "quiesce"];
const ALL_STEPS: &[&str] = &["reject_new_work", "cancel_requested", "quiesce", "wait_quiesce", "drain", "destroy", "mark_closed"];

#[derive(Clone, Copy)]
struct Resource {
    ready: bool,
    cancel_panics: bool,
    quiesce_error: Option<ErrorCategory>,
    destroy: Option<ErrorCategory>,
}

fn ready() -> Resource {
    Resource { ready: true, cancel_panics: false, quiesce_error: None, destroy: None }
}

fn pending() -> Resource {
    Resource { ready: false, ..ready() }
}

fn error(category: ErrorCategory) -> KernelError {
    KernelError::new(category, ErrorDetail::NoDetail)
}

#[derive(Default)]
struct Log {
    cancelled: Vec<usize>,
    quiesced: Vec<usize>,
    destroyed: Vec<usize>,
}

/// One close pass, driven the way a host drives it, with the clock at `now`.
fn pass(
    progress: &mut CloseProgress,
    resources: &[Resource],
    now: u64,
    deadline: Deadline,
    log: &mut Log,
) -> KernelResult<ContextCloseReport> {
    let effective = effective_deadline(deadline, Deadline::none());
    loop {
        match progress.next_action() {
            CloseAction::Reply(r) => {
                progress.end_pass();
                return r;
            }
            CloseAction::Snapshot => progress.on_event(CloseEvent::Snapshotted { count: resources.len() }),
            CloseAction::Cancel { index } => {
                log.cancelled.push(index);
                progress.on_event(CloseEvent::CancelReturned { panicked: resources[index].cancel_panics })
            }
            CloseAction::Quiesce { index } => {
                log.quiesced.push(index);
                let r = resources[index];
                let result = match r.quiesce_error {
                    Some(c) => QuiesceResult::Failed(error(c)),
                    None if r.ready => QuiesceResult::Reported(QuiesceState::Quiesced),
                    None => QuiesceResult::Reported(QuiesceState::Pending { remaining: 1 }),
                };
                progress.on_event(CloseEvent::QuiesceReturned(result))
            }
            CloseAction::CheckDeadline => {
                progress.on_event(CloseEvent::DeadlineChecked { expired: effective.is_expired(now) })
            }
            CloseAction::Destroy { index } => {
                log.destroyed.push(index);
                let result = match resources[index].destroy {
                    Some(c) => DestroyResult::Failed(error(c)),
                    None => DestroyResult::Done,
                };
                progress.on_event(CloseEvent::DestroyReturned(result))
            }
            CloseAction::MarkClosed => progress.on_event(CloseEvent::Closed),
        }
    }
}

#[test]
fn pending_close_does_not_destroy_and_can_resume() {
    let mut progress = CloseProgress::new();
    let mut log = Log::default();
    let mut resources = [pending()];
    let first = pass(&mut progress, &resources, 0, Deadline::none(), &mut log).unwrap();
    assert_eq!(first.phase, ContextPhase::Quiescing);
    assert_eq!(first.steps, QUIESCING);
    assert!(log.destroyed.is_empty());
    resources[0].ready = true;
    let second = pass(&mut progress, &resources, 0, Deadline::none(), &mut log).unwrap();
    assert_eq!(second.phase, ContextPhase::Closed);
    assert_eq!(second.steps, ALL_STEPS);
    pass(&mut progress, &resources, 0, Deadline::none(), &mut log).unwrap();
    assert_eq!(log.destroyed, vec![0]);
    assert_eq!(log.cancelled, vec![0]);
}

#[test]
fn deadline_retains_pending_resources_for_retry() {
    let mut progress = CloseProgress::new();
    let mut log = Log::default();
    let mut resources = [pending()];
    let timed_out = pass(&mut progress, &resources, 10, Deadline::at(9), &mut log).unwrap_err();
    assert_eq!(timed_out.category(), ErrorCategory::TimedOut);
    assert!(log.destroyed.is_empty());
    resources[0].ready = true;
    let closed = pass(&mut progress, &resources, 10, Deadline::none(), &mut log).unwrap();
    assert_eq!(closed.phase, ContextPhase::Closed);
    assert_eq!(log.destroyed, vec![0]);
}

#[test]
fn deadline_not_yet_reached_answers_quiescing() {
    let mut progress = CloseProgress::new();
    let mut log = Log::default();
    let resources = [pending()];
    let r = pass(&mut progress, &resources, 8, Deadline::at(9), &mut log).unwrap();
    assert_eq!(r.phase, ContextPhase::Quiescing);
}

#[test]
fn resources_are_destroyed_last_registered_first() {
    let mut progress = CloseProgress::new();
    let mut log = Log::default();
    let resources = [ready(), ready(), ready()];
    let r = pass(&mut progress, &resources, 0, Deadline::none(), &mut log).unwrap();
    assert_eq!(r.phase, ContextPhase::Closed);
    assert_eq!(log.cancelled, vec![0, 1, 2]);
    assert_eq!(log.quiesced, vec![0, 1, 2]);
    assert_eq!(log.destroyed, vec![2, 1, 0]);
}

#[test]
fn quiesced_resources_are_not_asked_again() {
    let mut progress = CloseProgress::new();
    let mut log = Log::default();
    let mut resources = [ready(), pending()];
    pass(&mut progress, &resources, 0, Deadline::none(), &mut log).unwrap();
    resources[1].ready = true;
    pass(&mut progress, &resources, 0, Deadline::none(), &mut log).unwrap();
    assert_eq!(log.quiesced, vec![0, 1, 1]);
    assert_eq!(log.cancelled, vec![0, 1]);
}

#[test]
fn empty_context_closes_in_one_pass() {
    let mut progress = CloseProgress::new();
    let mut log = Log::default();
    let r = pass(&mut progress, &[], 0, Deadline::none(), &mut log).unwrap();
    assert_eq!(r, ContextCloseReport { steps: ALL_STEPS, phase: ContextPhase::Closed });
}

#[test]
fn cancel_panic_is_reported_by_every_pass() {
    let mut progress = CloseProgress::new();
    let mut log = Log::default();
    let resources = [Resource { cancel_panics: true, ..ready() }];
    for _ in 0..2 {
        let e = pass(&mut progress, &resources, 0, Deadline::none(), &mut log).unwrap_err();
        assert_eq!(e.category(), ErrorCategory::PanicBoundary);
    }
    assert_eq!(log.cancelled, vec![0]);
    assert!(log.destroyed.is_empty());
}

#[test]
fn quiesce_timeout_is_retried_other_failures_are_final() {
    let mut progress = CloseProgress::new();
    let mut log = Log::default();
    let mut resources = [Resource { quiesce_error: Some(ErrorCategory::TimedOut), ..ready() }];
    let e = pass(&mut progress, &resources, 0, Deadline::none(), &mut log).unwrap_err();
    assert_eq!(e.category(), ErrorCategory::TimedOut);
    resources[0].quiesce_error = None;
    assert_eq!(pass(&mut progress, &resources, 0, Deadline::none(), &mut log).unwrap().phase, ContextPhase::Closed);

    let mut progress = CloseProgress::new();
    let resources = [Resource { quiesce_error: Some(ErrorCategory::InvalidArgument), ..ready() }];
    for _ in 0..2 {
        let e = pass(&mut progress, &resources, 0, Deadline::none(), &mut log).unwrap_err();
        assert_eq!(e.category(), ErrorCategory::InvalidArgument);
    }
}

#[test]
fn failed_destroy_is_never_called_again() {
    let mut progress = CloseProgress::new();
    let mut log = Log::default();
    let resources = [ready(), Resource { destroy: Some(ErrorCategory::InternalInvariant), ..ready() }];
    for _ in 0..3 {
        let e = pass(&mut progress, &resources, 0, Deadline::none(), &mut log).unwrap_err();
        assert_eq!(e.category(), ErrorCategory::InternalInvariant);
    }
    assert_eq!(log.destroyed, vec![1]);
}

#[test]
fn effective_deadline_falls_back_to_the_configured_one() {
    assert_eq!(effective_deadline(Deadline::none(), Deadline::at(5)), Deadline::at(5));
    assert_eq!(effective_deadline(Deadline::at(3), Deadline::at(5)), Deadline::at(3));
    assert_eq!(effective_deadline(Deadline::none(), Deadline::none()), Deadline::none());
}

#[test]
fn close_steps_follow_the_close_order() {
    assert_eq!(quiescing_steps(), QUIESCING);
    assert_eq!(close_steps(), ALL_STEPS);
}
