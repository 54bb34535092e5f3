use lumio_core::job::completion::{CompletionBatch, JobCompletion};
use lumio_core::job::id::JobId;
use lumio_core::job::state::JobState;

#[test]
fn completion_history_remains_bounded() {
    let mut batch = CompletionBatch::with_capacity(2);
    for id in 1..1001 {
        let id = JobId::from_raw(id);
        let completion = JobCompletion {
            id,
            state: JobState::Succeeded,
        };
        batch.publish(completion).unwrap();
        let mut out = [completion];
        assert_eq!(batch.drain(&mut out).unwrap(), 1);
        batch.release(id).unwrap();
        assert!(batch.retained_count() <= 2);
    }
    assert!(batch
        .publish(JobCompletion {
            id: JobId::from_raw(1),
            state: JobState::Succeeded
        })
        .is_err());
}
