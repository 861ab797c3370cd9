use syntax_survey::orchestrator::{RepositoryRun, Task};
use syntax_survey::timeline::Sample;

fn samples() -> Vec<Sample> {
    vec![
        Sample { bucket: 12, commit: 0 },
        Sample { bucket: 11, commit: 1 },
        Sample { bucket: 10, commit: 1 },
    ]
}

fn tasks(results: &[bool]) -> (Vec<Task>, usize) {
    let mut run = RepositoryRun::new(samples());
    let mut tasks = vec![run.task()];
    for ok in results {
        run.advance(*ok);
        tasks.push(run.task());
    }
    (tasks, run.stored())
}

#[test]
fn every_sample_is_checked_out_and_stored() {
    let all = samples();
    let (tasks, stored) = tasks(&[true; 6]);
    assert_eq!(
        tasks,
        vec![
            Task::Checkout(all[0]),
            Task::Store(all[0]),
            Task::Checkout(all[1]),
            Task::Store(all[1]),
            Task::Checkout(all[2]),
            Task::Store(all[2]),
            Task::Finished,
        ]
    );
    assert_eq!(stored, 3);
}

#[test]
fn failed_store_gives_up_one_snapshot() {
    let all = samples();
    let (tasks, stored) = tasks(&[true, false, true, true, true, false]);
    assert_eq!(
        tasks,
        vec![
            Task::Checkout(all[0]),
            Task::Store(all[0]),
            Task::Checkout(all[1]),
            Task::Store(all[1]),
            Task::Checkout(all[2]),
            Task::Store(all[2]),
            Task::Finished,
        ]
    );
    assert_eq!(stored, 1);
}

#[test]
fn failed_checkout_gives_up_the_repository() {
    let all = samples();
    let (tasks, stored) = tasks(&[true, true, false, true, true]);
    assert_eq!(
        tasks,
        vec![
            Task::Checkout(all[0]),
            Task::Store(all[0]),
            Task::Checkout(all[1]),
            Task::Finished,
            Task::Finished,
            Task::Finished,
        ]
    );
    assert_eq!(stored, 1);
}

#[test]
fn repository_without_samples_is_finished() {
    let mut run = RepositoryRun::new(Vec::new());
    assert_eq!(run.task(), Task::Finished);
    run.advance(true);
    assert_eq!(run.task(), Task::Finished);
    assert_eq!(run.stored(), 0);
}
