use multidump::orchestrator::{Action, Event, ImportError, Orchestrator};

/// Runs an import to its end. A client that was launched ends when the
/// orchestrator says to wait; `succeeds` tells how the client of each file
/// ends, `removable` how the removal of the directory ends.
fn run(
    total: usize,
    parallel: usize,
    delete: bool,
    succeeds: &dyn Fn(usize) -> bool,
    removable: bool,
) -> (Vec<Action>, Orchestrator, usize) {
    let mut orchestrator = Orchestrator::new(total, parallel, delete);
    let mut actions = Vec::new();
    let mut running: Vec<usize> = Vec::new();
    let mut most = 0;
    loop {
        let action = orchestrator.next_action();
        actions.push(action);
        match action {
            Action::Launch(job) => {
                running.push(job);
                assert!(orchestrator.record(Event::Launched));
            }
            Action::Wait => {
                let job = running.remove(0);
                assert!(orchestrator.record(Event::JobFinished { succeeded: succeeds(job) }));
            }
            Action::Report => assert!(orchestrator.record(Event::Reported)),
            Action::RemoveDirectory => {
                assert!(orchestrator.record(Event::DirectoryRemoved { succeeded: removable }))
            }
            Action::Stop => break,
        }
        assert_eq!(orchestrator.outstanding(), running.len());
        assert!(running.len() <= parallel);
        most = most.max(running.len());
    }
    (actions, orchestrator, most)
}

#[test]
fn orchestrator_runs_batches_of_two() {
    let (actions, orchestrator, most) = run(5, 2, false, &|_| true, true);
    assert_eq!(
        actions,
        vec![
            Action::Launch(0),
            Action::Launch(1),
            Action::Wait,
            Action::Wait,
            Action::Launch(2),
            Action::Launch(3),
            Action::Wait,
            Action::Wait,
            Action::Launch(4),
            Action::Wait,
            Action::Report,
            Action::Stop,
        ]
    );
    assert_eq!(most, 2);
    assert_eq!(orchestrator.outstanding(), 0);
    assert_eq!(orchestrator.failures(), 0);
    assert_eq!(orchestrator.outcome(), Ok(()));
}

#[test]
fn orchestrator_with_one_client_at_a_time() {
    let (actions, _, most) = run(3, 1, false, &|_| true, true);
    assert_eq!(
        actions,
        vec![
            Action::Launch(0),
            Action::Wait,
            Action::Launch(1),
            Action::Wait,
            Action::Launch(2),
            Action::Wait,
            Action::Report,
            Action::Stop,
        ]
    );
    assert_eq!(most, 1);
}

#[test]
fn orchestrator_never_exceeds_the_bound() {
    for total in 0..12 {
        for parallel in 1..6 {
            let (actions, orchestrator, most) = run(total, parallel, true, &|job| job % 3 != 0, true);
            assert!(most <= parallel);
            assert_eq!(most, total.min(parallel));
            let launched: Vec<usize> = actions
                .iter()
                .filter_map(|action| match action {
                    Action::Launch(job) => Some(*job),
                    _ => None,
                })
                .collect();
            assert_eq!(launched, (0..total).collect::<Vec<usize>>());
            assert_eq!(orchestrator.failures(), (total + 2) / 3);
        }
    }
}

#[test]
fn orchestrator_waits_for_the_whole_batch() {
    let mut orchestrator = Orchestrator::new(4, 2, false);
    assert_eq!(orchestrator.next_action(), Action::Launch(0));
    assert!(orchestrator.record(Event::Launched));
    assert_eq!(orchestrator.next_action(), Action::Launch(1));
    assert!(orchestrator.record(Event::Launched));
    assert_eq!(orchestrator.next_action(), Action::Wait);
    assert!(orchestrator.record(Event::JobFinished { succeeded: true }));
    assert_eq!(orchestrator.outstanding(), 1);
    assert_eq!(orchestrator.next_action(), Action::Wait);
    assert!(!orchestrator.record(Event::Launched));
    assert!(orchestrator.record(Event::JobFinished { succeeded: true }));
    assert_eq!(orchestrator.next_action(), Action::Launch(2));
}

#[test]
fn orchestrator_goes_on_after_failures() {
    let (actions, orchestrator, _) = run(5, 2, false, &|_| false, true);
    let launches = actions.iter().filter(|action| matches!(action, Action::Launch(_))).count();
    assert_eq!(launches, 5);
    assert_eq!(orchestrator.failures(), 5);
    assert_eq!(orchestrator.outcome(), Ok(()));
    let (with_success, _, _) = run(5, 2, false, &|_| true, true);
    assert_eq!(actions, with_success);
    let (mixed, orchestrator, _) = run(5, 2, false, &|job| job != 1, true);
    assert_eq!(mixed, with_success);
    assert_eq!(orchestrator.failures(), 1);
}

#[test]
fn orchestrator_removes_the_directory_after_failures() {
    let (actions, orchestrator, _) = run(3, 2, true, &|_| false, true);
    assert_eq!(
        actions[actions.len() - 3..].to_vec(),
        vec![Action::Report, Action::RemoveDirectory, Action::Stop]
    );
    assert_eq!(orchestrator.failures(), 3);
    assert_eq!(orchestrator.outcome(), Ok(()));
}

#[test]
fn orchestrator_reports_a_failed_removal() {
    let (actions, orchestrator, _) = run(3, 2, true, &|_| true, false);
    assert_eq!(
        actions[actions.len() - 3..].to_vec(),
        vec![Action::Report, Action::RemoveDirectory, Action::Stop]
    );
    assert_eq!(orchestrator.outcome(), Err(ImportError::DirectoryNotRemoved));
}

#[test]
fn orchestrator_keeps_the_directory_unless_asked() {
    let (actions, orchestrator, _) = run(2, 2, false, &|_| true, false);
    assert!(!actions.contains(&Action::RemoveDirectory));
    assert_eq!(orchestrator.outcome(), Ok(()));
}

#[test]
fn orchestrator_without_files() {
    let (actions, _, most) = run(0, 3, true, &|_| true, true);
    assert_eq!(actions, vec![Action::Report, Action::RemoveDirectory, Action::Stop]);
    assert_eq!(most, 0);
}

#[test]
fn orchestrator_refuses_events_out_of_turn() {
    let mut orchestrator = Orchestrator::new(1, 1, true);
    assert!(!orchestrator.record(Event::JobFinished { succeeded: true }));
    assert!(!orchestrator.record(Event::Reported));
    assert!(!orchestrator.record(Event::DirectoryRemoved { succeeded: true }));
    assert_eq!(orchestrator.next_action(), Action::Launch(0));
    assert!(orchestrator.record(Event::Launched));
    assert!(!orchestrator.record(Event::Launched));
    assert!(!orchestrator.record(Event::Reported));
    assert!(orchestrator.record(Event::JobFinished { succeeded: false }));
    assert!(!orchestrator.record(Event::JobFinished { succeeded: false }));
    assert!(!orchestrator.record(Event::DirectoryRemoved { succeeded: true }));
    assert_eq!(orchestrator.next_action(), Action::Report);
    assert!(orchestrator.record(Event::Reported));
    assert!(!orchestrator.record(Event::Reported));
    assert_eq!(orchestrator.next_action(), Action::RemoveDirectory);
    assert!(orchestrator.record(Event::DirectoryRemoved { succeeded: false }));
    assert!(!orchestrator.record(Event::DirectoryRemoved { succeeded: true }));
    assert_eq!(orchestrator.next_action(), Action::Stop);
    assert_eq!(orchestrator.failures(), 1);
    assert_eq!(orchestrator.outcome(), Err(ImportError::DirectoryNotRemoved));
}
