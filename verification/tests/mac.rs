use samply::mac::proc_watcher::{poll_interval_ms, DescendantWatcher, SeenPids};
use samply::mac::profiler::{
    enable_perf_map, keeps_polling, no_task_message, start_recording, Accepter, PathKind, Reaction,
    Received, RecordingMode, RecordingStart,
};

#[test]
fn the_poll_interval_comes_from_the_environment() {
    assert_eq!(poll_interval_ms(Some("25"), 50), 25);
    assert_eq!(poll_interval_ms(Some(" 25"), 50), 50);
    assert_eq!(poll_interval_ms(None, 10), 10);
}

#[test]
fn pids_are_attached_in_the_second_round() {
    let mut watcher = DescendantWatcher::new(1);
    assert_eq!(watcher.round(&vec![2, 3]), Vec::<u32>::new());
    let mut pids = watcher.round(&vec![3, 4, 3]);
    pids.sort();
    assert_eq!(pids, vec![1, 3]);
    watcher.add_root(9);
    assert_eq!(watcher.roots(), &[1, 9]);
    let mut pids = watcher.round(&vec![4, 2]);
    pids.sort();
    assert_eq!(pids, vec![1, 4]);
}

#[test]
fn pids_are_claimed_once() {
    let mut seen = SeenPids::new();
    assert!(seen.claim(7));
    assert!(!seen.claim(7));
    assert!(seen.claim(8));
    seen.finish_attach(7, true, true);
    assert!(!seen.claim(7));
    seen.finish_attach(7, false, false);
    assert!(seen.claim(7));
    seen.finish_attach(7, true, false);
    assert!(seen.claim(7));
    seen.release(8);
    assert!(seen.claim(8));
}

#[test]
fn tasks_are_registered_and_paths_delivered() {
    let mut seen = SeenPids::new();
    let mut accepter = Accepter::new();
    let path = Received::Path(PathKind::Jitdump, 7);
    assert_eq!(
        accepter.receive(&mut seen, path),
        Reaction::NoTask(PathKind::Jitdump, 7)
    );
    assert_eq!(
        accepter.receive(&mut seen, Received::Task(7)),
        Reaction::Register(7)
    );
    assert_eq!(
        accepter.receive(&mut seen, Received::Task(7)),
        Reaction::Run(7)
    );
    assert_eq!(
        accepter.receive(&mut seen, path),
        Reaction::Deliver(PathKind::Jitdump, 7)
    );
    accepter.delivery_failed(7);
    assert_eq!(
        accepter.receive(&mut seen, path),
        Reaction::NoTask(PathKind::Jitdump, 7)
    );
    // The poller got there first.
    assert!(seen.claim(8));
    assert_eq!(
        accepter.receive(&mut seen, Received::Task(8)),
        Reaction::Run(8)
    );
    assert_eq!(
        accepter.receive(&mut seen, Received::Path(PathKind::DotnetTrace, 8)),
        Reaction::NoTask(PathKind::DotnetTrace, 8)
    );
    assert_eq!(
        accepter.receive(&mut seen, Received::Nothing),
        Reaction::Wait
    );
    assert_eq!(
        accepter.receive(&mut seen, Received::Failure),
        Reaction::Report
    );
    assert_eq!(
        accepter.receive(&mut seen, Received::Stop),
        Reaction::Shutdown
    );
}

#[test]
fn paths_without_a_task_are_reported() {
    assert_eq!(
        no_task_message(PathKind::Jitdump, 1203),
        "Received a Jitdump path for pid 1203 which I don't have a task for."
    );
    assert_eq!(
        no_task_message(PathKind::MarkerFile, 0),
        "Received a marker file path for pid 0 which I don't have a task for."
    );
}

#[test]
fn the_perf_map_is_enabled_unless_it_is_set() {
    let mut vars = vec![(b"HOME".to_vec(), b"/".to_vec())];
    assert!(!enable_perf_map(&mut vars, false));
    assert_eq!(vars.len(), 1);
    assert!(enable_perf_map(&mut vars, true));
    assert_eq!(
        vars[1],
        (b"DOTNET_PerfMapEnabled".to_vec(), b"3".to_vec())
    );
    assert!(!enable_perf_map(&mut vars, true));
    assert_eq!(vars.len(), 2);
}

#[test]
fn polling_ends() {
    assert!(keeps_polling(4999, false));
    assert!(!keeps_polling(5000, false));
    assert!(!keeps_polling(0, true));
}

#[test]
fn recordings_start_as_asked() {
    let mut vars = Vec::new();
    assert_eq!(
        start_recording(RecordingMode::All, &mut vars, true, false),
        RecordingStart::Refuse
    );
    assert_eq!(
        start_recording(RecordingMode::Pid(7), &mut vars, true, false),
        RecordingStart::Attach(7)
    );
    assert!(vars.is_empty());
    let launch = |unlink_aux_files| RecordingStart::Launch { unlink_aux_files };
    assert_eq!(
        start_recording(RecordingMode::Launch, &mut vars, false, false),
        launch(false)
    );
    assert_eq!(
        start_recording(RecordingMode::Launch, &mut vars, false, true),
        launch(true)
    );
    assert!(vars.is_empty());
    assert_eq!(
        start_recording(RecordingMode::Launch, &mut vars, true, false),
        launch(true)
    );
    assert_eq!(vars.len(), 1);
    assert_eq!(
        start_recording(RecordingMode::Launch, &mut vars, true, false),
        launch(false)
    );
    assert_eq!(vars.len(), 1);
}
