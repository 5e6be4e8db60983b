use samply::linux::builder::PerfBuilder;
use samply::linux::bytes::{push_le, ByteOrder};
use samply::linux::consume::{ConsumeStep, Consuming};
use samply::linux::cpus::{get_threads, online_cpus, parse_id_list};
use samply::linux::extra_event::{EventSource, ExtraEvent};
use samply::linux::group::{AttachMode, MemberAction, PerfGroup};
use samply::linux::opening::Opening;
use samply::linux::perf::Perf;

#[test]
fn online_cpus_are_listed() {
    assert_eq!(
        parse_id_list("0-3,5,8-11\n"),
        Some(vec![0, 1, 2, 3, 5, 8, 9, 10, 11])
    );
    assert_eq!(parse_id_list(" 4 , 2 - 3,"), Some(vec![4, 2, 3]));
    assert_eq!(parse_id_list("3-1,7"), Some(vec![7]));
    assert_eq!(parse_id_list("3-1"), None);
    assert_eq!(parse_id_list(""), None);
    assert_eq!(parse_id_list("0-x"), None);
    assert_eq!(
        parse_id_list("4294967295-4294967295"),
        Some(vec![4294967295])
    );
    assert_eq!(online_cpus(Some("1,3\n"), 9), vec![1, 3]);
    assert_eq!(online_cpus(Some("none"), 2), vec![0, 1]);
    assert_eq!(online_cpus(None, 3), vec![0, 1, 2]);
}

#[test]
fn threads_are_listed_without_the_process() {
    let names = |list: &[&str]| list.iter().map(|s| s.to_string()).collect::<Vec<String>>();
    assert_eq!(
        get_threads(&names(&["17", "18", "20"]), 17),
        Some(vec![18, 20])
    );
    assert_eq!(get_threads(&names(&["17", "self"]), 17), None);
}

fn group(extra: &[&str], supported: bool) -> PerfGroup {
    let extra: Vec<ExtraEvent> = extra.iter().map(|s| s.parse().unwrap()).collect();
    PerfGroup::new(
        100,
        4096,
        0xf,
        EventSource::HwCpuCycles,
        extra,
        supported,
    )
}

/// Process, CPU, and whether the event inherits and waits for an exec.
fn shape(builder: PerfBuilder) -> (i32, i32, bool, bool) {
    let request = builder.open(None).unwrap();
    assert_eq!(request.attr.sample_period_or_freq, 100);
    assert_eq!(request.attr.sample_stack_user, 4096);
    assert_eq!(request.attr.sample_regs_user, 0xf);
    assert!(!request.enable);
    assert_ne!(request.attr.flags & 0x400_0000, 0);
    (
        request.pid,
        request.cpu,
        request.attr.flags & 0x2 != 0,
        request.attr.flags & 0x1000 != 0,
    )
}

#[test]
fn events_are_opened_on_every_cpu_and_for_every_thread() {
    let mut g = group(&[], false);
    assert!(!g.is_system_wide());
    let events = g
        .open_process(
            7,
            AttachMode::AttachWithEnableOnExec,
            &vec![0, 2],
            Some(&vec![8, 9]),
        )
        .unwrap();
    assert_eq!(g.root_pids(), &[7]);
    assert_eq!(
        events.into_iter().map(shape).collect::<Vec<_>>(),
        vec![
            (7, 0, true, true),
            (7, 2, true, true),
            (8, 0, true, true),
            (9, 0, true, true),
            (8, 2, true, true),
            (9, 2, true, true),
        ]
    );
}

#[test]
fn many_threads_are_followed_over_all_cpus() {
    let g = group(&[], true);
    let threads: Vec<u32> = (10..509).collect();
    let events = g.events_for_process(
        7,
        AttachMode::StopAttachEnableResume,
        &vec![0, 1],
        &threads,
    );
    assert_eq!(events.len(), 501);
    let shapes: Vec<_> = events.into_iter().map(shape).collect();
    assert_eq!(shapes[1], (7, 1, true, false));
    assert_eq!(shapes[2], (10, -1, false, false));
    assert_eq!(shapes[500], (508, -1, false, false));
    let events = g.events_for_process(
        7,
        AttachMode::StopAttachEnableResume,
        &vec![0, 1],
        &threads[1..].to_vec(),
    );
    assert_eq!(events.len(), 998);
    assert!(AttachMode::StopAttachEnableResume.stops_process());
    assert!(!AttachMode::AttachWithEnableOnExec.stops_process());
}

#[test]
fn without_kernel_support_extra_events_are_system_wide() {
    assert!(!group(&["a:4:1"], true).is_system_wide());
    let (g, events) = PerfGroup::open(
        7,
        100,
        4096,
        EventSource::SwCpuClock,
        0xf,
        AttachMode::AttachWithEnableOnExec,
        vec!["a:4:1".parse().unwrap()],
        false,
        &vec![0, 1],
        Some(&vec![8]),
    )
    .unwrap();
    assert!(g.is_system_wide());
    assert_eq!(
        events.into_iter().map(shape).collect::<Vec<_>>(),
        vec![(-1, 0, false, false), (-1, 1, false, false)]
    );
}

#[test]
fn processes_whose_threads_are_unknown_are_still_roots() {
    let mut g = group(&[], true);
    assert!(g
        .open_process(7, AttachMode::AttachWithEnableOnExec, &vec![0], None)
        .is_none());
    assert_eq!(g.root_pids(), &[7]);
    assert!(PerfGroup::open(
        7,
        100,
        0,
        EventSource::SwCpuClock,
        0,
        AttachMode::AttachWithEnableOnExec,
        vec![],
        true,
        &vec![0],
        None,
    )
    .is_none());
}

fn member(fd: i32, extra: &[(&str, u64)]) -> Perf {
    let events = extra
        .iter()
        .map(|(name, _)| format!("{name}:4:1").parse().unwrap())
        .collect();
    let request = Perf::build().only_cpu(0).extra_events(events).open(None);
    let mut opening = Opening::new(request.unwrap(), fd);
    for (_, id) in extra {
        opening.sibling_opened(100 + *id as i32);
        opening.sibling_id_read(*id);
    }
    opening.finish()
}

#[test]
fn members_are_kept_in_the_order_of_their_fds() {
    let mut g = group(&[], true);
    assert!(g.is_empty());
    g.insert(member(9, &[("a", 1)]));
    g.insert(member(3, &[("a", 2), ("b", 3)]));
    g.insert(member(5, &[]));
    g.insert(member(9, &[("a", 4)]));
    assert_eq!(g.len(), 3);
    assert_eq!(
        (0..3).map(|i| g.perf(i).fd()).collect::<Vec<_>>(),
        vec![3, 5, 9]
    );
    assert_eq!(
        g.extra_event_ids_and_names(),
        vec![
            (2, "a".to_owned()),
            (3, "b".to_owned()),
            (4, "a".to_owned())
        ]
    );
    assert!(g.remove(4).is_none());
    assert_eq!(g.remove(5).unwrap().fd(), 5);
    assert_eq!(g.len(), 2);
    assert!(!g.is_empty());
}

#[test]
fn members_are_read_and_removed_once_closed() {
    let mut g = group(&[], true);
    g.insert(member(3, &[]));
    g.insert(member(4, &[]));
    assert!(!g.are_events_pending(&vec![0, 0]));
    assert!(g.are_events_pending(&vec![0, 40]));
    assert_eq!(g.member_action(1, 40), MemberAction::Read);
    assert_eq!(g.member_action(1, 0), MemberAction::Skip);
    g.mark_closed(4);
    assert_eq!(g.member_action(0, 0), MemberAction::Skip);
    assert_eq!(g.member_action(1, 40), MemberAction::Read);
    let mut buffer = vec![0u8; g.perf(1).size() as usize];
    let mut record: Vec<u8> = Vec::new();
    for (value, n) in [(9, 4), (0, 2), (40, 2), (0, 8), (0, 8), (77, 8), (0, 8)] {
        push_le(&mut record, value, n);
    }
    buffer[..40].copy_from_slice(&record);
    let events = g
        .read_events(1, 40, &buffer, ByteOrder::LittleEndian)
        .unwrap();
    assert_eq!(events.len(), 1);
    assert_eq!(events[0].0, 77);
    assert_eq!(g.member_action(1, 40), MemberAction::Remove);
}

#[test]
fn rounds_visit_all_members_and_remove_the_drained_ones() {
    let mut g = group(&[], true);
    g.insert(member(3, &[]));
    g.insert(member(4, &[]));
    g.insert(member(5, &[("a", 9)]));
    g.mark_closed(4);
    g.mark_closed(5);
    let mut consuming = Consuming::start();
    assert_eq!(consuming.step(&g), ConsumeStep::Visit(0));
    assert_eq!(consuming.visited(&g, 0), MemberAction::Skip);
    assert_eq!(consuming.step(&g), ConsumeStep::Visit(1));
    assert_eq!(consuming.visited(&g, 0), MemberAction::Remove);
    assert_eq!(consuming.visited(&g, 0), MemberAction::Remove);
    assert_eq!(consuming.step(&g), ConsumeStep::Advance);
    consuming.advanced(&g);
    assert_eq!(consuming.step(&g), ConsumeStep::Deregister(4));
    assert!(consuming.deregistered(&mut g, false).is_none());
    assert_eq!(consuming.step(&g), ConsumeStep::Deregister(5));
    let removed = consuming.deregistered(&mut g, true).unwrap();
    assert_eq!(removed.fd(), 5);
    assert_eq!(removed.extra_event_ids(), vec![(9, "a")]);
    assert_eq!(g.len(), 2);
    assert_eq!(consuming.step(&g), ConsumeStep::Decide);
    consuming.decided(&g, true);
    assert_eq!(consuming.step(&g), ConsumeStep::Visit(0));
    assert_eq!(consuming.visited(&g, 8), MemberAction::Read);
    assert_eq!(consuming.visited(&g, 8), MemberAction::Read);
    consuming.advanced(&g);
    assert_eq!(consuming.step(&g), ConsumeStep::Decide);
    consuming.decided(&g, false);
    assert_eq!(consuming.step(&g), ConsumeStep::Done);
}
