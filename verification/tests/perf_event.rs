use samply::linux::builder::{OpenError, OpenRequest, PerfBuilder};
use samply::linux::bytes::{push_le, read_uint, ByteOrder};
use samply::linux::commits::EventRefState;
use samply::linux::extra_event::{EventSource, ExtraEvent};
use samply::linux::opening::{mmap_failure, OpenStep, Opening};
use samply::linux::perf::{is_whole_stream, Perf};
use samply::linux::record::ParseInfo;
use samply::linux::ring::{next_raw_event, RecordData, SliceLocation};
use samply::linux::sys::{PerfEventAttr, PERF_TYPE_HARDWARE, PERF_TYPE_SOFTWARE};

#[test]
fn extra_event_specs_parse() {
    let event: ExtraEvent = "instructions:0:0x1".parse().unwrap();
    assert_eq!(event.event_type, PERF_TYPE_HARDWARE);
    assert_eq!(event.config, 1);
    assert_eq!(event.name, "instructions");

    let event: ExtraEvent = "mem_load_retired.l1_miss:4:0x08d1".parse().unwrap();
    assert_eq!(event.event_type, 4);
    assert_eq!(event.config, 0x08d1);
    assert_eq!(event.name, "mem_load_retired.l1_miss");

    let event: ExtraEvent = "l1d_cache:4:4".parse().unwrap();
    assert_eq!((event.event_type, event.config), (4, 4));
}

#[test]
fn malformed_specs_are_rejected() {
    for spec in [
        "",
        "name-only",
        "name:0",
        ":0:0x1",
        "name:nope:0x1",
        "name:0:nope",
    ] {
        assert!(spec.parse::<ExtraEvent>().is_err(), "{spec:?} should fail");
    }
}

#[test]
fn malformed_specs_are_quoted() {
    assert_eq!(
        ExtraEvent::parse("name:0"),
        Err("expected '<name>:<type>:<config>', got 'name:0'".to_owned())
    );
    assert!(ExtraEvent::parse("a:4294967296:0").is_err());
    assert!(ExtraEvent::parse("a:0:0x10000000000000000").is_err());
    let event = ExtraEvent::parse("a:b:4294967295:0XfF").unwrap();
    assert_eq!(event.name, "a:b");
    assert_eq!((event.event_type, event.config), (u32::MAX, 255));
}

fn open(builder: PerfBuilder) -> OpenRequest {
    builder.open(None).unwrap()
}

#[test]
fn the_plain_event_asks_for_what_is_always_needed() {
    let request = open(Perf::build().pid(17).only_cpu(3));
    assert_eq!((request.pid, request.cpu), (17, 3));
    assert_eq!(request.attr.kind, PERF_TYPE_SOFTWARE);
    assert_eq!(request.attr.config, 0);
    // IP, TID, TIME, CALLCHAIN, CPU, PERIOD
    assert_eq!(request.attr.sample_type, 0x1a7);
    assert_eq!(request.attr.read_format, 0);
    // DISABLED, EXCLUDE_KERNEL, MMAP, COMM, FREQ, TASK, MMAP_DATA, SAMPLE_ID_ALL, MMAP2, USE_CLOCKID
    assert_eq!(request.attr.flags, 0x286_2721);
    assert_eq!(request.attr.size, 112);
    assert_eq!(request.attr.clock_id, 1);
    assert_eq!(request.size, 32 * 4096);
    assert_eq!(request.full_size, 33 * 4096);
    assert!(request.enable);
}

#[test]
fn every_wish_shows_in_the_attributes() {
    let event = ExtraEvent::parse("instructions:0:1").unwrap();
    let request = open(
        Perf::build()
            .all_pids()
            .only_cpu(0)
            .frequency(999)
            .sample_user_stack(32768)
            .sample_user_regs(0xff)
            .sample_kernel()
            .event_source(EventSource::HwCpuCycles)
            .extra_events(vec![event.clone()])
            .inherit_to_children()
            .start_disabled()
            .enable_on_exec()
            .gather_context_switches(),
    );
    assert_eq!((request.pid, request.cpu), (-1, 0));
    assert_eq!(request.attr.kind, PERF_TYPE_HARDWARE);
    assert_eq!(request.attr.sample_period_or_freq, 999);
    assert_eq!(request.attr.sample_type, 0x1a7 | 0x10 | 0x1000 | 0x2000);
    assert_eq!(request.attr.read_format, 12);
    assert_eq!(request.attr.flags, 0x686_3703);
    assert_eq!(request.attr.sample_regs_user, 0xff);
    assert_eq!(request.attr.sample_stack_user, 32768);
    assert_eq!(request.size, 256 * 4096);
    assert_eq!(request.extra_events, vec![event.clone()]);
    assert!(!request.enable);

    let sibling = event.sibling_attr(&request.attr);
    assert_eq!((sibling.kind, sibling.config), (0, 1));
    assert_eq!(sibling.flags, 0x200_0002);
    assert_eq!(sibling.read_format, 12);
    assert_eq!(sibling.clock_id, 1);
    assert_eq!(sibling.sample_type, 0);
    assert_eq!(sibling.sample_period_or_freq, 0);
}

#[test]
fn what_cannot_be_opened_is_refused() {
    let error = Perf::build().frequency(1001).open(Some(1000)).unwrap_err();
    assert_eq!(
        error,
        OpenError::FrequencyTooHigh {
            max_sample_rate: 1000
        }
    );
    assert_eq!(
        error.message(),
        "frequency can be at most 1000 as configured in /proc/sys/kernel/perf_event_max_sample_rate"
    );
    assert!(Perf::build().frequency(1000).open(Some(1000)).is_ok());
    let error = Perf::build()
        .sample_user_stack(64513)
        .open(None)
        .unwrap_err();
    assert_eq!(error, OpenError::StackTooLarge);
    assert_eq!(error.message(), "sample_user_stack can be at most 63kb");
    assert!(Perf::build().sample_user_stack(64512).open(None).is_ok());
    let error = Perf::build().inherit_to_children().open(None).unwrap_err();
    assert_eq!(error, OpenError::InheritOnAllCpus);
    assert_eq!(
        error.message(),
        "you can't inherit to children and run on all cpus at the same time"
    );
}

#[test]
fn the_sample_rate_is_read_from_the_file() {
    assert_eq!(Perf::max_sample_rate(Some("100000\n")), Some(100000));
    assert_eq!(Perf::max_sample_rate(Some("many\n")), None);
    assert_eq!(Perf::max_sample_rate(None), None);
    assert!(Perf::supports_inherited_sample_read(3));
    assert!(!Perf::supports_inherited_sample_read(-1));
    let probe = Perf::probe_attr();
    assert_eq!((probe.kind, probe.config), (0, 0));
    assert_eq!(probe.sample_type, 0x17);
    assert_eq!(probe.read_format, 12);
    assert_eq!(probe.sample_period_or_freq, 1_000_000);
    assert_eq!(probe.flags, 0x200_0003);
}

#[test]
fn attributes_in_memory() {
    let mut attr = PerfEventAttr::zeroed();
    attr.kind = 0x0102_0304;
    attr.sample_type = 0x1122_3344_5566_7788;
    attr.clock_id = -2;
    let bytes = attr.to_le_bytes();
    assert_eq!(bytes.len(), 112);
    assert_eq!(&bytes[0..8], &[4, 3, 2, 1, 112, 0, 0, 0]);
    assert_eq!(
        &bytes[24..32],
        &[0x88, 0x77, 0x66, 0x55, 0x44, 0x33, 0x22, 0x11]
    );
    assert_eq!(&bytes[92..96], &[0xfe, 0xff, 0xff, 0xff]);
}

#[test]
fn integers_in_either_byte_order() {
    let bytes = [1u8, 2, 3, 4];
    assert_eq!(read_uint(&bytes, ByteOrder::LittleEndian), 0x04030201);
    assert_eq!(read_uint(&bytes, ByteOrder::BigEndian), 0x01020304);
    let mut out = vec![9u8];
    push_le(&mut out, 0xabcd_ef01, 2);
    assert_eq!(out, vec![9, 0x01, 0xef]);
}

#[test]
fn the_parse_info_follows_the_attributes() {
    let request = open(Perf::build().only_cpu(0).sample_user_regs(0b1011));
    let info = request.parse_info;
    assert_eq!(info.sample_format, 0x11a7);
    assert_eq!(info.sample_regs_user, 0b1011);
    assert_eq!(info.user_regs_count, 3);
    assert_eq!(info.common_data_offset_from_end, Some(24));
    assert_eq!(info.sample_record_time_offset_from_start, Some(16));
    assert_eq!(info.nonsample_record_time_offset_from_end, Some(16));
    assert_eq!(info.sample_record_id_offset_from_start, None);

    let mut attr = PerfEventAttr::zeroed();
    attr.kind = 1;
    attr.config = 99;
    assert!(ParseInfo::new(&attr).is_none());
    attr.config = 0;
    let info = ParseInfo::new(&attr).unwrap();
    assert_eq!(info.sample_record_time_offset_from_start, None);
    assert_eq!(info.nonsample_record_time_offset_from_end, None);
    assert_eq!(info.common_data_offset_from_end, None);
    assert_eq!(info.nonsample_record_id_offset_from_end, None);
}

#[test]
fn only_known_events_and_clocks_have_a_parse_info() {
    let known = |kind: u32, config: u64| {
        let mut attr = PerfEventAttr::zeroed();
        attr.kind = kind;
        attr.config = config;
        ParseInfo::new(&attr).is_some()
    };
    assert!(known(0, 9) && known(0, 0xabcd_0000_0000_0009) && !known(0, 10));
    assert!(known(0, 0x1_0009) && known(1, 11) && !known(1, 12) && !known(1, 0x100));
    assert!(known(2, u64::MAX) && known(4, u64::MAX) && known(5, u64::MAX) && known(99, 1));
    assert!(known(3, 0x01_0206) && !known(3, 7) && !known(3, 0x300) && !known(3, 0x2_0000));

    let mut attr = PerfEventAttr::zeroed();
    attr.kind = 1;
    attr.flags = 0x200_0000;
    for (clock_id, known) in [(0, true), (9, true), (10, false), (-1, false)] {
        attr.clock_id = clock_id;
        assert_eq!(ParseInfo::new(&attr).is_some(), known);
    }
    attr.flags = 0;
    assert!(ParseInfo::new(&attr).is_some());
}

#[test]
fn specs_may_be_hexadecimal() {
    for spec in ["n:4:0x08d1", "n:0X4:0X08D1", "n:0x04:2257", "n:004:0x8D1"] {
        let event: ExtraEvent = spec.parse().unwrap();
        assert_eq!((event.event_type, event.config), (4, 0x8d1));
        assert_eq!(event.name, "n");
    }
    let event: ExtraEvent = "a:b:0xffffffff:0xffffffffffffffff".parse().unwrap();
    assert_eq!((event.event_type, event.config), (u32::MAX, u64::MAX));
    assert_eq!(event.name, "a:b");
}

#[test]
fn the_parse_info_is_exact() {
    let mut attr = PerfEventAttr::zeroed();
    attr.kind = 1;
    attr.clock_id = 1;
    attr.sample_type = u64::MAX;
    attr.branch_sample_type = u64::MAX;
    attr.read_format = u64::MAX;
    attr.flags = 0x4_0000;
    attr.sample_regs_user = u64::MAX;
    attr.sample_regs_intr = 0x8000_0000_0000_0005;
    let info = ParseInfo {
        sample_format: 0x1ff_ffff,
        branch_sample_format: 0x3_ffff,
        read_format: 0xf,
        common_data_offset_from_end: Some(48),
        sample_regs_user: u64::MAX,
        user_regs_count: 64,
        sample_regs_intr: 0x8000_0000_0000_0005,
        intr_regs_count: 3,
        nonsample_record_id_offset_from_end: Some(8),
        sample_record_id_offset_from_start: Some(0),
        nonsample_record_time_offset_from_end: Some(40),
        sample_record_time_offset_from_start: Some(24),
    };
    assert_eq!(ParseInfo::new(&attr), Some(info));

    // Without the identifier, the id lies among the other data.
    attr.sample_type = 0x2cf;
    let without = ParseInfo {
        sample_format: 0x2cf,
        common_data_offset_from_end: Some(40),
        nonsample_record_id_offset_from_end: Some(24),
        sample_record_id_offset_from_start: Some(32),
        nonsample_record_time_offset_from_end: Some(32),
        sample_record_time_offset_from_start: Some(16),
        ..info
    };
    assert_eq!(ParseInfo::new(&attr), Some(without));
}

/// A record of `size` bytes in which the byte at offset `i` behind the header is `i + 1`.
fn put_record(buffer: &mut [u8], position: u64, kind: u32, size: u16) {
    let len = buffer.len() as u64;
    let mut bytes: Vec<u8> = Vec::new();
    push_le(&mut bytes, kind as u64, 4);
    push_le(&mut bytes, 0x0102, 2);
    push_le(&mut bytes, size as u64, 2);
    for i in 8..size as u64 {
        bytes.push((i - 7) as u8);
    }
    for (i, b) in bytes.iter().enumerate() {
        buffer[((position + i as u64) % len) as usize] = *b;
    }
}

#[test]
fn records_wrap_around_in_the_ring() {
    let mut buffer = vec![0u8; 64];
    put_record(&mut buffer, 64 + 40, 9, 32);
    let mut position = 64 + 40;
    assert!(next_raw_event(position, &buffer, ByteOrder::LittleEndian, &mut position).is_none());
    assert_eq!(position, 104);
    let location =
        next_raw_event(136, &buffer, ByteOrder::LittleEndian, &mut position).unwrap();
    assert_eq!(position, 136);
    assert_eq!((location.kind, location.misc), (9, 0x0102));
    assert!(matches!(
        location.data_location,
        SliceLocation::Split(ref a, ref b) if *a == (48..64) && *b == (0..8)
    ));
    let bytes: Vec<u8> = match location.clone().data_location.get(&buffer) {
        RecordData::Single(_) => panic!("the record is split"),
        RecordData::Split(left, right) => [left, right].concat(),
    };
    assert_eq!(bytes, (1..=24).collect::<Vec<u8>>());

    put_record(&mut buffer, 0, 3, 16);
    let mut position = 128;
    let location =
        next_raw_event(200, &buffer, ByteOrder::LittleEndian, &mut position).unwrap();
    assert_eq!(position, 144);
    assert!(matches!(location.data_location, SliceLocation::Single(ref r) if *r == (8..16)));
}

#[test]
fn headers_are_read_in_the_byte_order() {
    let buffer = [0u8, 0, 0, 9, 1, 2, 0, 16, 0, 0, 0, 0, 0, 0, 0, 0];
    let mut position = 0;
    let location = next_raw_event(16, &buffer, ByteOrder::BigEndian, &mut position).unwrap();
    assert_eq!((location.kind, location.misc, position), (9, 0x0102, 16));
}

fn perf() -> Perf {
    let opening = Opening::new(open(Perf::build().only_cpu(0)), 5);
    assert!(matches!(opening.step(), OpenStep::Finish));
    opening.finish()
}

#[test]
fn events_are_read_with_their_times() {
    let mut perf = perf();
    assert_eq!(perf.size(), 32 * 4096);
    let mut buffer = vec![0u8; perf.size() as usize];
    put_record(&mut buffer, 0, 9, 40);
    put_record(&mut buffer, 40, 1, 32);
    assert!(!perf.are_events_pending(0));
    assert!(perf.are_events_pending(72));
    assert!(is_whole_stream(&buffer, 0, 72, ByteOrder::LittleEndian));
    assert!(!is_whole_stream(&buffer, 0, 71, ByteOrder::LittleEndian));
    let events = perf
        .read_events(72, &buffer, ByteOrder::LittleEndian)
        .unwrap();
    assert_eq!(events.len(), 2);
    // The sample has its time behind the instruction pointer and thread id, the other record
    // in front of the CPU.
    assert_eq!(events[0].0, 0x1817_1615_1413_1211);
    assert_eq!(events[1].0, 0x100f_0e0d_0c0b_0a09);
    assert_eq!(
        (events[0].1.prev_position, events[0].1.position),
        (0, 40)
    );
    assert_eq!(
        (events[1].1.prev_position, events[1].1.position),
        (40, 72)
    );
    assert!(!perf.are_events_pending(72));
    let record = events[1].1.get(&buffer);
    assert_eq!((record.kind, record.misc), (1, 0x0102));
    assert_eq!(record.timestamp(), Some(0x100f_0e0d_0c0b_0a09));
}

#[test]
fn records_without_a_time_are_noticed() {
    let mut buffer = vec![0u8; 32 * 4096];
    put_record(&mut buffer, 0, 9, 24);
    assert!(perf()
        .read_events(24, &buffer, ByteOrder::LittleEndian)
        .is_none());
    put_record(&mut buffer, 0, 64, 48);
    assert!(perf()
        .read_events(48, &buffer, ByteOrder::LittleEndian)
        .is_none());
    let event = perf()
        .next_event(48, &buffer, ByteOrder::LittleEndian)
        .unwrap();
    assert_eq!(event.get(&buffer).timestamp(), None);
}

#[test]
fn reads_that_complete_in_order_are_committed_at_once() {
    let mut state = EventRefState::new();
    assert_eq!(state.try_commit(0, 0, 8), 8);
    assert_eq!(state.try_commit(8, 8, 24), 24);
}

#[test]
fn reads_that_complete_out_of_order_are_committed_together() {
    let mut state = EventRefState::new();
    assert_eq!(state.try_commit(0, 24, 40), 0);
    assert_eq!(state.try_commit(0, 8, 24), 0);
    assert_eq!(state.try_commit(0, 0, 8), 40);
    assert_eq!(state.try_commit(40, 56, 64), 40);
    assert_eq!(state.try_commit(40, 40, 56), 64);
}

#[test]
fn consumed_events_move_the_tail() {
    let mut perf = perf();
    let mut buffer = vec![0u8; perf.size() as usize];
    put_record(&mut buffer, 0, 9, 40);
    put_record(&mut buffer, 40, 1, 32);
    let events = perf
        .read_events(72, &buffer, ByteOrder::LittleEndian)
        .unwrap();
    let mut state = EventRefState::new();
    assert_eq!(events[1].1.consume(&mut state, 0), 0);
    assert_eq!(events[0].1.clone().consume(&mut state, 0), 72);
}

#[test]
fn extra_events_are_opened_as_siblings_or_alias_the_leader() {
    let extra: Vec<ExtraEvent> = ["instructions:0:1", "cycles:0:0", "again:0:0"]
        .iter()
        .map(|s| s.parse().unwrap())
        .collect();
    let request = open(
        Perf::build()
            .only_cpu(0)
            .event_source(EventSource::HwCpuCycles)
            .extra_events(extra),
    );
    let mut opening = Opening::new(request, 5);
    assert!(matches!(opening.step(), OpenStep::OpenSibling(ref attr) if attr.config == 1));
    assert_eq!(
        opening.failure("no"),
        "failed to open extra event 'instructions': no"
    );
    opening.sibling_opened(6);
    assert!(matches!(opening.step(), OpenStep::ReadSiblingId(6)));
    opening.sibling_id_read(106);
    assert!(matches!(opening.step(), OpenStep::ReadLeaderId));
    opening.leader_id_read(105);
    assert!(matches!(opening.step(), OpenStep::OpenSibling(ref attr) if attr.config == 0));
    opening.sibling_opened(7);
    opening.sibling_id_read(107);
    assert!(matches!(opening.step(), OpenStep::Finish));
    let perf = opening.finish();
    assert_eq!(perf.fd(), 5);
    assert_eq!(
        perf.extra_event_ids(),
        vec![(105, "cycles"), (106, "instructions"), (107, "again")]
    );
    assert_eq!(perf.fds_to_close(), vec![6, 7, 5]);
}

#[test]
fn what_was_opened_is_rolled_back() {
    let extra: Vec<ExtraEvent> = ["a:4:1", "b:4:2"]
        .iter()
        .map(|s| s.parse().unwrap())
        .collect();
    let mut opening = Opening::new(open(Perf::build().only_cpu(0).extra_events(extra)), 5);
    opening.sibling_opened(6);
    opening.sibling_id_read(1);
    opening.sibling_opened(7);
    assert_eq!(opening.roll_back(), vec![7, 6, 5]);
    assert_eq!(mmap_failure("out of memory"), "mmap failed: out of memory");
}
