//! One sampling event with its ring buffer.

use crate::linux::builder::{PerfBuilder, PerfConfig};
use crate::linux::bytes::{value, ByteOrder};
use crate::linux::commits::{committed, EventRefState};
use crate::linux::record::{record_timestamp, timestamp, ParseInfo};
use crate::linux::ring::{header_at, headers_are_read_at_the_position, location_at, next_raw_event,
    readable, records_are_read_around_the_ring, stream_byte, PerfEventHeader, RawRecordLocation, RecordData, HEADER_SIZE};
use crate::linux::sys::{PerfEventAttr, CLOCK_MONOTONIC, PERF_ATTR_FLAG_DISABLED,
    PERF_ATTR_FLAG_INHERIT, PERF_ATTR_FLAG_USE_CLOCKID, PERF_COUNT_HW_CPU_CYCLES, PERF_FORMAT_GROUP,
    PERF_FORMAT_ID, PERF_SAMPLE_IP, PERF_SAMPLE_READ, PERF_SAMPLE_TID, PERF_SAMPLE_TIME,
    PERF_TYPE_HARDWARE};
use crate::text::{chars_of, decimal_u64, parse_decimal_u64, trim, trimmed};
use vstd::prelude::*;
use vstd::slice::slice_subrange;

verus! {

/// An extra event opened as a sibling of the sampling event in its kernel
/// event group. Siblings don't sample and have no ring buffer of their own;
/// they are scheduled onto the PMU together with the leader, and their values
/// are delivered inline in the leader's samples via `PERF_SAMPLE_READ`.
///
/// The id/name pairing is established here, at open time, because the fd is
/// the only link between the kernel-assigned id and the event we asked for.
#[derive(Debug)]
pub struct SiblingEvent {
    pub fd: i32,
    /// The kernel-assigned id of this event, matching `ReadValue::id` in the
    /// leader's samples.
    pub id: u64,
    /// Label for the counter track this event's values feed.
    pub name: String,
}

impl View for SiblingEvent {
    type V = (i32, u64, Seq<char>);

    open spec fn view(&self) -> (i32, u64, Seq<char>) {
        (self.fd, self.id, self.name@)
    }
}

/// One sampling perf event with its ring buffer.
#[derive(Debug)]
pub struct Perf {
    size: u64,
    fd: i32,
    /// Sibling events of this event's kernel event group. Empty unless extra
    /// events were requested.
    siblings: Vec<SiblingEvent>,
    /// The leader's own kernel-assigned id and the name it was requested
    /// under, when one of the extra events has the same encoding as the
    /// sampling event itself (e.g. `cpu-cycles` on the cycles leader). The
    /// leader's value is part of every group read anyway, so such an event
    /// needs no sibling — and no PMU counter — of its own.
    leader_alias: Option<(u64, String)>,
    position: u64,
    parse_info: ParseInfo,
}

/// A sampling event as its users see it.
#[verifier::ext_equal]
pub struct PerfState {
    pub size: u64,
    pub fd: i32,
    pub siblings: Seq<(i32, u64, Seq<char>)>,
    pub alias: Option<(u64, Seq<char>)>,
    pub position: u64,
    pub parse_info: ParseInfo,
}

impl PerfState {
    /// The id and name of each extra event: that of the leader, if one is counted by it,
    /// and those of the siblings.
    pub open spec fn ids(&self) -> Seq<(u64, Seq<char>)> {
        let siblings = self.siblings.map_values(|s: (i32, u64, Seq<char>)| (s.1, s.2));
        match self.alias {
            Some(alias) => seq![alias] + siblings,
            None => siblings,
        }
    }
}

/// A name and an id, with the name as a sequence of characters.
pub open spec fn alias_view(alias: Option<(u64, String)>) -> Option<(u64, Seq<char>)> {
    match alias {
        Some((id, name)) => Some((id, name@)),
        None => None,
    }
}

/// Ids and names, with the names as sequences of characters.
pub open spec fn ids_view(ids: Seq<(u64, &str)>) -> Seq<(u64, Seq<char>)> {
    ids.map_values(|p: (u64, &str)| (p.0, p.1@))
}

impl View for Perf {
    type V = PerfState;

    closed spec fn view(&self) -> PerfState {
        PerfState {
            size: self.size,
            fd: self.fd,
            siblings: self.siblings@.map_values(|s: SiblingEvent| s@),
            alias: alias_view(self.leader_alias),
            position: self.position,
            parse_info: self.parse_info,
        }
    }
}

impl Perf {
    /// An event that was opened with the given ring buffer and group, and of which nothing
    /// has been read.
    pub fn new(
        fd: i32,
        size: u64,
        siblings: Vec<SiblingEvent>,
        leader_alias: Option<(u64, String)>,
        parse_info: ParseInfo,
    ) -> (res: Perf)
        ensures
            res@ == (PerfState {
                size,
                fd,
                siblings: siblings@.map_values(|s: SiblingEvent| s@),
                alias: alias_view(leader_alias),
                position: 0,
                parse_info,
            }),
    {
        Perf { size, fd, siblings, leader_alias, position: 0, parse_info }
    }

    /// The attributes of the event that [`Self::supports_inherited_sample_read`] speaks of.
    pub open spec fn probe() -> PerfEventAttr {
        PerfEventAttr {
            kind: PERF_TYPE_HARDWARE,
            config: PERF_COUNT_HW_CPU_CYCLES,
            sample_type: PERF_SAMPLE_IP | PERF_SAMPLE_TID | PERF_SAMPLE_TIME | PERF_SAMPLE_READ,
            read_format: PERF_FORMAT_GROUP | PERF_FORMAT_ID,
            sample_period_or_freq: 1_000_000,
            clock_id: CLOCK_MONOTONIC,
            flags: PERF_ATTR_FLAG_DISABLED | PERF_ATTR_FLAG_INHERIT | PERF_ATTR_FLAG_USE_CLOCKID,
            ..PerfEventAttr::blank()
        }
    }

    /// A throwaway event that mirrors the real leader's attributes (sampling, grouped read,
    /// inherit). It is to be opened on this process and CPU 0; `inherit` can't be paired with
    /// `cpu == -1`, so a concrete CPU is used.
    pub fn probe_attr() -> (res: PerfEventAttr)
        ensures
            res == Self::probe(),
    {
        let mut attr = PerfEventAttr::zeroed();
        attr.kind = PERF_TYPE_HARDWARE;
        attr.config = PERF_COUNT_HW_CPU_CYCLES;
        attr.sample_type = PERF_SAMPLE_IP | PERF_SAMPLE_TID | PERF_SAMPLE_TIME | PERF_SAMPLE_READ;
        attr.read_format = PERF_FORMAT_GROUP | PERF_FORMAT_ID;
        attr.sample_period_or_freq = 1_000_000;
        attr.clock_id = CLOCK_MONOTONIC;
        attr.flags = PERF_ATTR_FLAG_DISABLED | PERF_ATTR_FLAG_INHERIT | PERF_ATTR_FLAG_USE_CLOCKID;
        attr
    }

    /// Whether this kernel allows opening a sampling event with both `inherit`
    /// and `PERF_SAMPLE_READ` set, given what it answered when the event with
    /// [`Self::probe_attr`] was opened. Linux rejected that combination with
    /// `EINVAL` until 6.12; on such kernels the extra-event group must instead
    /// be opened system-wide and without `inherit`.
    pub fn supports_inherited_sample_read(probe_fd: i32) -> (res: bool)
        ensures
            res == (probe_fd != -1),
    {
        probe_fd != -1
    }

    /// The sample rate in `/proc/sys/kernel/perf_event_max_sample_rate`, if the file could be
    /// read and holds one.
    pub fn max_sample_rate(data: Option<&str>) -> (res: Option<u64>)
        ensures
            res == (match data {
                Some(text) => decimal_u64(trim(text@)),
                None => None,
            }),
    {
        match data {
            Some(text) => parse_decimal_u64(trimmed(chars_of(text).as_slice())),
            None => None,
        }
    }

    pub fn build() -> (res: PerfBuilder)
        ensures
            res@ == PerfConfig::initial(),
    {
        PerfBuilder::new()
    }

    /// Whether the kernel has written further, namely up to `head`.
    pub fn are_events_pending(&self, head: u64) -> (res: bool)
        ensures
            res == (head != self@.position),
    {
        head != self.position
    }

    pub fn fd(&self) -> (res: i32)
        ensures
            res == self@.fd,
    {
        self.fd
    }

    /// The size of the ring buffer.
    pub fn size(&self) -> (res: u64)
        ensures
            res == self@.size,
    {
        self.size
    }

    /// How far the ring buffer has been read.
    pub fn position(&self) -> (res: u64)
        ensures
            res == self@.position,
    {
        self.position
    }

    /// The file descriptors to close when the event is no longer needed: those of the
    /// siblings, and its own.
    pub fn fds_to_close(&self) -> (res: Vec<i32>)
        ensures
            res@ == self@.siblings.map_values(|s: (i32, u64, Seq<char>)| s.0).push(self@.fd),
    {
        let mut res: Vec<i32> = Vec::new();
        let mut i: usize = 0;
        while i < self.siblings.len()
            invariant
                i <= self.siblings@.len(),
                res@.len() == i,
                forall|j: int| 0 <= j < i ==> res@[j] == self.siblings@[j].fd,
            decreases self.siblings@.len() - i,
        {
            res.push(self.siblings[i].fd);
            i = i + 1;
        }
        res.push(self.fd);
        assert(res@ =~= self@.siblings.map_values(|s: (i32, u64, Seq<char>)| s.0).push(self@.fd));
        res
    }

    /// The kernel-assigned id and name of each extra event readable from this
    /// event's samples: the leader itself when an extra event aliases it,
    /// plus the sibling events. The per-sample values arrive via
    /// `SampleRecord::read`, matched by id.
    pub fn extra_event_ids(&self) -> (res: Vec<(u64, &str)>)
        ensures
            ids_view(res@) == self@.ids(),
    {
        let mut res: Vec<(u64, &str)> = Vec::new();
        if let Some(alias) = &self.leader_alias {
            res.push((alias.0, alias.1.as_str()));
        }
        let ghost first = ids_view(res@);
        let ghost rest = self@.siblings.map_values(|s: (i32, u64, Seq<char>)| (s.1, s.2));
        let mut i: usize = 0;
        assert(ids_view(res@) =~= first + rest.take(0));
        while i < self.siblings.len()
            invariant
                i <= self.siblings@.len(),
                rest == self@.siblings.map_values(|s: (i32, u64, Seq<char>)| (s.1, s.2)),
                ids_view(res@) == first + rest.take(i as int),
            decreases self.siblings@.len() - i,
        {
            let ghost before = res@;
            let id: (u64, &str) = (self.siblings[i].id, self.siblings[i].name.as_str());
            res.push(id);
            assert(rest[i as int] == (id.0, id.1@));
            assert(ids_view(res@) =~= ids_view(before).push((id.0, id.1@)));
            assert(rest.take(i + 1) =~= rest.take(i as int).push(rest[i as int]));
            assert(first + rest.take(i + 1) =~= (first + rest.take(i as int)).push(
                rest[i as int],
            ));
            i = i + 1;
        }
        assert(rest.take(i as int) =~= rest);
        proof {
            if let Some(alias) = self@.alias {
                assert(first =~= seq![alias]);
            } else {
                assert(first =~= seq![]);
                assert(first + rest =~= rest);
            }
        }
        res
    }

    /// The next event of the ring buffer, into which the kernel has written up to `head`.
    pub fn next_event(&mut self, head: u64, buffer: &[u8], order: ByteOrder) -> (res: Option<
        EventRef,
    >)
        requires
            head != old(self)@.position ==> readable(buffer@, old(self)@.position, order),
            buffer@.len() <= usize::MAX - u16::MAX,
        ensures
            head == old(self)@.position ==> res is None && final(self)@ == old(self)@,
            head != old(self)@.position ==> {
                let position = old(self)@.position;
                let next = (position + header_at(buffer@, position, order).size) as u64;
                &&& final(self)@ == (PerfState { position: next, ..old(self)@ })
                &&& res == Some(
                    EventRef {
                        event_location: location_at(buffer@, position, order),
                        prev_position: position,
                        position: next,
                        parse_info: old(self)@.parse_info,
                    },
                )
            },
    {
        let prev_position: u64 = self.position;
        match next_raw_event(head, buffer, order, &mut self.position) {
            Some(event_location) => Some(
                EventRef {
                    event_location,
                    prev_position,
                    position: self.position,
                    parse_info: self.parse_info,
                },
            ),
            None => None,
        }
    }
}

/// A record of an event.
#[derive(Clone, Copy, Debug)]
pub struct RawRecord<'a> {
    pub kind: u32,
    pub misc: u16,
    pub data: RecordData<'a>,
    pub parse_info: ParseInfo,
}

impl<'a> RawRecord<'a> {
    /// The time of the record.
    pub fn timestamp(&self) -> (res: Option<u64>)
        ensures
            res == timestamp(self.kind, self.data@, self.parse_info),
    {
        record_timestamp(self.kind, self.data, &self.parse_info)
    }
}

/// Handle to a single event in the perf ring buffer.
///
/// Once it is done with, the event is to be "consumed" by [`Self::consume`], which advances
/// the read pointer.
///
/// If events are consumed out of order, then they are added to a list of pending commits and
/// committed when all prior events are also consumed. For this reason, events should be
/// consumed in-order to achieve the lowest overhead.
#[derive(Debug)]
pub struct EventRef {
    pub event_location: RawRecordLocation,
    pub prev_position: u64,
    pub position: u64,
    pub parse_info: ParseInfo,
}

impl Clone for EventRef {
    fn clone(&self) -> (res: Self)
        ensures
            res == *self,
    {
        EventRef {
            event_location: self.event_location.clone(),
            prev_position: self.prev_position,
            position: self.position,
            parse_info: self.parse_info,
        }
    }
}

impl EventRef {
    /// The record in the ring buffer.
    pub fn get<'a>(&self, buffer: &'a [u8]) -> (res: RawRecord<'a>)
        requires
            self.event_location.data_location.is_in(buffer@.len()),
        ensures
            res.kind == self.event_location.kind,
            res.misc == self.event_location.misc,
            res.data@ == self.event_location.data_location.data(buffer@),
            res.data is Single <==> self.event_location.data_location is Single,
            res.parse_info == self.parse_info,
    {
        RawRecord {
            kind: self.event_location.kind,
            misc: self.event_location.misc,
            data: self.event_location.data_location.get(buffer),
            parse_info: self.parse_info,
        }
    }

    /// Marks the event as read, where the events up to `tail` are. Returns the new tail.
    pub fn consume(&self, state: &mut EventRefState, tail: u64) -> (res: u64)
        requires
            old(state).well_formed(),
        ensures
            final(state).well_formed(),
            (final(state)@, res) == committed(
                old(state)@,
                tail,
                (self.prev_position, self.position),
            ),
    {
        state.try_commit(tail, self.prev_position, self.position)
    }
}

/// The event at a position of the stream.
pub open spec fn event_at(
    buffer: Seq<u8>,
    position: u64,
    order: ByteOrder,
    parse_info: ParseInfo,
) -> EventRef {
    EventRef {
        event_location: location_at(buffer, position, order),
        prev_position: position,
        position: (position + header_at(buffer, position, order).size) as u64,
        parse_info,
    }
}

/// The time of an event.
pub open spec fn event_time(event: EventRef, buffer: Seq<u8>) -> Option<u64> {
    timestamp(
        event.event_location.kind,
        event.event_location.data_location.data(buffer),
        event.parse_info,
    )
}

/// Whether the kernel has written whole records from the position up to the head.
pub open spec fn is_stream(buffer: Seq<u8>, position: u64, head: u64, order: ByteOrder) -> bool
    decreases head - position,
{
    let size = header_at(buffer, position, order).size;
    position == head || {
        &&& readable(buffer, position, order)
        &&& HEADER_SIZE <= size <= buffer.len()
        &&& position + size <= head
        &&& is_stream(buffer, (position + size) as u64, head, order)
    }
}

/// The events from the position up to the head, each with its time; `None` if one has no
/// time.
pub open spec fn events_from(
    buffer: Seq<u8>,
    position: u64,
    head: u64,
    order: ByteOrder,
    parse_info: ParseInfo,
) -> Option<Seq<(u64, EventRef)>>
    decreases head - position,
{
    let event = event_at(buffer, position, order, parse_info);
    if position >= head || event.position <= position || event.position > head {
        Some(seq![])
    } else {
        match (
            event_time(event, buffer),
            events_from(buffer, event.position, head, order, parse_info),
        ) {
            (Some(time), Some(rest)) => Some(seq![(time, event)] + rest),
            _ => None,
        }
    }
}

/// Whether the kernel has written whole records from the position up to the head.
pub fn is_whole_stream(buffer: &[u8], position: u64, head: u64, order: ByteOrder) -> (res: bool)
    ensures
        res == is_stream(buffer@, position, head, order),
{
    let len: usize = buffer.len();
    let mut at: u64 = position;
    while at != head
        invariant
            len == buffer@.len(),
            is_stream(buffer@, position, head, order) == is_stream(buffer@, at, head, order),
        decreases
                (if at <= head {
                    head - at
                } else {
                    0
                }),
    {
        if len == 0 {
            return false;
        }
        let start: usize = (at % len as u64) as usize;
        if len - start < HEADER_SIZE {
            return false;
        }
        let header = PerfEventHeader::read(slice_subrange(buffer, start, start + HEADER_SIZE), order);
        let size: usize = header.size as usize;
        if size < HEADER_SIZE || size > len || at > head || head - at < size as u64 {
            return false;
        }
        at = at + size as u64;
    }
    true
}

impl Perf {
    /// The events that the kernel has written up to `head`, each with its time; `None` if one
    /// of them has no time.
    pub fn read_events(&mut self, head: u64, buffer: &[u8], order: ByteOrder) -> (res: Option<
        Vec<(u64, EventRef)>,
    >)
        requires
            is_stream(buffer@, old(self)@.position, head, order),
            buffer@.len() <= usize::MAX - u16::MAX,
        ensures
            match events_from(
                buffer@,
                old(self)@.position,
                head,
                order,
                old(self)@.parse_info,
            ) {
                Some(events) => {
                    &&& res matches Some(v)
                    &&& v@ == events
                    &&& final(self)@ == (PerfState { position: head, ..old(self)@ })
                },
                None => {
                    &&& res is None
                    &&& final(self)@ == (PerfState {
                        position: final(self)@.position,
                        ..old(self)@
                    })
                },
            },
    {
        let ghost start = self@;
        let ghost whole = events_from(buffer@, start.position, head, order, start.parse_info);
        let mut events: Vec<(u64, EventRef)> = Vec::new();
        assert(whole matches Some(w) ==> events@ + w =~= w);
        while self.position != head
            invariant
                self@ == (PerfState { position: self@.position, ..start }),
                is_stream(buffer@, self@.position, head, order),
                buffer@.len() <= usize::MAX - u16::MAX,
                whole == (match events_from(
                    buffer@,
                    self@.position,
                    head,
                    order,
                    start.parse_info,
                ) {
                    Some(rest) => Some(events@ + rest),
                    None => None,
                }),
                whole == events_from(
                    buffer@,
                    old(self)@.position,
                    head,
                    order,
                    old(self)@.parse_info,
                ),
                start == old(self)@,
            decreases head - self@.position,
        {
            let ghost position = self@.position;
            proof {
                records_are_read_around_the_ring(buffer@, position, order);
            }
            let event = self.next_event(head, buffer, order).unwrap();
            assert(event == event_at(buffer@, position, order, start.parse_info));
            let ghost rest = events_from(
                buffer@,
                event.position,
                head,
                order,
                start.parse_info,
            );
            let ghost before = events@;
            match event.get(buffer).timestamp() {
                Some(time) => {
                    events.push((time, event));
                    assert(rest matches Some(r) ==> before + (seq![(time, event)] + r)
                        =~= events@ + r);
                },
                None => {
                    return None;
                },
            }
        }
        assert(events@ + seq![] =~= events@);
        Some(events)
    }
}

/// The events that are read follow one another without a gap, from the position where the
/// reading started up to the head.
pub proof fn events_follow_one_another(
    buffer: Seq<u8>,
    position: u64,
    head: u64,
    order: ByteOrder,
    parse_info: ParseInfo,
)
    requires
        is_stream(buffer, position, head, order),
        events_from(buffer, position, head, order, parse_info) is Some,
    ensures
        ({
            let events = events_from(buffer, position, head, order, parse_info)->0;
            &&& events.len() == 0 <==> position == head
            &&& events.len() > 0 ==> events[0].1.prev_position == position
                && events.last().1.position == head
            &&& forall|i: int|
                0 <= i < events.len() ==> (#[trigger] events[i]).1.prev_position
                    < events[i].1.position
            &&& forall|i: int, j: int|
                0 <= i && j == i + 1 && j < events.len() ==> (#[trigger] events[i]).1.position == (
                #[trigger] events[j]).1.prev_position
        }),
    decreases head - position,
{
    if position != head {
        let event = event_at(buffer, position, order, parse_info);
        events_follow_one_another(buffer, event.position, head, order, parse_info);
        let rest = events_from(buffer, event.position, head, order, parse_info)->0;
        let events = events_from(buffer, position, head, order, parse_info)->0;
        assert(events =~= seq![(event_time(event, buffer)->0, event)] + rest);
        assert forall|i: int| 0 <= i < events.len() implies (#[trigger] events[i]).1.prev_position
            < events[i].1.position by {
            if i > 0 {
                assert(events[i] == rest[i - 1]);
            }
        }
        assert forall|i: int, j: int| 0 <= i && j == i + 1 && j < events.len() implies (
        #[trigger] events[i]).1.position == (#[trigger] events[j]).1.prev_position by {
            assert(events[j] == rest[j - 1]);
            if i > 0 {
                assert(events[i] == rest[i - 1]);
            }
        }
        if rest.len() > 0 {
            assert(events.last() == rest.last());
        }
    }
}

/// The record of each event that is read can be got from the ring buffer: its data are there,
/// whole, and hold the time that came with the event.
pub proof fn events_can_be_got(
    buffer: Seq<u8>,
    position: u64,
    head: u64,
    order: ByteOrder,
    parse_info: ParseInfo,
    i: int,
)
    requires
        is_stream(buffer, position, head, order),
        buffer.len() <= usize::MAX,
        events_from(buffer, position, head, order, parse_info) is Some,
        0 <= i < (events_from(buffer, position, head, order, parse_info)->0).len(),
    ensures
        ({
            let (time, event) = (events_from(buffer, position, head, order, parse_info)->0)[i];
            &&& event.event_location.data_location.is_in(buffer.len())
            &&& event.event_location.data_location.data(buffer).len() + HEADER_SIZE
                == event.position - event.prev_position
            &&& event_time(event, buffer) == Some(time)
            &&& event.parse_info == parse_info
        }),
    decreases head - position,
{
    if position != head {
        let event = event_at(buffer, position, order, parse_info);
        records_are_read_around_the_ring(buffer, position, order);
        let events = events_from(buffer, position, head, order, parse_info)->0;
        let rest = events_from(buffer, event.position, head, order, parse_info)->0;
        assert(events =~= seq![(event_time(event, buffer)->0, event)] + rest);
        if i > 0 {
            assert(events[i] == rest[i - 1]);
            events_can_be_got(buffer, event.position, head, order, parse_info, i - 1);
        }
    }
}

/// Each event that is read is the record at its position: it ends as far behind it as the size
/// in the stream says, and it has the type that the stream says.
pub proof fn events_are_the_records_of_the_stream(
    buffer: Seq<u8>,
    position: u64,
    head: u64,
    order: ByteOrder,
    parse_info: ParseInfo,
    i: int,
)
    requires
        is_stream(buffer, position, head, order),
        events_from(buffer, position, head, order, parse_info) is Some,
        0 <= i < (events_from(buffer, position, head, order, parse_info)->0).len(),
    ensures
        ({
            let event = (events_from(buffer, position, head, order, parse_info)->0)[i].1;
            let bytes = Seq::new(8, |k: int| stream_byte(buffer, event.prev_position + k));
            &&& event.position - event.prev_position == value(bytes.subrange(6, 8), order)
            &&& event.event_location.kind == value(bytes.subrange(0, 4), order)
            &&& event.event_location.misc == value(bytes.subrange(4, 6), order)
        }),
    decreases head - position,
{
    if position != head {
        let event = event_at(buffer, position, order, parse_info);
        headers_are_read_at_the_position(buffer, position, order);
        let events = events_from(buffer, position, head, order, parse_info)->0;
        let rest = events_from(buffer, event.position, head, order, parse_info)->0;
        assert(events =~= seq![(event_time(event, buffer)->0, event)] + rest);
        if i > 0 {
            assert(events[i] == rest[i - 1]);
            events_are_the_records_of_the_stream(
                buffer,
                event.position,
                head,
                order,
                parse_info,
                i - 1,
            );
        }
    }
}

/// The data of each event that is read are the bytes of the stream from behind its header up to
/// the next event, and what time it has is read from them.
pub proof fn events_hold_the_bytes_of_the_stream(
    buffer: Seq<u8>,
    position: u64,
    head: u64,
    order: ByteOrder,
    parse_info: ParseInfo,
    i: int,
)
    requires
        is_stream(buffer, position, head, order),
        buffer.len() <= usize::MAX,
        events_from(buffer, position, head, order, parse_info) is Some,
        0 <= i < (events_from(buffer, position, head, order, parse_info)->0).len(),
    ensures
        ({
            let (time, event) = (events_from(buffer, position, head, order, parse_info)->0)[i];
            let data = event.event_location.data_location.data(buffer);
            &&& data.len() == event.position - event.prev_position - 8
            &&& forall|k: int|
                0 <= k < data.len() ==> #[trigger] data[k] == stream_byte(
                    buffer,
                    event.prev_position + 8 + k,
                )
            &&& timestamp(event.event_location.kind, data, parse_info) == Some(time)
        }),
    decreases head - position,
{
    if position != head {
        let event = event_at(buffer, position, order, parse_info);
        records_are_read_around_the_ring(buffer, position, order);
        let events = events_from(buffer, position, head, order, parse_info)->0;
        let rest = events_from(buffer, event.position, head, order, parse_info)->0;
        assert(events =~= seq![(event_time(event, buffer)->0, event)] + rest);
        if i > 0 {
            assert(events[i] == rest[i - 1]);
            events_hold_the_bytes_of_the_stream(
                buffer,
                event.position,
                head,
                order,
                parse_info,
                i - 1,
            );
        }
    }
}

/// The ids of an event are that under which the leader counts an extra event, if it does, and
/// behind it those of the siblings, each with its own name.
pub proof fn ids_are_those_of_the_leader_and_the_siblings(perf: PerfState, k: int)
    ensures
        ({
            let n = if perf.alias is Some {
                1int
            } else {
                0
            };
            &&& perf.ids().len() == n + perf.siblings.len()
            &&& perf.alias matches Some(alias) ==> perf.ids()[0] == alias
            &&& 0 <= k < perf.siblings.len() ==> perf.ids()[n + k] == (
                perf.siblings[k].1,
                perf.siblings[k].2,
            )
        }),
{
}

/// What is tried out is what a kernel may reject: an event of the hardware that samples, is
/// inherited, and carries the counts of its group in each sample.
pub proof fn the_probe_is_inherited_and_reads_counts()
    ensures
        Perf::probe().kind == 0 && Perf::probe().config == 0,
        Perf::probe().sample_period_or_freq > 0,
        Perf::probe().sample_type & 0x10 != 0,
        Perf::probe().flags & 0x2 != 0,
        Perf::probe().flags & 0x1 != 0,
        Perf::probe().read_format == 0xc,
{
    assert((0x1u64 | 0x2u64 | 0x4u64 | 0x10u64) & 0x10u64 != 0) by (bit_vector);
    assert((0x1u64 | 0x2u64 | 0x200_0000u64) & 0x2u64 != 0) by (bit_vector);
    assert((0x1u64 | 0x2u64 | 0x200_0000u64) & 0x1u64 != 0) by (bit_vector);
    assert(0x8u64 | 0x4u64 == 0xcu64) by (bit_vector);
}

/// Nothing is a stream; a whole record is one; and two streams that follow one another are one.
/// A stream that is not empty starts with a record that has its header, fits into the buffer and
/// ends at the head or in front of it, and what follows the record is a stream.
pub proof fn streams_are_whole_records(
    buffer: Seq<u8>,
    position: u64,
    middle: u64,
    head: u64,
    order: ByteOrder,
)
    ensures
        is_stream(buffer, head, head, order),
        is_stream(buffer, position, middle, order) && is_stream(buffer, middle, head, order)
            ==> is_stream(buffer, position, head, order),
        readable(buffer, position, order) && 8 <= middle - position <= buffer.len() && header_at(
            buffer,
            position,
            order,
        ).size == middle - position ==> is_stream(buffer, position, middle, order),
        is_stream(buffer, position, head, order) && position != head ==> {
            let size = header_at(buffer, position, order).size;
            &&& readable(buffer, position, order)
            &&& 8 <= size <= buffer.len()
            &&& position + size <= head
            &&& is_stream(buffer, (position + size) as u64, head, order)
        },
    decreases middle - position,
{
    reveal_with_fuel(is_stream, 2);
    if is_stream(buffer, position, middle, order) && is_stream(buffer, middle, head, order)
        && position != middle {
        let size = header_at(buffer, position, order).size;
        lemma_stream_ends_behind(buffer, middle, head, order);
        streams_are_whole_records(buffer, (position + size) as u64, middle, head, order);
    }
}

proof fn lemma_stream_ends_behind(buffer: Seq<u8>, position: u64, head: u64, order: ByteOrder)
    requires
        is_stream(buffer, position, head, order),
    ensures
        position <= head,
{
}

} // verus!
