//! Opening a sampling event together with its group.

use crate::linux::builder::OpenRequest;
use crate::linux::extra_event::ExtraEvent;
use crate::linux::perf::{alias_view, Perf, PerfState, SiblingEvent};
use crate::linux::sys::PerfEventAttr;
use vstd::prelude::*;
use vstd::string::*;

verus! {

/// A sibling event: its file descriptor, the id that the kernel gave it, and its name.
pub type Sibling = (i32, u64, Seq<char>);

/// The siblings of a list.
pub open spec fn siblings_view(siblings: Seq<SiblingEvent>) -> Seq<Sibling> {
    siblings.map_values(|s: SiblingEvent| s@)
}

/// The names of the events.
pub open spec fn names_of(events: Seq<ExtraEvent>) -> Seq<Seq<char>> {
    events.map_values(|e: ExtraEvent| e.name@)
}

/// The names of the siblings.
pub open spec fn sibling_names(siblings: Seq<Sibling>) -> Seq<Seq<char>> {
    siblings.map_values(|s: Sibling| s.2)
}

/// Whether the event has the encoding.
pub open spec fn has_encoding(event: ExtraEvent, encoding: (u32, u64)) -> bool {
    (event.event_type, event.config) == encoding
}

/// The number of events in front of the first one that has the encoding.
pub open spec fn first_with(events: Seq<ExtraEvent>, encoding: (u32, u64)) -> int
    decreases events.len(),
{
    if events.len() == 0 || has_encoding(events[0], encoding) {
        0
    } else {
        1 + first_with(events.drop_first(), encoding)
    }
}

/// The events but for the first one that has the encoding of the leader.
pub open spec fn events_with_sibling(
    events: Seq<ExtraEvent>,
    encoding: (u32, u64),
) -> Seq<ExtraEvent> {
    let i = first_with(events, encoding);
    if i < events.len() {
        events.remove(i)
    } else {
        events
    }
}

proof fn lemma_first_with(events: Seq<ExtraEvent>, encoding: (u32, u64))
    ensures
        0 <= first_with(events, encoding) <= events.len(),
        first_with(events, encoding) < events.len() ==> has_encoding(
            events[first_with(events, encoding)],
            encoding,
        ),
        forall|i: int|
            0 <= i < first_with(events, encoding) ==> !has_encoding(#[trigger] events[i], encoding),
    decreases events.len(),
{
    if events.len() > 0 && !has_encoding(events[0], encoding) {
        lemma_first_with(events.drop_first(), encoding);
        assert forall|i: int| 0 <= i < first_with(events, encoding) implies !has_encoding(
            #[trigger] events[i],
            encoding,
        ) by {
            if i > 0 {
                assert(events[i] == events.drop_first()[i - 1]);
            }
        }
    }
}

proof fn lemma_first_with_push(events: Seq<ExtraEvent>, event: ExtraEvent, encoding: (u32, u64))
    ensures
        first_with(events.push(event), encoding) == (if first_with(events, encoding)
            < events.len() {
            first_with(events, encoding)
        } else if has_encoding(event, encoding) {
            events.len() as int
        } else {
            events.len() as int + 1
        }),
    decreases events.len(),
{
    reveal_with_fuel(first_with, 2);
    lemma_first_with(events, encoding);
    if events.len() > 0 {
        assert(events.push(event).drop_first() =~= events.drop_first().push(event));
        if !has_encoding(events[0], encoding) {
            lemma_first_with_push(events.drop_first(), event, encoding);
        }
    } else {
        assert(events.push(event).drop_first() =~= events);
    }
}

/// What to do next for the group of an event.
#[derive(Debug)]
pub enum OpenStep {
    /// Read the id of the leader itself, which has the encoding of the next extra event.
    ReadLeaderId,
    /// Open a sibling with these attributes, for the process and on the CPU of the leader.
    OpenSibling(PerfEventAttr),
    /// Read the id of the sibling that was opened as this file descriptor.
    ReadSiblingId(i32),
    /// The group is complete.
    Finish,
}

/// The group of an event whose leader is open and has its ring buffer.
#[verifier::ext_equal]
pub struct Group {
    pub events: Seq<ExtraEvent>,
    /// The attributes of the leader.
    pub attr: PerfEventAttr,
    pub leader: i32,
    /// How many of the extra events have been seen to.
    pub done: int,
    /// The id of the leader, and the name of the extra event that it counts.
    pub alias: Option<(u64, Seq<char>)>,
    pub siblings: Seq<Sibling>,
    /// The file descriptor of a sibling whose id is not known yet.
    pub opened: Option<i32>,
}

impl Group {
    pub open spec fn encoding(&self) -> (u32, u64) {
        (self.attr.kind, self.attr.config)
    }

    /// Each extra event that has been seen to either has a sibling, or is the first one with
    /// the encoding of the leader.
    pub open spec fn well_formed(&self) -> bool {
        let seen = self.events.take(self.done);
        let first = first_with(seen, self.encoding());
        &&& 0 <= self.done <= self.events.len()
        &&& sibling_names(self.siblings) == names_of(events_with_sibling(seen, self.encoding()))
        &&& if first < self.done {
            self.alias matches Some(a) && a.1 == self.events[first].name@
        } else {
            self.alias is None
        }
        &&& self.opened is Some ==> self.done < self.events.len() && !(self.alias is None
            && has_encoding(self.events[self.done], self.encoding()))
    }

    pub open spec fn next_step(&self) -> OpenStep {
        if let Some(fd) = self.opened {
            OpenStep::ReadSiblingId(fd)
        } else if self.done >= self.events.len() {
            OpenStep::Finish
        } else if self.alias is None && has_encoding(self.events[self.done], self.encoding()) {
            OpenStep::ReadLeaderId
        } else {
            OpenStep::OpenSibling(self.events[self.done].as_sibling_of(self.attr))
        }
    }

    pub open spec fn with_leader_id(&self, id: u64) -> Group {
        Group {
            alias: Some((id, self.events[self.done].name@)),
            done: self.done + 1,
            ..*self
        }
    }

    pub open spec fn with_open_sibling(&self, fd: i32) -> Group {
        Group { opened: Some(fd), ..*self }
    }

    pub open spec fn with_sibling_id(&self, id: u64) -> Group {
        Group {
            siblings: self.siblings.push((self.opened->0, id, self.events[self.done].name@)),
            opened: None,
            done: self.done + 1,
            ..*self
        }
    }

    /// The file descriptors that are open: those of the siblings, and that of the leader.
    pub open spec fn open_fds(&self) -> Seq<i32> {
        let opened = match self.opened {
            Some(fd) => seq![fd],
            None => seq![],
        };
        opened + self.siblings.map_values(|s: Sibling| s.0).push(self.leader)
    }
}

/// An event whose leader is open and has its ring buffer, while its group is being opened.
#[derive(Debug)]
pub struct Opening {
    request: OpenRequest,
    leader_fd: i32,
    done: usize,
    leader_alias: Option<(u64, String)>,
    siblings: Vec<SiblingEvent>,
    opened: Option<i32>,
}

impl View for Opening {
    type V = Group;

    closed spec fn view(&self) -> Group {
        Group {
            events: self.request.extra_events@,
            attr: self.request.attr,
            leader: self.leader_fd,
            done: self.done as int,
            alias: alias_view(self.leader_alias),
            siblings: siblings_view(self.siblings@),
            opened: self.opened,
        }
    }
}

/// What is said when the ring buffer cannot be mapped.
pub fn mmap_failure(error: &str) -> (res: String)
    ensures
        res@ == "mmap failed: "@ + error@,
{
    let mut message = "mmap failed: ".to_owned();
    message.append(error);
    message
}

impl Opening {
    /// What was asked of the kernel.
    pub closed spec fn asked(&self) -> OpenRequest {
        self.request
    }

    /// The request, once its leader has been opened as `leader_fd` and has its ring buffer.
    pub fn new(request: OpenRequest, leader_fd: i32) -> (res: Opening)
        ensures
            res@.well_formed(),
            res.asked() == request,
            res@ == (Group {
                events: request.extra_events@,
                attr: request.attr,
                leader: leader_fd,
                done: 0,
                alias: None,
                siblings: seq![],
                opened: None,
            }),
    {
        let res = Opening {
            request,
            leader_fd,
            done: 0,
            leader_alias: None,
            siblings: Vec::new(),
            opened: None,
        };
        proof {
            assert(siblings_view(res.siblings@) =~= seq![]);
            let seen = request.extra_events@.take(0);
            assert(seen =~= seq![]);
            assert(sibling_names(seq![]) =~= names_of(events_with_sibling(seen, res@.encoding())));
        }
        res
    }

    /// What to do next. An extra event with the same encoding as the leader is
    /// aliased to the leader instead of opening a redundant sibling.
    pub fn step(&self) -> (res: OpenStep)
        ensures
            res == self@.next_step(),
    {
        if let Some(fd) = self.opened {
            return OpenStep::ReadSiblingId(fd);
        }
        if self.done >= self.request.extra_events.len() {
            return OpenStep::Finish;
        }
        let extra = &self.request.extra_events[self.done];
        if self.leader_alias.is_none() && extra.event_type == self.request.attr.kind && extra.config
            == self.request.attr.config {
            OpenStep::ReadLeaderId
        } else {
            OpenStep::OpenSibling(extra.sibling_attr(&self.request.attr))
        }
    }

    /// The id of the leader has been read.
    pub fn leader_id_read(&mut self, id: u64)
        requires
            old(self)@.well_formed(),
            old(self)@.next_step() is ReadLeaderId,
        ensures
            final(self)@.well_formed(),
            final(self).asked() == old(self).asked(),
            final(self)@ == old(self)@.with_leader_id(id),
    {
        assert(self.done < self.request.extra_events.len());
        let name = self.request.extra_events[self.done].name.clone();
        self.leader_alias = Some((id, name));
        self.done = self.done + 1;
        proof {
            old(self)@.lemma_next();
            let seen = old(self)@.events.take(old(self)@.done);
            let event = old(self)@.events[old(self)@.done];
            assert(seen.push(event).remove(seen.len() as int) =~= seen);
            assert(self@.events.take(self@.done) == seen.push(event));
        }
    }

    /// A sibling has been opened as `fd`.
    pub fn sibling_opened(&mut self, fd: i32)
        requires
            old(self)@.well_formed(),
            old(self)@.next_step() is OpenSibling,
        ensures
            final(self)@.well_formed(),
            final(self).asked() == old(self).asked(),
            final(self)@ == old(self)@.with_open_sibling(fd),
    {
        self.opened = Some(fd);
    }

    /// The id of the sibling has been read.
    pub fn sibling_id_read(&mut self, id: u64)
        requires
            old(self)@.well_formed(),
            old(self)@.next_step() is ReadSiblingId,
        ensures
            final(self)@.well_formed(),
            final(self).asked() == old(self).asked(),
            final(self)@ == old(self)@.with_sibling_id(id),
    {
        assert(self.done < self.request.extra_events.len());
        let name = self.request.extra_events[self.done].name.clone();
        let fd: i32 = self.opened.unwrap();
        self.opened = None;
        self.siblings.push(SiblingEvent { fd, id, name });
        self.done = self.done + 1;
        proof {
            old(self)@.lemma_next();
            let seen = old(self)@.events.take(old(self)@.done);
            let event = old(self)@.events[old(self)@.done];
            let encoding = self@.encoding();
            assert(self@.siblings =~= old(self)@.siblings.push((fd, id, event.name@)));
            assert(self@ =~= old(self)@.with_sibling_id(id));
            assert(self@.events.take(self@.done) == seen.push(event));
            let with = events_with_sibling(seen, encoding);
            let first = first_with(seen, encoding);
            lemma_first_with(seen, encoding);
            if first < seen.len() {
                assert(seen.push(event).remove(first) =~= seen.remove(first).push(event));
            }
            assert(events_with_sibling(seen.push(event), encoding) =~= with.push(event));
            assert(names_of(with.push(event)) =~= names_of(with).push(event.name@));
            assert(sibling_names(self@.siblings) =~= sibling_names(old(self)@.siblings).push(
                event.name@,
            ));
        }
    }

    /// If anything fails, the whole group is rolled back so the caller can fall
    /// back to a simpler configuration: these file descriptors are to be closed, and the ring
    /// buffer is to be unmapped.
    pub fn roll_back(self) -> (res: Vec<i32>)
        ensures
            res@ == self@.open_fds(),
    {
        let mut res: Vec<i32> = Vec::new();
        if let Some(fd) = self.opened {
            res.push(fd);
        }
        let ghost opened = res@;
        let mut i: usize = 0;
        while i < self.siblings.len()
            invariant
                i <= self.siblings@.len(),
                res@.len() == opened.len() + i,
                opened =~= res@.take(opened.len() as int),
                forall|j: int| 0 <= j < i ==> res@[opened.len() + j] == self.siblings@[j].fd,
            decreases self.siblings@.len() - i,
        {
            res.push(self.siblings[i].fd);
            i = i + 1;
        }
        res.push(self.leader_fd);
        assert(res@ =~= self@.open_fds());
        res
    }

    /// What is said when the next step failed.
    pub fn failure(&self, error: &str) -> (res: String)
        requires
            self@.well_formed(),
            self@.next_step() !is Finish,
        ensures
            res@ == "failed to open extra event '"@ + self@.events[self@.done].name@ + "': "@
                + error@,
    {
        let mut message = "failed to open extra event '".to_owned();
        message.append(self.request.extra_events[self.done].name.as_str());
        message.append("': ");
        message.append(error);
        message
    }

    /// The event, once its group is complete.
    pub fn finish(self) -> (res: Perf)
        requires
            self@.next_step() is Finish,
        ensures
            res@ == (PerfState {
                size: self.asked().size,
                fd: self@.leader,
                siblings: self@.siblings,
                alias: self@.alias,
                position: 0,
                parse_info: self.asked().parse_info,
            }),
    {
        let res = Perf::new(
            self.leader_fd,
            self.request.size,
            self.siblings,
            self.leader_alias,
            self.request.parse_info,
        );
        assert(res@.siblings =~= siblings_view(self.siblings@));
        res
    }
}

impl Group {
    proof fn lemma_next(self)
        requires
            self.well_formed(),
            self.done < self.events.len(),
        ensures
            self.events.take(self.done + 1) == self.events.take(self.done).push(
                self.events[self.done],
            ),
            first_with(self.events.take(self.done + 1), self.encoding()) == (if self.alias is Some {
                first_with(self.events.take(self.done), self.encoding())
            } else if has_encoding(self.events[self.done], self.encoding()) {
                self.done
            } else {
                self.done + 1
            }),
    {
        assert(self.events.take(self.done + 1) =~= self.events.take(self.done).push(
            self.events[self.done],
        ));
        lemma_first_with_push(
            self.events.take(self.done),
            self.events[self.done],
            self.encoding(),
        );
        lemma_first_with(self.events.take(self.done), self.encoding());
    }
}

/// In a complete group each extra event has an id under its own name: the first one that
/// has the encoding of the leader has the id of the leader, and each other one that of a
/// sibling.
pub proof fn every_extra_event_has_an_id(group: Group)
    requires
        group.well_formed(),
        group.next_step() is Finish,
    ensures
        sibling_names(group.siblings) == names_of(
            events_with_sibling(group.events, group.encoding()),
        ),
        group.alias is Some <==> exists|i: int|
            0 <= i < group.events.len() && has_encoding(#[trigger] group.events[i], group.encoding()),
        group.siblings.len() + (if group.alias is Some {
            1int
        } else {
            0
        }) == group.events.len(),
        group.alias is Some <==> exists|i: int|
            0 <= i < group.events.len() && (#[trigger] group.events[i]).event_type
                == group.attr.kind && group.events[i].config == group.attr.config,
        forall|i: int|
            0 <= i < group.events.len() ==> #[trigger] has_id(group, group.events[i].name@),
        forall|i: int|
            0 <= i < group.events.len() && (#[trigger] group.events[i]).event_type
                == group.attr.kind && group.events[i].config == group.attr.config && (forall|j: int|
                0 <= j < i ==> (#[trigger] group.events[j]).event_type != group.attr.kind
                    || group.events[j].config != group.attr.config) ==> (group.alias->0).1
                == group.events[i].name@,
{
    assert(group.events.take(group.done) =~= group.events);
    lemma_first_with(group.events, group.encoding());
    let others = events_with_sibling(group.events, group.encoding());
    let first = first_with(group.events, group.encoding());
    assert(names_of(others).len() == sibling_names(group.siblings).len());
    assert forall|i: int| 0 <= i < group.events.len() implies #[trigger] has_id(
        group,
        group.events[i].name@,
    ) by {
        if i != first {
            let k = if first < i {
                i - 1
            } else {
                i
            };
            assert(others[k] == group.events[i]);
            assert(names_of(others)[k] == group.events[i].name@);
            assert(sibling_names(group.siblings)[k] == group.siblings[k].2);
        }
    }
    if group.alias is Some {
        assert(has_encoding(group.events[first], group.encoding()));
    }
    assert forall|i: int|
        0 <= i < group.events.len() && (#[trigger] group.events[i]).event_type == group.attr.kind
            && group.events[i].config == group.attr.config && (forall|j: int|
            0 <= j < i ==> (#[trigger] group.events[j]).event_type != group.attr.kind
                || group.events[j].config != group.attr.config) implies (group.alias->0).1
        == group.events[i].name@ by {
        assert(has_encoding(group.events[i], group.encoding()));
        if first < i {
            assert(group.events[first].event_type != group.attr.kind
                || group.events[first].config != group.attr.config);
        }
    }
}

/// Whether there is an id under the name, that of the leader or that of a sibling.
pub open spec fn has_id(group: Group, name: Seq<char>) -> bool {
    ||| group.alias is Some && (group.alias->0).1 == name
    ||| exists|k: int| 0 <= k < group.siblings.len() && (#[trigger] group.siblings[k]).2 == name
}

/// Each extra event in turn is either counted by the leader, if it is the first that has the
/// type and configuration of the leader, or is opened as a sibling of its own type and
/// configuration. The group is complete when all have been seen to.
pub proof fn siblings_are_opened_for_their_events(group: Group)
    requires
        group.well_formed(),
    ensures
        group.opened matches Some(fd) ==> group.next_step() == OpenStep::ReadSiblingId(fd),
        group.opened is None && group.done == group.events.len() <==> group.next_step() is Finish,
        group.opened is None && group.done < group.events.len() ==> {
            let event = group.events[group.done];
            let alike = event.event_type == group.attr.kind && event.config == group.attr.config;
            &&& alike && group.alias is None ==> group.next_step() is ReadLeaderId
            &&& !alike || group.alias is Some ==> group.next_step() is OpenSibling
            &&& group.next_step() matches OpenStep::OpenSibling(attr) ==> attr.kind
                == event.event_type && attr.config == event.config && attr.read_format
                == group.attr.read_format && attr.sample_type == 0
        },
{
}

/// An id is kept under the name of the event that it was read for: that of the leader for the
/// event that the leader counts, and that of a sibling together with its file descriptor.
pub proof fn ids_are_kept_under_the_names_of_their_events(group: Group, id: u64, fd: i32)
    requires
        group.well_formed(),
    ensures
        group.next_step() is ReadLeaderId ==> {
            let after = group.with_leader_id(id);
            &&& after.alias == Some((id, group.events[group.done].name@))
            &&& after.siblings == group.siblings
            &&& after.done == group.done + 1
        },
        group.next_step() is OpenSibling ==> {
            let after = group.with_open_sibling(fd).with_sibling_id(id);
            &&& after.siblings == group.siblings.push((fd, id, group.events[group.done].name@))
            &&& after.alias == group.alias
            &&& after.done == group.done + 1
            &&& after.opened is None
        },
{
}

/// What is closed on a roll-back is the leader, all siblings, and the sibling that was opened
/// last, and nothing else.
pub proof fn all_that_is_open_is_closed_on_roll_back(group: Group, fd: i32)
    ensures
        group.open_fds().contains(fd) <==> fd == group.leader || group.opened == Some(fd)
            || exists|k: int| 0 <= k < group.siblings.len() && (#[trigger] group.siblings[k]).0 == fd,
        group.open_fds().len() == group.siblings.len() + 1 + (if group.opened is Some {
            1int
        } else {
            0
        }),
{
    let fds = group.open_fds();
    let n = if group.opened is Some {
        1int
    } else {
        0
    };
    assert(fds[fds.len() - 1] == group.leader);
    if group.opened is Some {
        assert(fds[0] == group.opened->0);
    }
    if exists|k: int| 0 <= k < group.siblings.len() && (#[trigger] group.siblings[k]).0 == fd {
        let k = choose|k: int| 0 <= k < group.siblings.len() && (#[trigger] group.siblings[k]).0 == fd;
        assert(fds[n + k] == fd);
    }
    if fds.contains(fd) {
        let i = choose|i: int| 0 <= i < fds.len() && fds[i] == fd;
        if n <= i < fds.len() - 1 {
            assert(group.siblings[i - n].0 == fd);
        }
    }
}

/// Nothing is lost that would have to be closed: opening a sibling adds its file descriptor
/// to those that are open, and reading an id changes nothing about them.
pub proof fn what_was_opened_is_closed_on_roll_back(group: Group, fd: i32, id: u64)
    requires
        group.well_formed(),
    ensures
        group.next_step() is OpenSibling ==> group.with_open_sibling(fd).open_fds().to_multiset()
            == group.open_fds().to_multiset().insert(fd),
        group.next_step() is ReadSiblingId ==> group.with_sibling_id(id).open_fds().to_multiset()
            == group.open_fds().to_multiset(),
        group.next_step() is ReadLeaderId ==> group.with_leader_id(id).open_fds()
            == group.open_fds(),
{
    broadcast use vstd::seq_lib::group_to_multiset_ensures;

    let fds = group.siblings.map_values(|s: Sibling| s.0);
    if group.next_step() is OpenSibling {
        assert(group.open_fds() =~= fds.push(group.leader));
        vstd::seq_lib::lemma_multiset_commutative(seq![fd], fds.push(group.leader));
        assert(seq![fd].to_multiset() =~= vstd::multiset::Multiset::empty().insert(fd)) by {
            assert(seq![fd] =~= Seq::<i32>::empty().push(fd));
        }
    }
    if group.next_step() is ReadSiblingId {
        let f = group.opened->0;
        let after = group.with_sibling_id(id);
        assert(after.siblings.map_values(|s: Sibling| s.0) =~= fds.push(f));
        assert(after.open_fds() =~= fds.push(f).push(group.leader));
        vstd::seq_lib::lemma_multiset_commutative(seq![f], fds.push(group.leader));
        assert(seq![f].to_multiset() =~= vstd::multiset::Multiset::empty().insert(f)) by {
            assert(seq![f] =~= Seq::<i32>::empty().push(f));
        }
    }
}

} // verus!
