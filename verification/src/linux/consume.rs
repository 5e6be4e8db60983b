//! Reading the ring buffers of a group, round by round.

use crate::linux::group::{GroupState, MemberAction, PerfGroup};
use crate::linux::perf::Perf;
use vstd::prelude::*;

verus! {

/// What to do next.
#[derive(Clone, Copy, Debug, PartialEq, Eq, Structural)]
pub enum ConsumeStep {
    /// Begin the group of this member in the sorter, take out what is sorted, and see how far
    /// the kernel has written for the member.
    Visit(usize),
    /// Advance the round of the sorter, and take out what is sorted.
    Advance,
    /// No longer poll this file descriptor.
    Deregister(i32),
    /// See whether the sorter has more.
    Decide,
    /// All that can be had has been had.
    Done,
}

#[derive(Clone, Copy, Debug, PartialEq, Eq, Structural)]
enum Phase {
    Visiting(usize),
    Removing(usize),
    Done,
}

/// How far the reading of the ring buffers is.
#[derive(Debug)]
pub struct Consuming {
    phase: Phase,
    /// The members that are to be removed in this round.
    drained: Vec<i32>,
}

/// How far the reading of the ring buffers is.
#[verifier::ext_equal]
pub enum ConsumeState {
    /// The members up to `next` have been visited.
    Visiting { next: int, drained: Seq<i32> },
    /// The drained members up to `next` have been seen to.
    Removing { next: int, drained: Seq<i32> },
    Done,
}

impl View for Consuming {
    type V = ConsumeState;

    closed spec fn view(&self) -> ConsumeState {
        match self.phase {
            Phase::Visiting(i) => ConsumeState::Visiting { next: i as int, drained: self.drained@ },
            Phase::Removing(i) => ConsumeState::Removing { next: i as int, drained: self.drained@ },
            Phase::Done => ConsumeState::Done,
        }
    }
}

impl ConsumeState {
    /// At the start of a round.
    pub open spec fn start() -> ConsumeState {
        ConsumeState::Visiting { next: 0, drained: seq![] }
    }

    pub open spec fn well_formed(self) -> bool {
        match self {
            ConsumeState::Visiting { next, drained } => next >= 0,
            ConsumeState::Removing { next, drained } => 0 <= next <= drained.len(),
            _ => true,
        }
    }

    pub open spec fn next_step(self, group: GroupState) -> ConsumeStep {
        match self {
            ConsumeState::Visiting { next, drained } => if next < group.members.len() {
                ConsumeStep::Visit(next as usize)
            } else {
                ConsumeStep::Advance
            },
            ConsumeState::Removing { next, drained } => if next < drained.len() {
                ConsumeStep::Deregister(drained[next])
            } else {
                ConsumeStep::Decide
            },
            ConsumeState::Done => ConsumeStep::Done,
        }
    }

    /// After a member was visited.
    pub open spec fn after_visit(self, fd: i32, action: MemberAction) -> ConsumeState {
        match self {
            ConsumeState::Visiting { next, drained } => ConsumeState::Visiting {
                next: next + 1,
                drained: if action == MemberAction::Remove {
                    drained.push(fd)
                } else {
                    drained
                },
            },
            _ => self,
        }
    }

    /// After the round of the sorter was advanced.
    pub open spec fn after_advance(self) -> ConsumeState {
        match self {
            ConsumeState::Visiting { next, drained } => ConsumeState::Removing { next: 0, drained },
            _ => self,
        }
    }

    /// After an attempt to no longer poll a member.
    pub open spec fn after_deregister(self) -> ConsumeState {
        match self {
            ConsumeState::Removing { next, drained } => ConsumeState::Removing {
                next: next + 1,
                drained,
            },
            _ => self,
        }
    }
}

impl Consuming {
    pub fn start() -> (res: Self)
        ensures
            res@.well_formed(),
            res@ == ConsumeState::start(),
    {
        let res = Consuming { phase: Phase::Visiting(0), drained: Vec::new() };
        assert(res@ =~= ConsumeState::start());
        res
    }

    pub fn step(&self, group: &PerfGroup) -> (res: ConsumeStep)
        requires
            self@.well_formed(),
        ensures
            res == self@.next_step(group@),
    {
        match self.phase {
            Phase::Visiting(i) => if i < group.len() {
                ConsumeStep::Visit(i)
            } else {
                ConsumeStep::Advance
            },
            Phase::Removing(i) => if i < self.drained.len() {
                ConsumeStep::Deregister(self.drained[i])
            } else {
                ConsumeStep::Decide
            },
            Phase::Done => ConsumeStep::Done,
        }
    }

    /// The member to visit has been seen: the kernel has written up to `head` for it. Returns
    /// what to do with it. A member that is to be removed stays until the end of the round.
    pub fn visited(&mut self, group: &PerfGroup, head: u64) -> (res: MemberAction)
        requires
            old(self)@.well_formed(),
            old(self)@.next_step(group@) is Visit,
        ensures
            final(self)@.well_formed(),
            ({
                let member = group@.members[old(self)@->Visiting_next];
                &&& res == member.action(head)
                &&& final(self)@ == old(self)@.after_visit(member.perf.fd, res)
            }),
    {
        if let Phase::Visiting(i) = self.phase {
            let action = group.member_action(i, head);
            let count: usize = group.len();
            assert(i < count);
            if action == MemberAction::Remove {
                self.drained.push(group.perf(i).fd());
            }
            self.phase = Phase::Visiting(i + 1);
            action
        } else {
            MemberAction::Skip
        }
    }

    /// The round of the sorter has been advanced.
    pub fn advanced(&mut self, group: &PerfGroup)
        requires
            old(self)@.well_formed(),
            old(self)@.next_step(group@) is Advance,
        ensures
            final(self)@.well_formed(),
            final(self)@ == old(self)@.after_advance(),
    {
        self.phase = Phase::Removing(0);
    }

    /// A drained member is no longer polled, or it still is because that failed. Only in the
    /// first case it leaves the group; the event is returned.
    pub fn deregistered(&mut self, group: &mut PerfGroup, succeeded: bool) -> (res: Option<
        Perf,
    >)
        requires
            old(self)@.well_formed(),
            old(group)@.well_formed(),
            old(self)@.next_step(old(group)@) is Deregister,
        ensures
            final(self)@.well_formed(),
            final(group)@.well_formed(),
            final(self)@ == old(self)@.after_deregister(),
            ({
                let fd = old(self)@.next_step(old(group)@)->Deregister_0;
                &&& final(group)@ == (if succeeded {
                    old(group)@.without(fd)
                } else {
                    old(group)@
                })
                &&& res is Some <==> succeeded && old(group)@.has(fd)
                &&& res matches Some(perf) ==> perf@.fd == fd && exists|i: int|
                    0 <= i < old(group)@.members.len() && (
                    #[trigger] old(group)@.members[i]).perf == perf@
            }),
    {
        if let Phase::Removing(i) = self.phase {
            let fd: i32 = self.drained[i];
            assert(i < self.drained.len());
            self.phase = Phase::Removing(i + 1);
            if succeeded {
                return group.remove(fd);
            }
        }
        None
    }

    /// The sorter has more, and so there is another round, or it has not.
    pub fn decided(&mut self, group: &PerfGroup, has_more: bool)
        requires
            old(self)@.well_formed(),
            old(self)@.next_step(group@) is Decide,
        ensures
            final(self)@.well_formed(),
            final(self)@ == (if has_more {
                ConsumeState::start()
            } else {
                ConsumeState::Done
            }),
    {
        if has_more {
            self.drained = Vec::new();
            self.phase = Phase::Visiting(0);
            assert(self@ =~= ConsumeState::start());
        } else {
            self.phase = Phase::Done;
        }
    }
}

/// Whether each of the file descriptors is that of a member that is closed.
pub open spec fn are_closed(fds: Seq<i32>, group: GroupState) -> bool {
    forall|k: int|
        0 <= k < fds.len() ==> exists|i: int|
            0 <= i < group.members.len() && group.members[i].perf.fd == #[trigger] fds[k]
                && (#[trigger] group.members[i]).is_closed
}

/// Only members that are closed, and of which nothing is left to be read, are ever removed: a
/// visit adds none but such a one to those that are.
pub proof fn only_closed_and_drained_members_are_removed(
    state: ConsumeState,
    group: GroupState,
    head: u64,
)
    requires
        state is Visiting,
        state.well_formed(),
        state->Visiting_next < group.members.len(),
        are_closed(state->Visiting_drained, group),
    ensures
        ({
            let member = group.members[state->Visiting_next];
            let after = state.after_visit(member.perf.fd, member.action(head));
            &&& after is Visiting
            &&& are_closed(after->Visiting_drained, group)
            &&& after->Visiting_drained != state->Visiting_drained ==> member.is_closed && head
                == member.perf.position
        }),
{
    let next = state->Visiting_next;
    let member = group.members[next];
    let drained = state->Visiting_drained;
    let after = state.after_visit(member.perf.fd, member.action(head))->Visiting_drained;
    assert forall|k: int| 0 <= k < after.len() implies exists|i: int|
        0 <= i < group.members.len() && group.members[i].perf.fd == #[trigger] after[k] && (
        #[trigger] group.members[i]).is_closed by {
        if k < drained.len() {
            assert(after[k] == drained[k]);
        } else {
            assert(group.members[next].perf.fd == after[k] && group.members[next].is_closed);
        }
    }
}

/// A round visits each member once, in their order, before anything is removed.
pub proof fn rounds_visit_every_member(state: ConsumeState, group: GroupState)
    requires
        state is Visiting,
        state.well_formed(),
        group.members.len() <= usize::MAX,
    ensures
        state.next_step(group) is Advance <==> state->Visiting_next >= group.members.len(),
        state.next_step(group) matches ConsumeStep::Visit(i) ==> i == state->Visiting_next,
{
}

/// Where the first `n` visits of a round lead, in which the kernel has written up to the given
/// heads.
pub open spec fn after_visits(group: GroupState, heads: Seq<u64>, n: int) -> ConsumeState
    decreases n,
{
    if n <= 0 {
        ConsumeState::start()
    } else {
        let member = group.members[n - 1];
        after_visits(group, heads, n - 1).after_visit(
            member.perf.fd,
            member.action(heads[n - 1]),
        )
    }
}

/// A round visits the members in their order. Those that are to be removed are just those that
/// are closed and of which everything was read, in their order and each once.
pub proof fn a_round_drains_what_is_closed_and_read(
    group: GroupState,
    heads: Seq<u64>,
    n: int,
    fd: i32,
)
    requires
        group.well_formed(),
        heads.len() == group.members.len() <= usize::MAX,
        0 <= n <= group.members.len(),
    ensures
        after_visits(group, heads, n) is Visiting,
        after_visits(group, heads, n)->Visiting_next == n,
        n < group.members.len() ==> after_visits(group, heads, n).next_step(group)
            == ConsumeStep::Visit(n as usize),
        n == group.members.len() ==> after_visits(group, heads, n).next_step(group)
            == ConsumeStep::Advance,
        after_visits(group, heads, n)->Visiting_drained.contains(fd) <==> exists|i: int|
            0 <= i < n && (#[trigger] group.members[i]).perf.fd == fd && group.members[i].is_closed
                && group.members[i].perf.position == heads[i],
        forall|j: int, k: int|
            0 <= j < k < after_visits(group, heads, n)->Visiting_drained.len() ==> after_visits(
                group,
                heads,
                n,
            )->Visiting_drained[j] < after_visits(group, heads, n)->Visiting_drained[k],
        forall|j: int|
            0 <= j < after_visits(group, heads, n)->Visiting_drained.len() && n
                < group.members.len() ==> #[trigger] after_visits(group, heads, n)->Visiting_drained[j]
                < group.members[n].perf.fd,
    decreases n,
{
    if n > 0 {
        a_round_drains_what_is_closed_and_read(group, heads, n - 1, fd);
        let before = after_visits(group, heads, n - 1)->Visiting_drained;
        let after = after_visits(group, heads, n)->Visiting_drained;
        let member = group.members[n - 1];
        if after.contains(fd) {
            let k = choose|k: int| 0 <= k < after.len() && after[k] == fd;
            if k < before.len() {
                assert(before[k] == fd);
            } else {
                assert(group.members[n - 1].perf.fd == fd);
            }
        }
        if before.contains(fd) {
            let k = choose|k: int| 0 <= k < before.len() && before[k] == fd;
            assert(after[k] == fd);
        }
        if member.perf.fd == fd && member.is_closed && member.perf.position == heads[n - 1] {
            assert(after[before.len() as int] == fd);
        }
        if exists|i: int|
            0 <= i < n && (#[trigger] group.members[i]).perf.fd == fd && group.members[i].is_closed
                && group.members[i].perf.position == heads[i] {
            let i = choose|i: int|
                0 <= i < n && (#[trigger] group.members[i]).perf.fd == fd
                    && group.members[i].is_closed && group.members[i].perf.position == heads[i];
            if i < n - 1 {
                assert(before.contains(fd));
            }
        }
        assert forall|j: int, k: int| 0 <= j < k < after.len() implies after[j] < after[k] by {
            if k < before.len() {
                assert(before[j] < before[k]);
            } else {
                assert(before[j] < group.members[n - 1].perf.fd);
            }
        }
        assert forall|j: int| 0 <= j < after.len() && n < group.members.len() implies
            #[trigger] after[j] < group.members[n].perf.fd by {
            assert(group.members[n - 1].perf.fd < group.members[n].perf.fd);
            if j < before.len() {
                assert(before[j] < group.members[n - 1].perf.fd);
            }
        }
    }
}

/// Once all members were visited, the drained ones are no longer polled, one after the other;
/// and when that is done it is seen whether there is another round.
pub proof fn drained_members_are_removed_in_turn(drained: Seq<i32>, k: int, group: GroupState)
    requires
        0 <= k <= drained.len(),
    ensures
        (ConsumeState::Visiting { next: group.members.len() as int, drained }).after_advance()
            == (ConsumeState::Removing { next: 0, drained }),
        k < drained.len() ==> (ConsumeState::Removing { next: k, drained }).next_step(group)
            == ConsumeStep::Deregister(drained[k]),
        k < drained.len() ==> (ConsumeState::Removing { next: k, drained }).after_deregister() == (
        ConsumeState::Removing { next: k + 1, drained }),
        k == drained.len() ==> (ConsumeState::Removing { next: k, drained }).next_step(group)
            == ConsumeStep::Decide,
        ConsumeState::Done.next_step(group) == ConsumeStep::Done,
        ConsumeState::start() == (ConsumeState::Visiting { next: 0, drained: Seq::empty() }),
{
}

} // verus!
