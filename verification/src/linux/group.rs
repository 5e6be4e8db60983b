//! The sampling events of one profiling session.

use crate::linux::builder::{clone_events, OpenError, PerfBuilder, PerfConfig};
use crate::linux::bytes::ByteOrder;
use crate::linux::extra_event::{EventSource, ExtraEvent};
use crate::linux::perf::{events_from, ids_view, is_stream, EventRef, Perf, PerfState};
use vstd::prelude::*;
use vstd::string::*;

verus! {

#[derive(Debug, Clone, Copy, PartialEq, Eq, Structural)]
pub enum AttachMode {
    AttachWithEnableOnExec,
    StopAttachEnableResume,
}

/// One sampling perf event with its ring buffer.
#[derive(Debug)]
struct Member {
    perf: Perf,
    is_closed: bool,
}

/// A member of a group as its users see it.
#[verifier::ext_equal]
pub struct MemberState {
    pub perf: PerfState,
    pub is_closed: bool,
}

impl MemberState {
    /// What to do with this member, for which the kernel has written up to `head`.
    pub open spec fn action(&self, head: u64) -> MemberAction {
        if head != self.perf.position {
            MemberAction::Read
        } else if self.is_closed {
            MemberAction::Remove
        } else {
            MemberAction::Skip
        }
    }
}

/// The perf events opened for one profiling session.
///
/// Despite the name, this is not a kernel event group: its members are
/// independent sampling events.
#[derive(Debug)]
pub struct PerfGroup {
    /// One sampling event per ring buffer, in the order of their fds.
    members: Vec<Member>,
    frequency: u32,
    stack_size: u32,
    regs_mask: u64,
    event_source: EventSource,
    extra_events: Vec<ExtraEvent>,
    /// When true, the extra-event group can't be opened with `inherit` on this
    /// kernel (pre-6.12), so events are opened per-CPU system-wide (no inherit)
    /// and samples must be filtered to [`Self::root_pids`] downstream.
    system_wide: bool,
    /// The pids `open_process` was asked to profile; the roots of the process
    /// trees whose samples we keep when running system-wide.
    root_pids: Vec<u32>,
}

/// A group as its users see it.
#[verifier::ext_equal]
pub struct GroupState {
    pub members: Seq<MemberState>,
    pub frequency: u32,
    pub stack_size: u32,
    pub regs_mask: u64,
    pub event_source: EventSource,
    pub extra_events: Seq<ExtraEvent>,
    pub system_wide: bool,
    pub root_pids: Seq<u32>,
}

impl Member {
    spec fn view(&self) -> MemberState {
        MemberState { perf: self.perf@, is_closed: self.is_closed }
    }
}

impl View for PerfGroup {
    type V = GroupState;

    closed spec fn view(&self) -> GroupState {
        GroupState {
            members: self.members@.map_values(|m: Member| m@),
            frequency: self.frequency,
            stack_size: self.stack_size,
            regs_mask: self.regs_mask,
            event_source: self.event_source,
            extra_events: self.extra_events@,
            system_wide: self.system_wide,
            root_pids: self.root_pids@,
        }
    }
}

/// The configurations of some builders.
pub open spec fn configs_view(builders: Seq<PerfBuilder>) -> Seq<PerfConfig> {
    builders.map_values(|b: PerfBuilder| b@)
}

/// From how many events on one of each thread follows it over all CPUs.
pub const TOO_MANY_EVENTS: usize = 1000;

/// The configurations of one event for the process on each of the CPUs.
pub open spec fn on_each_cpu(
    state: GroupState,
    pid: u32,
    attach_mode: AttachMode,
    cpus: Seq<u32>,
) -> Seq<PerfConfig> {
    cpus.map_values(|cpu: u32| state.event_for(pid, Some(cpu), attach_mode))
}

/// The configurations of one event for each of the threads, wherever it runs.
pub open spec fn of_each_thread(
    state: GroupState,
    threads: Seq<u32>,
    attach_mode: AttachMode,
) -> Seq<PerfConfig> {
    threads.map_values(|tid: u32| state.event_for(tid, None, attach_mode))
}

/// The configurations of one event for each of the threads on the CPU.
pub open spec fn of_each_thread_on(
    state: GroupState,
    threads: Seq<u32>,
    cpu: u32,
    attach_mode: AttachMode,
) -> Seq<PerfConfig> {
    threads.map_values(|tid: u32| state.event_for(tid, Some(cpu), attach_mode))
}

/// The configurations of one event for each of the threads on each of the CPUs.
pub open spec fn of_each_thread_on_each_cpu(
    state: GroupState,
    threads: Seq<u32>,
    cpus: Seq<u32>,
    attach_mode: AttachMode,
) -> Seq<PerfConfig>
    decreases cpus.len(),
{
    if cpus.len() == 0 {
        seq![]
    } else {
        of_each_thread_on_each_cpu(state, threads, cpus.drop_last(), attach_mode)
            + of_each_thread_on(state, threads, cpus.last(), attach_mode)
    }
}

impl GroupState {
    /// Each member has its own file descriptor, and they are in the order of these.
    pub open spec fn well_formed(&self) -> bool {
        forall|i: int, j: int|
            0 <= i < j < self.members.len() ==> self.members[i].perf.fd < self.members[j].perf.fd
    }

    /// Whether there is a member with the file descriptor.
    pub open spec fn has(&self, fd: i32) -> bool {
        exists|i: int| 0 <= i < self.members.len() && #[trigger] self.members[i].perf.fd == fd
    }

    /// The group without the member that has the file descriptor.
    pub open spec fn without(&self, fd: i32) -> GroupState {
        GroupState { members: without_member(self.members, fd), ..*self }
    }

    /// How an event for the process or thread is opened.
    pub open spec fn event_for(
        &self,
        pid: u32,
        cpu: Option<u32>,
        attach_mode: AttachMode,
    ) -> PerfConfig {
        PerfConfig {
            pid,
            all_processes: cpu is Some && self.system_wide,
            cpu,
            frequency: self.frequency as u64,
            stack_size: self.stack_size,
            reg_mask: self.regs_mask,
            event_source: self.event_source,
            extra_events: self.extra_events,
            inherit: cpu is Some && !self.system_wide,
            start_disabled: true,
            enable_on_exec: attach_mode == AttachMode::AttachWithEnableOnExec && !self.system_wide,
            exclude_kernel: true,
            gather_context_switches: true,
        }
    }

    /// The events that are opened for a process: one on each CPU, and unless they are
    /// system-wide, also for its other threads.
    pub open spec fn events_for_process(
        &self,
        pid: u32,
        attach_mode: AttachMode,
        cpus: Seq<u32>,
        threads: Seq<u32>,
    ) -> Seq<PerfConfig> {
        let first = on_each_cpu(*self, pid, attach_mode, cpus);
        if self.system_wide {
            first
        } else if cpus.len() * (threads.len() + 1) >= TOO_MANY_EVENTS {
            first + of_each_thread(*self, threads, attach_mode)
        } else {
            first + of_each_thread_on_each_cpu(*self, threads, cpus, attach_mode)
        }
    }

    /// The ids and names of the extra events of all members.
    pub open spec fn ids(&self) -> Seq<(u64, Seq<char>)> {
        ids_of_members(self.members)
    }
}

/// The ids and names of the extra events of the members.
pub open spec fn ids_of_members(members: Seq<MemberState>) -> Seq<(u64, Seq<char>)>
    decreases members.len(),
{
    if members.len() == 0 {
        seq![]
    } else {
        ids_of_members(members.drop_last()) + members.last().perf.ids()
    }
}

/// Ids and names, with the names as sequences of characters.
pub open spec fn named_ids_view(ids: Seq<(u64, String)>) -> Seq<(u64, Seq<char>)> {
    ids.map_values(|p: (u64, String)| (p.0, p.1@))
}

/// Whether the number of events for a process and its other threads on all CPUs fits into a
/// machine word.
pub open spec fn can_be_counted(cpus: Seq<u32>, threads: Seq<u32>) -> bool {
    &&& threads.len() < usize::MAX
    &&& cpus.len() * (threads.len() + 1) <= usize::MAX
}

impl PerfGroup {
    /// A group without members.
    ///
    /// Extra events ride along on each sample via PERF_SAMPLE_READ. On
    /// kernels that reject `inherit` + PERF_SAMPLE_READ (pre-6.12), fall
    /// back to per-CPU system-wide capture, which follows every thread on
    /// the CPU without `inherit`.
    pub fn new(
        frequency: u32,
        stack_size: u32,
        regs_mask: u64,
        event_source: EventSource,
        extra_events: Vec<ExtraEvent>,
        supports_inherited_sample_read: bool,
    ) -> (res: Self)
        ensures
            res@.well_formed(),
            res@ == (GroupState {
                members: seq![],
                frequency,
                stack_size,
                regs_mask,
                event_source,
                extra_events: extra_events@,
                system_wide: extra_events@.len() > 0 && !supports_inherited_sample_read,
                root_pids: seq![],
            }),
    {
        let system_wide = extra_events.len() > 0 && !supports_inherited_sample_read;
        let res = PerfGroup {
            members: Vec::new(),
            frequency,
            stack_size,
            regs_mask,
            event_source,
            extra_events,
            system_wide,
            root_pids: Vec::new(),
        };
        assert(res@.members =~= seq![]);
        assert(res@.root_pids =~= seq![]);
        res
    }

    /// Whether events are opened per-CPU system-wide (the pre-6.12 fallback);
    /// callers must then filter samples to [`Self::root_pids`].
    pub fn is_system_wide(&self) -> (res: bool)
        ensures
            res == self@.system_wide,
    {
        self.system_wide
    }

    /// The pids whose process trees this group is profiling.
    pub fn root_pids(&self) -> (res: &[u32])
        ensures
            res@ == self@.root_pids,
    {
        self.root_pids.as_slice()
    }

    pub fn is_empty(&self) -> (res: bool)
        ensures
            res == (self@.members.len() == 0),
    {
        self.members.len() == 0
    }

    fn event_for(&self, pid: u32, cpu: Option<u32>, attach_mode: AttachMode) -> (res: PerfBuilder)
        ensures
            res@ == self@.event_for(pid, cpu, attach_mode),
    {
        let builder = Perf::build().pid(pid).frequency(self.frequency as u64).sample_user_stack(
            self.stack_size,
        ).sample_user_regs(self.regs_mask).gather_context_switches().event_source(
            self.event_source,
        ).extra_events(clone_events(&self.extra_events)).start_disabled();
        let builder = if let Some(cpu) = cpu {
            let builder = builder.only_cpu(cpu);
            if self.system_wide {
                // System-wide on this CPU: captures every thread scheduled
                // here (including ones spawned later) without `inherit`,
                // which is what makes PERF_SAMPLE_READ legal pre-6.12.
                builder.all_pids()
            } else {
                builder.inherit_to_children()
            }
        } else {
            builder.any_cpu()
        };
        // ENABLE_ON_EXEC only fires for events attached to the task that
        // execs. System-wide events aren't, so they're enabled explicitly
        // by the caller instead.
        if attach_mode == AttachMode::AttachWithEnableOnExec && !self.system_wide {
            builder.enable_on_exec()
        } else {
            builder
        }
    }

    fn push_events_on_each_cpu(
        &self,
        out: &mut Vec<PerfBuilder>,
        pid: u32,
        attach_mode: AttachMode,
        cpus: &Vec<u32>,
    )
        ensures
            configs_view(final(out)@) == configs_view(old(out)@) + on_each_cpu(
                self@,
                pid,
                attach_mode,
                cpus@,
            ),
    {
        let ghost all = on_each_cpu(self@, pid, attach_mode, cpus@);
        let mut i: usize = 0;
        assert(configs_view(out@) =~= configs_view(old(out)@) + all.take(0));
        while i < cpus.len()
            invariant
                i <= cpus@.len(),
                all == on_each_cpu(self@, pid, attach_mode, cpus@),
                configs_view(out@) == configs_view(old(out)@) + all.take(i as int),
            decreases cpus@.len() - i,
        {
            let ghost before = out@;
            let builder = self.event_for(pid, Some(cpus[i]), attach_mode);
            out.push(builder);
            assert(configs_view(out@) =~= configs_view(before).push(builder@));
            assert(configs_view(old(out)@) + all.take(i + 1) =~= (configs_view(old(out)@)
                + all.take(i as int)).push(all[i as int]));
            i = i + 1;
        }
        assert(all.take(all.len() as int) =~= all);
    }

    fn push_events_of_each_thread(
        &self,
        out: &mut Vec<PerfBuilder>,
        threads: &Vec<u32>,
        cpu: Option<u32>,
        attach_mode: AttachMode,
    )
        ensures
            configs_view(final(out)@) == configs_view(old(out)@) + threads@.map_values(
                |tid: u32| self@.event_for(tid, cpu, attach_mode),
            ),
    {
        let ghost all = threads@.map_values(|tid: u32| self@.event_for(tid, cpu, attach_mode));
        let mut i: usize = 0;
        assert(configs_view(out@) =~= configs_view(old(out)@) + all.take(0));
        while i < threads.len()
            invariant
                i <= threads@.len(),
                all == threads@.map_values(|tid: u32| self@.event_for(tid, cpu, attach_mode)),
                configs_view(out@) == configs_view(old(out)@) + all.take(i as int),
            decreases threads@.len() - i,
        {
            let ghost before = out@;
            let builder = self.event_for(threads[i], cpu, attach_mode);
            out.push(builder);
            assert(configs_view(out@) =~= configs_view(before).push(builder@));
            assert(configs_view(old(out)@) + all.take(i + 1) =~= (configs_view(old(out)@)
                + all.take(i as int)).push(all[i as int]));
            i = i + 1;
        }
        assert(all.take(all.len() as int) =~= all);
    }

    /// The events to open for a process that was added, in this order, given the online CPUs
    /// and the other threads of the process.
    ///
    /// A per-CPU event only ever sees the CPU it was opened on, so we must
    /// open one for every CPU the target might be scheduled on. The target's
    /// cpuset can be disjoint from ours and unknowable at this point.
    /// Covering all online CPUs sidesteps that entirely.
    ///
    /// System-wide per-CPU events already cover every thread on every CPU,
    /// so the per-thread enrollment (which exists to attach to the
    /// already-running threads of the target pid) is only needed in the
    /// per-task + inherit mode.
    pub fn events_for_process(
        &self,
        pid: u32,
        attach_mode: AttachMode,
        cpus: &Vec<u32>,
        threads: &Vec<u32>,
    ) -> (res: Vec<PerfBuilder>)
        requires
            !self@.system_wide ==> can_be_counted(cpus@, threads@),
        ensures
            configs_view(res@) == self@.events_for_process(pid, attach_mode, cpus@, threads@),
    {
        let mut out: Vec<PerfBuilder> = Vec::new();
        self.push_events_on_each_cpu(&mut out, pid, attach_mode, cpus);
        let ghost first = on_each_cpu(self@, pid, attach_mode, cpus@);
        assert(configs_view(out@) =~= first);
        if self.system_wide {
            return out;
        }
        if cpus.len() * (threads.len() + 1) >= TOO_MANY_EVENTS {
            self.push_events_of_each_thread(&mut out, threads, None, attach_mode);
            return out;
        }
        let mut i: usize = 0;
        assert(cpus@.take(0) =~= seq![]);
        assert(configs_view(out@) =~= first + of_each_thread_on_each_cpu(
            self@,
            threads@,
            cpus@.take(0),
            attach_mode,
        ));
        while i < cpus.len()
            invariant
                i <= cpus@.len(),
                configs_view(out@) == first + of_each_thread_on_each_cpu(
                    self@,
                    threads@,
                    cpus@.take(i as int),
                    attach_mode,
                ),
            decreases cpus@.len() - i,
        {
            let ghost before = of_each_thread_on_each_cpu(
                self@,
                threads@,
                cpus@.take(i as int),
                attach_mode,
            );
            let ghost here = of_each_thread_on(self@, threads@, cpus@[i as int], attach_mode);
            self.push_events_of_each_thread(&mut out, threads, Some(cpus[i]), attach_mode);
            assert(cpus@.take(i + 1).drop_last() =~= cpus@.take(i as int));
            assert(first + (before + here) =~= (first + before) + here);
            i = i + 1;
        }
        assert(cpus@.take(cpus@.len() as int) =~= cpus@);
        out
    }
}

/// The members, which are in the order of their file descriptors, with one more in its
/// place, or in the place of the one that has its file descriptor.
pub open spec fn with_member(members: Seq<MemberState>, member: MemberState) -> Seq<MemberState>
    decreases members.len(),
{
    if members.len() == 0 || members.last().perf.fd < member.perf.fd {
        members.push(member)
    } else if members.last().perf.fd == member.perf.fd {
        members.drop_last().push(member)
    } else {
        with_member(members.drop_last(), member).push(members.last())
    }
}

/// The members but for the one with the file descriptor.
pub open spec fn without_member(members: Seq<MemberState>, fd: i32) -> Seq<MemberState>
    decreases members.len(),
{
    if members.len() == 0 {
        members
    } else if members.last().perf.fd == fd {
        members.drop_last()
    } else {
        without_member(members.drop_last(), fd).push(members.last())
    }
}

/// The members, of which the one with the file descriptor is marked as closed.
pub open spec fn with_closed(members: Seq<MemberState>, fd: i32) -> Seq<MemberState> {
    members.map_values(
        |m: MemberState|
            if m.perf.fd == fd {
                MemberState { is_closed: true, ..m }
            } else {
                m
            },
    )
}

proof fn lemma_with_member(members: Seq<MemberState>, member: MemberState, at: int)
    requires
        0 <= at <= members.len(),
        forall|i: int| at <= i < members.len() ==> (#[trigger] members[i]).perf.fd > member.perf.fd,
        at > 0 ==> members[at - 1].perf.fd <= member.perf.fd,
    ensures
        with_member(members, member) == (if at > 0 && members[at - 1].perf.fd == member.perf.fd {
            members.update(at - 1, member)
        } else {
            members.insert(at, member)
        }),
    decreases members.len(),
{
    if at < members.len() {
        lemma_with_member(members.drop_last(), member, at);
        if at > 0 {
            assert(members.drop_last().update(at - 1, member).push(members.last())
                =~= members.update(at - 1, member));
        }
        assert(members.drop_last().insert(at, member).push(members.last()) =~= members.insert(
            at,
            member,
        ));
    } else if at > 0 {
        assert(members.drop_last().push(member) =~= members.update(at - 1, member));
        assert(members.push(member) =~= members.insert(at, member));
    } else {
        assert(members.push(member) =~= members.insert(at, member));
    }
}

proof fn lemma_without_member(members: Seq<MemberState>, fd: i32, at: int)
    requires
        0 <= at < members.len(),
        members[at].perf.fd == fd,
        forall|i: int| at < i < members.len() ==> (#[trigger] members[i]).perf.fd != fd,
    ensures
        without_member(members, fd) == members.remove(at),
    decreases members.len(),
{
    if at < members.len() - 1 {
        lemma_without_member(members.drop_last(), fd, at);
        assert(members.drop_last().remove(at).push(members.last()) =~= members.remove(at));
    } else {
        assert(members.drop_last() =~= members.remove(at));
    }
}

proof fn lemma_without_stranger(members: Seq<MemberState>, fd: i32)
    requires
        forall|i: int| 0 <= i < members.len() ==> (#[trigger] members[i]).perf.fd != fd,
    ensures
        without_member(members, fd) == members,
    decreases members.len(),
{
    if members.len() > 0 {
        lemma_without_stranger(members.drop_last(), fd);
        assert(members.drop_last().push(members.last()) =~= members);
    }
}

/// What to do with a member whose ring buffer is to be read.
#[derive(Debug, Clone, Copy, PartialEq, Eq, Structural)]
pub enum MemberAction {
    /// There are events to be read.
    Read,
    /// There is nothing to be read, and there will not be.
    Remove,
    /// There is nothing to be read yet.
    Skip,
}

impl AttachMode {
    /// Whether the process is stopped until its events are enabled.
    pub fn stops_process(self) -> (res: bool)
        ensures
            res == (self == AttachMode::StopAttachEnableResume),
    {
        self == AttachMode::StopAttachEnableResume
    }
}

impl PerfGroup {
    /// A group for one process, and the events to open for it; `None` if the other threads
    /// of the process are not known.
    pub fn open(
        pid: u32,
        frequency: u32,
        stack_size: u32,
        event_source: EventSource,
        regs_mask: u64,
        attach_mode: AttachMode,
        extra_events: Vec<ExtraEvent>,
        supports_inherited_sample_read: bool,
        cpus: &Vec<u32>,
        threads: Option<&Vec<u32>>,
    ) -> (res: Option<(Self, Vec<PerfBuilder>)>)
        requires
            extra_events@.len() == 0 || supports_inherited_sample_read ==> (threads matches Some(
                tids,
            ) ==> can_be_counted(cpus@, tids@)),
        ensures
            ({
                let state = GroupState {
                    members: seq![],
                    frequency,
                    stack_size,
                    regs_mask,
                    event_source,
                    extra_events: extra_events@,
                    system_wide: extra_events@.len() > 0 && !supports_inherited_sample_read,
                    root_pids: seq![pid],
                };
                match threads {
                    Some(tids) => {
                        &&& res matches Some(opened)
                        &&& opened.0@.well_formed()
                        &&& opened.0@ == state
                        &&& configs_view(opened.1@) == state.events_for_process(
                            pid,
                            attach_mode,
                            cpus@,
                            tids@,
                        )
                    },
                    None => res is None,
                }
            }),
    {
        let mut group = PerfGroup::new(
            frequency,
            stack_size,
            regs_mask,
            event_source,
            extra_events,
            supports_inherited_sample_read,
        );
        match group.open_process(pid, attach_mode, cpus, threads) {
            Some(events) => {
                assert(group@.root_pids =~= seq![pid]);
                Some((group, events))
            },
            None => None,
        }
    }

    /// Adds a process to those that are profiled, and returns the events to open for it;
    /// `None` if its other threads are not known.
    pub fn open_process(
        &mut self,
        pid: u32,
        attach_mode: AttachMode,
        cpus: &Vec<u32>,
        threads: Option<&Vec<u32>>,
    ) -> (res: Option<Vec<PerfBuilder>>)
        requires
            !old(self)@.system_wide ==> (threads matches Some(tids) ==> can_be_counted(
                cpus@,
                tids@,
            )),
        ensures
            final(self)@ == (GroupState {
                root_pids: old(self)@.root_pids.push(pid),
                ..old(self)@
            }),
            match threads {
                Some(tids) => res matches Some(events) && configs_view(events@)
                    == final(self)@.events_for_process(pid, attach_mode, cpus@, tids@),
                None => res is None,
            },
    {
        self.root_pids.push(pid);
        match threads {
            Some(tids) => Some(self.events_for_process(pid, attach_mode, cpus, tids)),
            None => None,
        }
    }

    /// Adds an event that was opened.
    pub fn insert(&mut self, perf: Perf)
        requires
            old(self)@.well_formed(),
        ensures
            final(self)@.well_formed(),
            final(self)@ == (GroupState {
                members: with_member(
                    old(self)@.members,
                    MemberState { perf: perf@, is_closed: false },
                ),
                ..old(self)@
            }),
    {
        let fd: i32 = perf.fd();
        let member = Member { perf, is_closed: false };
        let mut at: usize = self.members.len();
        while at > 0 && self.members[at - 1].perf.fd() > fd
            invariant
                at <= self.members@.len(),
                forall|i: int| at <= i < self.members@.len() ==> self.members@[i].perf@.fd > fd,
            decreases at,
        {
            at = at - 1;
        }
        let ghost before = self@.members;
        proof {
            assert(forall|i: int|
                at <= i < before.len() ==> (#[trigger] before[i]) == self.members@[i]@);
            lemma_with_member(before, member@, at as int);
        }
        if at > 0 && self.members[at - 1].perf.fd() == fd {
            self.members.set(at - 1, member);
            assert(self@.members =~= before.update(at - 1, member@));
        } else {
            self.members.insert(at, member);
            assert(self@.members =~= before.insert(at as int, member@));
        }
    }

    fn index_of(&self, fd: i32) -> (res: Option<usize>)
        ensures
            match res {
                Some(i) => i < self@.members.len() && self@.members[i as int].perf.fd == fd,
                None => !self@.has(fd),
            },
    {
        let mut i: usize = 0;
        while i < self.members.len()
            invariant
                i <= self.members@.len(),
                forall|j: int| 0 <= j < i ==> (#[trigger] self@.members[j]).perf.fd != fd,
            decreases self.members@.len() - i,
        {
            assert(self@.members[i as int] == self.members@[i as int]@);
            if self.members[i].perf.fd() == fd {
                return Some(i);
            }
            i = i + 1;
        }
        None
    }

    /// Takes out the event with the file descriptor, if there is one.
    pub fn remove(&mut self, fd: i32) -> (res: Option<Perf>)
        requires
            old(self)@.well_formed(),
        ensures
            final(self)@.well_formed(),
            final(self)@ == old(self)@.without(fd),
            res is Some <==> old(self)@.has(fd),
            res matches Some(perf) ==> perf@.fd == fd && exists|i: int|
                0 <= i < old(self)@.members.len() && (#[trigger] old(self)@.members[i]).perf == perf@,
    {
        let ghost before = self@.members;
        match self.index_of(fd) {
            Some(i) => {
                proof {
                    lemma_without_member(before, fd, i as int);
                }
                let member = self.members.remove(i);
                assert(before[i as int] == member@);
                assert(self@.members =~= before.remove(i as int));
                Some(member.perf)
            },
            None => {
                proof {
                    lemma_without_stranger(before, fd);
                }
                None
            },
        }
    }

    /// Notes that the kernel will write nothing more for an event of the group.
    pub fn mark_closed(&mut self, fd: i32)
        requires
            old(self)@.well_formed(),
            old(self)@.has(fd),
        ensures
            final(self)@.well_formed(),
            final(self)@ == (GroupState {
                members: with_closed(old(self)@.members, fd),
                ..old(self)@
            }),
    {
        let ghost before = self@.members;
        if let Some(i) = self.index_of(fd) {
            let Member { perf, is_closed: _ } = self.members.remove(i);
            let member = Member { perf, is_closed: true };
            self.members.insert(i, member);
            assert(self@.members =~= with_closed(before, fd));
        }
    }

    /// The number of members.
    pub fn len(&self) -> (res: usize)
        ensures
            res == self@.members.len(),
    {
        self.members.len()
    }

    /// The event of a member.
    pub fn perf(&self, i: usize) -> (res: &Perf)
        requires
            i < self@.members.len(),
        ensures
            res@ == self@.members[i as int].perf,
    {
        &self.members[i].perf
    }

    /// What to do with a member, into whose ring buffer the kernel has written up to `head`.
    pub fn member_action(&self, i: usize, head: u64) -> (res: MemberAction)
        requires
            i < self@.members.len(),
        ensures
            res == self@.members[i as int].action(head),
    {
        if self.members[i].perf.are_events_pending(head) {
            MemberAction::Read
        } else if self.members[i].is_closed {
            MemberAction::Remove
        } else {
            MemberAction::Skip
        }
    }

    /// Whether an event of a member is to be read, where the kernel has written up to the
    /// given heads. If not, it is worth waiting for one.
    pub fn are_events_pending(&self, heads: &Vec<u64>) -> (res: bool)
        requires
            heads@.len() == self@.members.len(),
        ensures
            res == exists|i: int|
                0 <= i < heads@.len() && #[trigger] heads@[i] != self@.members[i].perf.position,
    {
        let mut i: usize = 0;
        while i < heads.len()
            invariant
                i <= heads@.len(),
                heads@.len() == self.members@.len(),
                forall|j: int|
                    0 <= j < i ==> #[trigger] heads@[j] == self@.members[j].perf.position,
            decreases heads@.len() - i,
        {
            assert(self@.members[i as int] == self.members@[i as int]@);
            if self.members[i].perf.are_events_pending(heads[i]) {
                assert(heads@[i as int] != self@.members[i as int].perf.position);
                return true;
            }
            i = i + 1;
        }
        false
    }

    /// The (kernel-assigned id, name) of every extra event, across all
    /// members. Each member's kernel event group has its own instances, so
    /// several ids share a name.
    pub fn extra_event_ids_and_names(&self) -> (res: Vec<(u64, String)>)
        ensures
            named_ids_view(res@) == self@.ids(),
    {
        let mut res: Vec<(u64, String)> = Vec::new();
        let ghost all = self@.members;
        let mut i: usize = 0;
        assert(named_ids_view(res@) =~= ids_of_members(all.take(0)));
        while i < self.members.len()
            invariant
                i <= self.members@.len(),
                all == self@.members,
                named_ids_view(res@) == ids_of_members(all.take(i as int)),
            decreases self.members@.len() - i,
        {
            let ids = self.members[i].perf.extra_event_ids();
            let ghost here = ids_view(ids@);
            let ghost before = named_ids_view(res@);
            let mut j: usize = 0;
            assert(before + here.take(0) =~= before);
            while j < ids.len()
                invariant
                    j <= ids@.len(),
                    here == ids_view(ids@),
                    named_ids_view(res@) == before + here.take(j as int),
                decreases ids@.len() - j,
            {
                let ghost old_res = res@;
                let (id, name) = ids[j];
                let named: (u64, String) = (id, name.to_owned());
                res.push(named);
                assert(named_ids_view(res@) =~= named_ids_view(old_res).push((id, name@)));
                assert(here[j as int] == (id, name@));
                assert(before + here.take(j + 1) =~= (before + here.take(j as int)).push(
                    here[j as int],
                ));
                j = j + 1;
            }
            assert(here.take(here.len() as int) =~= here);
            assert(all.take(i + 1).drop_last() =~= all.take(i as int));
            assert(all[i as int] == self.members@[i as int]@);
            i = i + 1;
        }
        assert(all.take(all.len() as int) =~= all);
        res
    }

    /// The events that the kernel has written up to `head` into the ring buffer of a member,
    /// each with its time; `None` if one of them has no time.
    pub fn read_events(
        &mut self,
        i: usize,
        head: u64,
        buffer: &[u8],
        order: ByteOrder,
    ) -> (res: Option<Vec<(u64, EventRef)>>)
        requires
            old(self)@.well_formed(),
            i < old(self)@.members.len(),
            is_stream(buffer@, old(self)@.members[i as int].perf.position, head, order),
            buffer@.len() <= usize::MAX - u16::MAX,
        ensures
            final(self)@.well_formed(),
            ({
                let member = old(self)@.members[i as int];
                let events = events_from(
                    buffer@,
                    member.perf.position,
                    head,
                    order,
                    member.perf.parse_info,
                );
                let position = if events is Some {
                    head
                } else {
                    final(self)@.members[i as int].perf.position
                };
                &&& final(self)@ == (GroupState {
                    members: old(self)@.members.update(
                        i as int,
                        MemberState { perf: PerfState { position, ..member.perf }, ..member },
                    ),
                    ..old(self)@
                })
                &&& match events {
                    Some(events) => res matches Some(v) && v@ == events,
                    None => res is None,
                }
            }),
    {
        let ghost before = self@.members;
        let Member { mut perf, is_closed } = self.members.remove(i);
        let events = perf.read_events(head, buffer, order);
        let member = Member { perf, is_closed };
        self.members.insert(i, member);
        assert(self@.members =~= before.update(i as int, member@));
        assert(member@.perf.fd == before[i as int].perf.fd);
        events
    }
}

/// Whether the event is opened as the group opens events: for some process or thread, and
/// on one of the CPUs unless it is not system-wide.
pub open spec fn is_event_of(
    config: PerfConfig,
    state: GroupState,
    attach_mode: AttachMode,
    cpus: Seq<u32>,
) -> bool {
    &&& config == state.event_for(config.pid, config.cpu, attach_mode)
    &&& config.cpu matches Some(cpu) ==> cpus.contains(cpu)
    &&& config.cpu is None ==> !state.system_wide
}

proof fn lemma_thread_events(
    state: GroupState,
    threads: Seq<u32>,
    cpus: Seq<u32>,
    attach_mode: AttachMode,
    all_cpus: Seq<u32>,
)
    requires
        forall|i: int| 0 <= i < cpus.len() ==> all_cpus.contains(#[trigger] cpus[i]),
    ensures
        of_each_thread_on_each_cpu(state, threads, cpus, attach_mode).len() == cpus.len()
            * threads.len(),
        forall|i: int|
            0 <= i < of_each_thread_on_each_cpu(state, threads, cpus, attach_mode).len()
                ==> is_event_of(
                #[trigger] of_each_thread_on_each_cpu(state, threads, cpus, attach_mode)[i],
                state,
                attach_mode,
                all_cpus,
            ),
    decreases cpus.len(),
{
    if cpus.len() > 0 {
        lemma_thread_events(state, threads, cpus.drop_last(), attach_mode, all_cpus);
        vstd::arithmetic::mul::lemma_mul_is_distributive_add_other_way(
            threads.len() as int,
            cpus.len() - 1,
            1,
        );
        assert(all_cpus.contains(cpus.last()));
    } else {
        vstd::arithmetic::mul::lemma_mul_basics(threads.len() as int);
    }
}

proof fn lemma_events_of(
    state: GroupState,
    pid: u32,
    attach_mode: AttachMode,
    cpus: Seq<u32>,
    threads: Seq<u32>,
)
    ensures
        forall|i: int|
            0 <= i < state.events_for_process(pid, attach_mode, cpus, threads).len()
                ==> is_event_of(
                #[trigger] state.events_for_process(pid, attach_mode, cpus, threads)[i],
                state,
                attach_mode,
                cpus,
            ),
{
    lemma_thread_events(state, threads, cpus, attach_mode, cpus);
    let events = state.events_for_process(pid, attach_mode, cpus, threads);
    let first = on_each_cpu(state, pid, attach_mode, cpus);
    assert forall|i: int| 0 <= i < events.len() implies is_event_of(
        #[trigger] events[i],
        state,
        attach_mode,
        cpus,
    ) by {
        if i < first.len() {
            assert(cpus.contains(cpus[i]));
        }
    }
}

/// What the kernel would reject is never asked of it: no event inherits without a CPU, or
/// while it is system-wide, and a system-wide event has a CPU and does not wait for an
/// `exec`. Every event is opened disabled, and carries the extra events.
pub proof fn opened_events_are_compatible(
    state: GroupState,
    pid: u32,
    attach_mode: AttachMode,
    cpus: Seq<u32>,
    threads: Seq<u32>,
    i: int,
)
    requires
        0 <= i < state.events_for_process(pid, attach_mode, cpus, threads).len(),
        forall|j: int| 0 <= j < cpus.len() ==> #[trigger] cpus[j] <= i32::MAX,
    ensures
        ({
            let event = state.events_for_process(pid, attach_mode, cpus, threads)[i];
            &&& event.refusal(None) != Some(OpenError::InheritOnAllCpus)
            &&& event.all_processes == state.system_wide
            &&& event.all_processes ==> event.cpu is Some && !event.inherit && !event.enable_on_exec
            &&& event.start_disabled
            &&& event.extra_events == state.extra_events
        }),
{
    lemma_events_of(state, pid, attach_mode, cpus, threads);
    let event = state.events_for_process(pid, attach_mode, cpus, threads)[i];
    assert(is_event_of(event, state, attach_mode, cpus));
    if let Some(cpu) = event.cpu {
        let j = choose|j: int| 0 <= j < cpus.len() && cpus[j] == cpu;
        assert(cpus[j] <= i32::MAX);
    }
}

/// Every event that is opened for a process is as the session was configured: it has its event
/// source, frequency, stack size, registers and extra events. It is for the process or one of
/// its threads, on one of the CPUs or on all of them. It leaves the kernel out, reports
/// context switches and is opened disabled. It is system-wide if the session is; otherwise it
/// is inherited if it has a CPU, and waits for an `exec` if that is how processes are attached.
pub proof fn events_are_as_the_session_was_configured(
    state: GroupState,
    pid: u32,
    attach_mode: AttachMode,
    cpus: Seq<u32>,
    threads: Seq<u32>,
    i: int,
)
    requires
        0 <= i < state.events_for_process(pid, attach_mode, cpus, threads).len(),
    ensures
        ({
            let event = state.events_for_process(pid, attach_mode, cpus, threads)[i];
            &&& event.event_source == state.event_source
            &&& event.frequency == state.frequency
            &&& event.stack_size == state.stack_size
            &&& event.reg_mask == state.regs_mask
            &&& event.extra_events == state.extra_events
            &&& event.pid == pid || threads.contains(event.pid)
            &&& event.cpu matches Some(cpu) ==> cpus.contains(cpu)
            &&& event.exclude_kernel && event.gather_context_switches && event.start_disabled
            &&& event.all_processes == state.system_wide
            &&& event.inherit == (event.cpu is Some && !state.system_wide)
            &&& event.enable_on_exec == (attach_mode == AttachMode::AttachWithEnableOnExec
                && !state.system_wide)
        }),
{
    lemma_events_of(state, pid, attach_mode, cpus, threads);
    let events = state.events_for_process(pid, attach_mode, cpus, threads);
    let first = on_each_cpu(state, pid, attach_mode, cpus);
    assert(is_event_of(events[i], state, attach_mode, cpus));
    if i >= first.len() {
        if cpus.len() * (threads.len() + 1) >= TOO_MANY_EVENTS {
            assert(events[i].pid == threads[i - first.len()]);
        } else {
            lemma_threads_of(state, threads, cpus, attach_mode, i - first.len());
        }
    }
}

proof fn lemma_threads_of(
    state: GroupState,
    threads: Seq<u32>,
    cpus: Seq<u32>,
    attach_mode: AttachMode,
    i: int,
)
    requires
        0 <= i < of_each_thread_on_each_cpu(state, threads, cpus, attach_mode).len(),
    ensures
        threads.contains(of_each_thread_on_each_cpu(state, threads, cpus, attach_mode)[i].pid),
    decreases cpus.len(),
{
    if cpus.len() > 0 {
        let before = of_each_thread_on_each_cpu(state, threads, cpus.drop_last(), attach_mode);
        if i < before.len() {
            lemma_threads_of(state, threads, cpus.drop_last(), attach_mode, i);
        } else {
            assert(of_each_thread_on_each_cpu(state, threads, cpus, attach_mode)[i].pid
                == threads[i - before.len()]);
        }
    }
}

/// Whichever CPU the process runs on, there is an event for it there.
pub proof fn every_cpu_is_covered(
    state: GroupState,
    pid: u32,
    attach_mode: AttachMode,
    cpus: Seq<u32>,
    threads: Seq<u32>,
    cpu: u32,
)
    requires
        cpus.contains(cpu),
    ensures
        state.events_for_process(pid, attach_mode, cpus, threads).contains(
            state.event_for(pid, Some(cpu), attach_mode),
        ),
        watches(
            state.events_for_process(pid, attach_mode, cpus, threads),
            pid,
            Some(cpu),
        ),
{
    let i = choose|i: int| 0 <= i < cpus.len() && cpus[i] == cpu;
    let events = state.events_for_process(pid, attach_mode, cpus, threads);
    assert(events[i] == state.event_for(pid, Some(cpu), attach_mode));
}

/// Whether one of the events is for the process or thread, on the CPU or on all of them.
pub open spec fn watches(events: Seq<PerfConfig>, pid: u32, cpu: Option<u32>) -> bool {
    exists|i: int|
        0 <= i < events.len() && (#[trigger] events[i]).pid == pid && events[i].cpu == cpu
}

proof fn lemma_thread_on_cpu(
    state: GroupState,
    threads: Seq<u32>,
    cpus: Seq<u32>,
    attach_mode: AttachMode,
    t: int,
    c: int,
)
    requires
        0 <= t < threads.len(),
        0 <= c < cpus.len(),
    ensures
        of_each_thread_on_each_cpu(state, threads, cpus, attach_mode).contains(
            state.event_for(threads[t], Some(cpus[c]), attach_mode),
        ),
    decreases cpus.len(),
{
    let all = of_each_thread_on_each_cpu(state, threads, cpus, attach_mode);
    let before = of_each_thread_on_each_cpu(state, threads, cpus.drop_last(), attach_mode);
    let event = state.event_for(threads[t], Some(cpus[c]), attach_mode);
    if c < cpus.len() - 1 {
        lemma_thread_on_cpu(state, threads, cpus.drop_last(), attach_mode, t, c);
        let i = choose|i: int| 0 <= i < before.len() && before[i] == event;
        assert(all[i] == event);
    } else {
        assert(all[before.len() + t] == event);
    }
}

/// Each of the other threads of the process has an event on every CPU, or one that follows it
/// over all of them. (System-wide events see the threads in any case.)
pub proof fn every_thread_is_covered(
    state: GroupState,
    pid: u32,
    attach_mode: AttachMode,
    cpus: Seq<u32>,
    threads: Seq<u32>,
    tid: u32,
    cpu: u32,
)
    requires
        !state.system_wide,
        threads.contains(tid),
        cpus.contains(cpu),
    ensures
        state.events_for_process(pid, attach_mode, cpus, threads).contains(
            state.event_for(tid, Some(cpu), attach_mode),
        ) || state.events_for_process(pid, attach_mode, cpus, threads).contains(
            state.event_for(tid, None, attach_mode),
        ),
        watches(
            state.events_for_process(pid, attach_mode, cpus, threads),
            tid,
            if cpus.len() * (threads.len() + 1) >= 1000 {
                None
            } else {
                Some(cpu)
            },
        ),
{
    let t = choose|t: int| 0 <= t < threads.len() && threads[t] == tid;
    let c = choose|c: int| 0 <= c < cpus.len() && cpus[c] == cpu;
    let events = state.events_for_process(pid, attach_mode, cpus, threads);
    let first = on_each_cpu(state, pid, attach_mode, cpus);
    if cpus.len() * (threads.len() + 1) >= TOO_MANY_EVENTS {
        assert(events[first.len() + t] == state.event_for(tid, None, attach_mode));
    } else {
        lemma_thread_on_cpu(state, threads, cpus, attach_mode, t, c);
        let more = of_each_thread_on_each_cpu(state, threads, cpus, attach_mode);
        let event = state.event_for(tid, Some(cpu), attach_mode);
        let i = choose|i: int| 0 <= i < more.len() && more[i] == event;
        assert(events[first.len() + i] == event);
    }
}

/// The number of events stays below the limit, or is no more than one for each CPU and one
/// for each thread.
pub proof fn the_number_of_events_is_limited(
    state: GroupState,
    pid: u32,
    attach_mode: AttachMode,
    cpus: Seq<u32>,
    threads: Seq<u32>,
)
    ensures
        ({
            let n = state.events_for_process(pid, attach_mode, cpus, threads).len();
            n < TOO_MANY_EVENTS || n <= cpus.len() + threads.len()
        }),
        state.events_for_process(pid, attach_mode, cpus, threads).len() == (if state.system_wide {
            cpus.len()
        } else if cpus.len() * (threads.len() + 1) >= 1000 {
            cpus.len() + threads.len()
        } else {
            cpus.len() * (threads.len() + 1)
        }),
{
    lemma_thread_events(state, threads, cpus, attach_mode, cpus);
    vstd::arithmetic::mul::lemma_mul_is_distributive_add(
        cpus.len() as int,
        threads.len() as int,
        1,
    );
}

/// An event that was added is there; one that was taken out is not, and the others stay.
pub proof fn members_come_and_go(state: GroupState, member: MemberState, fd: i32)
    requires
        state.well_formed(),
    ensures
        (GroupState { members: with_member(state.members, member), ..state }).has(member.perf.fd),
        !state.without(fd).has(fd),
        fd != member.perf.fd ==> ((GroupState {
            members: with_member(state.members, member),
            ..state
        }).has(fd) <==> state.has(fd)),
        fd != member.perf.fd ==> (state.without(member.perf.fd).has(fd) <==> state.has(fd)),
{
    lemma_with_has(state.members, member, fd);
    lemma_without_has(state.members, fd, fd);
    lemma_without_has(state.members, member.perf.fd, fd);
}

/// An event that is added is there as it was given, unclosed or not, in the place of one with
/// its file descriptor, and all others stay as they are; taking one out leaves all others as
/// they are; and closing one changes nothing but that it is closed.
pub proof fn members_stay_as_they_are(
    state: GroupState,
    member: MemberState,
    other: MemberState,
    fd: i32,
)
    requires
        state.well_formed(),
    ensures
        with_member(state.members, member).contains(member),
        other.perf.fd != member.perf.fd ==> (with_member(state.members, member).contains(other)
            <==> state.members.contains(other)),
        other.perf.fd == member.perf.fd && other != member ==> !with_member(
            state.members,
            member,
        ).contains(other),
        state.without(fd).members.contains(other) <==> state.members.contains(other)
            && other.perf.fd != fd,
        with_closed(state.members, fd).len() == state.members.len(),
        forall|i: int|
            0 <= i < state.members.len() ==> (#[trigger] with_closed(state.members, fd)[i]).perf
                == state.members[i].perf && with_closed(state.members, fd)[i].is_closed == (
            state.members[i].is_closed || state.members[i].perf.fd == fd),
{
    lemma_with_contains(state.members, member, other);
    lemma_without_contains(state.members, fd, other);
}

proof fn lemma_push_contains(members: Seq<MemberState>, member: MemberState, other: MemberState)
    ensures
        members.push(member).contains(other) <==> members.contains(other) || other == member,
{
    let all = members.push(member);
    if members.contains(other) {
        let i = choose|i: int| 0 <= i < members.len() && members[i] == other;
        assert(all[i] == other);
    }
    assert(all[members.len() as int] == member);
    if all.contains(other) {
        let i = choose|i: int| 0 <= i < all.len() && all[i] == other;
        if i < members.len() {
            assert(members[i] == other);
        }
    }
}

proof fn lemma_with_contains(members: Seq<MemberState>, member: MemberState, other: MemberState)
    requires
        forall|i: int, j: int|
            0 <= i < j < members.len() ==> members[i].perf.fd < members[j].perf.fd,
    ensures
        with_member(members, member).contains(member),
        other.perf.fd != member.perf.fd ==> (with_member(members, member).contains(other)
            <==> members.contains(other)),
        other.perf.fd == member.perf.fd && other != member ==> !with_member(
            members,
            member,
        ).contains(other),
    decreases members.len(),
{
    lemma_push_contains(members, member, other);
    lemma_push_contains(members, member, member);
    if members.contains(other) {
        let i = choose|i: int| 0 <= i < members.len() && members[i] == other;
        assert(members[i].perf.fd <= members.last().perf.fd);
    }
    if members.len() > 0 {
        let front = members.drop_last();
        assert(front.push(members.last()) =~= members);
        if front.contains(other) {
            let i = choose|i: int| 0 <= i < front.len() && front[i] == other;
            assert(members[i].perf.fd < members.last().perf.fd);
        }
        lemma_push_contains(front, members.last(), other);
        lemma_push_contains(front, member, other);
        lemma_push_contains(front, member, member);
        lemma_with_contains(front, member, other);
        lemma_push_contains(with_member(front, member), members.last(), other);
        lemma_push_contains(with_member(front, member), members.last(), member);
    }
}

proof fn lemma_without_contains(members: Seq<MemberState>, gone: i32, other: MemberState)
    requires
        forall|i: int, j: int|
            0 <= i < j < members.len() ==> members[i].perf.fd < members[j].perf.fd,
    ensures
        without_member(members, gone).contains(other) <==> members.contains(other)
            && other.perf.fd != gone,
    decreases members.len(),
{
    if members.len() > 0 {
        let front = members.drop_last();
        assert(front.push(members.last()) =~= members);
        if front.contains(other) {
            let i = choose|i: int| 0 <= i < front.len() && front[i] == other;
            assert(members[i].perf.fd < members.last().perf.fd);
        }
        lemma_push_contains(front, members.last(), other);
        lemma_without_contains(front, gone, other);
        lemma_push_contains(without_member(front, gone), members.last(), other);
    }
}

/// A member is read as long as the kernel has written more than was read. Otherwise it is
/// removed if it is closed, and skipped if it is not.
pub proof fn members_are_read_to_the_end(member: MemberState, head: u64)
    ensures
        member.action(head) == MemberAction::Read <==> head != member.perf.position,
        member.action(head) == MemberAction::Remove <==> head == member.perf.position
            && member.is_closed,
        member.action(head) == MemberAction::Skip <==> head == member.perf.position
            && !member.is_closed,
{
}

/// The ids of a group are those of its members, one member after the other: of each it has the
/// id under which the leader counts an extra event, if it does, and those of the siblings.
pub proof fn ids_are_those_of_all_members(members: Seq<MemberState>, i: int, k: int)
    requires
        0 <= i < members.len(),
    ensures
        members[i].perf.alias matches Some(alias) ==> ids_of_members(members).contains(alias),
        0 <= k < members[i].perf.siblings.len() ==> ids_of_members(members).contains(
            (members[i].perf.siblings[k].1, members[i].perf.siblings[k].2),
        ),
        ids_of_members(members).len() == ids_of_members(members.take(i)).len()
            + members[i].perf.siblings.len() + (if members[i].perf.alias is Some {
            1int
        } else {
            0
        }) + ids_of_members(members.skip(i + 1)).len(),
{
    lemma_ids_of(members, i);
    let ids = members[i].perf.ids();
    let n = ids_of_members(members.take(i)).len();
    let all = ids_of_members(members);
    if let Some(alias) = members[i].perf.alias {
        assert(ids[0] == alias);
        assert(all[n as int] == alias);
    }
    if 0 <= k < members[i].perf.siblings.len() {
        let id = (members[i].perf.siblings[k].1, members[i].perf.siblings[k].2);
        let at = ids.len() - members[i].perf.siblings.len() + k;
        assert(ids[at] == id);
        assert(all[n + at] == id);
    }
}

proof fn lemma_ids_of(members: Seq<MemberState>, i: int)
    requires
        0 <= i < members.len(),
    ensures
        ids_of_members(members) == ids_of_members(members.take(i)) + members[i].perf.ids()
            + ids_of_members(members.skip(i + 1)),
    decreases members.len(),
{
    if i == members.len() - 1 {
        assert(members.take(i) =~= members.drop_last());
        assert(members.skip(i + 1) =~= seq![]);
        assert(ids_of_members(members) =~= ids_of_members(members.take(i)) + members[i].perf.ids()
            + ids_of_members(members.skip(i + 1)));
    } else {
        let front = members.drop_last();
        lemma_ids_of(front, i);
        assert(front.take(i) =~= members.take(i));
        assert(front.skip(i + 1) =~= members.skip(i + 1).drop_last());
        assert(members.skip(i + 1).last() == members.last());
        assert(ids_of_members(members) =~= ids_of_members(members.take(i)) + members[i].perf.ids()
            + ids_of_members(members.skip(i + 1)));
    }
}

spec fn among(members: Seq<MemberState>, fd: i32) -> bool {
    exists|i: int| 0 <= i < members.len() && (#[trigger] members[i]).perf.fd == fd
}

proof fn lemma_among_push(members: Seq<MemberState>, member: MemberState, fd: i32)
    ensures
        among(members.push(member), fd) <==> among(members, fd) || member.perf.fd == fd,
{
    let all = members.push(member);
    if among(members, fd) {
        let i = choose|i: int| 0 <= i < members.len() && (#[trigger] members[i]).perf.fd == fd;
        assert(all[i].perf.fd == fd);
    }
    assert(all[members.len() as int] == member);
    if among(all, fd) {
        let i = choose|i: int| 0 <= i < all.len() && (#[trigger] all[i]).perf.fd == fd;
        if i < members.len() {
            assert(members[i].perf.fd == fd);
        }
    }
}

proof fn lemma_with_has(members: Seq<MemberState>, member: MemberState, fd: i32)
    ensures
        among(with_member(members, member), member.perf.fd),
        fd != member.perf.fd ==> (among(with_member(members, member), fd) <==> among(members, fd)),
    decreases members.len(),
{
    lemma_among_push(members, member, fd);
    lemma_among_push(members, member, member.perf.fd);
    if members.len() > 0 {
        let front = members.drop_last();
        assert(front.push(members.last()) =~= members);
        lemma_among_push(front, members.last(), fd);
        lemma_among_push(front, member, fd);
        lemma_among_push(front, member, member.perf.fd);
        lemma_with_has(front, member, fd);
        lemma_among_push(with_member(front, member), members.last(), fd);
        lemma_among_push(with_member(front, member), members.last(), member.perf.fd);
    }
}

proof fn lemma_without_has(members: Seq<MemberState>, gone: i32, fd: i32)
    requires
        forall|i: int, j: int|
            0 <= i < j < members.len() ==> members[i].perf.fd < members[j].perf.fd,
    ensures
        !among(without_member(members, gone), gone),
        fd != gone ==> (among(without_member(members, gone), fd) <==> among(members, fd)),
    decreases members.len(),
{
    if members.len() > 0 {
        let front = members.drop_last();
        assert(front.push(members.last()) =~= members);
        lemma_among_push(front, members.last(), fd);
        lemma_without_has(front, gone, fd);
        lemma_among_push(without_member(front, gone), members.last(), fd);
        lemma_among_push(without_member(front, gone), members.last(), gone);
        if members.last().perf.fd == gone {
            assert(forall|i: int| 0 <= i < front.len() ==> (#[trigger] front[i]).perf.fd < gone);
        }
    }
}

} // verus!
