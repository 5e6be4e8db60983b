//! Launch-mode descendant watcher.
//!
//! samply normally profiles a launched tree by injecting `DYLD_INSERT_LIBRARIES`
//! so each descendant loads `samply-mac-preload` and volunteers its mach task
//! port over IPC. That breaks the moment the tree crosses a process that strips
//! `DYLD_*` — most importantly `/usr/bin/env`, an Apple *platform binary*. A
//! command like `samply record -- pnpm …` resolves through `#!/usr/bin/env node`,
//! so the very first exec drops the preload and nothing below it ever connects.
//! samply then has no task at all and aborts with "Could not obtain the root
//! task", discarding a perfectly good run.
//!
//! This watcher is the fallback: it polls the descendant tree of the launched
//! root pid and, for every process it is allowed to inspect, grabs the task port
//! directly with `task_for_pid` and hands it to the sampler — no preload needed.
//! Node (and locally-built binaries) ship `get-task-allow`, so they become
//! profilable this way even though they never loaded the preload. It requires
//! samply itself to hold the `com.apple.security.cs.debugger` entitlement (run
//! `samply setup`); without it `task_for_pid` fails and the watcher simply
//! attaches nothing.

use crate::text::{chars_of, decimal_u64, parse_decimal_u64};
use std::collections::HashSet;
use vstd::prelude::*;

verus! {

broadcast use vstd::std_specs::hash::group_hash_axioms;

/// The time between two polls in milliseconds, where `value` is that of the environment
/// variable `SAMPLY_DESCENDANT_POLL_MS`, if it is set.
pub fn poll_interval_ms(value: Option<&str>, default: u64) -> (res: u64)
    ensures
        res == (match value {
            Some(text) => match decimal_u64(text@) {
                Some(ms) => ms,
                None => default,
            },
            None => default,
        }),
{
    match value {
        Some(text) => match parse_decimal_u64(chars_of(text).as_slice()) {
            Some(ms) => ms,
            None => default,
        },
        None => default,
    }
}

/// The pids that a task has been registered for. The ways to reach a process all consult
/// this to avoid registering the same pid twice.
#[derive(Debug)]
pub struct SeenPids {
    pids: HashSet<u32>,
}

impl View for SeenPids {
    type V = Set<u32>;

    closed spec fn view(&self) -> Set<u32> {
        self.pids@
    }
}

/// Whether nobody has claimed the pid.
pub open spec fn can_claim(seen: Set<u32>, pid: u32) -> bool {
    !seen.contains(pid)
}

impl SeenPids {
    pub fn new() -> (res: Self)
        ensures
            res@ == Set::<u32>::empty(),
    {
        SeenPids { pids: HashSet::new() }
    }

    /// Claims the pid. Returns whether nobody else has it.
    pub fn claim(&mut self, pid: u32) -> (res: bool)
        ensures
            final(self)@ == old(self)@.insert(pid),
            res == can_claim(old(self)@, pid),
    {
        self.pids.insert(pid)
    }

    /// Rolls a claim back: another path might still reach this pid.
    pub fn release(&mut self, pid: u32)
        ensures
            final(self)@ == old(self)@.remove(pid),
    {
        self.pids.remove(&pid);
    }

    /// Ends an attempt to attach to a pid that was claimed. The claim stays only if there is
    /// a task for it and the sampler took it.
    pub fn finish_attach(&mut self, pid: u32, has_task: bool, sent: bool)
        ensures
            final(self)@ == (if has_task && sent {
                old(self)@
            } else {
                old(self)@.remove(pid)
            }),
    {
        if !(has_task && sent) {
            self.release(pid);
        }
    }
}

/// The pids of one poll: the roots and what descends from them.
pub open spec fn pids_of_round(roots: Seq<u32>, descendants: Seq<u32>) -> Set<u32> {
    roots.to_set().union(descendants.to_set())
}

/// Which pids to attach to, poll by poll.
#[derive(Debug)]
pub struct DescendantWatcher {
    roots: Vec<u32>,
    /// Pids seen in the previous poll. We only attach a pid once it has been
    /// visible for a full interval, which gives the faster preload-IPC path first
    /// claim on any process that *will* load the preload — so we don't steal a
    /// preload process out from under its jitdump/marker-path stream (which only
    /// the IPC accepter can route). For trees that never load the preload (the
    /// `/usr/bin/env` case) the pid simply persists and is attached next round.
    prev_round: HashSet<u32>,
}

impl DescendantWatcher {
    /// The processes whose descendants are watched.
    pub closed spec fn roots_view(&self) -> Seq<u32> {
        self.roots@
    }

    /// The pids of the previous poll.
    pub closed spec fn previous(&self) -> Set<u32> {
        self.prev_round@
    }

    pub fn new(root_pid: u32) -> (res: Self)
        ensures
            res.roots_view() == seq![root_pid],
            res.previous() == Set::<u32>::empty(),
    {
        let mut roots: Vec<u32> = Vec::new();
        roots.push(root_pid);
        assert(roots@ =~= seq![root_pid]);
        DescendantWatcher { roots, prev_round: HashSet::new() }
    }

    /// Picks up a root pid reported by a later launch.
    pub fn add_root(&mut self, root_pid: u32)
        ensures
            final(self).roots_view() == old(self).roots_view().push(root_pid),
            final(self).previous() == old(self).previous(),
    {
        self.roots.push(root_pid);
    }

    /// The processes whose descendants are watched.
    pub fn roots(&self) -> (res: &[u32])
        ensures
            res@ == self.roots_view(),
    {
        self.roots.as_slice()
    }

    /// Notes a poll, in which all roots together had the given descendants. Returns the pids
    /// to attach to, each once: those that were there in the previous poll too.
    pub fn round(&mut self, descendants: &Vec<u32>) -> (res: Vec<u32>)
        ensures
            final(self).roots_view() == old(self).roots_view(),
            final(self).previous() == pids_of_round(old(self).roots_view(), descendants@),
            res@.no_duplicates(),
            res@.to_set() == pids_of_round(old(self).roots_view(), descendants@).intersect(
                old(self).previous(),
            ),
    {
        let mut this_round: HashSet<u32> = HashSet::new();
        let mut res: Vec<u32> = Vec::new();
        let ghost prev = self.prev_round@;
        note_pids(&mut this_round, &mut res, &self.prev_round, self.roots.as_slice());
        assert(this_round@ =~= self.roots@.to_set());
        let ghost after_roots = this_round@;
        note_pids(&mut this_round, &mut res, &self.prev_round, descendants.as_slice());
        assert(this_round@ =~= pids_of_round(self.roots@, descendants@));
        self.prev_round = this_round;
        assert(res@.to_set() =~= self.prev_round@.intersect(prev));
        res
    }
}

fn note_pids(
    this_round: &mut HashSet<u32>,
    attach: &mut Vec<u32>,
    prev_round: &HashSet<u32>,
    pids: &[u32],
)
    requires
        old(attach)@.no_duplicates(),
        forall|pid: u32| #[trigger]
            old(attach)@.contains(pid) <==> old(this_round)@.contains(pid) && prev_round@.contains(
                pid,
            ),
    ensures
        final(this_round)@ == old(this_round)@.union(pids@.to_set()),
        final(attach)@.no_duplicates(),
        forall|pid: u32| #[trigger]
            final(attach)@.contains(pid) <==> final(this_round)@.contains(pid)
                && prev_round@.contains(pid),
{
    let mut i: usize = 0;
    assert(this_round@ =~= old(this_round)@.union(pids@.take(0).to_set()));
    while i < pids.len()
        invariant
            i <= pids@.len(),
            this_round@ == old(this_round)@.union(pids@.take(i as int).to_set()),
            attach@.no_duplicates(),
            forall|pid: u32| #[trigger]
                attach@.contains(pid) <==> this_round@.contains(pid) && prev_round@.contains(pid),
        decreases pids@.len() - i,
    {
        let pid: u32 = pids[i];
        let ghost before = this_round@;
        let ghost attach_before = attach@;
        let is_new = this_round.insert(pid);
        if is_new && prev_round.contains(&pid) {
            attach.push(pid);
            assert(attach@.last() == pid);
            assert(!attach_before.contains(pid));
            assert forall|a: int, b: int|
                0 <= a < attach@.len() && 0 <= b < attach@.len() && a != b implies attach@[a]
                != attach@[b] by {
                if a < attach_before.len() {
                    assert(attach_before.contains(attach_before[a]));
                }
                if b < attach_before.len() {
                    assert(attach_before.contains(attach_before[b]));
                }
            }
        }
        proof {
            let seen = pids@.take(i as int);
            let now = pids@.take(i + 1);
            assert(now =~= seen.push(pid));
            assert forall|p: u32| now.to_set().contains(p) == (seen.to_set().contains(p) || p
                == pid) by {
                if seen.contains(p) {
                    let k = choose|k: int| 0 <= k < seen.len() && seen[k] == p;
                    assert(now[k] == p);
                }
                if p == pid {
                    assert(now[i as int] == p);
                }
            }
            assert(this_round@ =~= old(this_round)@.union(now.to_set()));
            assert forall|p: u32| #[trigger] attach@.contains(p) <==> this_round@.contains(p)
                && prev_round@.contains(p) by {
                if attach_before.contains(p) {
                    let k = choose|k: int| 0 <= k < attach_before.len() && attach_before[k] == p;
                    assert(attach@[k] == p);
                }
                if attach@.contains(p) {
                    let k = choose|k: int| 0 <= k < attach@.len() && attach@[k] == p;
                    if k < attach_before.len() {
                        assert(attach_before[k] == p);
                    }
                }
            }
        }
        i = i + 1;
    }
    assert(pids@.take(pids@.len() as int) =~= pids@);
}

/// Each pid is forwarded at most once: of two claims the second fails unless the first was
/// rolled back in between, and what happens to one pid does not matter to another.
pub proof fn a_pid_is_claimed_once(seen: Set<u32>, pid: u32, other: u32)
    ensures
        !can_claim(seen.insert(pid), pid),
        can_claim(seen.insert(pid).remove(pid), pid),
        other != pid ==> (can_claim(seen.insert(pid), other) <==> can_claim(seen, other)),
        other != pid ==> (can_claim(seen.remove(pid), other) <==> can_claim(seen, other)),
{
}

/// A pid is attached in the second of two polls in a row that see it, and not before.
pub proof fn pids_are_attached_after_a_full_interval(
    roots: Seq<u32>,
    first: Seq<u32>,
    second: Seq<u32>,
    pid: u32,
)
    ensures
        pids_of_round(roots, second).intersect(pids_of_round(roots, first)).contains(pid) <==> (
        roots.contains(pid) || first.contains(pid) && second.contains(pid)),
{
}

} // verus!
