//! Which reads of a ring buffer are complete.

use vstd::prelude::*;

verus! {

/// A completed read of `[from, to)`.
pub type Commit = (u64, u64);

/// Whether `a` comes before `b`.
pub open spec fn before(a: Commit, b: Commit) -> bool {
    a.0 < b.0 || a.0 == b.0 && a.1 < b.1
}

/// Whether the commits are in order.
pub open spec fn in_order(commits: Seq<Commit>) -> bool {
    forall|i: int, j: int| 0 <= i < j < commits.len() ==> !before(commits[j], commits[i])
}

/// `commits`, which are in order, with one more.
pub open spec fn with_commit(commits: Seq<Commit>, c: Commit) -> Seq<Commit>
    decreases commits.len(),
{
    if commits.len() > 0 && before(c, commits.last()) {
        with_commit(commits.drop_last(), c).push(commits.last())
    } else {
        commits.push(c)
    }
}

/// What stays pending, and how far the reads are complete without a gap, when they are
/// complete up to `tail`.
pub open spec fn advanced(commits: Seq<Commit>, tail: u64) -> (Seq<Commit>, u64)
    decreases commits.len(),
{
    if commits.len() > 0 && commits[0].0 == tail {
        advanced(commits.drop_first(), commits[0].1)
    } else {
        (commits, tail)
    }
}

/// The effect of a completed read on the pending commits and the tail.
pub open spec fn committed(commits: Seq<Commit>, tail: u64, c: Commit) -> (Seq<Commit>, u64) {
    advanced(with_commit(commits, c), tail)
}

proof fn lemma_with_commit(commits: Seq<Commit>, c: Commit, at: int)
    requires
        0 <= at <= commits.len(),
        forall|i: int| at <= i < commits.len() ==> before(c, commits[i]),
        at > 0 ==> !before(c, commits[at - 1]),
    ensures
        with_commit(commits, c) == commits.insert(at, c),
    decreases commits.len(),
{
    if at < commits.len() {
        lemma_with_commit(commits.drop_last(), c, at);
        assert(commits.drop_last().insert(at, c).push(commits.last()) =~= commits.insert(at, c));
    } else {
        assert(commits.push(c) =~= commits.insert(at, c));
    }
}

/// There is a place for one more commit, and it is the one that `with_commit` takes.
proof fn lemma_place(commits: Seq<Commit>, c: Commit) -> (at: int)
    requires
        in_order(commits),
    ensures
        0 <= at <= commits.len(),
        with_commit(commits, c) == commits.insert(at, c),
        forall|i: int| at <= i < commits.len() ==> before(c, commits[i]),
        forall|i: int| 0 <= i < at ==> !before(c, commits[i]),
        in_order(with_commit(commits, c)),
    decreases commits.len(),
{
    if commits.len() > 0 && before(c, commits.last()) {
        let at = lemma_place(commits.drop_last(), c);
        assert forall|i: int| at <= i < commits.len() implies before(c, commits[i]) by {
            if i < commits.len() - 1 {
                assert(commits.drop_last()[i] == commits[i]);
            }
        }
        assert forall|i: int| 0 <= i < at implies !before(c, commits[i]) by {
            assert(commits.drop_last()[i] == commits[i]);
        }
        lemma_with_commit(commits, c, at);
        assert(in_order(commits.insert(at, c)));
        at
    } else {
        let at = commits.len() as int;
        lemma_with_commit(commits, c, at);
        assert forall|i: int| 0 <= i < at implies !before(c, commits[i]) by {
            if i < at - 1 {
                assert(!before(commits[at - 1], commits[i]));
            }
        }
        assert(in_order(commits.insert(at, c)));
        at
    }
}

proof fn lemma_advanced(commits: Seq<Commit>, tail: u64, n: int, position: u64)
    requires
        0 <= n <= commits.len(),
        forall|i: int| 0 <= i < n ==> #[trigger] commits[i].0 == (if i == 0 {
            tail
        } else {
            commits[i - 1].1
        }),
        position == (if n == 0 {
            tail
        } else {
            commits[n - 1].1
        }),
        n < commits.len() ==> commits[n].0 != position,
    ensures
        advanced(commits, tail) == (commits.skip(n), position),
    decreases n,
{
    if n > 0 {
        let rest = commits.drop_first();
        assert(commits[0].0 == tail);
        assert forall|i: int| 0 <= i < n - 1 implies #[trigger] rest[i].0 == (if i == 0 {
            commits[0].1
        } else {
            rest[i - 1].1
        }) by {
            assert(commits[i + 1].0 == commits[i].1);
        }
        lemma_advanced(rest, commits[0].1, n - 1, position);
        assert(rest.skip(n - 1) =~= commits.skip(n));
    } else {
        assert(commits.skip(0) =~= commits);
    }
}

/// The reads of a ring buffer that are complete, but for which an earlier read is not.
#[derive(Debug)]
pub struct EventRefState {
    pending_commits: Vec<Commit>,
}

impl View for EventRefState {
    type V = Seq<Commit>;

    /// The pending commits in order.
    closed spec fn view(&self) -> Seq<Commit> {
        self.pending_commits@
    }
}

impl EventRefState {
    pub open spec fn well_formed(&self) -> bool {
        in_order(self@)
    }

    pub fn new() -> (res: Self)
        ensures
            res.well_formed(),
            res@ == Seq::<Commit>::empty(),
    {
        EventRefState { pending_commits: Vec::new() }
    }

    /// Mark the read of `[from, to)` as complete, where the reads up to `tail` are. Returns
    /// the new tail.
    /// If reads are completed in-order, then this will advance the tail pointer to `to`
    /// immediately. Otherwise, it will remain in the "pending commit" queue, and committed once
    /// all previous reads are also committed.
    pub fn try_commit(&mut self, tail: u64, from: u64, to: u64) -> (res: u64)
        requires
            old(self).well_formed(),
        ensures
            final(self).well_formed(),
            (final(self)@, res) == committed(old(self)@, tail, (from, to)),
    {
        let mut at: usize = self.pending_commits.len();
        while at > 0 && (from < self.pending_commits[at - 1].0 || from == self.pending_commits[at
            - 1].0 && to < self.pending_commits[at - 1].1)
            invariant
                at <= self.pending_commits@.len(),
                forall|i: int|
                    at <= i < self.pending_commits@.len() ==> before(
                        (from, to),
                        self.pending_commits@[i],
                    ),
            decreases at,
        {
            at = at - 1;
        }
        proof {
            lemma_with_commit(self@, (from, to), at as int);
            let _ = lemma_place(self@, (from, to));
        }
        self.pending_commits.insert(at, (from, to));
        let mut position: u64 = tail;
        let mut n: usize = 0;
        while n < self.pending_commits.len() && self.pending_commits[n].0 == position
            invariant
                n <= self.pending_commits@.len(),
                forall|i: int|
                    0 <= i < n ==> #[trigger] self.pending_commits@[i].0 == (if i == 0 {
                        tail
                    } else {
                        self.pending_commits@[i - 1].1
                    }),
                position == (if n == 0 {
                    tail
                } else {
                    self.pending_commits@[n - 1].1
                }),
            decreases self.pending_commits@.len() - n,
        {
            position = self.pending_commits[n].1;
            n = n + 1;
        }
        let ghost all = self@;
        proof {
            lemma_advanced(all, tail, n as int, position);
        }
        self.pending_commits = self.pending_commits.split_off(n);
        assert(self@ =~= all.skip(n as int));
        position
    }
}

/// The read of event `i`, where event `i` lies between the bounds `i` and `i + 1`.
pub open spec fn read_of(bounds: Seq<u64>, i: int) -> Commit {
    (bounds[i], bounds[i + 1])
}

/// The bounds of events that follow one another and are not empty.
pub open spec fn are_bounds(bounds: Seq<u64>) -> bool {
    &&& bounds.len() > 0
    &&& forall|i: int, j: int| 0 <= i < j < bounds.len() ==> bounds[i] < bounds[j]
}

/// Whether the commit is the read of one of the events from `k` on that are done.
pub open spec fn is_read(c: Commit, bounds: Seq<u64>, done: Set<int>, k: int) -> bool {
    exists|i: int|
        k <= i < bounds.len() - 1 && done.contains(i) && #[trigger] read_of(bounds, i) == c
}

/// Whether the commits are the reads of those events from `k` on that are done, each once
/// and in order.
pub open spec fn are_reads(commits: Seq<Commit>, bounds: Seq<u64>, done: Set<int>, k: int) -> bool {
    &&& forall|i: int, j: int| 0 <= i < j < commits.len() ==> before(commits[i], commits[j])
    &&& forall|i: int|
        k <= i < bounds.len() - 1 && #[trigger] done.contains(i) ==> commits.contains(
            read_of(bounds, i),
        )
    &&& forall|j: int| 0 <= j < commits.len() ==> is_read(#[trigger] commits[j], bounds, done, k)
}

/// Whether all events in front of `k` are done, and `k` is not.
pub open spec fn is_gap(bounds: Seq<u64>, done: Set<int>, k: int) -> bool {
    &&& 0 <= k < bounds.len()
    &&& forall|i: int| 0 <= i < k ==> done.contains(i)
    &&& !done.contains(k) || k == bounds.len() - 1
}

/// The state after the events in `done` were read: the tail is at the end of those that
/// follow the start without a gap, and the others are pending.
pub open spec fn is_state_after(
    commits: Seq<Commit>,
    tail: u64,
    bounds: Seq<u64>,
    done: Set<int>,
) -> bool {
    exists|k: int| #[trigger]
        is_gap(bounds, done, k) && tail == bounds[k] && are_reads(commits, bounds, done, k)
}

proof fn lemma_reads_with(commits: Seq<Commit>, bounds: Seq<u64>, done: Set<int>, k: int, i: int)
    requires
        are_bounds(bounds),
        are_reads(commits, bounds, done, k),
        0 <= k <= i < bounds.len() - 1,
        !done.contains(i),
    ensures
        are_reads(with_commit(commits, read_of(bounds, i)), bounds, done.insert(i), k),
{
    let c = read_of(bounds, i);
    assert forall|a: int, b: int| 0 <= a < b < commits.len() implies !before(
        commits[b],
        commits[a],
    ) by {
        assert(before(commits[a], commits[b]));
    }
    let at = lemma_place(commits, c);
    let after = with_commit(commits, c);
    let more = done.insert(i);
    assert forall|j: int| 0 <= j < commits.len() implies commits[j] != c by {
        assert(is_read(commits[j], bounds, done, k));
        let l = choose|l: int|
            k <= l < bounds.len() - 1 && done.contains(l) && #[trigger] read_of(bounds, l)
                == commits[j];
        assert(l != i);
    }
    assert forall|a: int, b: int| 0 <= a < b < after.len() implies before(after[a], after[b]) by {
        let x = if a < at {
            a
        } else {
            a - 1
        };
        let y = if b < at {
            b
        } else {
            b - 1
        };
        if a != at && b != at {
            assert(after[a] == commits[x] && after[b] == commits[y]);
        }
    }
    assert forall|l: int|
        k <= l < bounds.len() - 1 && #[trigger] more.contains(l) implies after.contains(
        read_of(bounds, l),
    ) by {
        if l == i {
            assert(after[at] == c);
        } else {
            assert(done.contains(l));
            let j = choose|j: int| 0 <= j < commits.len() && commits[j] == read_of(bounds, l);
            assert(after[if j < at {
                j
            } else {
                j + 1
            }] == commits[j]);
        }
    }
    assert forall|j: int| 0 <= j < after.len() implies is_read(
        #[trigger] after[j],
        bounds,
        more,
        k,
    ) by {
        if j == at {
            assert(read_of(bounds, i) == after[j] && more.contains(i));
        } else {
            let m = if j < at {
                j
            } else {
                j - 1
            };
            assert(after[j] == commits[m]);
            assert(is_read(commits[m], bounds, done, k));
            let l = choose|l: int|
                k <= l < bounds.len() - 1 && done.contains(l) && #[trigger] read_of(bounds, l)
                    == commits[m];
            assert(more.contains(l));
        }
    }
}

proof fn lemma_advance_to_gap(commits: Seq<Commit>, bounds: Seq<u64>, done: Set<int>, k: int)
    requires
        are_bounds(bounds),
        are_reads(commits, bounds, done, k),
        0 <= k < bounds.len(),
        forall|i: int| 0 <= i < k ==> done.contains(i),
    ensures
        is_state_after(
            advanced(commits, bounds[k]).0,
            advanced(commits, bounds[k]).1,
            bounds,
            done,
        ),
    decreases bounds.len() - k,
{
    if k < bounds.len() - 1 && done.contains(k) {
        let c = read_of(bounds, k);
        assert(commits.contains(c));
        let m = choose|m: int| 0 <= m < commits.len() && commits[m] == c;
        assert(is_read(commits[0], bounds, done, k));
        let first = choose|l: int|
            k <= l < bounds.len() - 1 && done.contains(l) && #[trigger] read_of(bounds, l)
                == commits[0];
        if m > 0 {
            assert(before(commits[0], commits[m]));
            assert(false);
        }
        let rest = commits.drop_first();
        assert forall|i: int|
            k + 1 <= i < bounds.len() - 1 && #[trigger] done.contains(i) implies rest.contains(
            read_of(bounds, i),
        ) by {
            let j = choose|j: int| 0 <= j < commits.len() && commits[j] == read_of(bounds, i);
            assert(bounds[i] != bounds[k]);
            assert(rest[j - 1] == commits[j]);
        }
        assert forall|j: int| 0 <= j < rest.len() implies is_read(
            #[trigger] rest[j],
            bounds,
            done,
            k + 1,
        ) by {
            assert(rest[j] == commits[j + 1]);
            assert(is_read(commits[j + 1], bounds, done, k));
            let i = choose|i: int|
                k <= i < bounds.len() - 1 && done.contains(i) && #[trigger] read_of(bounds, i)
                    == commits[j + 1];
            assert(before(commits[0], commits[j + 1]));
            assert(i != k);
        }
        lemma_advance_to_gap(rest, bounds, done, k + 1);
    } else {
        if commits.len() > 0 {
            assert(is_read(commits[0], bounds, done, k));
            let i = choose|i: int|
                k <= i < bounds.len() - 1 && done.contains(i) && #[trigger] read_of(bounds, i)
                    == commits[0];
            assert(bounds[k] < bounds[i]);
        }
        assert(is_gap(bounds, done, k));
    }
}

/// The reads may complete in any order: whichever events are done so far, marking the read
/// of one more as complete leaves the tail at the end of those that follow the start
/// without a gap, and the others pending.
pub proof fn reads_may_complete_in_any_order(
    commits: Seq<Commit>,
    tail: u64,
    bounds: Seq<u64>,
    done: Set<int>,
    i: int,
)
    requires
        are_bounds(bounds),
        is_state_after(commits, tail, bounds, done),
        0 <= i < bounds.len() - 1,
        !done.contains(i),
    ensures
        is_state_after(
            committed(commits, tail, read_of(bounds, i)).0,
            committed(commits, tail, read_of(bounds, i)).1,
            bounds,
            done.insert(i),
        ),
{
    let k = choose|k: int| #[trigger]
        is_gap(bounds, done, k) && tail == bounds[k] && are_reads(commits, bounds, done, k);
    lemma_reads_with(commits, bounds, done, k, i);
    lemma_advance_to_gap(
        with_commit(commits, read_of(bounds, i)),
        bounds,
        done.insert(i),
        k,
    );
}

/// At first nothing is done.
pub proof fn no_read_is_pending_at_first(bounds: Seq<u64>)
    requires
        are_bounds(bounds),
    ensures
        is_state_after(Seq::empty(), bounds[0], bounds, Set::empty()),
{
    assert(is_gap(bounds, Set::empty(), 0));
}

/// Once all events are done, the tail is at the end of the last one, and nothing is
/// pending.
pub proof fn all_reads_are_committed_in_the_end(
    commits: Seq<Commit>,
    tail: u64,
    bounds: Seq<u64>,
    done: Set<int>,
)
    requires
        are_bounds(bounds),
        is_state_after(commits, tail, bounds, done),
        forall|i: int| 0 <= i < bounds.len() - 1 ==> done.contains(i),
    ensures
        tail == bounds.last(),
        commits == Seq::<Commit>::empty(),
{
    let k = choose|k: int| #[trigger]
        is_gap(bounds, done, k) && tail == bounds[k] && are_reads(commits, bounds, done, k);
    if commits.len() > 0 {
        assert(is_read(commits[0], bounds, done, k));
    }
}

/// A read that completes in order moves the tail to its end at once.
pub proof fn reads_in_order_are_committed_at_once(tail: u64, to: u64)
    ensures
        committed(Seq::empty(), tail, (tail, to)) == (Seq::<Commit>::empty(), to),
{
    reveal_with_fuel(advanced, 2);
    let one = Seq::<Commit>::empty().push((tail, to));
    assert(one.drop_first() =~= Seq::<Commit>::empty());
}

} // verus!
