//! Address-space bookkeeping: which library is mapped at which address.

use vstd::prelude::*;

verus! {

/// One mapped address range `[start_avma, end_avma)`.
#[derive(Debug)]
struct Mapping<T> {
    start_avma: u64,
    end_avma: u64,
    relative_address_at_start: u32,
    value: T,
}

impl<T> Mapping<T> {
    /// The address range as a `(start, end)` pair.
    spec fn range(self) -> (u64, u64) {
        (self.start_avma, self.end_avma)
    }

    /// The relative address at the start of the range, and the value.
    spec fn entry(self) -> (u32, T) {
        (self.relative_address_at_start, self.value)
    }
}

/// Keeps track of mapped libraries in an address space. Stores a value
/// for each mapping, and allows efficient lookup of that value based on
/// an address.
///
/// A "library" here is a loose term; it could be a normal shared library,
/// or the main binary, but it could also be a synthetic library for JIT
/// code. For normal libraries, there's usually just one mapping per library.
/// For JIT code, you could have many small mappings, one per JIT function,
/// all pointing to the synthetic JIT "library".
///
/// Its view maps each mapped range `(start, end)` to the relative address at
/// its start and to its value.
#[derive(Debug)]
pub struct LibMappings<T> {
    /// Non-overlapping mappings in the order of their addresses.
    ///
    /// When a new mapping is added, the overlapping part of any existing mapping
    /// is carved away, but its non-overlapping remainder is kept.
    map: Vec<Mapping<T>>,
}

/// Two mappings in address order: the first ends before the second starts, and
/// they may only share a start address if the first is empty and the second is not.
spec fn in_order<T>(a: Mapping<T>, b: Mapping<T>) -> bool {
    &&& a.end_avma <= b.start_avma
    &&& a.start_avma == b.start_avma ==> b.start_avma < b.end_avma
}

/// The stored mappings are well-formed ranges in address order.
spec fn ordered<T>(s: Seq<Mapping<T>>) -> bool {
    &&& forall|i: int|
        0 <= i < s.len() ==> (#[trigger] s[i]).start_avma <= s[i].end_avma
    &&& forall|i: int, j: int|
        0 <= i < j < s.len() ==> in_order(#[trigger] s[i], #[trigger] s[j])
}

/// Some stored mapping has exactly the range `r`.
spec fn has_range<T>(s: Seq<Mapping<T>>, r: (u64, u64)) -> bool {
    exists|i: int| 0 <= i < s.len() && (#[trigger] s[i]).range() == r
}

/// The stored mappings as a map from ranges to relative address and value.
spec fn entries<T>(s: Seq<Mapping<T>>) -> Map<(u64, u64), (u32, T)> {
    Map::new(
        |r: (u64, u64)| has_range(s, r),
        |r: (u64, u64)| s[choose|i: int| 0 <= i < s.len() && (#[trigger] s[i]).range() == r].entry(),
    )
}

/// The address `avma` lies in the range `r`.
pub open spec fn covers(r: (u64, u64), avma: u64) -> bool {
    r.0 <= avma < r.1
}

/// No two mapped ranges have an address in common.
pub open spec fn non_overlapping<T>(m: Map<(u64, u64), (u32, T)>) -> bool {
    &&& forall|r: (u64, u64)| #[trigger] m.contains_key(r) ==> r.0 <= r.1
    &&& forall|r: (u64, u64), q: (u64, u64)|
        #[trigger] m.contains_key(r) && #[trigger] m.contains_key(q) && r != q ==> r.1 <= q.0
            || q.1 <= r.0
}

/// The mapped range that covers `avma`, if there is one.
pub open spec fn range_at<T>(m: Map<(u64, u64), (u32, T)>, avma: u64) -> Option<(u64, u64)> {
    if exists|r: (u64, u64)| #[trigger] m.contains_key(r) && covers(r, avma) {
        Some(choose|r: (u64, u64)| #[trigger] m.contains_key(r) && covers(r, avma))
    } else {
        None
    }
}

/// The relative address of `avma` in a mapping that starts at `start` with the
/// relative address `rel`. Relative addresses are counted modulo 2^32.
pub open spec fn relative_address(start: u64, rel: u32, avma: u64) -> u32 {
    ((rel + (avma - start)) % 0x1_0000_0000) as u32
}

/// What `avma` resolves to: its relative address and the value of its mapping.
pub open spec fn resolve<T>(m: Map<(u64, u64), (u32, T)>, avma: u64) -> Option<(u32, T)> {
    match range_at(m, avma) {
        Some(r) => Some((relative_address(r.0, m[r].0, avma), m[r].1)),
        None => None,
    }
}

/// The existing range `r` has to make way when `[start, end)` is mapped: it starts
/// in the new range, or reaches into it from the left, or is the very same range.
pub open spec fn touched(r: (u64, u64), start: u64, end: u64) -> bool {
    ||| start <= r.0 < end
    ||| r.0 < start < r.1
    ||| r == (start, end)
}

/// `r` keeps a head piece `[r.0, start)` when a mapping is added at `start`.
pub open spec fn keeps_head(r: (u64, u64), start: u64) -> bool {
    r.0 < start < r.1
}

/// `r` keeps a tail piece `[end, r.1)` when a mapping that ends at `end` is added.
pub open spec fn keeps_tail(r: (u64, u64), end: u64) -> bool {
    r.0 < end < r.1
}

/// `new` holds the range `q` after `[start, end)` was mapped over `old`.
pub open spec fn range_after_add<T>(
    old: Map<(u64, u64), (u32, T)>,
    start: u64,
    end: u64,
    q: (u64, u64),
) -> bool {
    ||| q == (start, end)
    ||| old.contains_key(q) && !touched(q, start, end)
    ||| exists|r: (u64, u64)| #[trigger] old.contains_key(r) && keeps_head(r, start) && q == (r.0, start)
    ||| exists|r: (u64, u64)| #[trigger] old.contains_key(r) && keeps_tail(r, end) && q == (end, r.1)
}

/// `new` is what is left of `old` once the range `[start, end)` was given to a new
/// mapping, together with that mapping.
pub open spec fn is_carved<T: Clone>(
    old: Map<(u64, u64), (u32, T)>,
    new: Map<(u64, u64), (u32, T)>,
    start: u64,
    end: u64,
    rel: u32,
    value: T,
) -> bool {
    &&& forall|q: (u64, u64)| #[trigger] new.contains_key(q) <==> range_after_add(old, start, end, q)
    &&& new[(start, end)] == (rel, value)
    // A mapping that the new one doesn't touch stays as it is.
    &&& forall|r: (u64, u64)|
        #[trigger] old.contains_key(r) && !touched(r, start, end) ==> new[r] == old[r]
    // A head piece keeps the relative address.
    &&& forall|r: (u64, u64)|
        #[trigger] old.contains_key(r) && keeps_head(r, start) ==> {
            &&& new[(r.0, start)].0 == old[r].0
            &&& cloned(old[r].1, new[(r.0, start)].1)
        }
    // A tail piece starts further into the library.
    &&& forall|r: (u64, u64)|
        #[trigger] old.contains_key(r) && keeps_tail(r, end) ==> new[(end, r.1)] == (
            relative_address(r.0, old[r].0, end),
            old[r].1,
        )
}

proof fn lemma_entries<T>(s: Seq<Mapping<T>>, i: int)
    requires
        ordered(s),
        0 <= i < s.len(),
    ensures
        entries(s).contains_key(s[i].range()),
        entries(s)[s[i].range()] == s[i].entry(),
{
    let r = s[i].range();
    assert(has_range(s, r));
    let k = choose|k: int| 0 <= k < s.len() && (#[trigger] s[k]).range() == r;
    if k < i {
        assert(in_order(s[k], s[i]));
    } else if i < k {
        assert(in_order(s[i], s[k]));
    }
}

proof fn lemma_has_entry<T>(s: Seq<Mapping<T>>, r: (u64, u64)) -> (i: int)
    requires
        ordered(s),
        entries(s).contains_key(r),
    ensures
        0 <= i < s.len(),
        s[i].range() == r,
        entries(s)[r] == s[i].entry(),
{
    assert(has_range(s, r));
    let i = choose|i: int| 0 <= i < s.len() && (#[trigger] s[i]).range() == r;
    lemma_entries(s, i);
    i
}

proof fn lemma_ordered_non_overlapping<T>(s: Seq<Mapping<T>>)
    requires
        ordered(s),
    ensures
        non_overlapping(entries(s)),
{
    let m = entries(s);
    assert forall|r: (u64, u64)| #[trigger] m.contains_key(r) implies r.0 <= r.1 by {
        let i = lemma_has_entry(s, r);
    }
    assert forall|r: (u64, u64), q: (u64, u64)|
        #[trigger] m.contains_key(r) && #[trigger] m.contains_key(q) && r != q implies r.1 <= q.0
        || q.1 <= r.0 by {
        let i = lemma_has_entry(s, r);
        let j = lemma_has_entry(s, q);
        if i < j {
            assert(in_order(s[i], s[j]));
        } else if j < i {
            assert(in_order(s[j], s[i]));
        }
    }
}

/// In a non-overlapping map, a range that covers an address is the one that is
/// found for it.
proof fn lemma_range_at<T>(m: Map<(u64, u64), (u32, T)>, r: (u64, u64), avma: u64)
    requires
        non_overlapping(m),
        m.contains_key(r),
        covers(r, avma),
    ensures
        range_at(m, avma) == Some(r),
{
    let q = choose|q: (u64, u64)| #[trigger] m.contains_key(q) && covers(q, avma);
    assert(m.contains_key(q) && covers(q, avma));
}

/// The range that is found for an address covers it, and there is one if any does.
proof fn lemma_found_range<T>(m: Map<(u64, u64), (u32, T)>, avma: u64)
    ensures
        range_at(m, avma) matches Some(r) ==> m.contains_key(r) && r.0 <= avma < r.1,
        non_overlapping(m) ==> forall|r: (u64, u64)| #[trigger]
            m.contains_key(r) && r.0 <= avma < r.1 ==> range_at(m, avma) == Some(r),
{
    if non_overlapping(m) {
        assert forall|r: (u64, u64)| #[trigger]
            m.contains_key(r) && r.0 <= avma < r.1 implies range_at(m, avma) == Some(r) by {
            lemma_range_at(m, r, avma);
        }
    }
}

/// The mapped range that starts at `start`. An empty range comes before the
/// non-empty one with the same start.
pub open spec fn range_starting_at<T>(
    m: Map<(u64, u64), (u32, T)>,
    start: u64,
) -> Option<(u64, u64)> {
    if m.contains_key((start, start)) {
        Some((start, start))
    } else if exists|r: (u64, u64)| #[trigger] m.contains_key(r) && r.0 == start {
        Some(choose|r: (u64, u64)| #[trigger] m.contains_key(r) && r.0 == start)
    } else {
        None
    }
}

proof fn lemma_first_is_range_starting_at<T>(s: Seq<Mapping<T>>, i: int, start: u64)
    requires
        ordered(s),
        0 <= i < s.len(),
        s[i].start_avma == start,
        forall|k: int| 0 <= k < i ==> (#[trigger] s[k]).start_avma < start,
    ensures
        range_starting_at(entries(s), start) == Some(s[i].range()),
{
    let m = entries(s);
    lemma_entries(s, i);
    if m.contains_key((start, start)) {
        let k = lemma_has_entry(s, (start, start));
        if i < k {
            assert(in_order(s[i], s[k]));
        }
    } else {
        let r = choose|r: (u64, u64)| #[trigger] m.contains_key(r) && r.0 == start;
        assert(m.contains_key(s[i].range()) && s[i].range().0 == start);
        let k = lemma_has_entry(s, r);
        if i < k {
            assert(in_order(s[i], s[k]));
            assert(s[i].range() == (start, start));
        }
    }
}

proof fn lemma_remove_entry<T>(s: Seq<Mapping<T>>, i: int)
    requires
        ordered(s),
        0 <= i < s.len(),
    ensures
        ordered(s.remove(i)),
        entries(s.remove(i)) == entries(s).remove(s[i].range()),
{
    let t = s.remove(i);
    assert forall|a: int, b: int| 0 <= a < b < t.len() implies in_order(
        #[trigger] t[a],
        #[trigger] t[b],
    ) by {
        let a0 = if a < i { a } else { a + 1 };
        let b0 = if b < i { b } else { b + 1 };
        assert(in_order(s[a0], s[b0]));
    }
    assert forall|a: int| 0 <= a < t.len() implies (#[trigger] t[a]).start_avma <= t[a].end_avma by {
        let a0 = if a < i { a } else { a + 1 };
        assert(s[a0].start_avma <= s[a0].end_avma);
    }
    let left = entries(t);
    let right = entries(s).remove(s[i].range());
    assert forall|r: (u64, u64)| #[trigger] left.contains_key(r) implies right.contains_key(r)
        && left[r] == right[r] by {
        let a = lemma_has_entry(t, r);
        let a0 = if a < i { a } else { a + 1 };
        assert(t[a] == s[a0]);
        lemma_entries(s, a0);
        if s[a0].range() == s[i].range() {
            if a0 < i {
                assert(in_order(s[a0], s[i]));
            } else {
                assert(in_order(s[i], s[a0]));
            }
        }
    }
    assert forall|r: (u64, u64)| #[trigger] right.contains_key(r) implies left.contains_key(r) by {
        let a0 = lemma_has_entry(s, r);
        let a = if a0 < i { a0 } else { a0 - 1 };
        assert(t[a] == s[a0]);
        lemma_entries(t, a);
    }
    assert(left =~= right);
}

/// The piece in front of `start` that is left of the first touched mapping.
spec fn is_head<T: Clone>(heads: Seq<Mapping<T>>, touched_mappings: Seq<Mapping<T>>, start: u64) -> bool {
    if touched_mappings.len() > 0 && touched_mappings[0].start_avma < start {
        &&& heads.len() == 1
        &&& heads[0].range() == (touched_mappings[0].start_avma, start)
        &&& heads[0].relative_address_at_start == touched_mappings[0].relative_address_at_start
        &&& cloned(touched_mappings[0].value, heads[0].value)
    } else {
        heads.len() == 0
    }
}

/// The piece from `end` on that is left of the last touched mapping.
spec fn is_tail<T>(tails: Seq<Mapping<T>>, touched_mappings: Seq<Mapping<T>>, end: u64) -> bool {
    if touched_mappings.len() > 0 && touched_mappings.last().end_avma > end {
        let m = touched_mappings.last();
        &&& tails.len() == 1
        &&& tails[0].range() == (end, m.end_avma)
        &&& tails[0].relative_address_at_start == relative_address(
            m.start_avma,
            m.relative_address_at_start,
            end,
        )
        &&& tails[0].value == m.value
    } else {
        tails.len() == 0
    }
}

/// Where the mappings `first..last` are those that `new` touches, what is put in
/// their place is carved as promised.
proof fn lemma_carve<T: Clone>(
    before: Seq<Mapping<T>>,
    first: int,
    last: int,
    heads: Seq<Mapping<T>>,
    new: Mapping<T>,
    tails: Seq<Mapping<T>>,
)
    requires
        ordered(before),
        0 <= first <= last <= before.len(),
        new.start_avma <= new.end_avma,
        forall|i: int|
            0 <= i < first ==> (#[trigger] before[i]).start_avma < new.start_avma
                && before[i].end_avma <= new.start_avma,
        forall|i: int|
            first <= i < last ==> touched(
                (#[trigger] before[i]).range(),
                new.start_avma,
                new.end_avma,
            ),
        forall|i: int|
            last <= i < before.len() ==> (#[trigger] before[i]).start_avma >= new.end_avma
                && before[i].range() != new.range(),
        is_head(heads, before.subrange(first, last), new.start_avma),
        is_tail(tails, before.subrange(first, last), new.end_avma),
    ensures
        ({
            let after = before.subrange(0, first) + heads + seq![new] + tails + before.subrange(
                last,
                before.len() as int,
            );
            &&& ordered(after)
            &&& is_carved(
                entries(before),
                entries(after),
                new.start_avma,
                new.end_avma,
                new.relative_address_at_start,
                new.value,
            )
        }),
{
    let start = new.start_avma;
    let end = new.end_avma;
    let h = heads.len() as int;
    let t = tails.len() as int;
    let after = before.subrange(0, first) + heads + seq![new] + tails + before.subrange(
        last,
        before.len() as int,
    );
    let shift = first + h + 1 + t - last;
    // Where each mapping of `after` comes from.
    assert forall|k: int| 0 <= k < first implies after[k] == before[k] by {}
    assert forall|k: int| last <= k < before.len() implies #[trigger] after[k + shift] == before[k] by {}
    assert(h == 1 ==> after[first] == heads[0]);
    assert(after[first + h] == new);
    assert(t == 1 ==> after[first + h + 1] == tails[0]);
    assert(after.len() == before.len() + shift);

    // Only the first touched mapping can have a head, and only the last one a tail.
    assert forall|i: int| 0 <= i < before.len() && keeps_head((#[trigger] before[i]).range(), start) implies i
        == first && h == 1 by {
        assert(first <= i < last);
        if first < i {
            assert(in_order(before[first], before[i]));
        }
        assert(before.subrange(first, last)[0] == before[first]);
    }
    assert forall|i: int| 0 <= i < before.len() && keeps_tail((#[trigger] before[i]).range(), end) implies i
        == last - 1 && t == 1 by {
        assert(first <= i < last);
        if i < last - 1 {
            assert(in_order(before[i], before[last - 1]));
        }
        assert(before.subrange(first, last).last() == before[last - 1]);
    }
    if h == 1 {
        assert(before.subrange(first, last)[0] == before[first]);
        assert(before[first].start_avma < start < before[first].end_avma);
    }
    if t == 1 {
        assert(before.subrange(first, last).last() == before[last - 1]);
        assert(before[last - 1].start_avma < end < before[last - 1].end_avma);
    }
    assert(ordered(after)) by {
        assert forall|a: int| 0 <= a < after.len() implies (#[trigger] after[a]).start_avma
            <= after[a].end_avma by {
            if a < first {
                assert(after[a] == before[a]);
            } else if a >= first + h + 1 + t {
                assert(after[a - shift + shift] == before[a - shift]);
            }
        }
        assert forall|a: int, b: int| 0 <= a < b < after.len() implies in_order(
            #[trigger] after[a],
            #[trigger] after[b],
        ) by {
            lemma_carve_pair(before, first, last, heads, new, tails, after, shift, a, b);
        }
    }
    let old = entries(before);
    let m = entries(after);
    lemma_ordered_non_overlapping(before);
    lemma_entries(after, first + h);
    assert forall|r: (u64, u64)| #[trigger] old.contains_key(r) && !touched(r, start, end) implies m[r]
        == old[r] && m.contains_key(r) by {
        let i = lemma_has_entry(before, r);
        if i < first {
            lemma_entries(after, i);
        } else {
            assert(i >= last);
            assert(after[i + shift] == before[i]);
            lemma_entries(after, i + shift);
        }
    }
    assert forall|r: (u64, u64)| #[trigger] old.contains_key(r) && keeps_head(r, start) implies {
        &&& m.contains_key((r.0, start))
        &&& m[(r.0, start)].0 == old[r].0
        &&& cloned(old[r].1, m[(r.0, start)].1)
    } by {
        let i = lemma_has_entry(before, r);
        lemma_entries(after, first);
    }
    assert forall|r: (u64, u64)| #[trigger] old.contains_key(r) && keeps_tail(r, end) implies m[(
        end,
        r.1,
    )] == (relative_address(r.0, old[r].0, end), old[r].1) && m.contains_key((end, r.1)) by {
        let i = lemma_has_entry(before, r);
        lemma_entries(after, first + h + 1);
    }
    assert forall|q: (u64, u64)| #[trigger] m.contains_key(q) implies range_after_add(
        old,
        start,
        end,
        q,
    ) by {
        let k = lemma_has_entry(after, q);
        if k < first {
            assert(after[k] == before[k]);
            lemma_entries(before, k);
        } else if k < first + h {
            lemma_entries(before, first);
            assert(keeps_head(before[first].range(), start));
        } else if k == first + h {
        } else if k < first + h + 1 + t {
            lemma_entries(before, last - 1);
            assert(keeps_tail(before[last - 1].range(), end));
        } else {
            assert(after[k - shift + shift] == before[k - shift]);
            lemma_entries(before, k - shift);
        }
    }
}

/// The mappings that a new range touches, found by their start addresses.
proof fn lemma_touched_neighbours<T>(
    s: Seq<Mapping<T>>,
    first: int,
    last: int,
    start: u64,
    end: u64,
)
    requires
        ordered(s),
        start <= end,
        0 <= first <= s.len(),
        0 <= last <= s.len(),
        forall|i: int| 0 <= i < first ==> (#[trigger] s[i]).start_avma < start,
        first < s.len() ==> s[first].start_avma >= start || s[first].end_avma > start,
        first + 1 < s.len() ==> s[first + 1].start_avma >= start,
        first > 0 ==> s[first - 1].end_avma <= start,
        forall|i: int|
            0 <= i < last ==> (#[trigger] s[i]).start_avma < end || s[i].range() == (start, end),
        forall|i: int| last <= i < s.len() ==> (#[trigger] s[i]).start_avma >= end,
        last < s.len() ==> s[last].range() != (start, end),
    ensures
        first <= last,
        forall|i: int|
            0 <= i < first ==> (#[trigger] s[i]).start_avma < start && s[i].end_avma <= start,
        forall|i: int| first <= i < last ==> touched((#[trigger] s[i]).range(), start, end),
        forall|i: int|
            last <= i < s.len() ==> (#[trigger] s[i]).start_avma >= end && s[i].range() != (start, end),
{
    assert forall|i: int| 0 <= i < first implies (#[trigger] s[i]).start_avma < start && s[i].end_avma
        <= start by {
        if i < first - 1 {
            assert(in_order(s[i], s[first - 1]));
        }
    }
    assert forall|i: int| first <= i < last implies touched((#[trigger] s[i]).range(), start, end) by {
        if first + 1 < i {
            assert(in_order(s[first + 1], s[i]));
        }
    }
    assert forall|i: int| last <= i < s.len() implies (#[trigger] s[i]).start_avma >= end && s[i].range()
        != (start, end) by {
        if last < i {
            assert(in_order(s[last], s[i]));
        }
    }
}

proof fn lemma_carve_pair<T: Clone>(
    before: Seq<Mapping<T>>,
    first: int,
    last: int,
    heads: Seq<Mapping<T>>,
    new: Mapping<T>,
    tails: Seq<Mapping<T>>,
    after: Seq<Mapping<T>>,
    shift: int,
    a: int,
    b: int,
)
    requires
        ordered(before),
        0 <= first <= last <= before.len(),
        new.start_avma <= new.end_avma,
        after == before.subrange(0, first) + heads + seq![new] + tails + before.subrange(
            last,
            before.len() as int,
        ),
        shift == first + heads.len() + 1 + tails.len() - last,
        forall|i: int|
            0 <= i < first ==> (#[trigger] before[i]).start_avma < new.start_avma
                && before[i].end_avma <= new.start_avma,
        forall|i: int|
            last <= i < before.len() ==> (#[trigger] before[i]).start_avma >= new.end_avma
                && before[i].range() != new.range(),
        heads.len() == 0 || heads.len() == 1 && first < last && heads[0].range() == (
            before[first].start_avma,
            new.start_avma,
        ) && before[first].start_avma < new.start_avma,
        tails.len() == 0 || tails.len() == 1 && first < last && tails[0].range() == (
            new.end_avma,
            before[last - 1].end_avma,
        ) && new.end_avma < before[last - 1].end_avma,
        0 <= a < b < after.len(),
    ensures
        in_order(after[a], after[b]),
{
    let h = heads.len() as int;
    let t = tails.len() as int;
    let before_new = first + h;
    if b < first {
        assert(after[a] == before[a] && after[b] == before[b]);
        assert(in_order(before[a], before[b]));
    } else if b < before_new {
        assert(after[a] == before[a] && after[b] == heads[0]);
        assert(in_order(before[a], before[first]));
    } else if b == before_new {
        assert(after[b] == new);
        if a < first {
            assert(after[a] == before[a]);
        } else {
            assert(after[a] == heads[0]);
        }
    } else if b < before_new + 1 + t {
        assert(after[b] == tails[0]);
        if a < first {
            assert(after[a] == before[a]);
        } else if a < before_new {
            assert(after[a] == heads[0]);
        } else {
            assert(after[a] == new);
        }
    } else {
        let j = b - shift;
        assert(after[b] == before[j]);
        if a < first {
            assert(after[a] == before[a]);
            assert(in_order(before[a], before[j]));
        } else if a < before_new {
            assert(after[a] == heads[0]);
            assert(in_order(before[first], before[j]));
        } else if a == before_new {
            assert(after[a] == new);
        } else if a < before_new + 1 + t {
            assert(after[a] == tails[0]);
            assert(in_order(before[last - 1], before[j]));
        } else {
            let i = a - shift;
            assert(after[a] == before[i]);
            assert(in_order(before[i], before[j]));
        }
    }
}

/// Keeping the low 32 bits of an offset is counting modulo 2^32.
proof fn lemma_low_32_bits(offset: u64)
    ensures
        offset as u32 == offset % 0x1_0000_0000,
{
    assert(offset as u32 == offset % 0x1_0000_0000) by (bit_vector);
}

/// The head `[m_start, start_avma)` of the first touched mapping, with the original
/// relative address.
fn head_pieces<T: Clone>(touched_mappings: &Vec<Mapping<T>>, start_avma: u64) -> (res: Vec<Mapping<T>>)
    ensures
        is_head(res@, touched_mappings@, start_avma),
{
    let mut res = Vec::new();
    if touched_mappings.len() > 0 && touched_mappings[0].start_avma < start_avma {
        let m = &touched_mappings[0];
        res.push(
            Mapping {
                start_avma: m.start_avma,
                end_avma: start_avma,
                relative_address_at_start: m.relative_address_at_start,
                value: m.value.clone(),
            },
        );
    }
    res
}

/// The tail `[end_avma, m_end)` of the last touched mapping. It starts
/// `end_avma - m_start` bytes further into the library, so its relative address
/// shifts by that amount.
fn tail_pieces<T>(touched_mappings: Vec<Mapping<T>>, end_avma: u64) -> (res: Vec<Mapping<T>>)
    requires
        touched_mappings@.len() > 0 ==> touched_mappings@.last().start_avma <= end_avma,
    ensures
        is_tail(res@, touched_mappings@, end_avma),
{
    let mut rest = touched_mappings;
    let mut res = Vec::new();
    if let Some(m) = rest.pop() {
        if m.end_avma > end_avma {
            let offset: u64 = end_avma - m.start_avma;
            proof {
                lemma_low_32_bits(offset);
            }
            res.push(
                Mapping {
                    start_avma: end_avma,
                    end_avma: m.end_avma,
                    relative_address_at_start: m.relative_address_at_start.wrapping_add(
                        offset as u32,
                    ),
                    value: m.value,
                },
            );
        }
    }
    res
}

impl<T> LibMappings<T> {
    /// The mapped ranges, each with the relative address at its start and its value.
    pub closed spec fn view(&self) -> Map<(u64, u64), (u32, T)> {
        entries(self.map@)
    }

    /// The mappings are stored in address order and don't overlap.
    pub closed spec fn well_formed(&self) -> bool {
        ordered(self.map@)
    }

    /// Creates a new empty instance.
    pub fn new() -> (res: Self)
        ensures
            res.well_formed(),
            res@ == Map::<(u64, u64), (u32, T)>::empty(),
    {
        let res = Self { map: Vec::new() };
        assert(res@ =~= Map::<(u64, u64), (u32, T)>::empty());
        res
    }

    /// The number of mappings which start before `avma`.
    fn first_at_or_after(&self, avma: u64) -> (res: usize)
        requires
            self.well_formed(),
        ensures
            res <= self.map@.len(),
            forall|i: int| 0 <= i < res ==> (#[trigger] self.map@[i]).start_avma < avma,
            forall|i: int| res <= i < self.map@.len() ==> (#[trigger] self.map@[i]).start_avma >= avma,
    {
        let mut lo: usize = 0;
        let mut hi: usize = self.map.len();
        while lo < hi
            invariant
                self.well_formed(),
                lo <= hi <= self.map@.len(),
                forall|i: int| 0 <= i < lo ==> (#[trigger] self.map@[i]).start_avma < avma,
                forall|i: int| hi <= i < self.map@.len() ==> (#[trigger] self.map@[i]).start_avma >= avma,
            decreases hi - lo,
        {
            let mid: usize = lo + (hi - lo) / 2;
            if self.map[mid].start_avma < avma {
                assert forall|i: int| 0 <= i < mid + 1 implies (#[trigger] self.map@[i]).start_avma
                    < avma by {
                    if i < mid {
                        assert(in_order(self.map@[i], self.map@[mid as int]));
                    }
                }
                lo = mid + 1;
            } else {
                assert forall|i: int| mid <= i < self.map@.len() implies (
                #[trigger] self.map@[i]).start_avma >= avma by {
                    if mid < i {
                        assert(in_order(self.map@[mid as int], self.map@[i]));
                    }
                }
                hi = mid;
            }
        }
        lo
    }

    /// Look up the mapping which covers the given address and return
    /// its `Mapping<T>`.
    fn lookup_impl(&self, avma: u64) -> (res: Option<&Mapping<T>>)
        requires
            self.well_formed(),
        ensures
            match range_at(self@, avma) {
                Some(r) => res matches Some(m) && m.range() == r && m.entry() == self@[r]
                    && self@.contains_key(r) && covers(r, avma),
                None => res is None,
            },
    {
        let after: usize = if avma == u64::MAX {
            self.map.len()
        } else {
            self.first_at_or_after(avma + 1)
        };
        proof {
            lemma_ordered_non_overlapping(self.map@);
            assert forall|r: (u64, u64)| #[trigger]
                self@.contains_key(r) && covers(r, avma) implies after > 0 && r
                == self.map@[after - 1].range() by {
                let i = lemma_has_entry(self.map@, r);
                assert(i < after);
                if i < after - 1 {
                    assert(in_order(self.map@[i], self.map@[after - 1]));
                }
            }
        }
        if after == 0 {
            return None;
        }
        let last = &self.map[after - 1];
        proof {
            lemma_entries(self.map@, after - 1);
        }
        if avma < last.end_avma {
            proof {
                lemma_range_at(self@, last.range(), avma);
            }
            Some(last)
        } else {
            None
        }
    }

    /// Look up the mapping which covers the given address and return
    /// the stored value.
    pub fn lookup(&self, avma: u64) -> (res: Option<&T>)
        requires
            self.well_formed(),
        ensures
            match range_at(self@, avma) {
                Some(r) => res == Some(&self@[r].1),
                None => res is None,
            },
            forall|r: (u64, u64)| #[trigger]
                self@.contains_key(r) && r.0 <= avma < r.1 ==> res == Some(&self@[r].1),
            res is Some ==> exists|r: (u64, u64)| #[trigger]
                self@.contains_key(r) && r.0 <= avma < r.1,
    {
        proof {
            lemma_found_range(self@, avma);
            lemma_ordered_non_overlapping(self.map@);
        }
        match self.lookup_impl(avma) {
            Some(m) => Some(&m.value),
            None => None,
        }
    }
    /// The positions `(first, last)` such that the mappings `first..last` are those
    /// which have to make way for a mapping of `[start_avma, end_avma)`.
    ///
    /// They are neighbours in the address order: one that starts before `start_avma`
    /// and reaches into the new range, then all those that start within it. An empty
    /// mapping makes way for a new empty one.
    fn touched_by(&self, start_avma: u64, end_avma: u64) -> (res: (usize, usize))
        requires
            self.well_formed(),
            start_avma <= end_avma,
        ensures
            res.0 <= res.1 <= self.map@.len(),
            forall|i: int|
                0 <= i < res.0 ==> (#[trigger] self.map@[i]).start_avma < start_avma
                    && self.map@[i].end_avma <= start_avma,
            forall|i: int|
                res.0 <= i < res.1 ==> touched(
                    (#[trigger] self.map@[i]).range(),
                    start_avma,
                    end_avma,
                ),
            forall|i: int|
                res.1 <= i < self.map@.len() ==> (#[trigger] self.map@[i]).start_avma >= end_avma
                    && self.map@[i].range() != (start_avma, end_avma),
    {
        let mut first: usize = self.first_at_or_after(start_avma);
        let mut last: usize = self.first_at_or_after(end_avma);
        if first > 0 && self.map[first - 1].end_avma > start_avma {
            first = first - 1;
            proof {
                if first > 0 {
                    assert(in_order(self.map@[first - 1], self.map@[first as int]));
                }
            }
        }
        if start_avma == end_avma && last < self.map.len() && self.map[last].start_avma == start_avma
            && self.map[last].end_avma == end_avma {
            last = last + 1;
            proof {
                if last < self.map@.len() {
                    assert(in_order(self.map@[last - 1], self.map@[last as int]));
                }
            }
        }
        proof {
            lemma_touched_neighbours(
                self.map@,
                first as int,
                last as int,
                start_avma,
                end_avma,
            );
        }
        (first, last)
    }

    /// Add a mapping to this address space.
    ///
    /// The new mapping reflects the current state of the address range it
    /// covers, so it takes precedence over whatever was mapped there before. But
    /// rather than dropping every existing mapping it touches, we only carve out
    /// the overlapping part and keep each existing mapping's non-overlapping
    /// remainder:
    ///
    /// - a mapping reaching into the new range from the left keeps its head
    ///   `[old_start, start_avma)`;
    /// - a mapping reaching out of the new range to the right keeps its tail
    ///   `[end_avma, old_end)` (its relative address is shifted accordingly);
    /// - a mapping that fully contains the new range keeps both a head and a
    ///   tail piece on either side of it;
    /// - a mapping fully inside the new range is dropped.
    ///
    /// This matters when a small mapping lands inside a larger one, such as the
    /// kernel placing `[vdso]`/`[vvar]` in the gap of an interpreter's
    /// over-long executable mapping. Dropping the larger mapping wholesale would
    /// lose symbolication for everything else it covered; keeping the remainder
    /// preserves it.
    ///
    /// `start_avma` and `end_avma` describe the address range that this mapping
    /// occupies.
    ///
    /// AVMA = "actual virtual memory address"
    ///
    /// `relative_address_at_start` is the "relative address" which corresponds
    /// to `start_avma`, in the library that is mapped in this mapping. This is zero if
    /// `start_avma` is the base address of the library.
    ///
    /// A relative address is a `u32` value which is relative to the library base address.
    /// So you will usually set `relative_address_at_start` to `start_avma - base_avma`.
    pub fn add_mapping(
        &mut self,
        start_avma: u64,
        end_avma: u64,
        relative_address_at_start: u32,
        value: T,
    ) where T: Clone
        requires
            old(self).well_formed(),
            start_avma <= end_avma,
        ensures
            final(self).well_formed(),
            is_carved(
                old(self)@,
                final(self)@,
                start_avma,
                end_avma,
                relative_address_at_start,
                value,
            ),
    {
        let ghost before = self.map@;
        let (first, last) = self.touched_by(start_avma, end_avma);
        let mut after = self.map.split_off(last);
        let mut touched_mappings = self.map.split_off(first);
        let ghost mid = before.subrange(first as int, last as int);
        assert(touched_mappings@ =~= mid);

        let new = Mapping { start_avma, end_avma, relative_address_at_start, value };
        let mut heads = head_pieces(&touched_mappings, start_avma);
        let mut tails = tail_pieces(touched_mappings, end_avma);
        let ghost (head_seq, tail_seq, after_seq) = (heads@, tails@, after@);
        self.map.append(&mut heads);
        self.map.push(new);
        self.map.append(&mut tails);
        self.map.append(&mut after);
        proof {
            assert(self.map@ =~= before.subrange(0, first as int) + head_seq + seq![new] + tail_seq
                + before.subrange(last as int, before.len() as int));
            lemma_carve(before, first as int, last as int, head_seq, new, tail_seq);
        }
    }

    /// Remove a mapping which starts at the given address. If found, this returns
    /// the `relative_address_at_start` and the associated value of the mapping.
    pub fn remove_mapping(&mut self, start_avma: u64) -> (res: Option<(u32, T)>)
        requires
            old(self).well_formed(),
        ensures
            final(self).well_formed(),
            match range_starting_at(old(self)@, start_avma) {
                Some(r) => {
                    &&& old(self)@.contains_key(r) && r.0 == start_avma
                    &&& final(self)@ == old(self)@.remove(r)
                    &&& res == Some(old(self)@[r])
                },
                None => {
                    &&& forall|r: (u64, u64)| #[trigger] old(self)@.contains_key(r) ==> r.0 != start_avma
                    &&& final(self)@ == old(self)@
                    &&& res is None
                },
            },
    {
        let ghost before = self.map@;
        let i: usize = self.first_at_or_after(start_avma);
        if i < self.map.len() && self.map[i].start_avma == start_avma {
            let m = self.map.remove(i);
            proof {
                lemma_entries(before, i as int);
                lemma_first_is_range_starting_at(before, i as int, start_avma);
                lemma_remove_entry(before, i as int);
                assert(self.map@ == before.remove(i as int));
            }
            Some((m.relative_address_at_start, m.value))
        } else {
            proof {
                assert forall|r: (u64, u64)| #[trigger] entries(before).contains_key(r) implies r.0
                    != start_avma by {
                    let k = lemma_has_entry(before, r);
                    if k > i {
                        assert(in_order(before[i as int], before[k]));
                    }
                }
            }
            None
        }
    }

    /// Clear all mappings.
    pub fn clear(&mut self)
        ensures
            final(self).well_formed(),
            final(self)@ == Map::<(u64, u64), (u32, T)>::empty(),
    {
        self.map.clear();
        assert(self@ =~= Map::<(u64, u64), (u32, T)>::empty());
    }

    /// Converts an absolute address (AVMA, actual virtual memory address) into
    /// a relative address and the mapping's associated value.
    ///
    /// The relative address at the start of the mapping plus the offset from there
    /// (in 32 bits) has to fit into 32 bits.
    pub fn convert_address(&self, avma: u64) -> (res: Option<(u32, &T)>)
        requires
            self.well_formed(),
            range_at(self@, avma) matches Some(r) ==> self@[r].0 + (avma - r.0) % 0x1_0000_0000
                <= u32::MAX,
        ensures
            match range_at(self@, avma) {
                Some(r) => res == Some((relative_address(r.0, self@[r].0, avma), &self@[r].1)),
                None => res is None,
            },
            forall|r: (u64, u64)| #[trigger]
                self@.contains_key(r) && r.0 <= avma < r.1 ==> res is Some && (res->0).1
                    == &self@[r].1,
            forall|r: (u64, u64)| #[trigger]
                self@.contains_key(r) && r.0 <= avma < r.1 && self@[r].0 + (avma - r.0) <= u32::MAX
                    ==> (res->0).0 == self@[r].0 + (avma - r.0),
            res is Some ==> exists|r: (u64, u64)| #[trigger]
                self@.contains_key(r) && r.0 <= avma < r.1,
    {
        proof {
            lemma_found_range(self@, avma);
            lemma_ordered_non_overlapping(self.map@);
        }
        match self.lookup_impl(avma) {
            Some(mapping) => {
                let offset: u64 = avma - mapping.start_avma;
                proof {
                    lemma_low_32_bits(offset);
                }
                let offset_from_mapping_start: u32 = offset as u32;
                let relative: u32 = mapping.relative_address_at_start + offset_from_mapping_start;
                Some((relative, &mapping.value))
            },
            None => None,
        }
    }
}

impl<T> Default for LibMappings<T> {
    fn default() -> (res: Self)
        ensures
            res.well_formed(),
            res@ == Map::<(u64, u64), (u32, T)>::empty(),
    {
        Self::new()
    }
}

/// The ranges and their relative addresses are the same, and the values are clones.
pub open spec fn is_clone<T: Clone>(
    old: Map<(u64, u64), (u32, T)>,
    new: Map<(u64, u64), (u32, T)>,
) -> bool {
    &&& new.dom() == old.dom()
    &&& forall|r: (u64, u64)| #[trigger]
        old.contains_key(r) ==> new[r].0 == old[r].0 && cloned(old[r].1, new[r].1)
}

/// A mapping of the same range and relative address, with a clone of the value.
spec fn is_cloned_mapping<T: Clone>(old: Mapping<T>, new: Mapping<T>) -> bool {
    &&& new.range() == old.range()
    &&& new.relative_address_at_start == old.relative_address_at_start
    &&& cloned(old.value, new.value)
}

proof fn lemma_cloned_mappings<T: Clone>(old: Seq<Mapping<T>>, new: Seq<Mapping<T>>)
    requires
        ordered(old),
        new.len() == old.len(),
        forall|i: int| 0 <= i < old.len() ==> is_cloned_mapping(old[i], #[trigger] new[i]),
    ensures
        ordered(new),
        is_clone(entries(old), entries(new)),
{
    assert forall|i: int, j: int| 0 <= i < j < new.len() implies in_order(
        #[trigger] new[i],
        #[trigger] new[j],
    ) by {
        assert(in_order(old[i], old[j]));
    }
    assert forall|i: int| 0 <= i < new.len() implies (#[trigger] new[i]).start_avma
        <= new[i].end_avma by {
        assert(old[i].start_avma <= old[i].end_avma);
    }
    assert forall|r: (u64, u64)| #[trigger] entries(old).contains_key(r) implies {
        &&& entries(new).contains_key(r)
        &&& entries(new)[r].0 == entries(old)[r].0
        &&& cloned(entries(old)[r].1, entries(new)[r].1)
    } by {
        let i = lemma_has_entry(old, r);
        assert(is_cloned_mapping(old[i], new[i]));
        lemma_entries(new, i);
    }
    assert forall|r: (u64, u64)| #[trigger] entries(new).contains_key(r) implies entries(
        old,
    ).contains_key(r) by {
        let i = lemma_has_entry(new, r);
        assert(is_cloned_mapping(old[i], new[i]));
        lemma_entries(old, i);
    }
    assert(entries(new).dom() =~= entries(old).dom());
}

impl<T: Clone> Clone for LibMappings<T> {
    fn clone(&self) -> (res: Self)
        ensures
            self.well_formed() ==> res.well_formed() && is_clone(self@, res@),
    {
        let mut map: Vec<Mapping<T>> = Vec::new();
        let mut i: usize = 0;
        while i < self.map.len()
            invariant
                i <= self.map@.len(),
                map@.len() == i,
                forall|j: int|
                    0 <= j < i ==> is_cloned_mapping(self.map@[j], #[trigger] map@[j]),
            decreases self.map@.len() - i,
        {
            let m = &self.map[i];
            map.push(
                Mapping {
                    start_avma: m.start_avma,
                    end_avma: m.end_avma,
                    relative_address_at_start: m.relative_address_at_start,
                    value: m.value.clone(),
                },
            );
            i = i + 1;
        }
        proof {
            if self.well_formed() {
                lemma_cloned_mappings(self.map@, map@);
            }
        }
        LibMappings { map }
    }
}

/// In a clone every address resolves to the same relative address and to a clone of the
/// value, or to nothing, as in what was cloned.
pub proof fn clones_resolve_alike<T: Clone>(old: LibMappings<T>, new: LibMappings<T>, avma: u64)
    requires
        old.well_formed(),
        new.well_formed(),
        is_clone(old@, new@),
    ensures
        match resolve(old@, avma) {
            Some(was) => resolve(new@, avma) matches Some(is) && is.0 == was.0 && cloned(was.1, is.1),
            None => resolve(new@, avma) is None,
        },
{
    mappings_never_overlap(old);
    mappings_never_overlap(new);
    if let Some(r) = range_at(old@, avma) {
        assert(new@.contains_key(r));
        lemma_range_at(new@, r, avma);
    } else if let Some(r) = range_at(new@, avma) {
        assert(old@.contains_key(r));
    }
}

/// No address is covered by two mappings.
pub proof fn mappings_never_overlap<T>(mappings: LibMappings<T>)
    requires
        mappings.well_formed(),
    ensures
        non_overlapping(mappings@),
{
    lemma_ordered_non_overlapping(mappings.map@);
}

/// With no mappings, no address resolves to anything.
pub proof fn nothing_resolves_without_mappings<T>(avma: u64)
    ensures
        resolve(Map::<(u64, u64), (u32, T)>::empty(), avma) is None,
{
}

/// After a mapping was added, every address in its range resolves to it.
pub proof fn added_range_resolves_to_the_new_mapping<T: Clone>(
    old: LibMappings<T>,
    new: LibMappings<T>,
    start: u64,
    end: u64,
    rel: u32,
    value: T,
    avma: u64,
)
    requires
        old.well_formed(),
        new.well_formed(),
        is_carved(old@, new@, start, end, rel, value),
        start <= avma < end,
    ensures
        resolve(new@, avma) == Some((relative_address(start, rel, avma), value)),
{
    mappings_never_overlap(new);
    assert(new@.contains_key((start, end)));
    lemma_range_at(new@, (start, end), avma);
}

/// Adding a mapping changes nothing for an address outside of its range: it
/// resolves to the same relative address and to the same value (or, for the piece
/// in front of the new mapping, to a clone of it) as before, or to nothing, as before.
pub proof fn other_addresses_resolve_as_before<T: Clone>(
    old: LibMappings<T>,
    new: LibMappings<T>,
    start: u64,
    end: u64,
    rel: u32,
    value: T,
    avma: u64,
)
    requires
        old.well_formed(),
        new.well_formed(),
        start <= end,
        is_carved(old@, new@, start, end, rel, value),
        !(start <= avma < end),
    ensures
        match resolve(old@, avma) {
            Some(was) => resolve(new@, avma) matches Some(is) && is.0 == was.0 && cloned(was.1, is.1),
            None => resolve(new@, avma) is None,
        },
{
    mappings_never_overlap(old);
    mappings_never_overlap(new);
    match range_at(old@, avma) {
        Some(r) => {
            if !touched(r, start, end) {
                assert(new@.contains_key(r));
                lemma_range_at(new@, r, avma);
            } else if avma < start {
                assert(keeps_head(r, start));
                assert(new@.contains_key((r.0, start)));
                lemma_range_at(new@, (r.0, start), avma);
            } else {
                assert(keeps_tail(r, end));
                assert(new@.contains_key((end, r.1)));
                lemma_range_at(new@, (end, r.1), avma);
            }
        },
        None => {
            if let Some(q) = range_at(new@, avma) {
                assert(new@.contains_key(q) && covers(q, avma));
                assert(range_after_add(old@, start, end, q));
                if old@.contains_key(q) {
                    lemma_range_at(old@, q, avma);
                } else if exists|r: (u64, u64)| #[trigger] old@.contains_key(r) && keeps_head(r, start) && q == (r.0, start) {
                    let r = choose|r: (u64, u64)| #[trigger] old@.contains_key(r) && keeps_head(r, start) && q == (r.0, start);
                    lemma_range_at(old@, r, avma);
                } else {
                    let r = choose|r: (u64, u64)| #[trigger] old@.contains_key(r) && keeps_tail(r, end) && q == (end, r.1);
                    lemma_range_at(old@, r, avma);
                }
            }
        },
    }
}

/// An address in a mapped range resolves to the value of the mapping and to the relative address
/// at its start and the distance from there, of which 32 bits are kept; an address in none of
/// the ranges resolves to nothing.
pub proof fn relative_addresses_advance_with_the_address<T>(
    mappings: LibMappings<T>,
    range: (u64, u64),
    avma: u64,
)
    requires
        mappings.well_formed(),
    ensures
        mappings@.contains_key(range) && range.0 <= avma < range.1 ==> resolve(mappings@, avma)
            is Some && (resolve(mappings@, avma)->0).1 == mappings@[range].1,
        mappings@.contains_key(range) && range.0 <= avma < range.1 && mappings@[range].0 + (avma
            - range.0) <= u32::MAX ==> (resolve(mappings@, avma)->0).0 == mappings@[range].0 + (avma
            - range.0),
        mappings@.contains_key(range) && range.0 <= avma < range.1 ==> (mappings@[range].0 + (avma
            - range.0) - (resolve(mappings@, avma)->0).0) % 0x1_0000_0000 == 0,
        resolve(mappings@, avma) is Some ==> exists|r: (u64, u64)| #[trigger]
            mappings@.contains_key(r) && r.0 <= avma < r.1,
{
    mappings_never_overlap(mappings);
    lemma_found_range(mappings@, avma);
}

/// A new mapping has its range, relative address and value. What an existing mapping has in
/// front of it keeps its relative address; what it has behind it starts as much further into
/// the library as it lies behind the start of the existing mapping; and what the new mapping
/// does not overlap stays as it is.
pub proof fn pieces_keep_their_place_in_the_library<T: Clone>(
    old: LibMappings<T>,
    new: LibMappings<T>,
    start: u64,
    end: u64,
    rel: u32,
    value: T,
    range: (u64, u64),
)
    requires
        old.well_formed(),
        start < end,
        is_carved(old@, new@, start, end, rel, value),
        old@.contains_key(range),
    ensures
        new@.contains_key((start, end)) && new@[(start, end)] == (rel, value),
        range.0 < start < range.1 ==> new@.contains_key((range.0, start)) && new@[(
            range.0,
            start,
        )].0 == old@[range].0 && cloned(old@[range].1, new@[(range.0, start)].1),
        range.0 < end < range.1 ==> new@.contains_key((end, range.1)) && new@[(end, range.1)].1
            == old@[range].1,
        range.0 < end < range.1 && old@[range].0 + (end - range.0) <= u32::MAX ==> new@[(
            end,
            range.1,
        )].0 == old@[range].0 + (end - range.0),
        range.1 <= start && range.0 < start || end <= range.0 ==> new@.contains_key(range)
            && new@[range] == old@[range],
        start <= range.0 && range.1 <= end && range.0 < end && range != (start, end)
            ==> !new@.contains_key(range),
{
    mappings_never_overlap(old);
    if start <= range.0 && range.1 <= end && range.0 < end && range != (start, end) {
        if new@.contains_key(range) {
            assert(range_after_add(old@, start, end, range));
        }
    }
}

/// After the mapping of the range `r` was removed, the addresses that it covered
/// resolve to nothing, and all others resolve as before.
pub proof fn removing_a_mapping_frees_its_range<T>(
    old: LibMappings<T>,
    new: LibMappings<T>,
    r: (u64, u64),
    avma: u64,
)
    requires
        old.well_formed(),
        new.well_formed(),
        old@.contains_key(r),
        new@ == old@.remove(r),
    ensures
        covers(r, avma) ==> resolve(new@, avma) is None,
        !covers(r, avma) ==> resolve(new@, avma) == resolve(old@, avma),
{
    mappings_never_overlap(old);
    mappings_never_overlap(new);
    if let Some(q) = range_at(new@, avma) {
        assert(new@.contains_key(q) && covers(q, avma));
        lemma_range_at(old@, q, avma);
    }
    if let Some(q) = range_at(old@, avma) {
        assert(old@.contains_key(q) && covers(q, avma));
        if q != r {
            assert(new@.contains_key(q));
            lemma_range_at(new@, q, avma);
        }
    }
    if covers(r, avma) {
        lemma_range_at(old@, r, avma);
    }
}

/// The range that is found for a start has this start and is mapped, and there is one if any
/// mapped range has the start. Of an empty and another range, the empty one is found.
pub proof fn ranges_are_found_by_their_start<T>(
    mappings: LibMappings<T>,
    range: (u64, u64),
    start: u64,
)
    ensures
        range_starting_at(mappings@, start) matches Some(r) ==> mappings@.contains_key(r) && r.0
            == start,
        mappings@.contains_key(range) ==> range_starting_at(mappings@, range.0) is Some,
        mappings@.contains_key((start, start)) ==> range_starting_at(mappings@, start) == Some(
            (start, start),
        ),
{
}

} // verus!
