//! Which CPUs and threads there are.

use crate::text::{chars_of, decimal, decimal_digits_read_back, decimal_u32, digit, find, find_char,
    is_blank, is_graphic, joined_with, lacks, lemma_find, parse_decimal_u32, pieces_view, split,
    split_at_each, splitting_undoes_joining, trim, trimmed, trimming_takes_the_blanks};
use vstd::prelude::*;
use vstd::slice::slice_subrange;

verus! {

/// The ids from `start` to `end`, both included.
pub open spec fn id_range(start: u32, end: u32) -> Seq<u32> {
    Seq::new(
        if start <= end {
            (end - start + 1) as nat
        } else {
            0
        },
        |i: int| (start + i) as u32,
    )
}

/// The ids that one part of a list stands for: an id, or a range `<start>-<end>`. An empty
/// part stands for none.
pub open spec fn ids_in_part(part: Seq<char>) -> Option<Seq<u32>> {
    let i = find(part, '-');
    if part.len() == 0 {
        Some(seq![])
    } else if i < part.len() {
        match (decimal_u32(trim(part.take(i))), decimal_u32(trim(part.skip(i + 1)))) {
            (Some(start), Some(end)) => Some(id_range(start, end)),
            _ => None,
        }
    } else {
        match decimal_u32(trim(part)) {
            Some(id) => Some(seq![id]),
            None => None,
        }
    }
}

/// The ids that the parts stand for, in their order.
pub open spec fn ids_in_parts(parts: Seq<Seq<char>>) -> Option<Seq<u32>>
    decreases parts.len(),
{
    if parts.len() == 0 {
        Some(seq![])
    } else {
        match (ids_in_parts(parts.drop_last()), ids_in_part(parts.last())) {
            (Some(before), Some(ids)) => Some(before + ids),
            _ => None,
        }
    }
}

/// The ids in a comma-separated list of ids and ranges, e.g. `"0-3,5,8-11"`; `None` if there
/// are none, or something else is in it.
pub open spec fn ids_in_list(list: Seq<char>) -> Option<Seq<u32>> {
    match ids_in_parts(split(trim(list), ',')) {
        Some(ids) => if ids.len() > 0 {
            Some(ids)
        } else {
            None
        },
        None => None,
    }
}

fn push_id_range(ids: &mut Vec<u32>, start: u32, end: u32)
    ensures
        final(ids)@ == old(ids)@ + id_range(start, end),
{
    let ghost all = id_range(start, end);
    if start > end {
        assert(ids@ =~= old(ids)@ + all);
        return;
    }
    let mut id: u32 = start;
    assert(ids@ =~= old(ids)@ + all.take(0));
    while id < end
        invariant
            start <= id <= end,
            all == id_range(start, end),
            ids@ == old(ids)@ + all.take(id - start),
        decreases end - id,
    {
        assert(old(ids)@ + all.take(id - start + 1) =~= (old(ids)@ + all.take(id - start)).push(
            all[id - start],
        ));
        ids.push(id);
        id = id + 1;
    }
    ids.push(end);
    assert(ids@ =~= old(ids)@ + all);
}

fn push_ids_in_part(ids: &mut Vec<u32>, part: &[char]) -> (res: bool)
    ensures
        match ids_in_part(part@) {
            Some(more) => res && final(ids)@ == old(ids)@ + more,
            None => !res,
        },
{
    if part.len() == 0 {
        assert(ids@ =~= old(ids)@ + Seq::<u32>::empty());
        return true;
    }
    let i: usize = find_char(part, '-');
    if i < part.len() {
        let left = slice_subrange(part, 0, i);
        let right = slice_subrange(part, i + 1, part.len());
        assert(left@ =~= part@.take(i as int));
        assert(right@ =~= part@.skip(i + 1));
        match (parse_decimal_u32(trimmed(left)), parse_decimal_u32(trimmed(right))) {
            (Some(start), Some(end)) => {
                push_id_range(ids, start, end);
                true
            },
            _ => false,
        }
    } else {
        match parse_decimal_u32(trimmed(part)) {
            Some(id) => {
                ids.push(id);
                assert(ids@ =~= old(ids)@ + seq![id]);
                true
            },
            None => false,
        }
    }
}

proof fn lemma_bad_part(parts: Seq<Seq<char>>, n: int)
    requires
        0 <= n <= parts.len(),
        ids_in_parts(parts.take(n)) is None,
    ensures
        ids_in_parts(parts) is None,
    decreases parts.len() - n,
{
    if n < parts.len() {
        assert(parts.take(n + 1).drop_last() =~= parts.take(n));
        lemma_bad_part(parts, n + 1);
    } else {
        assert(parts.take(n) =~= parts);
    }
}

/// The ids in a comma-separated list of ids and ranges, e.g. `"0-3,5,8-11"`; `None` if there
/// are none, or something else is in it.
pub fn parse_id_list(list: &str) -> (res: Option<Vec<u32>>)
    ensures
        match ids_in_list(list@) {
            Some(ids) => res matches Some(v) && v@ == ids,
            None => res is None,
        },
{
    let chars = chars_of(list);
    let parts = split_at_each(trimmed(chars.as_slice()), ',');
    let ghost all = pieces_view(parts@);
    let mut ids: Vec<u32> = Vec::new();
    let mut i: usize = 0;
    assert(all.take(0) =~= seq![]);
    while i < parts.len()
        invariant
            i <= parts@.len(),
            all == pieces_view(parts@),
            all == split(trim(list@), ','),
            ids_in_parts(all.take(i as int)) == Some(ids@),
        decreases parts@.len() - i,
    {
        assert(all.take(i + 1).drop_last() =~= all.take(i as int));
        assert(all.take(i + 1).last() == parts@[i as int]@);
        if !push_ids_in_part(&mut ids, parts[i]) {
            proof {
                lemma_bad_part(all, i + 1);
            }
            return None;
        }
        i = i + 1;
    }
    assert(all.take(all.len() as int) =~= all);
    if ids.len() > 0 {
        Some(ids)
    } else {
        None
    }
}

/// Every online CPU on the machine, as `/sys/devices/system/cpu/online` lists them, if it
/// could be read.
///
/// The number of CPUs would be wrong here: it counts only the CPUs in the
/// caller's cpuset, but we need the CPUs the *profiled* process can run on, and
/// that process may be confined to a disjoint cpuset we can't observe from here.
/// Falls back to `0..cpu_count` if sysfs is unreadable.
pub fn online_cpus(sysfs: Option<&str>, cpu_count: u32) -> (res: Vec<u32>)
    ensures
        res@ == (match sysfs {
            Some(list) => match ids_in_list(list@) {
                Some(ids) => ids,
                None => Seq::new(cpu_count as nat, |i: int| i as u32),
            },
            None => Seq::new(cpu_count as nat, |i: int| i as u32),
        }),
{
    if let Some(list) = sysfs {
        if let Some(ids) = parse_id_list(list) {
            return ids;
        }
    }
    let mut ids: Vec<u32> = Vec::new();
    if cpu_count > 0 {
        push_id_range(&mut ids, 0, cpu_count - 1);
    }
    assert(ids@ =~= Seq::new(cpu_count as nat, |i: int| i as u32));
    ids
}

/// The names of a list.
pub open spec fn texts_of(names: Seq<String>) -> Seq<Seq<char>> {
    names.map_values(|s: String| s@)
}

/// The thread ids that the names stand for, without `pid`; `None` if a name is no id.
pub open spec fn threads_in(names: Seq<Seq<char>>, pid: u32) -> Option<Seq<u32>>
    decreases names.len(),
{
    if names.len() == 0 {
        Some(seq![])
    } else {
        match (threads_in(names.drop_last(), pid), decimal_u32(names.last())) {
            (Some(before), Some(tid)) => if tid == pid {
                Some(before)
            } else {
                Some(before.push(tid))
            },
            _ => None,
        }
    }
}

proof fn lemma_bad_thread(names: Seq<Seq<char>>, pid: u32, n: int)
    requires
        0 <= n <= names.len(),
        threads_in(names.take(n), pid) is None,
    ensures
        threads_in(names, pid) is None,
    decreases names.len() - n,
{
    if n < names.len() {
        assert(names.take(n + 1).drop_last() =~= names.take(n));
        lemma_bad_thread(names, pid, n + 1);
    } else {
        assert(names.take(n) =~= names);
    }
}

/// The threads of a process but for its first one, from the names of the entries of
/// `/proc/<pid>/task`; `None` if one of them is no id.
pub fn get_threads(names: &Vec<String>, pid: u32) -> (res: Option<Vec<u32>>)
    ensures
        match threads_in(texts_of(names@), pid) {
            Some(tids) => res matches Some(v) && v@ == tids,
            None => res is None,
        },
{
    let ghost all = texts_of(names@);
    let mut tids: Vec<u32> = Vec::new();
    let mut i: usize = 0;
    assert(all.take(0) =~= seq![]);
    while i < names.len()
        invariant
            i <= names@.len(),
            all == texts_of(names@),
            threads_in(all.take(i as int), pid) == Some(tids@),
        decreases names@.len() - i,
    {
        assert(all.take(i + 1).drop_last() =~= all.take(i as int));
        assert(all.take(i + 1).last() == names@[i as int]@);
        match parse_decimal_u32(chars_of(names[i].as_str()).as_slice()) {
            Some(tid) => {
                if tid != pid {
                    tids.push(tid);
                }
            },
            None => {
                proof {
                    lemma_bad_thread(all, pid, i + 1);
                }
                return None;
            },
        }
        i = i + 1;
    }
    assert(all.take(all.len() as int) =~= all);
    Some(tids)
}

/// A process is not among its other threads.
pub proof fn a_process_is_not_its_own_thread(names: Seq<Seq<char>>, pid: u32)
    ensures
        threads_in(names, pid) matches Some(tids) ==> !tids.contains(pid),
    decreases names.len(),
{
    if names.len() > 0 {
        a_process_is_not_its_own_thread(names.drop_last(), pid);
    }
}

/// A range of ids holds just the ids from its start to its end, both included, in their order.
pub proof fn ranges_hold_all_their_ids(start: u32, end: u32, id: u32)
    ensures
        id_range(start, end).contains(id) <==> start <= id <= end,
        forall|i: int, j: int|
            0 <= i < j < id_range(start, end).len() ==> id_range(start, end)[i] < id_range(
                start,
                end,
            )[j],
{
    if start <= id <= end {
        assert(id_range(start, end)[id - start] == id);
    }
}

/// A range as it is written in a list: `<start>-<end>`, or an id if it holds only that.
pub open spec fn written_range(range: (u32, u32)) -> Seq<char> {
    if range.0 == range.1 {
        decimal(range.0 as nat)
    } else {
        decimal(range.0 as nat) + seq!['-'] + decimal(range.1 as nat)
    }
}

/// The ids of the ranges, one range after the other.
pub open spec fn ids_of_ranges(ranges: Seq<(u32, u32)>) -> Seq<u32>
    decreases ranges.len(),
{
    if ranges.len() == 0 {
        seq![]
    } else {
        ids_of_ranges(ranges.drop_last()) + id_range(ranges.last().0, ranges.last().1)
    }
}

proof fn lemma_id_text(n: u32)
    ensures
        decimal_u32(decimal(n as nat)) == Some(n),
        trim(decimal(n as nat)) == decimal(n as nat),
        decimal(n as nat).len() > 0,
        forall|i: int|
            0 <= i < decimal(n as nat).len() ==> is_graphic(#[trigger] decimal(n as nat)[i])
                && decimal(n as nat)[i] != '-' && decimal(n as nat)[i] != ',',
{
    let digits = decimal(n as nat);
    decimal_digits_read_back(n as nat);
    assert forall|i: int| 0 <= i < digits.len() implies is_graphic(#[trigger] digits[i])
        && digits[i] != '-' && digits[i] != ',' && digits[i] != '+' by {
        assert(digit(digits[i], 10) is Some);
    }
    trimming_takes_the_blanks(seq![], digits, seq![]);
    assert(seq![] + digits + seq![] =~= digits);
}

proof fn lemma_written_range(range: (u32, u32))
    requires
        range.0 <= range.1,
    ensures
        ids_in_part(written_range(range)) == Some(id_range(range.0, range.1)),
        written_range(range).len() > 0,
        forall|i: int|
            0 <= i < written_range(range).len() ==> is_graphic(#[trigger] written_range(range)[i])
                && written_range(range)[i] != ',',
{
    let text = written_range(range);
    let (left, right) = (decimal(range.0 as nat), decimal(range.1 as nat));
    lemma_id_text(range.0);
    lemma_id_text(range.1);
    if range.0 == range.1 {
        lemma_find(text, '-', text.len() as int);
        assert(id_range(range.0, range.1) =~= seq![range.0]);
    } else {
        assert(text[left.len() as int] == '-');
        assert forall|j: int| 0 <= j < left.len() implies text[j] != '-' by {
            assert(text[j] == left[j]);
        }
        lemma_find(text, '-', left.len() as int);
        assert(text.take(left.len() as int) =~= left);
        assert(text.skip(left.len() as int + 1) =~= right);
        assert forall|i: int| 0 <= i < text.len() implies is_graphic(#[trigger] text[i]) && text[i]
            != ',' by {
            if i < left.len() {
                assert(text[i] == left[i]);
            } else if i > left.len() {
                assert(text[i] == right[i - left.len() - 1]);
            }
        }
    }
}

proof fn lemma_parts_of_ranges(ranges: Seq<(u32, u32)>)
    requires
        forall|i: int| 0 <= i < ranges.len() ==> (#[trigger] ranges[i]).0 <= ranges[i].1,
    ensures
        ids_in_parts(ranges.map_values(|r: (u32, u32)| written_range(r))) == Some(
            ids_of_ranges(ranges),
        ),
    decreases ranges.len(),
{
    let parts = ranges.map_values(|r: (u32, u32)| written_range(r));
    if ranges.len() > 0 {
        let front = ranges.drop_last();
        lemma_parts_of_ranges(front);
        lemma_written_range(ranges.last());
        assert(parts.drop_last() =~= front.map_values(|r: (u32, u32)| written_range(r)));
        assert(parts.last() == written_range(ranges.last()));
    }
}

proof fn lemma_joined_ends(pieces: Seq<Seq<char>>, c: char)
    requires
        pieces.len() > 0,
        forall|i: int| 0 <= i < pieces.len() ==> (#[trigger] pieces[i]).len() > 0,
    ensures
        joined_with(pieces, c).len() > 0,
        joined_with(pieces, c)[0] == pieces[0][0],
        joined_with(pieces, c).last() == pieces.last().last(),
    decreases pieces.len(),
{
    if pieces.len() > 1 {
        lemma_joined_ends(pieces.drop_first(), c);
    }
}

/// A list of CPUs as the kernel writes it reads back: the ranges with commas between them, and
/// a newline at the end, give all ids of the ranges in their order.
pub proof fn lists_of_cpus_read_back(ranges: Seq<(u32, u32)>, end: Seq<char>)
    requires
        ranges.len() > 0,
        forall|i: int| 0 <= i < ranges.len() ==> (#[trigger] ranges[i]).0 <= ranges[i].1,
        is_blank(end),
    ensures
        ids_in_list(
            joined_with(ranges.map_values(|r: (u32, u32)| written_range(r)), ',') + end,
        ) == Some(ids_of_ranges(ranges)),
{
    let parts = ranges.map_values(|r: (u32, u32)| written_range(r));
    let list = joined_with(parts, ',');
    assert forall|i: int| 0 <= i < parts.len() implies (#[trigger] parts[i]).len() > 0 && lacks(
        parts[i],
        ',',
    ) && is_graphic(parts[i][0]) && is_graphic(parts[i].last()) by {
        lemma_written_range(ranges[i]);
        assert(parts[i] == written_range(ranges[i]));
    }
    lemma_joined_ends(parts, ',');
    trimming_takes_the_blanks(seq![], list, end);
    assert(seq![] + list + end =~= list + end);
    splitting_undoes_joining(parts, ',');
    lemma_parts_of_ranges(ranges);
    let last = ranges.last();
    assert(last.0 <= last.1) by {
        assert(ranges[ranges.len() - 1] == last);
    }
    assert(ids_of_ranges(ranges).len() >= id_range(last.0, last.1).len());
}

/// The other threads of a process are just those whose ids are among the names, in their order
/// and without the process itself; a name that is no id leaves nothing of them.
pub proof fn threads_are_those_that_are_named(names: Seq<Seq<char>>, pid: u32, tid: u32)
    ensures
        threads_in(names, pid) is None <==> exists|i: int|
            0 <= i < names.len() && decimal_u32(#[trigger] names[i]) is None,
        threads_in(names, pid) matches Some(tids) ==> (tids.contains(tid) <==> tid != pid && exists|
            i: int,
        |
            0 <= i < names.len() && decimal_u32(#[trigger] names[i]) == Some(tid)),
        (threads_in(names, pid) is Some && forall|i: int|
            0 <= i < names.len() ==> decimal_u32(#[trigger] names[i]) != Some(pid))
            ==> (threads_in(names, pid)->0).len() == names.len(),
    decreases names.len(),
{
    if names.len() > 0 {
        let front = names.drop_last();
        let last = names.last();
        threads_are_those_that_are_named(front, pid, tid);
        assert(names[names.len() - 1] == last);
        assert forall|i: int| 0 <= i < front.len() implies #[trigger] names[i] == front[i] by {}
        if threads_in(front, pid) is None {
            let i = choose|i: int| 0 <= i < front.len() && decimal_u32(#[trigger] front[i]) is None;
            assert(decimal_u32(names[i]) is None);
        }
        if exists|i: int| 0 <= i < names.len() && decimal_u32(#[trigger] names[i]) is None {
            let i = choose|i: int| 0 <= i < names.len() && decimal_u32(#[trigger] names[i]) is None;
            if i < front.len() {
                assert(decimal_u32(front[i]) is None);
            }
        }
        if exists|i: int| 0 <= i < front.len() && decimal_u32(#[trigger] front[i]) == Some(tid) {
            let i = choose|i: int|
                0 <= i < front.len() && decimal_u32(#[trigger] front[i]) == Some(tid);
            assert(decimal_u32(names[i]) == Some(tid));
        }
        if exists|i: int| 0 <= i < names.len() && decimal_u32(#[trigger] names[i]) == Some(tid) {
            let i = choose|i: int|
                0 <= i < names.len() && decimal_u32(#[trigger] names[i]) == Some(tid);
            if i < front.len() {
                assert(decimal_u32(front[i]) == Some(tid));
            }
        }
        if let Some(tids) = threads_in(names, pid) {
            let before = threads_in(front, pid)->0;
            if before.contains(tid) {
                let k = choose|k: int| 0 <= k < before.len() && before[k] == tid;
                assert(tids[k] == tid);
            }
            if tids.contains(tid) {
                let k = choose|k: int| 0 <= k < tids.len() && tids[k] == tid;
                if k < before.len() {
                    assert(before[k] == tid);
                }
            }
            if decimal_u32(last) == Some(tid) && tid != pid {
                assert(tids[before.len() as int] == tid);
            }
            if forall|i: int| 0 <= i < names.len() ==> decimal_u32(#[trigger] names[i]) != Some(pid) {
                assert forall|i: int| 0 <= i < front.len() implies decimal_u32(#[trigger] front[i])
                    != Some(pid) by {
                    assert(names[i] == front[i]);
                }
                assert(decimal_u32(names[names.len() - 1]) != Some(pid));
            }
        }
    }
}

/// A list that is read stands for one id at least.
pub proof fn lists_of_cpus_hold_some(list: Seq<char>)
    ensures
        ids_in_list(list) matches Some(ids) ==> ids.len() > 0,
{
}

} // verus!
