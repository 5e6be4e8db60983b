//! The fields of V8's code log: addresses, function names, source locations, and the
//! position tables of optimized code.

use crate::text::{decimal, decimal_digits_read_back, decimal_u32, digit, digit_of, digits_value, find,
    find_char, has_prefix, hexadecimal, hexadecimal_digits_read_back, joined_with, lacks,
    lemma_digits_value_monotonic, lemma_find, lemma_rfind, number, parse_decimal_u32, parse_number,
    pieces_view, rfind, rfind_char, split, split_at_each, splitting_undoes_joining, starts_with,
    string_of};
use vstd::prelude::*;
use vstd::slice::slice_subrange;

verus! {

/// The address that a hexadecimal number, with or without `0x`, stands for.
pub open spec fn hex(s: Seq<char>) -> Option<u64> {
    let digits = if starts_with(s, seq!['0', 'x']) {
        s.skip(2)
    } else {
        s
    };
    match number(digits, 16, u64::MAX as nat) {
        Some(v) => Some(v as u64),
        None => None,
    }
}

/// Reads an address: a hexadecimal number, with or without `0x`.
pub fn parse_hex(s: &[char]) -> (res: Option<u64>)
    ensures
        res == hex(s@),
{
    let prefix: [char; 2] = ['0', 'x'];
    assert(prefix@ =~= seq!['0', 'x']);
    if has_prefix(s, &prefix) {
        let rest = slice_subrange(s, 2, s.len());
        assert(rest@ =~= s@.skip(2));
        parse_number(rest, 16)
    } else {
        parse_number(s, 16)
    }
}

/// A function name and its location, which stand apart at the first space.
pub open spec fn name_parts(name: Seq<char>) -> (Seq<char>, Seq<char>) {
    let i = find(name, ' ');
    if i < name.len() {
        (name.take(i), name.skip(i + 1))
    } else {
        (name, seq![])
    }
}

/// `"getNoiseRatio /path/x.ts:28:23"` -> `("getNoiseRatio", "/path/x.ts:28:23")`;
/// an anonymous function `" /path/x.ts:17:32"` -> `("", "/path/x.ts:17:32")`.
pub fn parse_name(name: &[char]) -> (res: (String, String))
    ensures
        (res.0@, res.1@) == name_parts(name@),
{
    let i: usize = find_char(name, ' ');
    if i < name.len() {
        let func = slice_subrange(name, 0, i);
        let loc = slice_subrange(name, i + 1, name.len());
        assert(func@ =~= name@.take(i as int));
        assert(loc@ =~= name@.skip(i + 1));
        (string_of(func), string_of(loc))
    } else {
        (string_of(name), String::new())
    }
}

/// The decimal number that `s` stands for, or 0.
pub open spec fn number_or_zero(s: Seq<char>) -> u32 {
    match decimal_u32(s) {
        Some(v) => v,
        None => 0,
    }
}

/// The file, line and column of a source location `<file>:<line>:<col>`, taken from
/// its end. What is missing or not a number is empty or 0.
pub open spec fn location_parts(loc: Seq<char>) -> (Seq<char>, u32, u32) {
    let i = rfind(loc, ':');
    if i == 0 {
        (seq![], 0, number_or_zero(loc))
    } else {
        let before = loc.take(i - 1);
        let col = number_or_zero(loc.skip(i));
        let j = rfind(before, ':');
        if j == 0 {
            (seq![], number_or_zero(before), col)
        } else {
            (before.take(j - 1), number_or_zero(before.skip(j)), col)
        }
    }
}

fn parse_or_zero(s: &[char]) -> (res: u32)
    ensures
        res == number_or_zero(s@),
{
    match parse_decimal_u32(s) {
        Some(v) => v,
        None => 0,
    }
}

/// `"/path/x.ts:28:23"` -> `("/path/x.ts", 28, 23)`.
pub fn parse_location(loc: &[char]) -> (res: (String, u32, u32))
    ensures
        (res.0@, res.1, res.2) == location_parts(loc@),
{
    let i: usize = rfind_char(loc, ':');
    if i == 0 {
        return (String::new(), 0, parse_or_zero(loc));
    }
    let before = slice_subrange(loc, 0, i - 1);
    let last = slice_subrange(loc, i, loc.len());
    assert(before@ =~= loc@.take(i - 1));
    assert(last@ =~= loc@.skip(i as int));
    let col: u32 = parse_or_zero(last);
    let j: usize = rfind_char(before, ':');
    if j == 0 {
        return (String::new(), parse_or_zero(before), col);
    }
    let file = slice_subrange(before, 0, j - 1);
    let line = slice_subrange(before, j, before.len());
    assert(file@ =~= before@.take(j - 1));
    assert(line@ =~= before@.skip(j as int));
    (string_of(file), parse_or_zero(line), col)
}

/// The end of the run of decimal digits that starts at `i`.
pub open spec fn run_end(b: Seq<char>, i: int) -> int
    decreases b.len() - i,
{
    if 0 <= i < b.len() && digit(b[i], 10) is Some {
        run_end(b, i + 1)
    } else {
        i
    }
}

/// The value of the run of decimal digits that starts at `i`; 0 for an empty run.
pub open spec fn run_value(b: Seq<char>, i: int) -> nat {
    digits_value(b.subrange(i, run_end(b, i)), 10)
}

pub proof fn lemma_run_end(b: Seq<char>, i: int)
    requires
        0 <= i <= b.len(),
    ensures
        i <= run_end(b, i) <= b.len(),
    decreases b.len() - i,
{
    if i < b.len() && digit(b[i], 10) is Some {
        lemma_run_end(b, i + 1);
    }
}

/// Reads the run of decimal digits at `i` and moves `i` behind it. The result is
/// `None` if the value doesn't fit into 32 bits.
pub fn read_u32(b: &[char], i: &mut usize) -> (res: Option<u32>)
    requires
        *old(i) <= b@.len(),
    ensures
        *old(i) <= *final(i) <= b@.len(),
        res is Some <==> run_value(b@, *old(i) as int) <= u32::MAX,
        res matches Some(v) ==> v == run_value(b@, *old(i) as int) && *final(i) == run_end(
            b@,
            *old(i) as int,
        ),
{
    let start: usize = *i;
    let mut n: u32 = 0;
    let mut k: usize = start;
    let ghost end = run_end(b@, start as int);
    let ghost run = b@.subrange(start as int, end);
    proof {
        lemma_run_end(b@, start as int);
    }
    assert(run.take(0) =~= seq![]);
    while k < b.len()
        invariant_except_break
            start <= k <= b@.len(),
            start <= end <= b@.len(),
            run == b@.subrange(start as int, end),
            run_end(b@, start as int) == end,
            run_end(b@, k as int) == end,
            k <= end,
            n == digits_value(run.take(k - start), 10),
        invariant
            start == *old(i),
            start == *i,
        ensures
            k == end,
            start <= k <= b@.len(),
            run == b@.subrange(start as int, end),
            run_end(b@, start as int) == end,
            n == digits_value(run.take(k - start), 10),
        decreases b@.len() - k,
    {
        let d: u64 = match digit_of(b[k], 10) {
            Some(d) => d,
            None => {
                break;
            },
        };
        proof {
            lemma_run_end(b@, k + 1);
            let t = run.take(k + 1 - start);
            assert(t.drop_last() =~= run.take(k - start));
            assert(t.last() == b@[k as int]);
            lemma_digits_value_monotonic(run, k + 1 - start, 10);
        }
        let wide: u64 = (n as u64) * 10 + d;
        if wide > u32::MAX as u64 {
            return None;
        }
        n = wide as u32;
        k = k + 1;
    }
    assert(run.take(k - start) =~= run);
    *i = k;
    Some(n)
}

/// What a position table holds at some place: the number behind the first letter of the
/// entry, the script offset behind an `O`, and the id behind an `I` (if there is one),
/// together with the place behind the entry.
pub enum TableEntry<N> {
    /// There is no well-formed entry here: the table ends.
    End,
    /// One of the numbers doesn't fit.
    TooLarge,
    /// A well-formed entry.
    Entry(N, u32, Option<u32>, int),
}

/// The part of a table entry that starts with the `O` at `i`.
pub open spec fn entry_from_offset<N>(b: Seq<char>, number: N, i: int) -> TableEntry<N> {
    if !(0 <= i < b.len()) || b[i] != 'O' {
        TableEntry::End
    } else {
        let id = run_end(b, i + 1);
        if run_value(b, i + 1) > u32::MAX {
            TableEntry::TooLarge
        } else if !(id < b.len()) || b[id] != 'I' {
            TableEntry::Entry(number, run_value(b, i + 1) as u32, None, id)
        } else if run_value(b, id + 1) > u32::MAX {
            TableEntry::TooLarge
        } else {
            TableEntry::Entry(
                number,
                run_value(b, i + 1) as u32,
                Some(run_value(b, id + 1) as u32),
                run_end(b, id + 1),
            )
        }
    }
}

/// The entry `C<code offset>O<script offset>[I<inlining id>]` at `i`.
pub open spec fn position_at(b: Seq<char>, i: int) -> TableEntry<u32> {
    if !(0 <= i < b.len()) || b[i] != 'C' {
        TableEntry::End
    } else if run_value(b, i + 1) > u32::MAX {
        TableEntry::TooLarge
    } else {
        entry_from_offset(b, run_value(b, i + 1) as u32, run_end(b, i + 1))
    }
}

/// A 32-bit number as an index: one that doesn't fit into 31 bits turns negative.
pub open spec fn signed(v: nat) -> i32 {
    if v <= i32::MAX {
        v as i32
    } else {
        (v - 0x1_0000_0000) as i32
    }
}

/// The entry `F<function id>O<script offset>[I<parent id>]` at `i`. An empty number
/// after `F` means that the function id is -1.
pub open spec fn inlining_position_at(b: Seq<char>, i: int) -> TableEntry<i32> {
    if !(0 <= i < b.len()) || b[i] != 'F' {
        TableEntry::End
    } else if run_end(b, i + 1) == i + 1 {
        entry_from_offset(b, -1i32, i + 1)
    } else if run_value(b, i + 1) > u32::MAX {
        TableEntry::TooLarge
    } else {
        entry_from_offset(b, signed(run_value(b, i + 1)), run_end(b, i + 1))
    }
}

pub proof fn lemma_entry_moves_on<N>(b: Seq<char>, number: N, i: int)
    ensures
        entry_from_offset(b, number, i) matches TableEntry::Entry(_, _, _, next) ==> i < next
            <= b.len(),
{
    if 0 <= i < b.len() && b[i] == 'O' {
        lemma_run_end(b, i + 1);
        let id = run_end(b, i + 1);
        if id < b.len() {
            lemma_run_end(b, id + 1);
        }
    }
}

pub proof fn lemma_position_moves_on(b: Seq<char>, i: int)
    ensures
        position_at(b, i) matches TableEntry::Entry(_, _, _, next) ==> i < next <= b.len(),
        inlining_position_at(b, i) matches TableEntry::Entry(_, _, _, next) ==> i < next <= b.len(),
{
    if 0 <= i < b.len() {
        lemma_run_end(b, i + 1);
        lemma_entry_moves_on(b, run_value(b, i + 1) as u32, run_end(b, i + 1));
        lemma_entry_moves_on(b, signed(run_value(b, i + 1)), run_end(b, i + 1));
        lemma_entry_moves_on(b, -1i32, i + 1);
    }
}

/// The source position table from `i` on, up to the first malformed entry. It is
/// `None` if one of the numbers on the way doesn't fit into 32 bits.
pub open spec fn positions_from(b: Seq<char>, i: int) -> Option<Seq<(u32, u32, Option<u32>)>>
    decreases b.len() - i,
{
    match position_at(b, i) {
        TableEntry::End => Some(seq![]),
        TableEntry::TooLarge => None,
        TableEntry::Entry(code_offset, script_offset, id, next) => {
            proof {
                lemma_position_moves_on(b, i);
            }
            match positions_from(b, next) {
                Some(rest) => Some(seq![(code_offset, script_offset, id)] + rest),
                None => None,
            }
        },
    }
}

/// The inlining positions from `i` on, up to the first malformed entry. It is
/// `None` if one of the numbers on the way doesn't fit into 32 bits.
pub open spec fn inlining_positions_from(b: Seq<char>, i: int) -> Option<
    Seq<(i32, u32, Option<u32>)>,
>
    decreases b.len() - i,
{
    match inlining_position_at(b, i) {
        TableEntry::End => Some(seq![]),
        TableEntry::TooLarge => None,
        TableEntry::Entry(function_id, script_offset, parent, next) => {
            proof {
                lemma_position_moves_on(b, i);
            }
            match inlining_positions_from(b, next) {
                Some(rest) => Some(seq![(function_id, script_offset, parent)] + rest),
                None => None,
            }
        },
    }
}

/// What was read of a table entry.
enum ReadEntry {
    End,
    TooLarge,
    Entry(u32, Option<u32>),
}

/// Reads `O<script offset>[I<id>]` at `i` and moves `i` behind it.
fn read_entry_from_offset<N>(b: &[char], number: Ghost<N>, i: &mut usize) -> (res: ReadEntry)
    requires
        *old(i) <= b@.len(),
    ensures
        *old(i) <= *final(i) <= b@.len(),
        match entry_from_offset(b@, number@, *old(i) as int) {
            TableEntry::End => res is End,
            TableEntry::TooLarge => res is TooLarge,
            TableEntry::Entry(_, so, id, next) => res == ReadEntry::Entry(so, id) && *final(i) == next,
        },
{
    if *i >= b.len() || b[*i] != 'O' {
        return ReadEntry::End;
    }
    *i = *i + 1;
    let so: u32 = match read_u32(b, i) {
        Some(so) => so,
        None => {
            return ReadEntry::TooLarge;
        },
    };
    if *i < b.len() && b[*i] == 'I' {
        *i = *i + 1;
        match read_u32(b, i) {
            Some(id) => ReadEntry::Entry(so, Some(id)),
            None => ReadEntry::TooLarge,
        }
    } else {
        ReadEntry::Entry(so, None)
    }
}

/// `"C20O1284C40O914I0..."` -> `[(20,1284,None),(40,914,Some(0)),...]`. The result is
/// `None` if a number doesn't fit into 32 bits.
pub fn parse_positions(b: &[char]) -> (res: Option<Vec<(u32, u32, Option<u32>)>>)
    ensures
        match positions_from(b@, 0) {
            Some(positions) => res matches Some(v) && v@ == positions,
            None => res is None,
        },
{
    let mut i: usize = 0;
    let mut out: Vec<(u32, u32, Option<u32>)> = Vec::new();
    while i < b.len() && b[i] == 'C'
        invariant
            i <= b@.len(),
            match positions_from(b@, i as int) {
                Some(rest) => positions_from(b@, 0) == Some(out@ + rest),
                None => positions_from(b@, 0) is None,
            },
        decreases b@.len() - i,
    {
        let ghost start = i as int;
        let ghost before = out@;
        i = i + 1;
        let co: u32 = match read_u32(b, &mut i) {
            Some(co) => co,
            None => {
                return None;
            },
        };
        match read_entry_from_offset(b, Ghost(co), &mut i) {
            ReadEntry::End => {
                assert(before + seq![] =~= before);
                return Some(out);
            },
            ReadEntry::TooLarge => {
                return None;
            },
            ReadEntry::Entry(so, id) => {
                out.push((co, so, id));
                proof {
                    lemma_position_moves_on(b@, start);
                    if let Some(rest) = positions_from(b@, i as int) {
                        assert(before + (seq![(co, so, id)] + rest) =~= out@ + rest);
                    }
                }
            },
        }
    }
    assert(out@ + seq![] =~= out@);
    Some(out)
}

/// `"F0O1298F1O1046I0"` -> `[(0,1298,None),(1,1046,Some(0))]`. An empty number
/// after `F` means `inlined_function_id == -1`. The result is `None` if a number
/// doesn't fit into 32 bits.
pub fn parse_inlining_positions(b: &[char]) -> (res: Option<Vec<(i32, u32, Option<u32>)>>)
    ensures
        match inlining_positions_from(b@, 0) {
            Some(positions) => res matches Some(v) && v@ == positions,
            None => res is None,
        },
{
    let mut i: usize = 0;
    let mut out: Vec<(i32, u32, Option<u32>)> = Vec::new();
    while i < b.len() && b[i] == 'F'
        invariant
            i <= b@.len(),
            match inlining_positions_from(b@, i as int) {
                Some(rest) => inlining_positions_from(b@, 0) == Some(out@ + rest),
                None => inlining_positions_from(b@, 0) is None,
            },
        decreases b@.len() - i,
    {
        let ghost start = i as int;
        let ghost before = out@;
        i = i + 1;
        let fid: i32 = if i < b.len() && digit_of(b[i], 10).is_some() {
            proof {
                lemma_run_end(b@, start + 2);
            }
            match read_u32(b, &mut i) {
                Some(v) => {
                    assert(v as i32 == (if v <= 0x7fff_ffff {
                        v as int
                    } else {
                        v - 0x1_0000_0000
                    })) by (bit_vector);
                    v as i32
                },
                None => {
                    return None;
                },
            }
        } else {
            -1
        };
        match read_entry_from_offset(b, Ghost(fid), &mut i) {
            ReadEntry::End => {
                assert(before + seq![] =~= before);
                return Some(out);
            },
            ReadEntry::TooLarge => {
                return None;
            },
            ReadEntry::Entry(so, parent) => {
                out.push((fid, so, parent));
                proof {
                    lemma_position_moves_on(b@, start);
                    if let Some(rest) = inlining_positions_from(b@, i as int) {
                        assert(before + (seq![(fid, so, parent)] + rest) =~= out@ + rest);
                    }
                }
            },
        }
    }
    assert(out@ + seq![] =~= out@);
    Some(out)
}

/// The addresses among the pieces of a list; what is not an address is left out.
pub open spec fn addresses(pieces: Seq<Seq<char>>) -> Seq<u64>
    decreases pieces.len(),
{
    if pieces.len() == 0 {
        seq![]
    } else {
        match hex(pieces.last()) {
            Some(address) => addresses(pieces.drop_last()).push(address),
            None => addresses(pieces.drop_last()),
        }
    }
}

/// The function addresses of a list in which an `S` stands in front of each.
pub open spec fn inlined_functions(s: Seq<char>) -> Seq<u64> {
    addresses(split(s, 'S'))
}

/// `"S0x3fb3a2e510S0x3fb3a2e4c8"` -> `[0x3fb3a2e510, 0x3fb3a2e4c8]`.
pub fn parse_inlined_functions(s: &[char]) -> (res: Vec<u64>)
    ensures
        res@ == inlined_functions(s@),
{
    let pieces = split_at_each(s, 'S');
    let ghost all = pieces_view(pieces@);
    let mut out: Vec<u64> = Vec::new();
    let mut i: usize = 0;
    assert(all.take(0) =~= seq![]);
    while i < pieces.len()
        invariant
            i <= pieces@.len(),
            all == pieces_view(pieces@),
            out@ == addresses(all.take(i as int)),
        decreases pieces@.len() - i,
    {
        assert(all.take(i + 1).drop_last() =~= all.take(i as int));
        match parse_hex(pieces[i]) {
            Some(address) => {
                out.push(address);
            },
            None => {},
        }
        i = i + 1;
    }
    assert(all.take(i as int) =~= all);
    out
}

/// `I<id>`, or nothing.
pub open spec fn written_id(id: Option<u32>) -> Seq<char> {
    match id {
        Some(v) => seq!['I'] + decimal(v as nat),
        None => seq![],
    }
}

/// `C<code offset>O<script offset>[I<inlining id>]`.
pub open spec fn written_position(p: (u32, u32, Option<u32>)) -> Seq<char> {
    seq!['C'] + decimal(p.0 as nat) + seq!['O'] + decimal(p.1 as nat) + written_id(p.2)
}

/// A source position table.
pub open spec fn written_positions(positions: Seq<(u32, u32, Option<u32>)>) -> Seq<char>
    decreases positions.len(),
{
    if positions.len() == 0 {
        seq![]
    } else {
        written_position(positions[0]) + written_positions(positions.drop_first())
    }
}

/// `F<function id>O<script offset>[I<parent id>]`, with an empty number for the id -1.
pub open spec fn written_inlining_position(p: (i32, u32, Option<u32>)) -> Seq<char> {
    seq!['F'] + (if p.0 == -1 {
        seq![]
    } else {
        decimal(p.0 as nat)
    }) + seq!['O'] + decimal(p.1 as nat) + written_id(p.2)
}

/// The inlining positions of a code object.
pub open spec fn written_inlining_positions(positions: Seq<(i32, u32, Option<u32>)>) -> Seq<char>
    decreases positions.len(),
{
    if positions.len() == 0 {
        seq![]
    } else {
        written_inlining_position(positions[0]) + written_inlining_positions(
            positions.drop_first(),
        )
    }
}

/// Whether the text behind an entry with the given id is not read as part of the entry.
pub open spec fn is_apart(id: Option<u32>, tail: Seq<char>) -> bool {
    tail.len() > 0 ==> digit(tail[0], 10) is None && (tail[0] == 'I' ==> id is Some)
}

/// The entries in front of those of the rest, if these can be read.
pub open spec fn in_front<P>(entries: Seq<P>, rest: Option<Seq<P>>) -> Option<Seq<P>> {
    match rest {
        Some(more) => Some(entries + more),
        None => None,
    }
}

proof fn lemma_run_ends(b: Seq<char>, i: int, end: int)
    requires
        0 <= i <= end <= b.len(),
        forall|j: int| i <= j < end ==> digit(#[trigger] b[j], 10) is Some,
        end < b.len() ==> digit(b[end], 10) is None,
    ensures
        run_end(b, i) == end,
    decreases end - i,
{
    if i < end {
        lemma_run_ends(b, i + 1, end);
    }
}

/// The digits of `n` at `i` are read as `n`.
proof fn lemma_run_of(b: Seq<char>, i: int, n: nat)
    requires
        0 <= i,
        i + decimal(n).len() <= b.len(),
        b.subrange(i, i + decimal(n).len()) == decimal(n),
        i + decimal(n).len() < b.len() ==> digit(b[i + decimal(n).len()], 10) is None,
    ensures
        run_end(b, i) == i + decimal(n).len(),
        run_value(b, i) == n,
        decimal(n).len() > 0,
{
    decimal_digits_read_back(n);
    let digits = decimal(n);
    assert forall|j: int| i <= j < i + digits.len() implies digit(#[trigger] b[j], 10) is Some by {
        assert(b[j] == digits[j - i]);
    }
    lemma_run_ends(b, i, (i + digits.len()) as int);
}

/// The part of an entry from its `O` on, and what is not read as part of it.
proof fn lemma_offset_and_id<N>(b: Seq<char>, number: N, i: int, offset: u32, id: Option<u32>)
    requires
        0 <= i,
        ({
            let part = seq!['O'] + decimal(offset as nat) + written_id(id);
            &&& i + part.len() <= b.len()
            &&& b.subrange(i, (i + part.len()) as int) == part
            &&& is_apart(id, b.skip((i + part.len()) as int))
        }),
    ensures
        entry_from_offset(b, number, i) == TableEntry::Entry(
            number,
            offset,
            id,
            (i + 1 + decimal(offset as nat).len() + written_id(id).len()) as int,
        ),
{
    let part = seq!['O'] + decimal(offset as nat) + written_id(id);
    let digits = decimal(offset as nat);
    assert(b[i] == part[0]);
    assert(b.subrange(i + 1, i + 1 + digits.len()) =~= digits) by {
        assert forall|j: int| 0 <= j < digits.len() implies b.subrange(
            i + 1,
            i + 1 + digits.len(),
        )[j] == digits[j] by {
            assert(b.subrange(i, (i + part.len()) as int)[j + 1] == part[j + 1]);
        }
    }
    let behind = (i + 1 + digits.len()) as int;
    if let Some(v) = id {
        assert(b[behind] == part[1 + digits.len() as int]);
        assert(b[behind] == 'I');
        lemma_run_of(b, i + 1, offset as nat);
        let id_digits = decimal(v as nat);
        assert(b.subrange(behind + 1, behind + 1 + id_digits.len()) =~= id_digits) by {
            assert forall|j: int| 0 <= j < id_digits.len() implies b.subrange(
                behind + 1,
                behind + 1 + id_digits.len(),
            )[j] == id_digits[j] by {
                assert(b.subrange(i, (i + part.len()) as int)[2 + digits.len() + j] == part[2
                    + digits.len() + j]);
            }
        }
        lemma_run_of(b, behind + 1, v as nat);
    } else {
        lemma_run_of(b, i + 1, offset as nat);
    }
}

/// What lies at `i` in three parts.
proof fn lemma_three_parts(b: Seq<char>, i: int, first: char, digits: Seq<char>, part: Seq<char>)
    requires
        0 <= i,
        i + 1 + digits.len() + part.len() <= b.len(),
        b.subrange(i, (i + 1 + digits.len() + part.len()) as int) == seq![first] + digits + part,
    ensures
        b[i] == first,
        b.subrange(i + 1, (i + 1 + digits.len()) as int) == digits,
        b.subrange(
            (i + 1 + digits.len()) as int,
            (i + 1 + digits.len() + part.len()) as int,
        ) == part,
{
    let all = seq![first] + digits + part;
    let n = digits.len() as int;
    let here = b.subrange(i, (i + 1 + digits.len() + part.len()) as int);
    assert(b[i] == here[0]);
    assert(b.subrange(i + 1, i + 1 + n) =~= here.subrange(1, 1 + n));
    assert(all.subrange(1, 1 + n) =~= digits);
    assert(b.subrange(i + 1 + n, i + 1 + n + part.len()) =~= here.subrange(
        1 + n,
        1 + n + part.len(),
    ));
    assert(all.subrange(1 + n, 1 + n + part.len()) =~= part);
}

/// One entry of a table.
proof fn lemma_position_read_back(b: Seq<char>, i: int, p: (u32, u32, Option<u32>))
    requires
        0 <= i,
        i + written_position(p).len() <= b.len(),
        b.subrange(i, (i + written_position(p).len()) as int) == written_position(p),
        is_apart(p.2, b.skip((i + written_position(p).len()) as int)),
    ensures
        position_at(b, i) == TableEntry::Entry(
            p.0,
            p.1,
            p.2,
            (i + written_position(p).len()) as int,
        ),
        written_position(p).len() > 0,
{
    let digits = decimal(p.0 as nat);
    let part = seq!['O'] + decimal(p.1 as nat) + written_id(p.2);
    assert(written_position(p) =~= seq!['C'] + digits + part);
    lemma_three_parts(b, i, 'C', digits, part);
    let offset_at = (i + 1 + digits.len()) as int;
    assert(b[offset_at] == b.subrange(offset_at, (offset_at + part.len()) as int)[0]);
    lemma_run_of(b, i + 1, p.0 as nat);
    lemma_offset_and_id(b, p.0, offset_at, p.1, p.2);
}

/// What is read from a place on is what the text from that place on reads as.
proof fn lemma_run_behind(b: Seq<char>, start: int, i: int)
    requires
        0 <= start <= b.len(),
        0 <= i <= b.len() - start,
    ensures
        run_end(b, start + i) == start + run_end(b.skip(start), i),
        run_value(b, start + i) == run_value(b.skip(start), i),
        i <= run_end(b.skip(start), i) <= b.len() - start,
    decreases b.len() - start - i,
{
    let tail = b.skip(start);
    if i < tail.len() {
        assert(tail[i] == b[start + i]);
        if digit(tail[i], 10) is Some {
            lemma_run_behind(b, start, i + 1);
        }
    }
    let end = run_end(tail, i);
    assert(b.subrange(start + i, start + end) =~= tail.subrange(i, end));
}

/// The entry at a place, with the place behind it counted from `start` on.
spec fn moved<N>(entry: TableEntry<N>, start: int) -> TableEntry<N> {
    match entry {
        TableEntry::Entry(number, offset, id, next) => TableEntry::Entry(
            number,
            offset,
            id,
            start + next,
        ),
        _ => entry,
    }
}

proof fn lemma_offset_behind<N>(b: Seq<char>, start: int, number: N, i: int)
    requires
        0 <= start <= b.len(),
        0 <= i <= b.len() - start,
    ensures
        entry_from_offset(b, number, start + i) == moved(
            entry_from_offset(b.skip(start), number, i),
            start,
        ),
{
    let tail = b.skip(start);
    if i < tail.len() && tail[i] == 'O' {
        lemma_run_behind(b, start, i + 1);
        let id = run_end(tail, i + 1);
        if id < tail.len() {
            assert(tail[id] == b[start + id]);
            lemma_run_behind(b, start, id + 1);
        }
    }
}

proof fn lemma_entry_behind(b: Seq<char>, start: int, i: int)
    requires
        0 <= start <= b.len(),
        0 <= i <= b.len() - start,
    ensures
        position_at(b, start + i) == moved(position_at(b.skip(start), i), start),
        inlining_position_at(b, start + i) == moved(
            inlining_position_at(b.skip(start), i),
            start,
        ),
{
    let tail = b.skip(start);
    if i < tail.len() {
        assert(tail[i] == b[start + i]);
        lemma_run_behind(b, start, i + 1);
        let end = run_end(tail, i + 1);
        lemma_offset_behind(b, start, run_value(tail, i + 1) as u32, end);
        lemma_offset_behind(b, start, signed(run_value(tail, i + 1)), end);
        lemma_offset_behind(b, start, -1i32, i + 1);
    }
}

proof fn lemma_positions_behind(b: Seq<char>, start: int, i: int)
    requires
        0 <= start <= b.len(),
        0 <= i <= b.len() - start,
    ensures
        positions_from(b, start + i) == positions_from(b.skip(start), i),
    decreases b.len() - start - i,
{
    lemma_entry_behind(b, start, i);
    lemma_position_moves_on(b.skip(start), i);
    if let TableEntry::Entry(_, _, _, next) = position_at(b.skip(start), i) {
        lemma_positions_behind(b, start, next);
    }
}

proof fn lemma_inlining_positions_behind(b: Seq<char>, start: int, i: int)
    requires
        0 <= start <= b.len(),
        0 <= i <= b.len() - start,
    ensures
        inlining_positions_from(b, start + i) == inlining_positions_from(b.skip(start), i),
    decreases b.len() - start - i,
{
    lemma_entry_behind(b, start, i);
    lemma_position_moves_on(b.skip(start), i);
    if let TableEntry::Entry(_, _, _, next) = inlining_position_at(b.skip(start), i) {
        lemma_inlining_positions_behind(b, start, next);
    }
}

/// An entry lies at the start of the text from `i` on, and the rest behind it.
proof fn lemma_entry_and_rest(b: Seq<char>, i: int, entry: Seq<char>, rest: Seq<char>)
    requires
        0 <= i <= b.len(),
        b.skip(i) == entry + rest,
    ensures
        i + entry.len() <= b.len(),
        b.subrange(i, (i + entry.len()) as int) == entry,
        b.skip((i + entry.len()) as int) == rest,
{
    let next = (i + entry.len()) as int;
    assert(b.skip(i).len() == b.len() - i);
    assert(b.subrange(i, next) =~= b.skip(i).take(entry.len() as int));
    assert((entry + rest).take(entry.len() as int) =~= entry);
    assert(b.skip(next) =~= b.skip(i).skip(entry.len() as int));
    assert((entry + rest).skip(entry.len() as int) =~= rest);
}

proof fn lemma_positions_read_back(
    b: Seq<char>,
    i: int,
    positions: Seq<(u32, u32, Option<u32>)>,
    tail: Seq<char>,
)
    requires
        0 <= i <= b.len(),
        b.skip(i) == written_positions(positions) + tail,
        positions.len() > 0 ==> is_apart(positions.last().2, tail),
    ensures
        positions_from(b, i) == in_front(positions, positions_from(tail, 0)),
    decreases positions.len(),
{
    if positions.len() == 0 {
        assert(b.skip(i) =~= tail);
        lemma_positions_behind(b, i, 0);
        assert(positions_from(tail, 0) matches Some(more) ==> positions + more =~= more);
    } else {
        let entry = written_position(positions[0]);
        let others = positions.drop_first();
        let rest = written_positions(others) + tail;
        assert(b.skip(i) =~= entry + rest);
        lemma_entry_and_rest(b, i, entry, rest);
        if others.len() > 0 {
            assert(rest[0] == written_position(others[0])[0]);
        } else {
            assert(rest =~= tail);
        }
        lemma_position_read_back(b, i, positions[0]);
        lemma_positions_read_back(b, (i + entry.len()) as int, others, tail);
        assert(positions_from(tail, 0) matches Some(more) ==> seq![positions[0]] + (others + more)
            =~= positions + more);
    }
}

/// One entry of the inlining positions.
proof fn lemma_inlining_position_read_back(b: Seq<char>, i: int, p: (i32, u32, Option<u32>))
    requires
        p.0 >= -1,
        0 <= i,
        i + written_inlining_position(p).len() <= b.len(),
        b.subrange(i, (i + written_inlining_position(p).len()) as int)
            == written_inlining_position(p),
        is_apart(p.2, b.skip((i + written_inlining_position(p).len()) as int)),
    ensures
        inlining_position_at(b, i) == TableEntry::Entry(
            p.0,
            p.1,
            p.2,
            (i + written_inlining_position(p).len()) as int,
        ),
        written_inlining_position(p).len() > 0,
{
    let digits = if p.0 == -1 {
        seq![]
    } else {
        decimal(p.0 as nat)
    };
    let part = seq!['O'] + decimal(p.1 as nat) + written_id(p.2);
    assert(written_inlining_position(p) =~= seq!['F'] + digits + part);
    lemma_three_parts(b, i, 'F', digits, part);
    let offset_at = (i + 1 + digits.len()) as int;
    assert(b[offset_at] == b.subrange(offset_at, (offset_at + part.len()) as int)[0]);
    lemma_offset_and_id(b, p.0, offset_at, p.1, p.2);
    if p.0 == -1 {
        lemma_run_ends(b, i + 1, i + 1);
    } else {
        lemma_run_of(b, i + 1, p.0 as nat);
    }
}

proof fn lemma_inlining_positions_read_back(
    b: Seq<char>,
    i: int,
    positions: Seq<(i32, u32, Option<u32>)>,
    tail: Seq<char>,
)
    requires
        forall|j: int| 0 <= j < positions.len() ==> (#[trigger] positions[j]).0 >= -1,
        0 <= i <= b.len(),
        b.skip(i) == written_inlining_positions(positions) + tail,
        positions.len() > 0 ==> is_apart(positions.last().2, tail),
    ensures
        inlining_positions_from(b, i) == in_front(positions, inlining_positions_from(tail, 0)),
    decreases positions.len(),
{
    if positions.len() == 0 {
        assert(b.skip(i) =~= tail);
        lemma_inlining_positions_behind(b, i, 0);
        assert(inlining_positions_from(tail, 0) matches Some(more) ==> positions + more =~= more);
    } else {
        let entry = written_inlining_position(positions[0]);
        let others = positions.drop_first();
        let rest = written_inlining_positions(others) + tail;
        assert(b.skip(i) =~= entry + rest);
        lemma_entry_and_rest(b, i, entry, rest);
        if others.len() > 0 {
            assert(rest[0] == written_inlining_position(others[0])[0]);
        } else {
            assert(rest =~= tail);
        }
        lemma_inlining_position_read_back(b, i, positions[0]);
        lemma_inlining_positions_read_back(b, (i + entry.len()) as int, others, tail);
        assert(inlining_positions_from(tail, 0) matches Some(more) ==> seq![positions[0]] + (others
            + more) =~= positions + more);
    }
}

/// Inlining positions that are written down read back as they were, in front of whatever is
/// not read as part of the last one: nothing, something malformed, or more positions. (A
/// function id is -1 or an index.)
pub proof fn inlining_positions_read_back(
    positions: Seq<(i32, u32, Option<u32>)>,
    tail: Seq<char>,
)
    requires
        forall|j: int| 0 <= j < positions.len() ==> (#[trigger] positions[j]).0 >= -1,
        positions.len() > 0 ==> is_apart(positions.last().2, tail),
    ensures
        inlining_positions_from(written_inlining_positions(positions), 0) == Some(positions),
        inlining_position_at(tail, 0) is End ==> inlining_positions_from(
            written_inlining_positions(positions) + tail,
            0,
        ) == Some(positions),
        inlining_positions_from(written_inlining_positions(positions) + tail, 0) == in_front(
            positions,
            inlining_positions_from(tail, 0),
        ),
{
    let b = written_inlining_positions(positions);
    assert(b.skip(0) =~= b + seq![]);
    lemma_inlining_positions_read_back(b, 0, positions, seq![]);
    assert((b + tail).skip(0) =~= b + tail);
    lemma_inlining_positions_read_back(b + tail, 0, positions, tail);
    assert(positions + seq![] =~= positions);
}

/// A source position table that is written down reads back as it was, in front of whatever is
/// not read as part of its last entry: nothing, something malformed, or more entries.
pub proof fn position_tables_read_back(
    positions: Seq<(u32, u32, Option<u32>)>,
    tail: Seq<char>,
)
    requires
        positions.len() > 0 ==> is_apart(positions.last().2, tail),
    ensures
        positions_from(written_positions(positions), 0) == Some(positions),
        position_at(tail, 0) is End ==> positions_from(written_positions(positions) + tail, 0)
            == Some(positions),
        positions_from(written_positions(positions) + tail, 0) == in_front(
            positions,
            positions_from(tail, 0),
        ),
{
    let b = written_positions(positions);
    assert(b.skip(0) =~= b + seq![]);
    lemma_positions_read_back(b, 0, positions, seq![]);
    assert((b + tail).skip(0) =~= b + tail);
    lemma_positions_read_back(b + tail, 0, positions, tail);
    assert(positions + seq![] =~= positions);
}

/// An address is read from its hexadecimal digits, with and without `0x` in front of them.
pub proof fn addresses_read_back(address: u64)
    ensures
        hex(hexadecimal(address as nat)) == Some(address),
        hex(seq!['0', 'x'] + hexadecimal(address as nat)) == Some(address),
{
    let digits = hexadecimal(address as nat);
    hexadecimal_digits_read_back(address as nat);
    assert forall|i: int| 0 <= i < digits.len() implies #[trigger] digits[i] != 'x' && digits[i]
        != '+' by {
        assert(digit(digits[i], 16) is Some);
    }
    if starts_with(digits, seq!['0', 'x']) {
        assert(digits[1] == digits.take(2)[1]);
    }
    let prefixed = seq!['0', 'x'] + digits;
    assert(prefixed.take(2) =~= seq!['0', 'x']);
    assert(prefixed.skip(2) =~= digits);
}

/// An address in hexadecimal.
pub open spec fn written_address(address: u64) -> Seq<char> {
    seq!['0', 'x'] + hexadecimal(address as nat)
}

/// The addresses of inlined functions that are written down, each behind an `S`, read back as
/// they were.
pub proof fn inlined_functions_read_back(functions: Seq<u64>)
    ensures
        inlined_functions(
            joined_with(
                seq![Seq::<char>::empty()] + functions.map_values(|f: u64| written_address(f)),
                'S',
            ),
        ) == functions,
{
    let pieces = seq![Seq::<char>::empty()] + functions.map_values(|f: u64| written_address(f));
    assert forall|i: int| 0 <= i < pieces.len() implies lacks(#[trigger] pieces[i], 'S') by {
        if i > 0 {
            let digits = hexadecimal(functions[i - 1] as nat);
            hexadecimal_digits_read_back(functions[i - 1] as nat);
            assert(pieces[i] == written_address(functions[i - 1]));
            assert forall|j: int| 0 <= j < pieces[i].len() implies #[trigger] pieces[i][j] != 'S' by {
                if j >= 2 {
                    assert(digit(digits[j - 2], 16) is Some);
                }
            }
        }
    }
    splitting_undoes_joining(pieces, 'S');
    lemma_addresses_read_back(functions);
}

proof fn lemma_addresses_read_back(functions: Seq<u64>)
    ensures
        addresses(
            seq![Seq::<char>::empty()] + functions.map_values(|f: u64| written_address(f)),
        ) == functions,
    decreases functions.len(),
{
    let pieces = seq![Seq::<char>::empty()] + functions.map_values(|f: u64| written_address(f));
    if functions.len() == 0 {
        assert(pieces =~= seq![Seq::<char>::empty()]);
        assert(pieces.drop_last() =~= seq![]);
        assert(addresses(seq![]) =~= seq![]);
        assert(hex(Seq::<char>::empty()) is None);
        assert(addresses(pieces) =~= functions);
    } else {
        let front = functions.drop_last();
        lemma_addresses_read_back(front);
        assert(pieces.drop_last() =~= seq![Seq::<char>::empty()] + front.map_values(
            |f: u64| written_address(f),
        ));
        assert(pieces.last() == written_address(functions.last()));
        addresses_read_back(functions.last());
        assert(front.push(functions.last()) =~= functions);
    }
}

/// The name of a function is what stands in front of the first space, and its location is what
/// stands behind it. Without a space there is only a name.
pub proof fn names_and_locations_stand_apart(func: Seq<char>, loc: Seq<char>)
    requires
        lacks(func, ' '),
    ensures
        name_parts(func + seq![' '] + loc) == (func, loc),
        name_parts(func) == (func, Seq::<char>::empty()),
{
    let all = func + seq![' '] + loc;
    assert(all[func.len() as int] == ' ');
    lemma_find(all, ' ', func.len() as int);
    lemma_find(func, ' ', func.len() as int);
    assert(all.take(func.len() as int) =~= func);
    assert(all.skip(func.len() as int + 1) =~= loc);
}

/// A location that is written down as `<file>:<line>:<col>` reads back as it was, whatever the
/// file is.
pub proof fn locations_read_back(file: Seq<char>, line: u32, col: u32)
    ensures
        location_parts(
            file + seq![':'] + decimal(line as nat) + seq![':'] + decimal(col as nat),
        ) == (file, line, col),
{
    let line_text = decimal(line as nat);
    let col_text = decimal(col as nat);
    lemma_decimal_u32(line);
    lemma_decimal_u32(col);
    let before = file + seq![':'] + line_text;
    let all = before + seq![':'] + col_text;
    let i = before.len() as int + 1;
    assert forall|j: int| i <= j < all.len() implies all[j] != ':' by {
        assert(all[j] == col_text[j - i]);
    }
    lemma_rfind(all, ':', i);
    assert(all.take(i - 1) =~= before);
    assert(all.skip(i) =~= col_text);
    let k = file.len() as int + 1;
    assert forall|j: int| k <= j < before.len() implies before[j] != ':' by {
        assert(before[j] == line_text[j - k]);
    }
    lemma_rfind(before, ':', k);
    assert(before.take(k - 1) =~= file);
    assert(before.skip(k) =~= line_text);
}

proof fn lemma_decimal_u32(n: u32)
    ensures
        decimal_u32(decimal(n as nat)) == Some(n),
        forall|i: int| 0 <= i < decimal(n as nat).len() ==> #[trigger] decimal(n as nat)[i] != ':',
{
    let digits = decimal(n as nat);
    decimal_digits_read_back(n as nat);
    assert forall|i: int| 0 <= i < digits.len() implies #[trigger] digits[i] != ':' && digits[i]
        != '+' by {
        assert(digit(digits[i], 10) is Some);
    }
}

proof fn lemma_last_part(before: Seq<char>, last: Seq<char>)
    requires
        lacks(last, ':'),
    ensures
        rfind(last, ':') == 0,
        ({
            let all = before + seq![':'] + last;
            let i = rfind(all, ':');
            i == before.len() + 1 && all.take(i - 1) == before && all.skip(i) == last
        }),
{
    lemma_rfind(last, ':', 0);
    let all = before + seq![':'] + last;
    let i = before.len() as int + 1;
    assert forall|j: int| i <= j < all.len() implies all[j] != ':' by {
        assert(all[j] == last[j - i]);
    }
    lemma_rfind(all, ':', i);
    assert(all.take(i - 1) =~= before);
    assert(all.skip(i) =~= last);
}

/// A location is read from its end, so that one number is a column, and two are a line and a
/// column. What is no number counts as zero.
pub proof fn locations_are_read_from_their_end(
    file: Seq<char>,
    line: Seq<char>,
    col: Seq<char>,
    n: u32,
)
    requires
        lacks(line, ':'),
        lacks(col, ':'),
    ensures
        ({
            let whole = location_parts(file + seq![':'] + line + seq![':'] + col);
            let two = location_parts(line + seq![':'] + col);
            let one = location_parts(col);
            &&& whole.0 == file && two.0.len() == 0 && one.0.len() == 0
            &&& one.1 == 0
            &&& line == decimal(n as nat) ==> whole.1 == n && two.1 == n
            &&& decimal_u32(line) is None ==> whole.1 == 0 && two.1 == 0
            &&& col == decimal(n as nat) ==> whole.2 == n && two.2 == n && one.2 == n
            &&& decimal_u32(col) is None ==> whole.2 == 0 && two.2 == 0 && one.2 == 0
        }),
{
    lemma_decimal_u32(n);
    lemma_last_part(file + seq![':'] + line, col);
    lemma_last_part(line, col);
    lemma_last_part(file, line);
}

/// An index of 32 bits is what its bits are with a sign: from the half on it turns negative.
pub proof fn large_indices_turn_negative(v: nat)
    requires
        v <= 0xffff_ffff,
    ensures
        v <= 0x7fff_ffff ==> signed(v) == v,
        v > 0x7fff_ffff ==> signed(v) < 0 && signed(v) + 0x1_0000_0000 == v,
{
}

} // verus!
