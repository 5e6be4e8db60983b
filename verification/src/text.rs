//! Text as sequences of characters: searching, splitting, trimming and reading numbers.

use vstd::prelude::*;
use vstd::slice::slice_subrange;
use vstd::string::*;

verus! {

/// `String::push` appends one character.
pub assume_specification[ String::push ](s: &mut String, c: char)
    ensures
        final(s)@ == old(s)@.push(c),
;

/// The characters of `s`.
pub fn chars_of(s: &str) -> (res: Vec<char>)
    ensures
        res@ == s@,
{
    let mut res: Vec<char> = Vec::new();
    for c in it: s.chars()
        invariant
            it.seq() == s@,
            res@ == s@.take(it.index() as int),
    {
        res.push(c);
        assert(s@.take(it.index() as int).push(c) =~= s@.take(it.index() + 1));
    }
    assert(s@.take(s@.len() as int) =~= s@);
    res
}

/// The string that consists of the given characters.
pub fn string_of(s: &[char]) -> (res: String)
    ensures
        res@ == s@,
{
    let mut res = String::new();
    let mut i: usize = 0;
    while i < s.len()
        invariant
            i <= s@.len(),
            res@ == s@.take(i as int),
        decreases s@.len() - i,
    {
        res.push(s[i]);
        assert(s@.take(i as int).push(s@[i as int]) =~= s@.take(i + 1));
        i = i + 1;
    }
    assert(s@.take(s@.len() as int) =~= s@);
    res
}

/// The number of items in front of the first `c`: its position, or the length if
/// there is none.
pub open spec fn find<A>(s: Seq<A>, c: A) -> int
    decreases s.len(),
{
    if s.len() == 0 || s[0] == c {
        0
    } else {
        1 + find(s.drop_first(), c)
    }
}

/// The number of items up to the last `c`, which is included; 0 if there is none.
pub open spec fn rfind<A>(s: Seq<A>, c: A) -> int
    decreases s.len(),
{
    if s.len() == 0 || s.last() == c {
        s.len() as int
    } else {
        rfind(s.drop_last(), c)
    }
}

/// `find` gives the first position that holds `c`.
pub proof fn lemma_find<A>(s: Seq<A>, c: A, i: int)
    requires
        0 <= i <= s.len(),
        forall|j: int| 0 <= j < i ==> s[j] != c,
        i < s.len() ==> s[i] == c,
    ensures
        find(s, c) == i,
    decreases s.len(),
{
    if i > 0 {
        assert forall|j: int| 0 <= j < i - 1 implies s.drop_first()[j] != c by {
            assert(s[j + 1] != c);
        }
        lemma_find(s.drop_first(), c, i - 1);
    }
}

/// `rfind` gives the position behind the last one that holds `c`.
pub proof fn lemma_rfind<A>(s: Seq<A>, c: A, i: int)
    requires
        0 <= i <= s.len(),
        forall|j: int| i <= j < s.len() ==> s[j] != c,
        i > 0 ==> s[i - 1] == c,
    ensures
        rfind(s, c) == i,
    decreases s.len(),
{
    if i < s.len() {
        lemma_rfind(s.drop_last(), c, i);
    }
}

pub proof fn lemma_find_range<A>(s: Seq<A>, c: A)
    ensures
        0 <= find(s, c) <= s.len(),
        find(s, c) < s.len() ==> s[find(s, c)] == c,
        forall|j: int| 0 <= j < find(s, c) ==> s[j] != c,
    decreases s.len(),
{
    if s.len() > 0 && s[0] != c {
        lemma_find_range(s.drop_first(), c);
        assert forall|j: int| 0 <= j < find(s, c) implies s[j] != c by {
            if j > 0 {
                assert(s.drop_first()[j - 1] == s[j]);
            }
        }
    }
}

pub proof fn lemma_rfind_range<A>(s: Seq<A>, c: A)
    ensures
        0 <= rfind(s, c) <= s.len(),
        rfind(s, c) > 0 ==> s[rfind(s, c) - 1] == c,
        forall|j: int| rfind(s, c) <= j < s.len() ==> s[j] != c,
    decreases s.len(),
{
    if s.len() > 0 && s.last() != c {
        lemma_rfind_range(s.drop_last(), c);
        assert forall|j: int| rfind(s, c) <= j < s.len() implies s[j] != c by {
            if j < s.len() - 1 {
                assert(s.drop_last()[j] == s[j]);
            }
        }
    }
}

/// The position of the first `c` in `s`, or the length of `s`.
pub fn find_char(s: &[char], c: char) -> (res: usize)
    ensures
        res == find(s@, c),
        res <= s@.len(),
        res < s@.len() ==> s@[res as int] == c,
{
    let mut i: usize = 0;
    while i < s.len() && s[i] != c
        invariant
            i <= s@.len(),
            forall|j: int| 0 <= j < i ==> s@[j] != c,
        decreases s@.len() - i,
    {
        i = i + 1;
    }
    proof {
        lemma_find(s@, c, i as int);
    }
    i
}

/// The position behind the last `c` in `s`, or 0.
pub fn rfind_char(s: &[char], c: char) -> (res: usize)
    ensures
        res == rfind(s@, c),
        res <= s@.len(),
        res > 0 ==> s@[res - 1] == c,
{
    let mut i: usize = s.len();
    while i > 0 && s[i - 1] != c
        invariant
            i <= s@.len(),
            forall|j: int| i <= j < s@.len() ==> s@[j] != c,
        decreases i,
    {
        i = i - 1;
    }
    proof {
        lemma_rfind(s@, c, i as int);
    }
    i
}

/// The text starts with `prefix`.
pub open spec fn starts_with(s: Seq<char>, prefix: Seq<char>) -> bool {
    prefix.len() <= s.len() && s.take(prefix.len() as int) == prefix
}

/// Whether `s` starts with `prefix`.
pub fn has_prefix(s: &[char], prefix: &[char]) -> (res: bool)
    ensures
        res == starts_with(s@, prefix@),
{
    if s.len() < prefix.len() {
        return false;
    }
    let mut i: usize = 0;
    while i < prefix.len()
        invariant
            i <= prefix@.len() <= s@.len(),
            forall|j: int| 0 <= j < i ==> s@[j] == prefix@[j],
        decreases prefix@.len() - i,
    {
        if s[i] != prefix[i] {
            assert(s@.take(prefix@.len() as int)[i as int] != prefix@[i as int]);
            return false;
        }
        i = i + 1;
    }
    assert(s@.take(prefix@.len() as int) =~= prefix@);
    true
}

/// `s` split at each `c`, into at most `n` pieces: the last one is not split further.
pub open spec fn splitn(s: Seq<char>, n: nat, c: char) -> Seq<Seq<char>>
    decreases n,
{
    let i = find(s, c);
    if n <= 1 || i >= s.len() {
        seq![s]
    } else {
        seq![s.take(i)] + splitn(s.skip(i + 1), (n - 1) as nat, c)
    }
}

/// The character views of a list of slices.
pub open spec fn pieces_view(pieces: Seq<&[char]>) -> Seq<Seq<char>> {
    pieces.map_values(|p: &[char]| p@)
}

/// `s` split at each `c`, into at most `n` pieces.
pub fn split_at_most<'a>(s: &'a [char], n: usize, c: char) -> (res: Vec<&'a [char]>)
    ensures
        pieces_view(res@) == splitn(s@, n as nat, c),
{
    let mut res: Vec<&'a [char]> = Vec::new();
    let mut rest: &'a [char] = s;
    let mut left: usize = n;
    assert(pieces_view(res@) + splitn(rest@, left as nat, c) =~= splitn(s@, n as nat, c));
    loop
        invariant
            left <= n,
            pieces_view(res@) + splitn(rest@, left as nat, c) == splitn(s@, n as nat, c),
        decreases left,
    {
        let i: usize = find_char(rest, c);
        if left <= 1 || i >= rest.len() {
            let ghost done = pieces_view(res@);
            res.push(rest);
            assert(pieces_view(res@) =~= done + seq![rest@]);
            return res;
        }
        let ghost done = pieces_view(res@);
        let piece = slice_subrange(rest, 0, i);
        let next = slice_subrange(rest, i + 1, rest.len());
        assert(piece@ =~= rest@.take(i as int));
        assert(next@ =~= rest@.skip(i + 1));
        res.push(piece);
        assert(pieces_view(res@) =~= done + seq![rest@.take(i as int)]);
        assert(done + (seq![rest@.take(i as int)] + splitn(next@, (left - 1) as nat, c)) =~= (done
            + seq![rest@.take(i as int)]) + splitn(next@, (left - 1) as nat, c));
        rest = next;
        left = left - 1;
    }
}

/// `s` split at each `c`.
pub open spec fn split(s: Seq<char>, c: char) -> Seq<Seq<char>>
    decreases s.len(),
{
    let i = find(s, c);
    if i >= s.len() {
        seq![s]
    } else {
        proof {
            lemma_find_range(s, c);
        }
        seq![s.take(i)] + split(s.skip(i + 1), c)
    }
}

/// `s` split at each `c`.
pub fn split_at_each<'a>(s: &'a [char], c: char) -> (res: Vec<&'a [char]>)
    ensures
        pieces_view(res@) == split(s@, c),
{
    let mut res: Vec<&'a [char]> = Vec::new();
    let mut rest: &'a [char] = s;
    assert(pieces_view(res@) + split(rest@, c) =~= split(s@, c));
    loop
        invariant
            pieces_view(res@) + split(rest@, c) == split(s@, c),
        decreases rest@.len(),
    {
        let i: usize = find_char(rest, c);
        let ghost done = pieces_view(res@);
        if i >= rest.len() {
            res.push(rest);
            assert(pieces_view(res@) =~= done + seq![rest@]);
            return res;
        }
        let piece = slice_subrange(rest, 0, i);
        let next = slice_subrange(rest, i + 1, rest.len());
        assert(piece@ =~= rest@.take(i as int));
        assert(next@ =~= rest@.skip(i + 1));
        res.push(piece);
        assert(pieces_view(res@) =~= done + seq![rest@.take(i as int)]);
        assert(done + (seq![rest@.take(i as int)] + split(next@, c)) =~= (done + seq![rest@.take(
            i as int,
        )]) + split(next@, c));
        rest = next;
    }
}

/// A line without the carriage return at its end.
pub open spec fn without_cr(line: Seq<char>) -> Seq<char> {
    if line.len() > 0 && line.last() == '\r' {
        line.drop_last()
    } else {
        line
    }
}

/// The lines of `s`. They end in a newline, or a carriage return and a newline,
/// neither of which belongs to the line; at the end of the text both can be missing.
pub open spec fn lines(s: Seq<char>) -> Seq<Seq<char>>
    decreases s.len(),
{
    let i = find(s, '\n');
    if s.len() == 0 {
        seq![]
    } else if i >= s.len() {
        seq![s]
    } else {
        proof {
            lemma_find_range(s, '\n');
        }
        seq![without_cr(s.take(i))] + lines(s.skip(i + 1))
    }
}

/// The lines of `s`.
pub fn lines_of<'a>(s: &'a [char]) -> (res: Vec<&'a [char]>)
    ensures
        pieces_view(res@) == lines(s@),
{
    let mut res: Vec<&'a [char]> = Vec::new();
    let mut rest: &'a [char] = s;
    assert(pieces_view(res@) + lines(rest@) =~= lines(s@));
    while rest.len() > 0
        invariant
            pieces_view(res@) + lines(rest@) == lines(s@),
        decreases rest@.len(),
    {
        let i: usize = find_char(rest, '\n');
        let ghost done = pieces_view(res@);
        if i >= rest.len() {
            res.push(rest);
            assert(pieces_view(res@) =~= done + seq![rest@]);
            return res;
        }
        let end: usize = if i > 0 && rest[i - 1] == '\r' {
            i - 1
        } else {
            i
        };
        let piece = slice_subrange(rest, 0, end);
        let next = slice_subrange(rest, i + 1, rest.len());
        assert(piece@ =~= without_cr(rest@.take(i as int)));
        assert(next@ =~= rest@.skip(i + 1));
        res.push(piece);
        assert(pieces_view(res@) =~= done + seq![piece@]);
        assert(done + (seq![piece@] + lines(next@)) =~= (done + seq![piece@]) + lines(next@));
        rest = next;
    }
    assert(pieces_view(res@) + lines(rest@) =~= pieces_view(res@));
    res
}

/// The characters with the Unicode property `White_Space`.
pub open spec fn is_white_space(c: char) -> bool {
    let u = c as u32;
    ||| 0x9 <= u <= 0xd
    ||| u == 0x20
    ||| u == 0x85
    ||| u == 0xa0
    ||| u == 0x1680
    ||| 0x2000 <= u <= 0x200a
    ||| 0x2028 <= u <= 0x2029
    ||| u == 0x202f
    ||| u == 0x205f
    ||| u == 0x3000
}

/// Whether `c` is white space.
pub fn white_space(c: char) -> (res: bool)
    ensures
        res == is_white_space(c),
{
    let u: u32 = c as u32;
    (0x9 <= u && u <= 0xd) || u == 0x20 || u == 0x85 || u == 0xa0 || u == 0x1680 || (0x2000 <= u && u
        <= 0x200a) || (0x2028 <= u && u <= 0x2029) || u == 0x202f || u == 0x205f || u == 0x3000
}

/// `s` without the white space at its start.
pub open spec fn trim_start(s: Seq<char>) -> Seq<char>
    decreases s.len(),
{
    if s.len() > 0 && is_white_space(s[0]) {
        trim_start(s.drop_first())
    } else {
        s
    }
}

/// `s` without the white space at its end.
pub open spec fn trim_end(s: Seq<char>) -> Seq<char>
    decreases s.len(),
{
    if s.len() > 0 && is_white_space(s.last()) {
        trim_end(s.drop_last())
    } else {
        s
    }
}

/// `s` without the white space at its start and at its end.
pub open spec fn trim(s: Seq<char>) -> Seq<char> {
    trim_end(trim_start(s))
}

/// `s` without the white space at its start and at its end.
pub fn trimmed<'a>(s: &'a [char]) -> (res: &'a [char])
    ensures
        res@ == trim(s@),
{
    let mut start: usize = 0;
    assert(s@.skip(0) =~= s@);
    while start < s.len() && white_space(s[start])
        invariant
            start <= s@.len(),
            trim_start(s@.skip(start as int)) == trim_start(s@),
        decreases s@.len() - start,
    {
        assert(s@.skip(start as int).drop_first() =~= s@.skip(start + 1));
        start = start + 1;
    }
    assert(trim_start(s@) == s@.skip(start as int));
    let mut end: usize = s.len();
    assert(s@.subrange(start as int, end as int) =~= s@.skip(start as int));
    while start < end && white_space(s[end - 1])
        invariant
            start <= end <= s@.len(),
            trim_end(s@.subrange(start as int, end as int)) == trim(s@),
        decreases end,
    {
        assert(s@.subrange(start as int, end as int).drop_last() =~= s@.subrange(
            start as int,
            end - 1,
        ));
        end = end - 1;
    }
    slice_subrange(s, start, end)
}

/// The value of `c` as a digit in the given radix (at most 16).
pub open spec fn digit(c: char, radix: nat) -> Option<nat> {
    let u = c as u32;
    let v = if 0x30 <= u <= 0x39 {
        u - 0x30
    } else if 0x61 <= u <= 0x66 {
        u - 0x61 + 10
    } else if 0x41 <= u <= 0x46 {
        u - 0x41 + 10
    } else {
        radix as int
    };
    if v < radix {
        Some(v as nat)
    } else {
        None
    }
}

/// Every character is a digit.
pub open spec fn all_digits(s: Seq<char>, radix: nat) -> bool {
    forall|i: int| 0 <= i < s.len() ==> digit(#[trigger] s[i], radix) is Some
}

/// The value of a sequence of digits.
pub open spec fn digits_value(s: Seq<char>, radix: nat) -> nat
    decreases s.len(),
{
    if s.len() == 0 {
        0
    } else {
        digits_value(s.drop_last(), radix) * radix + digit(s.last(), radix)->0
    }
}

/// The number that `s` stands for: digits, with an optional `+` in front of them,
/// whose value is at most `max`.
pub open spec fn number(s: Seq<char>, radix: nat, max: nat) -> Option<nat> {
    let digits = if s.len() > 0 && s[0] == '+' {
        s.drop_first()
    } else {
        s
    };
    if digits.len() > 0 && all_digits(digits, radix) && digits_value(digits, radix) <= max {
        Some(digits_value(digits, radix))
    } else {
        None
    }
}

/// The value of `c` as a digit.
pub fn digit_of(c: char, radix: u64) -> (res: Option<u64>)
    requires
        2 <= radix <= 16,
    ensures
        match digit(c, radix as nat) {
            Some(v) => res == Some(v as u64),
            None => res is None,
        },
        res matches Some(v) ==> v < radix,
{
    let u: u32 = c as u32;
    let v: u64 = if 0x30 <= u && u <= 0x39 {
        (u - 0x30) as u64
    } else if 0x61 <= u && u <= 0x66 {
        (u - 0x61 + 10) as u64
    } else if 0x41 <= u && u <= 0x46 {
        (u - 0x41 + 10) as u64
    } else {
        radix
    };
    if v < radix {
        Some(v)
    } else {
        None
    }
}

/// Reading more digits doesn't make the value smaller.
pub proof fn lemma_digits_value_monotonic(s: Seq<char>, i: int, radix: nat)
    requires
        0 <= i <= s.len(),
        radix >= 1,
    ensures
        digits_value(s.take(i), radix) <= digits_value(s, radix),
    decreases s.len() - i,
{
    if i < s.len() {
        lemma_digits_value_monotonic(s, i + 1, radix);
        let t = s.take(i + 1);
        assert(t.drop_last() =~= s.take(i));
        let v = digits_value(s.take(i), radix);
        assert(v <= v * radix) by (nonlinear_arith)
            requires
                radix >= 1,
        ;
    } else {
        assert(s.take(i) =~= s);
    }
}

/// The number that `s` stands for, if it fits into 64 bits.
pub fn parse_number(s: &[char], radix: u64) -> (res: Option<u64>)
    requires
        2 <= radix <= 16,
    ensures
        match number(s@, radix as nat, u64::MAX as nat) {
            Some(v) => res == Some(v as u64),
            None => res is None,
        },
{
    let start: usize = if s.len() > 0 && s[0] == '+' {
        1
    } else {
        0
    };
    let digits = slice_subrange(s, start, s.len());
    assert(digits@ =~= (if s@.len() > 0 && s@[0] == '+' {
        s@.drop_first()
    } else {
        s@
    }));
    if digits.len() == 0 {
        return None;
    }
    let mut value: u64 = 0;
    let mut i: usize = 0;
    while i < digits.len()
        invariant
            2 <= radix <= 16,
            i <= digits@.len(),
            value == digits_value(digits@.take(i as int), radix as nat),
            forall|j: int| 0 <= j < i ==> digit(#[trigger] digits@[j], radix as nat) is Some,
            digits@.len() > 0,
            digits@ == (if s@.len() > 0 && s@[0] == '+' {
                s@.drop_first()
            } else {
                s@
            }),
        decreases digits@.len() - i,
    {
        let d: u64 = match digit_of(digits[i], radix) {
            Some(d) => d,
            None => {
                assert(digit(digits@[i as int], radix as nat) is None);
                return None;
            },
        };
        let ghost t = digits@.take(i + 1);
        assert(t.drop_last() =~= digits@.take(i as int));
        assert(digits_value(t, radix as nat) == value * radix + d);
        proof {
            lemma_digits_value_monotonic(digits@, i + 1, radix as nat);
        }
        match value.checked_mul(radix) {
            Some(scaled) => match scaled.checked_add(d) {
                Some(sum) => {
                    value = sum;
                },
                None => {
                    return None;
                },
            },
            None => {
                return None;
            },
        }
        i = i + 1;
    }
    assert(digits@.take(i as int) =~= digits@);
    Some(value)
}

/// The decimal number that `s` stands for, if it fits into 64 bits.
pub open spec fn decimal_u64(s: Seq<char>) -> Option<u64> {
    match number(s, 10, u64::MAX as nat) {
        Some(v) => Some(v as u64),
        None => None,
    }
}

/// The decimal number that `s` stands for, if it fits into 32 bits.
pub open spec fn decimal_u32(s: Seq<char>) -> Option<u32> {
    match number(s, 10, u32::MAX as nat) {
        Some(v) => Some(v as u32),
        None => None,
    }
}

/// The decimal number that `s` stands for, if it fits into 64 bits.
pub fn parse_decimal_u64(s: &[char]) -> (res: Option<u64>)
    ensures
        res == decimal_u64(s@),
{
    parse_number(s, 10)
}

/// The decimal number that `s` stands for, if it fits into 32 bits.
pub fn parse_decimal_u32(s: &[char]) -> (res: Option<u32>)
    ensures
        res == decimal_u32(s@),
{
    match parse_number(s, 10) {
        Some(v) => if v <= u32::MAX as u64 {
            Some(v as u32)
        } else {
            None
        },
        None => None,
    }
}

/// The digit for a number below 10.
pub open spec fn digit_char(d: nat) -> char {
    (0x30 + d) as char
}

/// The decimal digits of `n`, without leading zeros.
pub open spec fn decimal(n: nat) -> Seq<char>
    decreases n,
{
    if n < 10 {
        seq![digit_char(n)]
    } else {
        decimal(n / 10).push(digit_char(n % 10))
    }
}

/// The decimal digits of `n`, without leading zeros.
pub fn decimal_of(n: u64) -> (res: String)
    ensures
        res@ == decimal(n as nat),
    decreases n,
{
    let mut res = if n < 10 {
        String::new()
    } else {
        decimal_of(n / 10)
    };
    res.push(digit_char_of((n % 10) as u8));
    assert(res@ =~= decimal(n as nat));
    res
}

fn digit_char_of(d: u8) -> (res: char)
    requires
        d < 10,
    ensures
        res == digit_char(d as nat),
{
    (0x30 + d) as char
}

/// Reading the decimal digits of a number gives the number back.
pub proof fn decimal_digits_read_back(n: nat)
    ensures
        decimal(n).len() > 0,
        all_digits(decimal(n), 10),
        digits_value(decimal(n), 10) == n,
        number(decimal(n), 10, n) == Some(n),
    decreases n,
{
    if n < 10 {
        let s = decimal(n);
        assert(s.drop_last() =~= seq![]);
        assert(digits_value(s.drop_last(), 10) == 0);
    } else {
        decimal_digits_read_back(n / 10);
        let s = decimal(n);
        assert(s.drop_last() =~= decimal(n / 10));
    }
}

/// The hexadecimal digit for a number below 16.
pub open spec fn hex_char(d: nat) -> char {
    if d < 10 {
        digit_char(d)
    } else {
        (0x61 + d - 10) as char
    }
}

/// The hexadecimal digits of `n`, without leading zeros.
pub open spec fn hexadecimal(n: nat) -> Seq<char>
    decreases n,
{
    if n < 16 {
        seq![hex_char(n)]
    } else {
        hexadecimal(n / 16).push(hex_char(n % 16))
    }
}

/// Reading the hexadecimal digits of a number gives the number back.
pub proof fn hexadecimal_digits_read_back(n: nat)
    ensures
        hexadecimal(n).len() > 0,
        all_digits(hexadecimal(n), 16),
        digits_value(hexadecimal(n), 16) == n,
        number(hexadecimal(n), 16, n) == Some(n),
    decreases n,
{
    if n < 16 {
        let s = hexadecimal(n);
        assert(s.drop_last() =~= seq![]);
        assert(digits_value(s.drop_last(), 16) == 0);
    } else {
        hexadecimal_digits_read_back(n / 16);
        let s = hexadecimal(n);
        assert(s.drop_last() =~= hexadecimal(n / 16));
    }
}

/// A copy of the bytes.
pub fn copy_of(bytes: &[u8]) -> (res: Vec<u8>)
    ensures
        res@ == bytes@,
{
    let mut res: Vec<u8> = Vec::new();
    let mut i: usize = 0;
    while i < bytes.len()
        invariant
            i <= bytes@.len(),
            res@ == bytes@.take(i as int),
        decreases bytes@.len() - i,
    {
        res.push(bytes[i]);
        assert(bytes@.take(i as int).push(bytes@[i as int]) =~= bytes@.take(i + 1));
        i = i + 1;
    }
    assert(bytes@.take(bytes@.len() as int) =~= bytes@);
    res
}

/// The bytes of `s`.
pub fn bytes_of(s: &str) -> (res: Vec<u8>)
    ensures
        res@ == s.spec_bytes(),
{
    copy_of(s.as_bytes())
}

/// Whether the bytes are the same.
pub fn same_bytes(a: &[u8], b: &[u8]) -> (res: bool)
    ensures
        res == (a@ == b@),
{
    if a.len() != b.len() {
        return false;
    }
    let mut i: usize = 0;
    while i < a.len()
        invariant
            i <= a@.len(),
            a@.len() == b@.len(),
            forall|j: int| 0 <= j < i ==> a@[j] == b@[j],
        decreases a@.len() - i,
    {
        if a[i] != b[i] {
            assert(a@[i as int] != b@[i as int]);
            return false;
        }
        i = i + 1;
    }
    assert(a@ =~= b@);
    true
}

/// The pieces one after another, with `c` between any two of them.
pub open spec fn joined_with(pieces: Seq<Seq<char>>, c: char) -> Seq<char>
    decreases pieces.len(),
{
    if pieces.len() == 0 {
        seq![]
    } else if pieces.len() == 1 {
        pieces[0]
    } else {
        pieces[0] + seq![c] + joined_with(pieces.drop_first(), c)
    }
}

/// Whether `c` is not in the piece.
pub open spec fn lacks(piece: Seq<char>, c: char) -> bool {
    forall|j: int| 0 <= j < piece.len() ==> #[trigger] piece[j] != c
}

proof fn lemma_find_behind(piece: Seq<char>, rest: Seq<char>, c: char)
    requires
        lacks(piece, c),
    ensures
        find(piece + seq![c] + rest, c) == piece.len(),
        (piece + seq![c] + rest).take(piece.len() as int) == piece,
        (piece + seq![c] + rest).skip(piece.len() as int + 1) == rest,
{
    let all = piece + seq![c] + rest;
    assert(all[piece.len() as int] == c);
    lemma_find(all, c, piece.len() as int);
    assert(all.take(piece.len() as int) =~= piece);
    assert(all.skip(piece.len() as int + 1) =~= rest);
}

/// Splitting gives back the pieces that were joined, if the separator is in none of them.
pub proof fn splitting_undoes_joining(pieces: Seq<Seq<char>>, c: char)
    requires
        pieces.len() > 0,
        forall|i: int| 0 <= i < pieces.len() ==> lacks(#[trigger] pieces[i], c),
    ensures
        split(joined_with(pieces, c), c) == pieces,
    decreases pieces.len(),
{
    if pieces.len() == 1 {
        lemma_find(pieces[0], c, pieces[0].len() as int);
        assert(seq![pieces[0]] =~= pieces);
    } else {
        let rest = pieces.drop_first();
        splitting_undoes_joining(rest, c);
        lemma_find_behind(pieces[0], joined_with(rest, c), c);
        assert(seq![pieces[0]] + rest =~= pieces);
    }
}

/// Splitting into at most as many pieces as were joined gives them back, if the separator is in
/// none of them but the last.
pub proof fn splitting_stops_at_the_last_piece(pieces: Seq<Seq<char>>, n: nat, c: char)
    requires
        0 < pieces.len() <= n,
        forall|i: int| 0 <= i < pieces.len() - 1 ==> lacks(#[trigger] pieces[i], c),
        pieces.len() < n ==> lacks(pieces.last(), c),
    ensures
        splitn(joined_with(pieces, c), n, c) == pieces,
    decreases pieces.len(),
{
    if pieces.len() == 1 {
        if n > 1 {
            lemma_find(pieces[0], c, pieces[0].len() as int);
        }
        assert(seq![pieces[0]] =~= pieces);
    } else {
        let rest = pieces.drop_first();
        splitting_stops_at_the_last_piece(rest, (n - 1) as nat, c);
        lemma_find_behind(pieces[0], joined_with(rest, c), c);
        assert(seq![pieces[0]] + rest =~= pieces);
    }
}

/// The lines one after another, each with its end: a newline, with or without a carriage return
/// in front of it.
pub open spec fn with_line_ends(lines: Seq<Seq<char>>, crs: Seq<bool>) -> Seq<char>
    decreases lines.len(),
{
    if lines.len() == 0 {
        seq![]
    } else {
        lines[0] + (if crs[0] {
            seq!['\r', '\n']
        } else {
            seq!['\n']
        }) + with_line_ends(lines.drop_first(), crs.drop_first())
    }
}

/// The lines of a text are what stands in front of the line ends, and what stands behind the
/// last of them, unless that is nothing.
pub proof fn lines_read_back(written: Seq<Seq<char>>, crs: Seq<bool>, last: Seq<char>)
    requires
        crs.len() == written.len(),
        forall|i: int| 0 <= i < written.len() ==> lacks(#[trigger] written[i], '\n'),
        forall|i: int|
            0 <= i < written.len() && (#[trigger] written[i]).len() > 0 && !crs[i]
                ==> written[i].last() != '\r',
        lacks(last, '\n'),
    ensures
        lines(with_line_ends(written, crs) + last) == (if last.len() > 0 {
            written.push(last)
        } else {
            written
        }),
    decreases written.len(),
{
    let all = with_line_ends(written, crs) + last;
    if written.len() == 0 {
        assert(all =~= last);
        lemma_find(last, '\n', last.len() as int);
        if last.len() > 0 {
            assert(seq![last] =~= written.push(last));
        } else {
            assert(written =~= seq![]);
        }
    } else {
        let more = written.drop_first();
        let more_crs = crs.drop_first();
        assert forall|i: int|
            0 <= i < more.len() && (#[trigger] more[i]).len() > 0 && !more_crs[i] implies more[i].last()
            != '\r' by {
            assert(more[i] == written[i + 1] && more_crs[i] == crs[i + 1]);
        }
        lines_read_back(more, more_crs, last);
        let rest = with_line_ends(more, more_crs) + last;
        let line = if crs[0] {
            written[0].push('\r')
        } else {
            written[0]
        };
        assert(all =~= line + seq!['\n'] + rest);
        assert(lacks(line, '\n')) by {
            assert forall|j: int| 0 <= j < line.len() implies #[trigger] line[j] != '\n' by {
                if j < written[0].len() {
                    assert(line[j] == written[0][j]);
                }
            }
        }
        lemma_find_behind(line, rest, '\n');
        assert(written[0].push('\r').drop_last() =~= written[0]);
        assert(without_cr(line) == written[0]);
        if last.len() > 0 {
            assert(seq![written[0]] + more.push(last) =~= written.push(last));
        } else {
            assert(seq![written[0]] + more =~= written);
        }
    }
}

/// Whether the character shows: it is no white space of any kind.
pub open spec fn is_graphic(c: char) -> bool {
    0x21 <= c as u32 <= 0x7e
}

/// Whether there are only spaces, tabs, and ends of lines.
pub open spec fn is_blank(s: Seq<char>) -> bool {
    forall|i: int|
        0 <= i < s.len() ==> #[trigger] s[i] == ' ' || s[i] == '\t' || s[i] == '\n' || s[i] == '\r'
}

/// Trimming takes away the blanks around a text and nothing of the text itself.
pub proof fn trimming_takes_the_blanks(before: Seq<char>, s: Seq<char>, after: Seq<char>)
    requires
        is_blank(before),
        is_blank(after),
        s.len() > 0,
        is_graphic(s[0]),
        is_graphic(s.last()),
    ensures
        trim(before + s + after) == s,
    decreases before.len() + after.len(),
{
    let all = before + s + after;
    if before.len() > 0 {
        assert(all[0] == before[0]);
        assert(all.drop_first() =~= before.drop_first() + s + after);
        trimming_takes_the_blanks(before.drop_first(), s, after);
    } else if after.len() > 0 {
        assert(all[0] == s[0]);
        assert(all.last() == after.last());
        assert(all.drop_last() =~= before + s + after.drop_last());
        trimming_takes_the_blanks(before, s, after.drop_last());
        assert(all.drop_last()[0] == s[0]);
    } else {
        assert(all =~= s);
    }
}

/// A digit stands for its number, in small and in capital letters, and nothing else does.
pub proof fn digits_stand_for_their_numbers(c: char, d: nat)
    ensures
        d < 10 && c as u32 == 0x30 + d ==> digit(c, 10) == Some(d) && digit(c, 16) == Some(d),
        10 <= d < 16 && (c as u32 == 0x61 + d - 10 || c as u32 == 0x41 + d - 10) ==> digit(c, 16)
            == Some(d) && digit(c, 10) is None,
        digit(c, 16) is Some ==> 0x30 <= c as u32 <= 0x39 || 0x61 <= c as u32 <= 0x66 || 0x41
            <= c as u32 <= 0x46,
        digit(c, 10) is Some ==> 0x30 <= c as u32 <= 0x39,
{
}

/// One more digit behind a number makes it as many times as large as the radix says, and adds
/// the digit.
pub proof fn digits_count_by_their_place(s: Seq<char>, c: char, d: nat, radix: nat)
    requires
        digit(c, radix) == Some(d),
    ensures
        digits_value(s.push(c), radix) == radix * digits_value(s, radix) + d,
        digits_value(Seq::empty(), radix) == 0,
{
    assert(s.push(c).drop_last() =~= s);
    assert(digits_value(s, radix) * radix == radix * digits_value(s, radix)) by (nonlinear_arith);
}

/// What is read as a number consists of digits, with at most a plus sign in front of them, and
/// is not above the bound; and all such texts are read as their value.
pub proof fn numbers_are_read_as_their_value(s: Seq<char>, radix: nat, max: nat)
    requires
        radix == 10 || radix == 16,
    ensures
        s.len() > 0 && all_digits(s, radix) && digits_value(s, radix) <= max ==> number(
            s,
            radix,
            max,
        ) == Some(digits_value(s, radix)),
        s.len() > 0 && all_digits(s, radix) && digits_value(s, radix) > max ==> number(
            s,
            radix,
            max,
        ) is None,
        number(s, radix, max) matches Some(v) ==> v <= max && s.len() > 0 && ((all_digits(s, radix)
            && v == digits_value(s, radix)) || (s[0] == '+' && s.len() > 1 && all_digits(
            s.drop_first(),
            radix,
        ) && v == digits_value(s.drop_first(), radix))),
{
    if s.len() > 0 && all_digits(s, radix) {
        assert(digit(s[0], radix) is Some);
    }
}

/// A text starts with a prefix just if it is the prefix and something behind it, or nothing.
pub proof fn prefixes_are_at_the_start(s: Seq<char>, prefix: Seq<char>, rest: Seq<char>)
    ensures
        starts_with(prefix + rest, prefix),
        starts_with(s, prefix) ==> s == prefix + s.skip(prefix.len() as int),
{
    assert((prefix + rest).take(prefix.len() as int) =~= prefix);
    if starts_with(s, prefix) {
        assert(s =~= s.take(prefix.len() as int) + s.skip(prefix.len() as int));
    }
}

/// Of blanks alone, trimming leaves nothing.
pub proof fn trimming_takes_all_blanks(s: Seq<char>)
    requires
        is_blank(s),
    ensures
        trim(s).len() == 0,
        trim_end(s).len() == 0,
    decreases s.len(),
{
    if s.len() > 0 {
        trimming_takes_all_blanks(s.drop_first());
        trimming_takes_all_blanks(s.drop_last());
    }
}

/// A number that is written down in decimal is read as itself, if it fits, and otherwise not.
pub proof fn decimal_numbers_read_back(n: nat)
    ensures
        n <= 0xffff_ffff ==> decimal_u32(decimal(n)) == Some(n as u32),
        n > 0xffff_ffff ==> decimal_u32(decimal(n)) is None,
        n <= 0xffff_ffff_ffff_ffff ==> decimal_u64(decimal(n)) == Some(n as u64),
        n > 0xffff_ffff_ffff_ffff ==> decimal_u64(decimal(n)) is None,
{
    decimal_digits_read_back(n);
    numbers_are_read_as_their_value(decimal(n), 10, u32::MAX as nat);
    numbers_are_read_as_their_value(decimal(n), 10, u64::MAX as nat);
}

} // verus!
