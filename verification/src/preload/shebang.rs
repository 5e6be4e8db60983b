//! The interpreter that the first line of a script names.

use crate::text::find;
use vstd::prelude::*;
use vstd::slice::slice_subrange;

verus! {

/// How many bytes of a file are searched for a shebang.
pub const SHEBANG_READ_SZ: usize = 256;

/// What separates an interpreter from its argument.
#[derive(Clone, Copy, Debug, PartialEq, Eq, Structural)]
pub enum Blanks {
    Spaces,
    SpacesAndTabs,
}

impl Blanks {
    pub open spec fn has(self, b: u8) -> bool {
        b == 0x20 || self == Blanks::SpacesAndTabs && b == 0x9
    }

    fn contains(self, b: u8) -> (res: bool)
        ensures
            res == self.has(b),
    {
        b == 0x20 || self == Blanks::SpacesAndTabs && b == 0x9
    }
}

/// The first position from `i` on that is not blank, or the end.
pub open spec fn blanks_end(line: Seq<u8>, i: int, blanks: Blanks) -> int
    decreases line.len() - i,
{
    if 0 <= i < line.len() && blanks.has(line[i]) {
        blanks_end(line, i + 1, blanks)
    } else {
        i
    }
}

/// The first position from `i` on that is blank, or the end.
pub open spec fn word_end(line: Seq<u8>, i: int, blanks: Blanks) -> int
    decreases line.len() - i,
{
    if 0 <= i < line.len() && !blanks.has(line[i]) {
        word_end(line, i + 1, blanks)
    } else {
        i
    }
}

/// The first line of a script, without its newline: it starts with `#!`. A line that is cut
/// off by the end of the window is none.
pub open spec fn shebang_line(window: Seq<u8>) -> Option<Seq<u8>> {
    let end = find(window, 0x0au8);
    if window.len() >= 2 && window[0] == 0x23 && window[1] == 0x21 && end < window.len() {
        Some(window.take(end))
    } else {
        None
    }
}

/// Where the interpreter starts and ends in the line `#!  <interpreter> [<arg>]`.
pub open spec fn interpreter_range(line: Seq<u8>, blanks: Blanks) -> Option<(int, int)> {
    let start = blanks_end(line, 2, blanks);
    if start >= line.len() {
        None
    } else {
        Some((start, word_end(line, start, blanks)))
    }
}

/// An interpreter and its argument, which may be empty.
#[verifier::ext_equal]
pub struct ShebangParts {
    pub interpreter: Seq<u8>,
    pub argument: Seq<u8>,
}

/// The interpreter, and the word right behind the blank that ends it.
pub open spec fn shebang(window: Seq<u8>, blanks: Blanks) -> Option<ShebangParts> {
    match shebang_line(window) {
        Some(line) => match interpreter_range(line, blanks) {
            Some((start, end)) => Some(
                ShebangParts {
                    interpreter: line.subrange(start, end),
                    argument: if end < line.len() {
                        line.subrange(end + 1, word_end(line, end + 1, blanks))
                    } else {
                        seq![]
                    },
                },
            ),
            None => None,
        },
        None => None,
    }
}

/// An interpreter and its argument, which may be empty.
#[derive(Debug)]
pub struct Shebang<'a> {
    pub interpreter: &'a [u8],
    pub argument: &'a [u8],
}

impl<'a> View for Shebang<'a> {
    type V = ShebangParts;

    open spec fn view(&self) -> ShebangParts {
        ShebangParts { interpreter: self.interpreter@, argument: self.argument@ }
    }
}

fn find_word_end(line: &[u8], from: usize, blanks: Blanks) -> (res: usize)
    requires
        from <= line@.len(),
    ensures
        res == word_end(line@, from as int, blanks),
        from <= res <= line@.len(),
{
    let mut i: usize = from;
    while i < line.len() && !blanks.contains(line[i])
        invariant
            from <= i <= line@.len(),
            word_end(line@, i as int, blanks) == word_end(line@, from as int, blanks),
        decreases line@.len() - i,
    {
        i = i + 1;
    }
    i
}

/// Parses `#!  <interpreter> [<arg>] \n` at the start of a script.
pub fn parse_shebang<'a>(window: &'a [u8], blanks: Blanks) -> (res: Option<Shebang<'a>>)
    ensures
        match shebang(window@, blanks) {
            Some(parts) => res matches Some(s) && s@ == parts,
            None => res is None,
        },
        res matches Some(s) ==> 0 < s.interpreter@.len() < window@.len() && s.argument@.len()
            < window@.len(),
{
    if window.len() < 2 || window[0] != 0x23 || window[1] != 0x21 {
        return None;
    }
    let mut newline: usize = 2;
    while newline < window.len() && window[newline] != 0x0a
        invariant
            2 <= newline <= window@.len(),
            window@[0] == 0x23,
            window@[1] == 0x21,
            forall|j: int| 0 <= j < newline ==> window@[j] != 0x0a,
        decreases window@.len() - newline,
    {
        newline = newline + 1;
    }
    proof {
        crate::text::lemma_find(window@, 0x0au8, newline as int);
    }
    if newline >= window.len() {
        return None;
    }
    let line = slice_subrange(window, 0, newline);
    assert(line@ =~= window@.take(newline as int));
    let mut start: usize = 2;
    while start < line.len() && blanks.contains(line[start])
        invariant
            2 <= start <= line@.len(),
            blanks_end(line@, start as int, blanks) == blanks_end(line@, 2, blanks),
        decreases line@.len() - start,
    {
        start = start + 1;
    }
    if start >= line.len() {
        return None;
    }
    let end: usize = find_word_end(line, start, blanks);
    assert(start < end) by {
        reveal_with_fuel(word_end, 2);
        lemma_word_end(line@, start + 1, blanks);
    }
    let interpreter = slice_subrange(line, start, end);
    let argument = if end < line.len() {
        let argument_end: usize = find_word_end(line, end + 1, blanks);
        slice_subrange(line, end + 1, argument_end)
    } else {
        slice_subrange(line, end, end)
    };
    assert(end >= line@.len() ==> argument@ =~= seq![]);
    Some(Shebang { interpreter, argument })
}

proof fn lemma_word_end(line: Seq<u8>, i: int, blanks: Blanks)
    requires
        0 <= i <= line.len(),
    ensures
        i <= word_end(line, i, blanks) <= line.len(),
        forall|j: int| i <= j < word_end(line, i, blanks) ==> !blanks.has(#[trigger] line[j]),
    decreases line.len() - i,
{
    if i < line.len() && !blanks.has(line[i]) {
        lemma_word_end(line, i + 1, blanks);
    }
}

proof fn lemma_blanks_end(line: Seq<u8>, i: int, blanks: Blanks)
    requires
        0 <= i <= line.len(),
    ensures
        i <= blanks_end(line, i, blanks) <= line.len(),
        blanks_end(line, i, blanks) < line.len() ==> !blanks.has(
            line[blanks_end(line, i, blanks)],
        ),
    decreases line.len() - i,
{
    if i < line.len() && blanks.has(line[i]) {
        lemma_blanks_end(line, i + 1, blanks);
    }
}

/// An interpreter is a word that is not empty, and neither it nor its argument has a blank or
/// a newline in it.
pub proof fn an_interpreter_is_one_word(window: Seq<u8>, blanks: Blanks)
    ensures
        shebang(window, blanks) matches Some(parts) ==> {
            &&& parts.interpreter.len() > 0
            &&& forall|i: int|
                0 <= i < parts.interpreter.len() ==> !blanks.has(
                    #[trigger] parts.interpreter[i],
                ) && parts.interpreter[i] != 0x0a
            &&& forall|i: int|
                0 <= i < parts.argument.len() ==> !blanks.has(#[trigger] parts.argument[i])
                    && parts.argument[i] != 0x0a
        },
{
    if let Some(line) = shebang_line(window) {
        crate::text::lemma_find_range(window, 0x0au8);
        assert forall|j: int| 0 <= j < line.len() implies #[trigger] line[j] != 0x0a by {
            assert(line[j] == window[j]);
        }
        if line.len() < 2 {
            assert(window[find(window, 0x0au8)] == 0x0a);
            assert(false);
        }
        lemma_blanks_end(line, 2, blanks);
        if let Some((start, end)) = interpreter_range(line, blanks) {
            lemma_word_end(line, start, blanks);
            reveal_with_fuel(word_end, 2);
            lemma_word_end(line, start + 1, blanks);
            if end < line.len() {
                lemma_word_end(line, end + 1, blanks);
            }
        }
    }
}

proof fn lemma_blanks_end_is(line: Seq<u8>, i: int, end: int, blanks: Blanks)
    requires
        0 <= i <= end <= line.len(),
        forall|j: int| i <= j < end ==> blanks.has(#[trigger] line[j]),
        end < line.len() ==> !blanks.has(line[end]),
    ensures
        blanks_end(line, i, blanks) == end,
    decreases end - i,
{
    if i < end {
        lemma_blanks_end_is(line, i + 1, end, blanks);
    }
}

proof fn lemma_word_end_is(line: Seq<u8>, i: int, end: int, blanks: Blanks)
    requires
        0 <= i <= end <= line.len(),
        forall|j: int| i <= j < end ==> !blanks.has(#[trigger] line[j]),
        end < line.len() ==> blanks.has(line[end]),
    ensures
        word_end(line, i, blanks) == end,
    decreases end - i,
{
    if i < end {
        lemma_word_end_is(line, i + 1, end, blanks);
    }
}

/// Whether the byte is a space or, where these count, a tab.
pub open spec fn is_gap(b: u8, blanks: Blanks) -> bool {
    b == 0x20 || b == 0x9 && blanks == Blanks::SpacesAndTabs
}

/// Whether the bytes are a word or part of one: none of them is blank or ends a line.
pub open spec fn is_word(bytes: Seq<u8>, blanks: Blanks) -> bool {
    forall|i: int|
        0 <= i < bytes.len() ==> !is_gap(#[trigger] bytes[i], blanks) && bytes[i] != 0x0a
}

/// A first line that is written down as `#!`, blanks, an interpreter, and behind one blank an
/// argument, reads back as the interpreter and the argument. What follows behind another blank
/// does not matter, nor do the other lines; and without the first blank there is no argument.
pub proof fn first_lines_read_back(
    blanks: Blanks,
    before: Seq<u8>,
    interpreter: Seq<u8>,
    gap: Seq<u8>,
    argument: Seq<u8>,
    more: Seq<u8>,
    rest: Seq<u8>,
)
    requires
        forall|i: int| 0 <= i < before.len() ==> is_gap(#[trigger] before[i], blanks),
        interpreter.len() > 0,
        is_word(interpreter, blanks),
        gap.len() == 1 && is_gap(gap[0], blanks) || gap.len() == 0 && argument.len() == 0
            && more.len() == 0,
        is_word(argument, blanks),
        more.len() > 0 ==> is_gap(more[0], blanks),
        forall|i: int| 0 <= i < more.len() ==> #[trigger] more[i] != 0x0a,
    ensures
        shebang(
            seq![0x23u8, 0x21u8] + before + interpreter + gap + argument + more + seq![0x0au8]
                + rest,
            blanks,
        ) == Some(ShebangParts { interpreter, argument }),
{
    let line = seq![0x23u8, 0x21u8] + before + interpreter + gap + argument + more;
    let window = line + seq![0x0au8] + rest;
    let start = 2 + before.len() as int;
    let end = start + interpreter.len() as int;
    let from = end + gap.len() as int;
    let to = from + argument.len() as int;
    assert forall|j: int| 0 <= j < line.len() implies #[trigger] line[j] != 0x0a by {
        if 2 <= j < start {
            assert(line[j] == before[j - 2]);
        } else if start <= j < end {
            assert(line[j] == interpreter[j - start]);
        } else if end <= j < from {
            assert(line[j] == gap[j - end]);
        } else if from <= j < to {
            assert(line[j] == argument[j - from]);
        } else if to <= j {
            assert(line[j] == more[j - to]);
        }
    }
    assert forall|j: int| 0 <= j < line.len() implies window[j] != 0x0a by {
        assert(window[j] == line[j]);
    }
    assert(window[line.len() as int] == 0x0a);
    crate::text::lemma_find(window, 0x0au8, line.len() as int);
    assert(window.take(line.len() as int) =~= line);
    assert forall|j: int| 2 <= j < start implies blanks.has(#[trigger] line[j]) by {
        assert(line[j] == before[j - 2]);
    }
    assert forall|j: int| start <= j < end implies !blanks.has(#[trigger] line[j]) by {
        assert(line[j] == interpreter[j - start]);
    }
    lemma_blanks_end_is(line, 2, start, blanks);
    if gap.len() > 0 {
        assert(line[end] == gap[0]);
    }
    lemma_word_end_is(line, start, end, blanks);
    assert(line.subrange(start, end) =~= interpreter);
    if gap.len() > 0 {
        assert forall|j: int| from <= j < to implies !blanks.has(#[trigger] line[j]) by {
            assert(line[j] == argument[j - from]);
        }
        if more.len() > 0 {
            assert(line[to] == more[0]);
        }
        lemma_word_end_is(line, from, to, blanks);
        assert(line.subrange(from, to) =~= argument);
    } else {
        assert(argument =~= seq![]);
    }
}

/// No interpreter is named where the file does not start with `#!`, where the first line does
/// not end in the window, or where nothing but blanks follow.
pub proof fn other_first_lines_name_no_interpreter(window: Seq<u8>, blanks: Blanks, end: int)
    ensures
        window.len() < 2 || window[0] != 0x23 || window[1] != 0x21 ==> shebang(window, blanks)
            is None,
        (forall|i: int| 0 <= i < window.len() ==> #[trigger] window[i] != 0x0a) ==> shebang(
            window,
            blanks,
        ) is None,
        2 <= end < window.len() && window[end] == 0x0a && window[0] == 0x23 && window[1] == 0x21 && (
        forall|i: int| 2 <= i < end ==> is_gap(#[trigger] window[i], blanks)) ==> shebang(
            window,
            blanks,
        ) is None,
{
    if forall|i: int| 0 <= i < window.len() ==> #[trigger] window[i] != 0x0a {
        crate::text::lemma_find(window, 0x0au8, window.len() as int);
    }
    if 2 <= end < window.len() && window[end] == 0x0a && window[0] == 0x23 && window[1] == 0x21 && (
    forall|i: int| 2 <= i < end ==> is_gap(#[trigger] window[i], blanks)) {
        assert forall|j: int| 0 <= j < end implies window[j] != 0x0a by {
            if j >= 2 {
                assert(is_gap(window[j], blanks));
            }
        }
        crate::text::lemma_find(window, 0x0au8, end);
        let line = window.take(end);
        assert forall|j: int| 2 <= j < end implies blanks.has(#[trigger] line[j]) by {
            assert(line[j] == window[j]);
        }
        lemma_blanks_end_is(line, 2, end, blanks);
    }
}

} // verus!
