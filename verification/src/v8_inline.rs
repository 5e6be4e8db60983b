//! Reconstruct V8 TurboFan/Maglev inline frames from the V8 code log, keyed by
//! JIT code address + size.
//!
//! V8's jitdump records only the *innermost* inlined source position per PC, so
//! a sampling profiler collapses an inlined chain `root -> a -> b -> c` down to
//! just `root`. The full inline tree is instead present in the code
//! log's `code-source-info` records (`inlining_positions` + `inlined_functions`).
//! Both use the same runtime code addresses, so joining by address expands a
//! single jitdump frame into the real inline stack.
//!
//! A code address is not unique over a process's lifetime: V8 frees code and
//! reuses the address for another object. We disambiguate by also keying on the
//! code object's byte size, which both the jitdump (`CODE_LOAD`) and the log
//! (`code-creation`) report identically and which is available at lookup time.

use crate::text::{chars_of, decimal, decimal_u32, has_prefix, joined_with, lacks, lines, lines_of,
    parse_decimal_u32, pieces_view, split_at_most, splitn, splitting_stops_at_the_last_piece,
    starts_with, string_of};
use crate::v8_fields::{hex, inlined_functions, inlining_positions_from, location_parts,
    locations_read_back, name_parts,
    parse_hex, parse_inlined_functions, parse_inlining_positions, parse_location, parse_name,
    parse_positions, positions_from};
use std::collections::HashMap;
use vstd::prelude::*;
use vstd::slice::slice_subrange;
use vstd::string::*;

verus! {

broadcast use vstd::std_specs::hash::group_hash_axioms;

/// One reconstructed inlined frame.
#[derive(Debug, PartialEq, Eq)]
pub struct V8Frame {
    /// Display name in V8's jitdump style: `JS:<marker><fn> <file>:<line>:<col>`
    /// (anonymous functions have an empty `<fn>`, e.g. `JS:* /path:17:32`). This
    /// matches how the jitdump names the standalone (non-inlined) code object
    /// for the same function, so inlined and non-inlined occurrences coalesce.
    pub name: String,
    pub file: String,
    pub line: u32,
    pub col: u32,
}

/// A frame with its texts as sequences of characters.
#[verifier::ext_equal]
pub struct Frame {
    pub name: Seq<char>,
    pub file: Seq<char>,
    pub line: u32,
    pub col: u32,
}

impl V8Frame {
    pub open spec fn view(&self) -> Frame {
        Frame { name: self.name@, file: self.file@, line: self.line, col: self.col }
    }
}

impl Clone for V8Frame {
    fn clone(&self) -> (res: Self)
        ensures
            res == *self,
    {
        V8Frame {
            name: self.name.clone(),
            file: self.file.clone(),
            line: self.line,
            col: self.col,
        }
    }
}

impl Default for V8Frame {
    fn default() -> (res: Self)
        ensures
            res@ == (Frame { name: seq![], file: seq![], line: 0, col: 0 }),
    {
        V8Frame { name: String::new(), file: String::new(), line: 0, col: 0 }
    }
}

/// The frames of a list.
pub open spec fn frames_view(frames: Seq<V8Frame>) -> Seq<Frame> {
    frames.map_values(|f: V8Frame| f@)
}

#[derive(Debug)]
struct CodeInline {
    /// `(code_offset, script_offset, inlining_id)`, sorted ascending by code_offset.
    positions: Vec<(u32, u32, Option<u32>)>,
    /// `code-source-info` inlining tree: `(inlined_function_id, call_site_script_offset, parent_inlining_id)`.
    inl_pos: Vec<(i32, u32, Option<u32>)>,
    /// Resolved inlined functions, indexed by `inlined_function_id`, already
    /// formatted with this code object's tier marker.
    inl_fns: Vec<V8Frame>,
}

/// The inline tree of one code object.
#[verifier::ext_equal]
pub struct InlineTree {
    /// `(code_offset, script_offset, inlining_id)`, sorted ascending by code_offset.
    pub positions: Seq<(u32, u32, Option<u32>)>,
    /// `(inlined_function_id, call_site_script_offset, parent_inlining_id)`.
    pub inl_pos: Seq<(i32, u32, Option<u32>)>,
    /// The inlined functions, indexed by `inlined_function_id`.
    pub inl_fns: Seq<Frame>,
}

impl CodeInline {
    spec fn view(&self) -> InlineTree {
        InlineTree {
            positions: self.positions@,
            inl_pos: self.inl_pos@,
            inl_fns: frames_view(self.inl_fns@),
        }
    }
}

/// The plain tier marker in a decorated one: without the `o` in front and the quote
/// at the end.
pub open spec fn plain_marker(marker: Seq<char>) -> Seq<char> {
    let m = if marker.len() > 0 && marker[0] == 'o' {
        marker.drop_first()
    } else {
        marker
    };
    if m.len() > 0 && m.last() == '\'' {
        m.drop_last()
    } else {
        m
    }
}

/// Reduce a V8 `code-creation` tier marker to the bare tier character used by
/// the jitdump / perf-map naming convention.
///
/// `code-creation` records carry the marker from `CodeKindToMarker`, which
/// decorates the optimized tiers with a trailing context-specialization quote
/// (`+'`, `*'`) and an OSR prefix (`o+`, `o*`). The jitdump and perf map name
/// the same code object with the plain tier marker (`~`, `^`, `+`, `*`), so a
/// reconstructed inlined frame must drop those decorations to coalesce with the
/// standalone frame for the same function.
pub fn canonical_tier_marker(marker: &str) -> (res: &str)
    ensures
        res@ == plain_marker(marker@),
{
    let len: usize = marker.unicode_len();
    let start: usize = if len > 0 && marker.get_char(0) == 'o' {
        1
    } else {
        0
    };
    let end: usize = if start < len && marker.get_char(len - 1) == '\'' {
        len - 1
    } else {
        len
    };
    let res = marker.substring_char(start, end);
    assert(res@ =~= plain_marker(marker@));
    res
}

/// The frame of a function that was inlined into code with the given tier marker.
pub open spec fn frame(marker: Seq<char>, func: Seq<char>, loc: Seq<char>) -> Frame {
    let (file, line, col) = location_parts(loc);
    let label = seq!['J', 'S', ':'] + plain_marker(marker) + func;
    Frame {
        name: if loc.len() == 0 {
            label
        } else {
            label + seq![' '] + loc
        },
        file,
        line,
        col,
    }
}

/// Build a frame whose display name matches the jitdump's: `JS:<marker><fn>`
/// for an anonymous function with no location, otherwise
/// `JS:<marker><fn> <file>:<line>:<col>` (V8 puts a single space before the
/// location and no space between the tier marker and the name).
pub fn make_frame(marker: &str, func: &str, loc: &str) -> (res: V8Frame)
    ensures
        res@ == frame(marker@, func@, loc@),
{
    let marker = canonical_tier_marker(marker);
    let loc_chars = chars_of(loc);
    let (file, line, col) = parse_location(loc_chars.as_slice());
    let mut name = String::new();
    name.append("JS:");
    name.append(marker);
    name.append(func);
    if !loc.is_empty() {
        name.push(' ');
        name.append(loc);
    }
    proof {
        reveal_strlit("JS:");
        assert("JS:"@ =~= seq!['J', 'S', ':']);
    }
    let res = V8Frame { name, file, line, col };
    res
}

/// An entry of a source position table: `(code_offset, script_offset, inlining_id)`.
pub type Position = (u32, u32, Option<u32>);

/// `positions`, which are sorted, with `p` added behind all that do not start later.
pub open spec fn insert_position(positions: Seq<Position>, p: Position) -> Seq<Position>
    decreases positions.len(),
{
    if positions.len() > 0 && positions.last().0 > p.0 {
        insert_position(positions.drop_last(), p).push(positions.last())
    } else {
        positions.push(p)
    }
}

/// `positions` sorted by code offset. Those with the same offset keep their order.
pub open spec fn by_code_offset(positions: Seq<Position>) -> Seq<Position>
    decreases positions.len(),
{
    if positions.len() == 0 {
        seq![]
    } else {
        insert_position(by_code_offset(positions.drop_last()), positions.last())
    }
}

/// Whether the code offsets ascend.
pub open spec fn ascending(positions: Seq<Position>) -> bool {
    forall|i: int, j: int| 0 <= i < j < positions.len() ==> positions[i].0 <= positions[j].0
}

proof fn lemma_insert_position(positions: Seq<Position>, p: Position, at: int)
    requires
        0 <= at <= positions.len(),
        forall|i: int| at <= i < positions.len() ==> positions[i].0 > p.0,
        at > 0 ==> positions[at - 1].0 <= p.0,
    ensures
        insert_position(positions, p) == positions.insert(at, p),
    decreases positions.len(),
{
    if at < positions.len() {
        lemma_insert_position(positions.drop_last(), p, at);
        assert(positions.drop_last().insert(at, p).push(positions.last()) =~= positions.insert(
            at,
            p,
        ));
    } else {
        assert(positions.push(p) =~= positions.insert(at, p));
    }
}

proof fn lemma_insert_position_ascending(positions: Seq<Position>, p: Position)
    requires
        ascending(positions),
    ensures
        ascending(insert_position(positions, p)),
        insert_position(positions, p).len() == positions.len() + 1,
        insert_position(positions, p).last().0 == p.0 || positions.len() > 0 && insert_position(
            positions,
            p,
        ).last() == positions.last(),
        forall|i: int|
            0 <= i < insert_position(positions, p).len() ==> #[trigger] insert_position(
                positions,
                p,
            )[i].0 <= (if positions.len() > 0 && positions.last().0 > p.0 {
                positions.last().0
            } else {
                p.0
            }),
    decreases positions.len(),
{
    if positions.len() > 0 && positions.last().0 > p.0 {
        lemma_insert_position_ascending(positions.drop_last(), p);
    }
}

proof fn lemma_by_code_offset_ascending(positions: Seq<Position>)
    ensures
        ascending(by_code_offset(positions)),
        by_code_offset(positions).len() == positions.len(),
    decreases positions.len(),
{
    if positions.len() > 0 {
        lemma_by_code_offset_ascending(positions.drop_last());
        lemma_insert_position_ascending(
            by_code_offset(positions.drop_last()),
            positions.last(),
        );
    }
}

fn sort_by_code_offset(positions: &Vec<Position>) -> (res: Vec<Position>)
    ensures
        res@ == by_code_offset(positions@),
{
    let mut res: Vec<Position> = Vec::new();
    let mut i: usize = 0;
    while i < positions.len()
        invariant
            i <= positions@.len(),
            res@ == by_code_offset(positions@.take(i as int)),
        decreases positions@.len() - i,
    {
        let p = positions[i];
        let mut at: usize = res.len();
        while at > 0 && res[at - 1].0 > p.0
            invariant
                at <= res@.len(),
                forall|j: int| at <= j < res@.len() ==> res@[j].0 > p.0,
            decreases at,
        {
            at = at - 1;
        }
        proof {
            lemma_insert_position(res@, p, at as int);
            assert(positions@.take(i + 1).drop_last() =~= positions@.take(i as int));
        }
        res.insert(at, p);
        i = i + 1;
    }
    assert(positions@.take(positions@.len() as int) =~= positions@);
    res
}

/// The fields behind the mark of a record, at most `n` of them; `None` if the line has
/// another mark.
pub open spec fn fields(line: Seq<char>, mark: Seq<char>, n: nat) -> Option<Seq<Seq<char>>> {
    if starts_with(line, mark) {
        Some(splitn(line.skip(mark.len() as int), n, ','))
    } else {
        None
    }
}

/// The fields `<kind>,<tag>,<ts>,<addr>,<size>,<name>,<sfi>,<opt?>` of a `code-creation`
/// record.
pub open spec fn creation(line: Seq<char>) -> Option<Seq<Seq<char>>> {
    fields(line, "code-creation,"@, 8)
}

/// The fields `<addr>,<script>,<start>,<end>,<positions>,<inlining_positions>,
/// <inlined_functions>` of a `code-source-info` record.
pub open spec fn source_info(line: Seq<char>) -> Option<Seq<Seq<char>>> {
    fields(line, "code-source-info,"@, 7)
}

/// The names and locations of functions, by the address of their shared function info.
pub type Names = Map<u64, (Seq<char>, Seq<char>)>;

/// The names that one more line tells. The first record of a function counts.
pub open spec fn names_with(names: Names, line: Seq<char>) -> Names {
    match creation(line) {
        Some(p) => if p.len() >= 7 {
            match hex(p[6]) {
                Some(sfi) => if names.contains_key(sfi) {
                    names
                } else {
                    names.insert(sfi, name_parts(p[5]))
                },
                None => names,
            }
        } else {
            names
        },
        None => names,
    }
}

/// The names that the `code-creation` records among the lines tell.
pub open spec fn names_in(lines: Seq<Seq<char>>) -> Names
    decreases lines.len(),
{
    if lines.len() == 0 {
        Map::empty()
    } else {
        names_with(names_in(lines.drop_last()), lines.last())
    }
}

/// What is known after some lines of the log.
#[verifier::ext_equal]
pub struct LogState {
    /// The size and tier marker of the code that was last created at an address.
    pub live: Map<u64, (u32, Seq<char>)>,
    /// The inline trees, by address and size of the code.
    pub trees: Map<(u64, u32), InlineTree>,
}

/// The frames of inlined functions in code with the given tier marker. A function
/// without a record has an empty name and location.
pub open spec fn function_frames(names: Names, marker: Seq<char>, functions: Seq<u64>) -> Seq<
    Frame,
> {
    functions.map_values(
        |sfi: u64|
            if names.contains_key(sfi) {
                frame(marker, names[sfi].0, names[sfi].1)
            } else {
                frame(marker, seq![], seq![])
            },
    )
}

/// The inline tree in the fields of a `code-source-info` record; `None` if it has a number
/// that does not fit into 32 bits.
pub open spec fn tree_of(names: Names, marker: Seq<char>, p: Seq<Seq<char>>) -> Option<InlineTree> {
    match (positions_from(p[4], 0), inlining_positions_from(p[5], 0)) {
        (Some(positions), Some(inl_pos)) => Some(
            InlineTree {
                positions: by_code_offset(positions),
                inl_pos,
                inl_fns: function_frames(names, marker, inlined_functions(p[6])),
            },
        ),
        _ => None,
    }
}

/// What a `code-creation` record changes.
pub open spec fn after_creation(state: LogState, p: Seq<Seq<char>>) -> LogState {
    if p.len() >= 7 {
        match (hex(p[3]), decimal_u32(p[4])) {
            (Some(addr), Some(size)) => LogState {
                live: state.live.insert(
                    addr,
                    (
                        size,
                        if p.len() > 7 {
                            p[7]
                        } else {
                            seq![]
                        },
                    ),
                ),
                trees: state.trees,
            },
            _ => state,
        }
    } else {
        state
    }
}

/// The address in the fields of a `code-source-info` record that has an inlining tree.
pub open spec fn inlined_at(p: Seq<Seq<char>>) -> Option<u64> {
    if p.len() >= 7 && p[5].len() > 0 {
        hex(p[0])
    } else {
        None
    }
}

/// What a `code-source-info` record changes. It speaks of the code that was last created
/// at its address.
pub open spec fn after_source_info(
    names: Names,
    state: LogState,
    p: Seq<Seq<char>>,
) -> Option<LogState> {
    match inlined_at(p) {
        Some(addr) => if state.live.contains_key(addr) {
            let (size, marker) = state.live[addr];
            match tree_of(names, marker, p) {
                Some(tree) => Some(
                    LogState { live: state.live, trees: state.trees.insert((addr, size), tree) },
                ),
                None => None,
            }
        } else {
            Some(state)
        },
        None => Some(state),
    }
}

/// What one line changes.
pub open spec fn after_line(names: Names, state: LogState, line: Seq<char>) -> Option<LogState> {
    match creation(line) {
        Some(p) => Some(after_creation(state, p)),
        None => match source_info(line) {
            Some(p) => after_source_info(names, state, p),
            None => Some(state),
        },
    }
}

/// What is known after the lines; `None` if an inlining tree has a number that does not
/// fit into 32 bits.
pub open spec fn after_lines(names: Names, lines: Seq<Seq<char>>) -> Option<LogState>
    decreases lines.len(),
{
    if lines.len() == 0 {
        Some(LogState { live: Map::empty(), trees: Map::empty() })
    } else {
        match after_lines(names, lines.drop_last()) {
            Some(state) => after_line(names, state, lines.last()),
            None => None,
        }
    }
}

/// The inline trees that a log tells, by address and size of the code; `None` if one of
/// them has a number that does not fit into 32 bits.
///
/// A function can be inlined into code that is logged before the function's own
/// standalone `code-creation`, so the names are those of the whole log.
pub open spec fn read_log(text: Seq<char>) -> Option<Map<(u64, u32), InlineTree>> {
    match after_lines(names_in(lines(text)), lines(text)) {
        Some(state) => Some(state.trees),
        None => None,
    }
}

fn read_fields<'a>(line: &'a [char], mark: &str, n: usize) -> (res: Option<Vec<&'a [char]>>)
    ensures
        match fields(line@, mark@, n as nat) {
            Some(p) => res matches Some(v) && pieces_view(v@) == p,
            None => res is None,
        },
{
    let mark = chars_of(mark);
    if has_prefix(line, mark.as_slice()) {
        let rest = slice_subrange(line, mark.len(), line.len());
        assert(rest@ =~= line@.skip(mark@.len() as int));
        Some(split_at_most(rest, n, ','))
    } else {
        None
    }
}

spec fn names_view(names: Map<u64, (String, String)>) -> Names {
    names.map_values(|v: (String, String)| (v.0@, v.1@))
}

/// One record is emitted per tier; any resolves the name.
fn read_names(lines: &Vec<&[char]>) -> (res: HashMap<u64, (String, String)>)
    ensures
        names_view(res@) == names_in(pieces_view(lines@)),
{
    let ghost all = pieces_view(lines@);
    let mut names: HashMap<u64, (String, String)> = HashMap::new();
    let mut i: usize = 0;
    assert(names_view(names@) =~= Map::empty());
    assert(all.take(0) =~= seq![]);
    while i < lines.len()
        invariant
            i <= lines@.len(),
            all == pieces_view(lines@),
            names_view(names@) == names_in(all.take(i as int)),
        decreases lines@.len() - i,
    {
        let ghost before = names@;
        assert(all.take(i + 1).drop_last() =~= all.take(i as int));
        assert(all.take(i + 1).last() == lines@[i as int]@);
        match read_fields(lines[i], "code-creation,", 8) {
            Some(p) => {
                let ghost pv = pieces_view(p@);
                if p.len() >= 7 {
                    assert(pv[6] == p@[6]@ && pv[5] == p@[5]@);
                    match parse_hex(p[6]) {
                        Some(sfi) => {
                            if !names.contains_key(&sfi) {
                                let name = parse_name(p[5]);
                                names.insert(sfi, name);
                                assert(names_view(names@) =~= names_view(before).insert(
                                    sfi,
                                    (name.0@, name.1@),
                                ));
                            }
                        },
                        None => {},
                    }
                }
            },
            None => {},
        }
        i = i + 1;
    }
    assert(all.take(all.len() as int) =~= all);
    names
}

fn read_function_frames(
    names: &HashMap<u64, (String, String)>,
    marker: &str,
    functions: &Vec<u64>,
) -> (res: Vec<V8Frame>)
    ensures
        frames_view(res@) == function_frames(names_view(names@), marker@, functions@),
{
    let mut res: Vec<V8Frame> = Vec::new();
    let mut i: usize = 0;
    while i < functions.len()
        invariant
            i <= functions@.len(),
            res@.len() == i,
            forall|j: int|
                0 <= j < i ==> #[trigger] res@[j]@ == function_frames(
                    names_view(names@),
                    marker@,
                    functions@,
                )[j],
        decreases functions@.len() - i,
    {
        let f = match names.get(&functions[i]) {
            Some(name) => make_frame(marker, name.0.as_str(), name.1.as_str()),
            None => {
                proof {
                    reveal_strlit("");
                    assert(""@ =~= seq![]);
                }
                make_frame(marker, "", "")
            },
        };
        res.push(f);
        i = i + 1;
    }
    assert(frames_view(res@) =~= function_frames(names_view(names@), marker@, functions@));
    res
}

fn read_tree(
    names: &HashMap<u64, (String, String)>,
    marker: &str,
    p: &Vec<&[char]>,
) -> (res: Option<CodeInline>)
    requires
        p@.len() >= 7,
    ensures
        match tree_of(names_view(names@), marker@, pieces_view(p@)) {
            Some(tree) => res matches Some(code) && code@ == tree,
            None => res is None,
        },
{
    let ghost pv = pieces_view(p@);
    assert(pv[4] == p@[4]@ && pv[5] == p@[5]@ && pv[6] == p@[6]@);
    let positions = match parse_positions(p[4]) {
        Some(positions) => sort_by_code_offset(&positions),
        None => {
            return None;
        },
    };
    match parse_inlining_positions(p[5]) {
        Some(inl_pos) => {
            let inl_fns = read_function_frames(names, marker, &parse_inlined_functions(p[6]));
            Some(CodeInline { positions, inl_pos, inl_fns })
        },
        None => None,
    }
}

spec fn key_of(addr: u64, size: u32) -> u128 {
    (addr * 0x1_0000_0000 + size) as u128
}

fn key(addr: u64, size: u32) -> (res: u128)
    ensures
        res == key_of(addr, size),
        res == addr * 0x1_0000_0000 + size,
{
    addr as u128 * 0x1_0000_0000 + size as u128
}

/// Inline maps for every optimized JS code object that has inlining, keyed by
/// the code's runtime start address (== jitdump `CODE_LOAD` address) and byte
/// size (== jitdump `CODE_LOAD` size), so addresses reused over the run don't
/// collide.
#[derive(Debug)]
pub struct V8InlineMap {
    /// The address is in the bits above the 32 bits of the size.
    by_key: HashMap<u128, CodeInline>,
}

impl View for V8InlineMap {
    type V = Map<(u64, u32), InlineTree>;

    closed spec fn view(&self) -> Map<(u64, u32), InlineTree> {
        Map::new(
            |k: (u64, u32)| self.by_key@.contains_key(key_of(k.0, k.1)),
            |k: (u64, u32)| self.by_key@[key_of(k.0, k.1)]@,
        )
    }
}

impl V8InlineMap {
    /// The position table of each code object is sorted.
    pub closed spec fn well_formed(&self) -> bool {
        &&& forall|k: (u64, u32)| #[trigger]
            self@.contains_key(k) ==> ascending(self@[k].positions)
        &&& forall|k: u128| #[trigger]
            self.by_key@.contains_key(k) ==> k < 0x1_0000_0000_0000_0000_0000_0000
    }

    fn insert(&mut self, addr: u64, size: u32, code: CodeInline)
        requires
            old(self).well_formed(),
            ascending(code@.positions),
        ensures
            final(self).well_formed(),
            final(self)@ == old(self)@.insert((addr, size), code@),
    {
        self.by_key.insert(key(addr, size), code);
        assert(self@ =~= old(self)@.insert((addr, size), code@));
    }
}

impl Default for V8InlineMap {
    fn default() -> (res: Self)
        ensures
            res.well_formed(),
            res@ == Map::<(u64, u32), InlineTree>::empty(),
    {
        let res = V8InlineMap { by_key: HashMap::new() };
        assert(res@ =~= Map::<(u64, u32), InlineTree>::empty());
        res
    }
}

spec fn live_view(live: Map<u64, (u32, String)>) -> Map<u64, (u32, Seq<char>)> {
    live.map_values(|v: (u32, String)| (v.0, v.1@))
}

fn note_creation(live: &mut HashMap<u64, (u32, String)>, p: &Vec<&[char]>)
    ensures
        forall|trees: Map<(u64, u32), InlineTree>|
            (LogState { live: live_view(final(live)@), trees }) == #[trigger] after_creation(
                LogState { live: live_view(old(live)@), trees },
                pieces_view(p@),
            ),
{
    if p.len() < 7 {
        return;
    }
    let ghost pv = pieces_view(p@);
    assert(pv[3] == p@[3]@ && pv[4] == p@[4]@);
    match (parse_hex(p[3]), parse_decimal_u32(p[4])) {
        (Some(addr), Some(size)) => {
            let marker = if p.len() > 7 {
                assert(pv[7] == p@[7]@);
                string_of(p[7])
            } else {
                String::new()
            };
            live.insert(addr, (size, marker));
            assert(live_view(live@) =~= live_view(old(live)@).insert(addr, (size, marker@)));
        },
        _ => {},
    }
}

/// The `code-source-info` record belongs to the code that was last created at its
/// address, which supplies its size, which keys the map, and its tier marker, which
/// formats the frame names. Returns `false` if a number does not fit into 32 bits.
fn note_source_info(
    names: &HashMap<u64, (String, String)>,
    live: &HashMap<u64, (u32, String)>,
    map: &mut V8InlineMap,
    p: &Vec<&[char]>,
) -> (res: bool)
    requires
        old(map).well_formed(),
    ensures
        final(map).well_formed(),
        match after_source_info(
            names_view(names@),
            LogState { live: live_view(live@), trees: old(map)@ },
            pieces_view(p@),
        ) {
            Some(state) => res && state == (LogState {
                live: live_view(live@),
                trees: final(map)@,
            }),
            None => !res,
        },
{
    if p.len() < 7 || p[5].len() == 0 {
        return true;
    }
    let ghost pv = pieces_view(p@);
    assert(pv[0] == p@[0]@ && pv[5] == p@[5]@);
    let addr: u64 = match parse_hex(p[0]) {
        Some(addr) => addr,
        None => {
            return true;
        },
    };
    match live.get(&addr) {
        Some(object) => match read_tree(names, object.1.as_str(), p) {
            Some(code) => {
                proof {
                    lemma_by_code_offset_ascending(positions_from(pv[4], 0)->0);
                }
                map.insert(addr, object.0, code);
                true
            },
            None => false,
        },
        None => true,
    }
}

/// The inlining id of the last position that starts at or before `pc_offset`; `None` if
/// there is no such position.
pub open spec fn position_for(positions: Seq<Position>, pc_offset: u64) -> Option<Option<u32>>
    decreases positions.len(),
{
    if positions.len() == 0 {
        None
    } else if positions.last().0 <= pc_offset {
        Some(positions.last().2)
    } else {
        position_for(positions.drop_last(), pc_offset)
    }
}

/// The inlined function of one step of an inlining chain.
pub open spec fn frame_of(tree: InlineTree, function_id: i32) -> Seq<Frame> {
    if 0 <= function_id < tree.inl_fns.len() {
        seq![tree.inl_fns[function_id as int]]
    } else {
        seq![]
    }
}

/// The frames from the inlining id outwards, over at most `steps` steps; `None` if an id is
/// not in the inlining tree.
pub open spec fn chain(tree: InlineTree, id: Option<u32>, steps: nat) -> Option<Seq<Frame>>
    decreases steps,
{
    match id {
        Some(id) => if steps == 0 {
            Some(seq![])
        } else if id < tree.inl_pos.len() {
            let (function_id, _, parent) = tree.inl_pos[id as int];
            match chain(tree, parent, (steps - 1) as nat) {
                Some(outer) => Some(frame_of(tree, function_id) + outer),
                None => None,
            }
        } else {
            None
        },
        None => Some(seq![]),
    }
}

/// The longest inlining chain that is followed.
pub const MAX_STEPS: u32 = 65;

/// The inlined frames at `pc_offset`, innermost first; `None` if there is no genuine
/// inlining.
pub open spec fn frames_at(tree: InlineTree, pc_offset: u64) -> Option<Seq<Frame>> {
    match position_for(tree.positions, pc_offset) {
        Some(id) => match chain(tree, id, MAX_STEPS as nat) {
            Some(frames) => if frames.len() > 0 {
                Some(frames)
            } else {
                None
            },
            None => None,
        },
        None => None,
    }
}

/// The inlined frames at `pc_offset` in the code object of the given address and size,
/// innermost first; `None` if there is no genuine inlining.
pub open spec fn frames_in(
    trees: Map<(u64, u32), InlineTree>,
    code_addr: u64,
    code_size: u32,
    pc_offset: u64,
) -> Option<Seq<Frame>> {
    if trees.contains_key((code_addr, code_size)) {
        frames_at(trees[(code_addr, code_size)], pc_offset)
    } else {
        None
    }
}

proof fn lemma_position_for(positions: Seq<Position>, pc_offset: u64, n: int)
    requires
        ascending(positions),
        0 <= n <= positions.len(),
        n > 0 ==> positions[n - 1].0 <= pc_offset,
        n < positions.len() ==> positions[n].0 > pc_offset,
    ensures
        position_for(positions, pc_offset) == (if n > 0 {
            Some(positions[n - 1].2)
        } else {
            None::<Option<u32>>
        }),
    decreases positions.len(),
{
    if n < positions.len() {
        lemma_position_for(positions.drop_last(), pc_offset, n);
    }
}

impl V8InlineMap {
    /// The inline maps in the contents of a log file; `None` if it could not be read, or
    /// if there is no inlining in it.
    pub fn from_log_file(contents: Option<&str>) -> (res: Option<Self>)
        requires
            contents matches Some(text) ==> read_log(text@) is Some,
        ensures
            match contents {
                Some(text) => if read_log(text@)->0 == Map::<(u64, u32), InlineTree>::empty() {
                    res is None
                } else {
                    res matches Some(map) && map.well_formed() && map@ == read_log(text@)->0
                },
                None => res is None,
            },
    {
        match contents {
            Some(text) => {
                let map = Self::from_log_str(text);
                if map.by_key.is_empty() {
                    assert(map@ =~= Map::<(u64, u32), InlineTree>::empty());
                    None
                } else {
                    proof {
                        let k = map.by_key@.dom().choose();
                        assert(map.by_key@.contains_key(k));
                        let addr = (k / 0x1_0000_0000) as u64;
                        let size = (k % 0x1_0000_0000) as u32;
                        assert(key_of(addr, size) == k);
                        assert(map@.contains_key((addr, size)));
                    }
                    Some(map)
                }
            },
            None => None,
        }
    }

    /// The inline maps in a log. Its inlining trees hold no number of more than 32 bits.
    pub fn from_log_str(text: &str) -> (res: Self)
        requires
            read_log(text@) is Some,
        ensures
            res.well_formed(),
            res@ == read_log(text@)->0,
    {
        match Self::try_from_log_str(text) {
            Some(map) => map,
            None => V8InlineMap::default(),
        }
    }

    /// The inline maps in a log; `None` if an inlining tree in it holds a number of more
    /// than 32 bits.
    pub fn try_from_log_str(text: &str) -> (res: Option<Self>)
        ensures
            match read_log(text@) {
                Some(trees) => res matches Some(map) && map.well_formed() && map@ == trees,
                None => res is None,
            },
    {
        let chars = chars_of(text);
        let lines = lines_of(chars.as_slice());
        let ghost all = pieces_view(lines@);
        // A function can be inlined into code that is logged before the function's own
        // standalone code-creation, so we need the full map before the second pass.
        let names = read_names(&lines);
        let mut live: HashMap<u64, (u32, String)> = HashMap::new();
        let mut map = V8InlineMap::default();
        let mut i: usize = 0;
        assert(live_view(live@) =~= Map::empty());
        assert(all.take(0) =~= seq![]);
        assert(all.take(all.len() as int) =~= all);
        while i < lines.len()
            invariant
                i <= lines@.len(),
                all == pieces_view(lines@),
                all == crate::text::lines(text@),
                names_view(names@) == names_in(all),
                map.well_formed(),
                after_lines(names_in(all), all.take(i as int)) == Some(
                    LogState { live: live_view(live@), trees: map@ },
                ),
            decreases lines@.len() - i,
        {
            assert(all.take(i + 1).drop_last() =~= all.take(i as int));
            assert(all.take(i + 1).last() == lines@[i as int]@);
            match read_fields(lines[i], "code-creation,", 8) {
                Some(p) => {
                    note_creation(&mut live, &p);
                },
                None => match read_fields(lines[i], "code-source-info,", 7) {
                    Some(p) => {
                        if !note_source_info(&names, &live, &mut map, &p) {
                            proof {
                                lemma_too_large(names_in(all), all, i + 1);
                            }
                            return None;
                        }
                    },
                    None => {},
                },
            }
            i = i + 1;
        }
        assert(all.take(all.len() as int) =~= all);
        Some(map)
    }

    /// Reconstruct the inlined frames (innermost first) for a PC at `pc_offset`
    /// within the code object at (`code_addr`, `code_size`). Returns `None` when
    /// there is no genuine inlining at that PC; the code object's own frame is
    /// supplied by the caller (the jitdump symbol), so it is *not* included.
    pub fn lookup(&self, code_addr: u64, code_size: u32, pc_offset: u64) -> (res: Option<
        Vec<V8Frame>,
    >)
        requires
            self.well_formed(),
        ensures
            match frames_in(self@, code_addr, code_size, pc_offset) {
                Some(frames) => res matches Some(v) && frames_view(v@) == frames,
                None => res is None,
            },
    {
        let code = match self.by_key.get(&key(code_addr, code_size)) {
            Some(code) => code,
            None => {
                return None;
            },
        };
        let ghost tree = self@[(code_addr, code_size)];
        assert(self@.contains_key((code_addr, code_size)));
        assert(tree == code@);
        // Source-position table: an entry applies from its code_offset until the
        // next one, so take the last entry with code_offset <= pc_offset.
        let mut n: usize = 0;
        while n < code.positions.len() && code.positions[n].0 as u64 <= pc_offset
            invariant
                n <= code.positions@.len(),
                n > 0 ==> code.positions@[n - 1].0 <= pc_offset,
            decreases code.positions@.len() - n,
        {
            n = n + 1;
        }
        proof {
            lemma_position_for(tree.positions, pc_offset, n as int);
        }
        if n == 0 {
            return None;
        }
        let mut id: Option<u32> = code.positions[n - 1].2;
        let ghost whole = chain(tree, id, MAX_STEPS as nat);
        let mut frames: Vec<V8Frame> = Vec::new();
        let mut steps: u32 = MAX_STEPS;
        assert(frames_view(frames@) =~= seq![]);
        assert(whole matches Some(w) ==> seq![] + w =~= w);
        // Mirror of V8 SourcePosition::InliningStack. The bound on the steps is defensive
        // against a malformed cycle.
        while id.is_some() && steps > 0
            invariant
                tree == code@,
                self@.contains_key((code_addr, code_size)),
                tree == self@[(code_addr, code_size)],
                whole is None ==> frames_at(tree, pc_offset) is None,
                match chain(tree, id, steps as nat) {
                    Some(outer) => whole == Some(frames_view(frames@) + outer),
                    None => whole is None,
                },
            decreases steps,
        {
            let i: u32 = id.unwrap();
            if i as usize >= code.inl_pos.len() {
                return None;
            }
            let (function_id, _, parent) = code.inl_pos[i as usize];
            let ghost before = frames_view(frames@);
            if function_id >= 0 && (function_id as usize) < code.inl_fns.len() {
                frames.push(code.inl_fns[function_id as usize].clone());
            }
            assert(frames_view(frames@) =~= before + frame_of(tree, function_id));
            assert(chain(tree, parent, (steps - 1) as nat) matches Some(outer) ==> before + (
            frame_of(tree, function_id) + outer) =~= frames_view(frames@) + outer);
            id = parent;
            steps = steps - 1;
        }
        assert(frames_view(frames@) + seq![] =~= frames_view(frames@));
        if frames.is_empty() {
            return None;
        }
        Some(frames)
    }
}

/// Once a number is too large, no later line mends it.
proof fn lemma_too_large(names: Names, lines: Seq<Seq<char>>, n: int)
    requires
        0 <= n <= lines.len(),
        after_lines(names, lines.take(n)) is None,
    ensures
        after_lines(names, lines) is None,
    decreases lines.len() - n,
{
    if n < lines.len() {
        assert(lines.take(n + 1).drop_last() =~= lines.take(n));
        lemma_too_large(names, lines, n + 1);
    } else {
        assert(lines.take(n) =~= lines);
    }
}

proof fn lemma_trees_ascending(names: Names, lines: Seq<Seq<char>>)
    ensures
        after_lines(names, lines) matches Some(state) ==> forall|k: (u64, u32)| #[trigger]
            state.trees.contains_key(k) ==> ascending(state.trees[k].positions),
    decreases lines.len(),
{
    if lines.len() > 0 {
        lemma_trees_ascending(names, lines.drop_last());
        if creation(lines.last()) is None {
            if let Some(p) = source_info(lines.last()) {
                lemma_by_code_offset_ascending(positions_from(p[4], 0)->0);
            }
        }
    }
}

/// The position table of every code object that is read from a log is sorted by code
/// offset, in whatever order the log lists the positions.
pub proof fn position_tables_are_sorted(text: Seq<char>, code: (u64, u32))
    requires
        read_log(text) is Some,
        (read_log(text)->0).contains_key(code),
    ensures
        ascending((read_log(text)->0)[code].positions),
{
    lemma_trees_ascending(names_in(lines(text)), lines(text));
}

proof fn lemma_insert_position_keeps(positions: Seq<Position>, p: Position)
    ensures
        insert_position(positions, p).to_multiset() == positions.to_multiset().insert(p),
    decreases positions.len(),
{
    broadcast use vstd::seq_lib::group_to_multiset_ensures;

    if positions.len() > 0 && positions.last().0 > p.0 {
        lemma_insert_position_keeps(positions.drop_last(), p);
        assert(positions.drop_last().push(positions.last()) =~= positions);
        assert(insert_position(positions, p).to_multiset() =~= positions.to_multiset().insert(p));
    }
}

/// Sorting a position table neither loses nor adds a position.
pub proof fn sorting_keeps_the_positions(positions: Seq<Position>)
    ensures
        by_code_offset(positions).to_multiset() == positions.to_multiset(),
        ascending(by_code_offset(positions)),
    decreases positions.len(),
{
    broadcast use vstd::seq_lib::group_to_multiset_ensures;

    lemma_by_code_offset_ascending(positions);
    if positions.len() > 0 {
        sorting_keeps_the_positions(positions.drop_last());
        lemma_insert_position_keeps(by_code_offset(positions.drop_last()), positions.last());
        assert(positions.drop_last().push(positions.last()) =~= positions);
    } else {
        assert(positions =~= seq![]);
    }
}

/// A position applies from its code offset until the next one; in front of the first
/// nothing is inlined.
pub proof fn a_position_applies_until_the_next(positions: Seq<Position>, i: int, pc_offset: u64)
    requires
        ascending(positions),
        -1 <= i < positions.len(),
        i >= 0 ==> positions[i].0 <= pc_offset,
        i + 1 < positions.len() ==> pc_offset < positions[i + 1].0,
    ensures
        i >= 0 ==> position_for(positions, pc_offset) == Some(positions[i].2),
        i < 0 ==> position_for(positions, pc_offset) is None,
{
    lemma_position_for(positions, pc_offset, i + 1);
}

/// Whether the line is a `code-source-info` record with an inlining tree for the code
/// object.
pub open spec fn concerns(state: LogState, line: Seq<char>, code: (u64, u32)) -> bool {
    &&& creation(line) is None
    &&& source_info(line) is Some
    &&& inlined_at(source_info(line)->0) == Some(code.0)
    &&& state.live.contains_key(code.0)
    &&& state.live[code.0].0 == code.1
}

/// An address that is reused for code of another size leaves the inlining of the code that
/// was there before: a line changes the tree of no code object but the one that it
/// concerns.
pub proof fn reused_addresses_do_not_collide(
    names: Names,
    lines: Seq<Seq<char>>,
    line: Seq<char>,
    code: (u64, u32),
)
    requires
        after_lines(names, lines) is Some,
        after_lines(names, lines.push(line)) is Some,
        !concerns(after_lines(names, lines)->0, line, code),
    ensures
        (after_lines(names, lines.push(line))->0).trees.contains_key(code) == (after_lines(
            names,
            lines,
        )->0).trees.contains_key(code),
        (after_lines(names, lines)->0).trees.contains_key(code) ==> (after_lines(
            names,
            lines.push(line),
        )->0).trees[code] == (after_lines(names, lines)->0).trees[code],
{
    assert(lines.push(line).drop_last() =~= lines);
}

/// Whether the line is a `code-creation` record that says which code is at the address.
#[verifier::opaque]
pub open spec fn creates(line: Seq<char>, addr: u64) -> bool {
    creation(line) matches Some(p) && p.len() >= 7 && hex(p[3]) == Some(addr) && decimal_u32(
        p[4],
    ) is Some
}

/// Whether the line is a `code-source-info` record with an inlining tree for the address.
#[verifier::opaque]
pub open spec fn inlines(line: Seq<char>, addr: u64) -> bool {
    source_info(line) matches Some(p) && inlined_at(p) == Some(addr)
}

/// Whether the i-th line tells an inlining tree for code at the address: some line in front of
/// it says which code that is.
pub open spec fn tells_tree(lines: Seq<Seq<char>>, i: int, addr: u64) -> bool {
    &&& 0 <= i < lines.len()
    &&& inlines(lines[i], addr)
    &&& exists|j: int| 0 <= j < i && creates(#[trigger] lines[j], addr)
}

proof fn lemma_no_tree_in_line(names: Names, state: LogState, line: Seq<char>, addr: u64)
    requires
        after_line(names, state, line) is Some,
    ensures
        ({
            let after = after_line(names, state, line)->0;
            &&& after.live.contains_key(addr) <==> state.live.contains_key(addr) || creates(
                line,
                addr,
            )
            &&& forall|size: u32| #[trigger]
                after.trees.contains_key((addr, size)) ==> state.trees.contains_key((addr, size))
                    || inlines(line, addr) && state.live.contains_key(addr)
        }),
{
    reveal(creates);
    reveal(inlines);
}

proof fn lemma_no_trees(names: Names, lines: Seq<Seq<char>>, addr: u64)
    requires
        after_lines(names, lines) is Some,
        forall|i: int| !#[trigger] tells_tree(lines, i, addr),
    ensures
        (after_lines(names, lines)->0).live.contains_key(addr) ==> exists|j: int|
            0 <= j < lines.len() && creates(#[trigger] lines[j], addr),
        forall|size: u32| !(after_lines(names, lines)->0).trees.contains_key((addr, size)),
    decreases lines.len(),
{
    if lines.len() > 0 {
        let before = lines.drop_last();
        let last = lines.len() - 1;
        assert forall|i: int| !#[trigger] tells_tree(before, i, addr) by {
            if tells_tree(before, i, addr) {
                let j = choose|j: int| 0 <= j < i && creates(#[trigger] before[j], addr);
                assert(creates(lines[j], addr));
                assert(tells_tree(lines, i, addr));
            }
        }
        lemma_no_trees(names, before, addr);
        assert(!tells_tree(lines, last, addr));
        let line = lines.last();
        let state = after_lines(names, before)->0;
        let after = after_lines(names, lines)->0;
        assert(after_line(names, state, line) == Some(after));
        lemma_no_tree_in_line(names, state, line, addr);
        if state.live.contains_key(addr) {
            let j = choose|j: int| 0 <= j < before.len() && creates(#[trigger] before[j], addr);
            assert(creates(lines[j], addr));
        } else if after.live.contains_key(addr) {
            assert(creates(lines[last], addr));
        }
    }
}

/// An address for which no `code-source-info` record counts has no inlined frames, whatever
/// the size and the offset: each such record has too few fields, or no inlining tree, or no
/// usable `code-creation` record for its address in front of it.
pub proof fn nothing_is_inlined_without_a_tree(
    text: Seq<char>,
    addr: u64,
    size: u32,
    pc_offset: u64,
)
    requires
        read_log(text) is Some,
        forall|i: int| !#[trigger] tells_tree(lines(text), i, addr),
    ensures
        !(read_log(text)->0).contains_key((addr, size)),
        frames_in(read_log(text)->0, addr, size, pc_offset) is None,
{
    lemma_no_trees(names_in(lines(text)), lines(text), addr);
}

/// The frame of an inlined function has the name that the function has in code of the
/// plain tier: the prefix for on-stack replacement and the quote for context
/// specialization do not show.
pub proof fn decorations_of_the_tier_do_not_show(
    marker: Seq<char>,
    func: Seq<char>,
    loc: Seq<char>,
)
    requires
        plain_marker(marker) == marker,
    ensures
        frame(seq!['o'] + marker, func, loc) == frame(marker, func, loc),
        frame(marker.push('\''), func, loc) == frame(marker, func, loc),
        frame(seq!['o'] + marker.push('\''), func, loc) == frame(marker, func, loc),
{
    assert((seq!['o'] + marker).drop_first() =~= marker);
    assert(marker.push('\'').drop_last() =~= marker);
    assert((seq!['o'] + marker.push('\'')).drop_first() =~= marker.push('\''));
    if marker.len() > 0 {
        assert(marker.drop_first().len() < marker.len());
        assert(marker[0] != 'o') by {
            if marker[0] == 'o' {
                assert(plain_marker(marker).len() < marker.len());
            }
        }
    }
}

proof fn lemma_chain_length(tree: InlineTree, id: Option<u32>, steps: nat)
    ensures
        chain(tree, id, steps) matches Some(frames) ==> frames.len() <= steps,
    decreases steps,
{
    if let Some(i) = id {
        if steps > 0 && i < tree.inl_pos.len() {
            lemma_chain_length(tree, tree.inl_pos[i as int].2, (steps - 1) as nat);
        }
    }
}

/// Even where the inlining tree holds a cycle, a lookup gives a bounded number of frames;
/// and it never gives an empty list.
pub proof fn chains_are_bounded(tree: InlineTree, pc_offset: u64)
    ensures
        frames_at(tree, pc_offset) matches Some(frames) ==> 0 < frames.len() <= MAX_STEPS,
{
    if let Some(id) = position_for(tree.positions, pc_offset) {
        lemma_chain_length(tree, id, MAX_STEPS as nat);
    }
}

/// The frames from an inlining position outwards are the one of its function, followed by those
/// from its parent outwards. A function that is not listed has no frame. Without a parent the
/// chain ends; and an id that is not in the tree leaves nothing of it.
pub proof fn frames_follow_the_parents(tree: InlineTree, id: u32, steps: nat)
    ensures
        chain(tree, None, steps) == Some(Seq::<Frame>::empty()),
        id >= tree.inl_pos.len() ==> chain(tree, Some(id), steps + 1) is None,
        id < tree.inl_pos.len() ==> {
            let function_id = tree.inl_pos[id as int].0;
            let outer = chain(tree, tree.inl_pos[id as int].2, steps);
            let inner = chain(tree, Some(id), steps + 1);
            &&& inner is Some <==> outer is Some
            &&& outer is Some && 0 <= function_id < tree.inl_fns.len() ==> inner == Some(
                seq![tree.inl_fns[function_id as int]] + outer->0,
            )
            &&& outer is Some && !(0 <= function_id < tree.inl_fns.len()) ==> inner->0 == outer->0
        },
{
    if id < tree.inl_pos.len() {
        if let Some(outer) = chain(tree, tree.inl_pos[id as int].2, steps) {
            assert(Seq::<Frame>::empty() + outer =~= outer);
        }
    }
}

/// Whether each of the ids is in the inlining tree and the parent of the one before it.
pub open spec fn is_path(tree: InlineTree, ids: Seq<u32>) -> bool {
    &&& forall|i: int| 0 <= i < ids.len() ==> (#[trigger] ids[i]) < tree.inl_pos.len()
    &&& forall|i: int|
        0 <= i < ids.len() - 1 ==> tree.inl_pos[(#[trigger] ids[i]) as int].2 == Some(ids[i + 1])
}

/// Whether the functions of all of the ids are listed.
pub open spec fn are_listed(tree: InlineTree, ids: Seq<u32>) -> bool {
    forall|i: int|
        0 <= i < ids.len() ==> 0 <= tree.inl_pos[(#[trigger] ids[i]) as int].0
            < tree.inl_fns.len()
}

proof fn lemma_chain_of_path(tree: InlineTree, ids: Seq<u32>, steps: nat)
    requires
        0 < ids.len() <= steps,
        is_path(tree, ids),
        are_listed(tree, ids),
        tree.inl_pos[ids.last() as int].2 is None || ids.len() == steps,
    ensures
        chain(tree, Some(ids[0]), steps) == Some(
            Seq::new(ids.len(), |i: int| tree.inl_fns[tree.inl_pos[ids[i] as int].0 as int]),
        ),
    decreases ids.len(),
{
    let frames = Seq::new(ids.len(), |i: int| tree.inl_fns[tree.inl_pos[ids[i] as int].0 as int]);
    let first = ids[0];
    assert(first < tree.inl_pos.len());
    let parent = tree.inl_pos[first as int].2;
    if ids.len() == 1 {
        assert(chain(tree, parent, (steps - 1) as nat) == Some(Seq::<Frame>::empty()));
        assert(frame_of(tree, tree.inl_pos[first as int].0) + Seq::<Frame>::empty() =~= frames);
    } else {
        let rest = ids.drop_first();
        assert forall|i: int| 0 <= i < rest.len() implies (#[trigger] rest[i])
            < tree.inl_pos.len() && 0 <= tree.inl_pos[rest[i] as int].0 < tree.inl_fns.len() by {
            assert(rest[i] == ids[i + 1]);
        }
        assert forall|i: int| 0 <= i < rest.len() - 1 implies tree.inl_pos[(
        #[trigger] rest[i]) as int].2 == Some(rest[i + 1]) by {
            assert(rest[i] == ids[i + 1] && rest[i + 1] == ids[i + 2]);
        }
        lemma_chain_of_path(tree, rest, (steps - 1) as nat);
        let outer = chain(tree, Some(rest[0]), (steps - 1) as nat)->0;
        assert(parent == Some(rest[0]));
        assert(frame_of(tree, tree.inl_pos[first as int].0) + outer =~= frames);
    }
}

/// A lookup gives the whole path through the inlining tree, innermost first: where the last
/// position that does not start behind the offset has an inlining id, the frames are those of
/// the functions of that id, its parent, the parent of that and so on, up to the one without a
/// parent, or to the sixty-fifth.
pub proof fn frames_are_those_of_the_whole_path(
    tree: InlineTree,
    k: int,
    pc_offset: u64,
    ids: Seq<u32>,
)
    requires
        forall|i: int, j: int|
            0 <= i < j < tree.positions.len() ==> tree.positions[i].0 <= tree.positions[j].0,
        0 <= k < tree.positions.len(),
        tree.positions[k].0 <= pc_offset,
        k + 1 < tree.positions.len() ==> pc_offset < tree.positions[k + 1].0,
        0 < ids.len() <= 65,
        tree.positions[k].2 == Some(ids[0]),
        is_path(tree, ids),
        are_listed(tree, ids),
        tree.inl_pos[ids.last() as int].2 is None || ids.len() == 65,
    ensures
        frames_at(tree, pc_offset) is Some,
        (frames_at(tree, pc_offset)->0).len() == ids.len(),
        forall|i: int|
            0 <= i < ids.len() ==> #[trigger] (frames_at(tree, pc_offset)->0)[i]
                == tree.inl_fns[tree.inl_pos[ids[i] as int].0 as int],
{
    a_position_applies_until_the_next(tree.positions, k, pc_offset);
    lemma_chain_of_path(tree, ids, 65);
}

/// In front of the first position, and where the position has no inlining id, nothing is
/// inlined; nor is it where the id is not in the tree.
pub proof fn code_of_its_own_is_not_inlined(tree: InlineTree, k: int, pc_offset: u64)
    requires
        forall|i: int, j: int|
            0 <= i < j < tree.positions.len() ==> tree.positions[i].0 <= tree.positions[j].0,
        -1 <= k < tree.positions.len(),
        k >= 0 ==> tree.positions[k].0 <= pc_offset,
        k + 1 < tree.positions.len() ==> pc_offset < tree.positions[k + 1].0,
    ensures
        k < 0 ==> frames_at(tree, pc_offset) is None,
        k >= 0 && tree.positions[k].2 is None ==> frames_at(tree, pc_offset) is None,
        k >= 0 && (tree.positions[k].2 matches Some(id) && id >= tree.inl_pos.len())
            ==> frames_at(tree, pc_offset) is None,
{
    a_position_applies_until_the_next(tree.positions, k, pc_offset);
}

/// Positions with the same code offset keep their order when they are sorted.
pub proof fn sorting_is_stable(positions: Seq<Position>, offset: u32)
    ensures
        by_code_offset(positions).filter(|p: Position| p.0 == offset) == positions.filter(
            |p: Position| p.0 == offset,
        ),
    decreases positions.len(),
{
    reveal(Seq::filter);
    let same = |p: Position| p.0 == offset;
    if positions.len() > 0 {
        sorting_is_stable(positions.drop_last(), offset);
        lemma_insert_stable(by_code_offset(positions.drop_last()), positions.last(), offset);
    } else {
        assert(by_code_offset(positions) =~= positions);
    }
}

proof fn lemma_insert_stable(positions: Seq<Position>, p: Position, offset: u32)
    ensures
        insert_position(positions, p).filter(|q: Position| q.0 == offset) == (if p.0 == offset {
            positions.filter(|q: Position| q.0 == offset).push(p)
        } else {
            positions.filter(|q: Position| q.0 == offset)
        }),
    decreases positions.len(),
{
    reveal(Seq::filter);
    if positions.len() > 0 && positions.last().0 > p.0 {
        let front = positions.drop_last();
        lemma_insert_stable(front, p, offset);
        assert(insert_position(front, p).push(positions.last()).drop_last() =~= insert_position(
            front,
            p,
        ));
    } else {
        assert(positions.push(p).drop_last() =~= positions);
    }
}

/// A frame is named as in the jitdump: `JS:`, the tier marker and the function, and behind a
/// space its location, from which the file, line and column are read.
pub proof fn frames_are_named_as_in_the_jitdump(
    marker: Seq<char>,
    func: Seq<char>,
    file: Seq<char>,
    line: u32,
    col: u32,
)
    requires
        marker.len() > 0 ==> marker[0] != 'o' && marker.last() != '\'',
    ensures
        ({
            let loc = file + seq![':'] + decimal(line as nat) + seq![':'] + decimal(col as nat);
            frame(marker, func, loc) == (Frame {
                name: seq!['J', 'S', ':'] + marker + func + seq![' '] + loc,
                file,
                line,
                col,
            })
        }),
        frame(marker, func, Seq::empty()).name == seq!['J', 'S', ':'] + marker + func,
        frame(marker, func, Seq::empty()).file == Seq::<char>::empty(),
        frame(marker, func, Seq::empty()).line == 0,
        frame(marker, func, Seq::empty()).col == 0,
{
    locations_read_back(file, line, col);
}

/// The fields of a record are what stands between the commas behind its mark: at most eight for
/// `code-creation` and seven for `code-source-info`, of which the last may hold commas. A line
/// with another mark is no such record.
pub proof fn records_read_back(parts: Seq<Seq<char>>)
    requires
        parts.len() > 0,
        forall|i: int| 0 <= i < parts.len() - 1 ==> lacks(#[trigger] parts[i], ','),
    ensures
        parts.len() == 8 || parts.len() < 8 && lacks(parts.last(), ',') ==> creation(
            "code-creation,"@ + joined_with(parts, ','),
        ) == Some(parts),
        parts.len() == 7 || parts.len() < 7 && lacks(parts.last(), ',') ==> source_info(
            "code-source-info,"@ + joined_with(parts, ','),
        ) == Some(parts),
        creation("code-source-info,"@ + joined_with(parts, ',')) is None,
        source_info("code-creation,"@ + joined_with(parts, ',')) is None,
{
    let rest = joined_with(parts, ',');
    reveal_strlit("code-creation,");
    reveal_strlit("code-source-info,");
    let created = "code-creation,"@ + rest;
    let informed = "code-source-info,"@ + rest;
    assert(created.take("code-creation,"@.len() as int) =~= "code-creation,"@);
    assert(created.skip("code-creation,"@.len() as int) =~= rest);
    assert(informed.take("code-source-info,"@.len() as int) =~= "code-source-info,"@);
    assert(informed.skip("code-source-info,"@.len() as int) =~= rest);
    if parts.len() == 8 || parts.len() < 8 && lacks(parts.last(), ',') {
        splitting_stops_at_the_last_piece(parts, 8, ',');
    }
    if parts.len() == 7 || parts.len() < 7 && lacks(parts.last(), ',') {
        splitting_stops_at_the_last_piece(parts, 7, ',');
    }
    assert(informed.take("code-creation,"@.len() as int)[5] == 's');
    assert("code-creation,"@[5] == 'c');
    if starts_with(created, "code-source-info,"@) {
        assert(created.take("code-source-info,"@.len() as int)[5] == created[5]);
        assert("code-source-info,"@[5] == 's');
    }
}

/// A function has the name and location of the first `code-creation` record with its address in
/// the seventh field; without such a record it has none.
pub proof fn functions_are_named_by_their_first_record(
    lines: Seq<Seq<char>>,
    i: int,
    sfi: u64,
)
    requires
        0 <= i <= lines.len(),
        forall|j: int| 0 <= j < i ==> !names_function(#[trigger] lines[j], sfi),
        i < lines.len() ==> names_function(lines[i], sfi),
    ensures
        i < lines.len() ==> names_in(lines).contains_key(sfi) && names_in(lines)[sfi] == name_parts(
            (creation(lines[i])->0)[5],
        ),
        i == lines.len() ==> !names_in(lines).contains_key(sfi),
    decreases lines.len(),
{
    if lines.len() > 0 {
        let front = lines.drop_last();
        assert forall|j: int| 0 <= j < i && j < front.len() implies !names_function(
            #[trigger] front[j],
            sfi,
        ) by {
            assert(front[j] == lines[j]);
        }
        if i < front.len() {
            assert(front[i] == lines[i]);
            functions_are_named_by_their_first_record(front, i, sfi);
        } else {
            functions_are_named_by_their_first_record(front, front.len() as int, sfi);
            if i == lines.len() {
                assert(!names_function(lines[i - 1], sfi));
            }
        }
    }
}

/// Whether the line is a `code-creation` record of the function.
pub open spec fn names_function(line: Seq<char>, sfi: u64) -> bool {
    creation(line) matches Some(p) && p.len() >= 7 && hex(p[6]) == Some(sfi)
}

/// Whether the tree is the one that the fields of a `code-source-info` record tell of code with
/// the given tier marker.
pub open spec fn is_told(
    tree: InlineTree,
    names: Names,
    marker: Seq<char>,
    p: Seq<Seq<char>>,
) -> bool {
    let functions = inlined_functions(p[6]);
    &&& positions_from(p[4], 0) is Some
    &&& tree.positions.to_multiset() == (positions_from(p[4], 0)->0).to_multiset()
    &&& forall|i: int, j: int|
        0 <= i < j < tree.positions.len() ==> tree.positions[i].0 <= tree.positions[j].0
    &&& Some(tree.inl_pos) == inlining_positions_from(p[5], 0)
    &&& tree.inl_fns.len() == functions.len()
    &&& forall|i: int|
        0 <= i < functions.len() ==> (names.contains_key(functions[i]) ==> #[trigger] tree.inl_fns[i]
            == frame(marker, names[functions[i]].0, names[functions[i]].1)) && (
        !names.contains_key(functions[i]) ==> tree.inl_fns[i] == frame(
            marker,
            Seq::empty(),
            Seq::empty(),
        ))
}

/// The last `code-source-info` record of an address tells the inlining of the code that was
/// last created there before it, under the size and with the tier marker of that code.
pub proof fn records_tell_the_inlining_of_their_code(
    names: Names,
    lines: Seq<Seq<char>>,
    c: int,
    i: int,
    addr: u64,
    size: u32,
)
    requires
        after_lines(names, lines) is Some,
        0 <= c < i < lines.len(),
        creation(lines[c]) is Some,
        (creation(lines[c])->0).len() >= 7,
        hex((creation(lines[c])->0)[3]) == Some(addr),
        decimal_u32((creation(lines[c])->0)[4]) == Some(size),
        forall|k: int| c < k < i ==> !creates(#[trigger] lines[k], addr),
        creation(lines[i]) is None,
        source_info(lines[i]) is Some,
        (source_info(lines[i])->0).len() >= 7,
        (source_info(lines[i])->0)[5].len() > 0,
        hex((source_info(lines[i])->0)[0]) == Some(addr),
        forall|k: int| i < k < lines.len() ==> !inlines(#[trigger] lines[k], addr),
    ensures
        ({
            let trees = (after_lines(names, lines)->0).trees;
            let q = creation(lines[c])->0;
            &&& trees.contains_key((addr, size))
            &&& is_told(
                trees[(addr, size)],
                names,
                if q.len() > 7 {
                    q[7]
                } else {
                    Seq::empty()
                },
                source_info(lines[i])->0,
            )
        }),
    decreases lines.len(),
{
    reveal(inlines);
    let last = lines.len() - 1;
    let front = lines.drop_last();
    if i < last {
        assert forall|k: int| i < k < front.len() implies !inlines(#[trigger] front[k], addr) by {
            assert(front[k] == lines[k]);
        }
        assert forall|k: int| c < k < i implies !creates(#[trigger] front[k], addr) by {
            assert(front[k] == lines[k]);
        }
        records_tell_the_inlining_of_their_code(names, front, c, i, addr, size);
        assert(!inlines(lines[last], addr));
    } else {
        assert forall|k: int| c < k < front.len() implies !creates(#[trigger] front[k], addr) by {
            assert(front[k] == lines[k]);
        }
        lemma_live(names, front, c, addr, size);
        let p = source_info(lines[i])->0;
        sorting_keeps_the_positions(positions_from(p[4], 0)->0);
    }
}

proof fn lemma_live(names: Names, lines: Seq<Seq<char>>, c: int, addr: u64, size: u32)
    requires
        after_lines(names, lines) is Some,
        0 <= c < lines.len(),
        creation(lines[c]) is Some,
        (creation(lines[c])->0).len() >= 7,
        hex((creation(lines[c])->0)[3]) == Some(addr),
        decimal_u32((creation(lines[c])->0)[4]) == Some(size),
        forall|k: int| c < k < lines.len() ==> !creates(#[trigger] lines[k], addr),
    ensures
        ({
            let live = (after_lines(names, lines)->0).live;
            let q = creation(lines[c])->0;
            &&& live.contains_key(addr)
            &&& live[addr].0 == size
            &&& live[addr].1 == (if q.len() > 7 {
                q[7]
            } else {
                Seq::<char>::empty()
            })
        }),
    decreases lines.len(),
{
    reveal(creates);
    let last = lines.len() - 1;
    let front = lines.drop_last();
    if c < last {
        assert forall|k: int| c < k < front.len() implies !creates(#[trigger] front[k], addr) by {
            assert(front[k] == lines[k]);
        }
        lemma_live(names, front, c, addr, size);
        assert(!creates(lines[last], addr));
    }
}

} // verus!
