//! The events that are counted.

use crate::linux::sys::{PerfEventAttr, PERF_ATTR_FLAG_EXCLUDE_KERNEL, PERF_ATTR_FLAG_INHERIT,
    PERF_ATTR_FLAG_USE_CLOCKID, PERF_COUNT_HW_CPU_CYCLES, PERF_COUNT_SW_CPU_CLOCK,
    PERF_TYPE_HARDWARE, PERF_TYPE_SOFTWARE};
use crate::text::{all_digits, chars_of, decimal, decimal_digits_read_back, decimal_u64, digit,
    digits_value, has_prefix, hexadecimal, hexadecimal_digits_read_back, lemma_rfind, lemma_rfind_range, number, parse_decimal_u64, parse_number, rfind, rfind_char, starts_with, string_of};
use vstd::prelude::*;
use vstd::slice::slice_subrange;
use vstd::string::*;

verus! {

#[derive(Copy, Clone, PartialEq, Eq, Structural, Debug)]
pub enum EventSource {
    HwCpuCycles,
    SwCpuClock,
}

impl EventSource {
    /// The `(perf_event_attr.type, perf_event_attr.config)` pair for this event.
    pub open spec fn encoding(self) -> (u32, u64) {
        match self {
            EventSource::HwCpuCycles => (PERF_TYPE_HARDWARE, PERF_COUNT_HW_CPU_CYCLES),
            EventSource::SwCpuClock => (PERF_TYPE_SOFTWARE, PERF_COUNT_SW_CPU_CLOCK),
        }
    }

    /// The `(perf_event_attr.type, perf_event_attr.config)` pair for this event.
    pub fn type_and_config(self) -> (res: (u32, u64))
        ensures
            res == self.encoding(),
    {
        match self {
            EventSource::HwCpuCycles => (PERF_TYPE_HARDWARE, PERF_COUNT_HW_CPU_CYCLES),
            EventSource::SwCpuClock => (PERF_TYPE_SOFTWARE, PERF_COUNT_SW_CPU_CLOCK),
        }
    }
}

/// An extra counter to read alongside the main sampling event.
///
/// Extra events are opened as counting-only siblings of the sampling event in
/// its kernel event group. With `PERF_SAMPLE_READ | PERF_FORMAT_GROUP`, every
/// sample carries the current value of each sibling, so the per-sample delta
/// gives the number of events that occurred since the previous sample.
#[derive(PartialEq, Eq, Debug)]
pub struct ExtraEvent {
    /// `perf_event_attr.type` (e.g. `PERF_TYPE_HARDWARE`, `PERF_TYPE_RAW`).
    pub event_type: u32,
    /// `perf_event_attr.config`.
    pub config: u64,
    /// A human-readable name, used to label the resulting counter track.
    pub name: String,
}

impl Clone for ExtraEvent {
    fn clone(&self) -> (res: Self)
        ensures
            res == *self,
    {
        ExtraEvent {
            event_type: self.event_type,
            config: self.config,
            name: self.name.clone(),
        }
    }
}

/// The number that `value` stands for: hexadecimal behind `0x` or `0X`, decimal otherwise.
pub open spec fn number_of(value: Seq<char>) -> Option<u64> {
    if starts_with(value, seq!['0', 'x']) || starts_with(value, seq!['0', 'X']) {
        match number(value.skip(2), 16, u64::MAX as nat) {
            Some(v) => Some(v as u64),
            None => None,
        }
    } else {
        decimal_u64(value)
    }
}

pub fn parse_u64(value: &[char]) -> (res: Option<u64>)
    ensures
        res == number_of(value@),
{
    let lower: [char; 2] = ['0', 'x'];
    let upper: [char; 2] = ['0', 'X'];
    assert(lower@ =~= seq!['0', 'x']);
    assert(upper@ =~= seq!['0', 'X']);
    if has_prefix(value, &lower) || has_prefix(value, &upper) {
        let digits = slice_subrange(value, 2, value.len());
        assert(digits@ =~= value@.skip(2));
        parse_number(digits, 16)
    } else {
        parse_decimal_u64(value)
    }
}

/// The number that `value` stands for, if it fits into 32 bits.
pub open spec fn number_u32(value: Seq<char>) -> Option<u32> {
    match number_of(value) {
        Some(v) => if v <= u32::MAX {
            Some(v as u32)
        } else {
            None
        },
        None => None,
    }
}

pub fn parse_u32(value: &[char]) -> (res: Option<u32>)
    ensures
        res == number_u32(value@),
{
    match parse_u64(value) {
        Some(v) => if v <= u32::MAX as u64 {
            Some(v as u32)
        } else {
            None
        },
        None => None,
    }
}

/// The text in front of the last colon, and the text behind it.
pub open spec fn at_last_colon(s: Seq<char>) -> Option<(Seq<char>, Seq<char>)> {
    let i = rfind(s, ':');
    if i == 0 {
        None
    } else {
        Some((s.take(i - 1), s.skip(i)))
    }
}

fn split_at_last_colon<'a>(s: &'a [char]) -> (res: Option<(&'a [char], &'a [char])>)
    ensures
        match at_last_colon(s@) {
            Some((left, right)) => res matches Some(r) && r.0@ == left && r.1@ == right,
            None => res is None,
        },
{
    let i: usize = rfind_char(s, ':');
    if i == 0 {
        None
    } else {
        let left = slice_subrange(s, 0, i - 1);
        let right = slice_subrange(s, i, s.len());
        assert(left@ =~= s@.take(i - 1));
        assert(right@ =~= s@.skip(i as int));
        Some((left, right))
    }
}

/// The type, configuration and name that `<name>:<type>:<config>` stands for.
pub open spec fn spec_parts(spec: Seq<char>) -> Option<(u32, u64, Seq<char>)> {
    match at_last_colon(spec) {
        Some((rest, config)) => match at_last_colon(rest) {
            Some((name, event_type)) => if name.len() == 0 {
                None
            } else {
                match (number_u32(event_type), number_of(config)) {
                    (Some(event_type), Some(config)) => Some((event_type, config, name)),
                    _ => None,
                }
            },
            None => None,
        },
        None => None,
    }
}

/// What is said of text that does not stand for an event.
pub open spec fn malformed(spec: Seq<char>) -> Seq<char> {
    "expected '<name>:<type>:<config>', got '"@ + spec + "'"@
}

fn malformed_message(spec: &str) -> (res: String)
    ensures
        res@ == malformed(spec@),
{
    let mut message = String::new();
    message.append("expected '<name>:<type>:<config>', got '");
    message.append(spec);
    message.append("'");
    assert(message@ =~= malformed(spec@));
    message
}

impl ExtraEvent {
    /// Parse a `<name>:<type>:<config>` event spec, e.g. `instructions:0:0x1`
    /// or `l1d_access:4:0x0729`. `<type>` and `<config>` go verbatim into
    /// `perf_event_attr.type` / `.config` (decimal or `0x`-prefixed hex);
    /// resolving an event name to its encoding is the caller's job. `<name>`
    /// labels the resulting counter column.
    pub fn parse(spec: &str) -> (res: Result<ExtraEvent, String>)
        ensures
            match spec_parts(spec@) {
                Some((event_type, config, name)) => res matches Ok(event) && event.event_type
                    == event_type && event.config == config && event.name@ == name,
                None => res matches Err(message) && message@ == malformed(spec@),
            },
    {
        let chars = chars_of(spec);
        if let Some((rest, config)) = split_at_last_colon(chars.as_slice()) {
            if let Some((name, event_type)) = split_at_last_colon(rest) {
                if name.len() > 0 {
                    if let (Some(event_type), Some(config)) = (
                        parse_u32(event_type),
                        parse_u64(config),
                    ) {
                        return Ok(ExtraEvent { event_type, config, name: string_of(name) });
                    }
                }
            }
        }
        Err(malformed_message(spec))
    }

    /// The attributes of this event as a sibling of a leader with the given attributes.
    pub open spec fn as_sibling_of(&self, leader_attr: PerfEventAttr) -> PerfEventAttr {
        PerfEventAttr {
            kind: self.event_type,
            config: self.config,
            read_format: leader_attr.read_format,
            clock_id: leader_attr.clock_id,
            flags: leader_attr.flags & (PERF_ATTR_FLAG_EXCLUDE_KERNEL | PERF_ATTR_FLAG_INHERIT
                | PERF_ATTR_FLAG_USE_CLOCKID),
            ..PerfEventAttr::blank()
        }
    }

    /// The `perf_event_attr` for opening this event as a counting-only sibling
    /// in the group of a leader opened with `leader_attr`.
    pub fn sibling_attr(&self, leader_attr: &PerfEventAttr) -> (res: PerfEventAttr)
        ensures
            res == self.as_sibling_of(*leader_attr),
    {
        let mut attr = PerfEventAttr::zeroed();
        attr.kind = self.event_type;
        attr.config = self.config;
        // The sibling must use the same read_format as the leader so the
        // grouped read layout is consistent across the group, and must match
        // the leader's clock and inherit setting, otherwise perf_event_open
        // rejects it with EINVAL. Counting only: sample_period_or_freq stays
        // 0, so the sibling produces no records of its own and needs no ring
        // buffer.
        attr.read_format = leader_attr.read_format;
        attr.clock_id = leader_attr.clock_id;
        // Siblings are opened enabled, but a group is only scheduled onto the
        // PMU while its leader is enabled, so the leader's disabled /
        // enable_on_exec state gates the whole group. (Opening siblings
        // disabled would be wrong: PERF_EVENT_IOC_ENABLE on the leader only
        // enables the leader, and would leave the siblings off forever.)
        //
        // USE_CLOCKID is copied alongside clock_id above: the kernel requires
        // every event in a group to use the same clock, and rejects a sibling
        // that carries the leader's clock_id without also setting the flag.
        attr.flags = leader_attr.flags & (PERF_ATTR_FLAG_EXCLUDE_KERNEL | PERF_ATTR_FLAG_INHERIT
            | PERF_ATTR_FLAG_USE_CLOCKID);
        attr
    }
}

impl std::str::FromStr for ExtraEvent {
    type Err = String;

    fn from_str(spec: &str) -> (res: Result<ExtraEvent, String>)
        ensures
            match spec_parts(spec@) {
                Some((event_type, config, name)) => res matches Ok(event) && event.event_type
                    == event_type && event.config == config && event.name@ == name,
                None => res matches Err(message) && message@ == malformed(spec@),
            },
    {
        Self::parse(spec)
    }
}

/// A sibling counts only: it is opened enabled, neither samples nor inherits otherwise
/// than its leader, and uses the leader's clock.
pub proof fn siblings_follow_their_leader(event: ExtraEvent, leader_attr: PerfEventAttr, bit: u64)
    ensures
        event.as_sibling_of(leader_attr).sample_period_or_freq == 0,
        event.as_sibling_of(leader_attr).sample_type == 0,
        event.as_sibling_of(leader_attr).read_format == leader_attr.read_format,
        event.as_sibling_of(leader_attr).clock_id == leader_attr.clock_id,
        bit == PERF_ATTR_FLAG_EXCLUDE_KERNEL || bit == PERF_ATTR_FLAG_INHERIT || bit
            == PERF_ATTR_FLAG_USE_CLOCKID ==> event.as_sibling_of(leader_attr).flags & bit
            == leader_attr.flags & bit,
        event.as_sibling_of(leader_attr).flags & crate::linux::sys::PERF_ATTR_FLAG_DISABLED == 0,
{
    let flags = leader_attr.flags;
    assert((flags & (0x20u64 | 0x2u64 | 0x200_0000u64)) & 0x1u64 == 0) by (bit_vector);
    assert(bit == 0x20 || bit == 0x2 || bit == 0x200_0000 ==> (flags & (0x20u64 | 0x2u64 | 0x200_0000u64))
        & bit == flags & bit) by (bit_vector);
}

/// A sibling counts the event that was asked for, whatever its leader samples: its type and
/// configuration are those of the event. Of the leader it has how counts are read and the
/// clock, and whether the kernel is left out, children are followed and the clock is chosen;
/// nothing else is asked for.
pub proof fn siblings_count_what_was_asked(event: ExtraEvent, leader_attr: PerfEventAttr)
    ensures
        ({
            let attr = event.as_sibling_of(leader_attr);
            &&& attr.kind == event.event_type
            &&& attr.config == event.config
            &&& attr.read_format == leader_attr.read_format
            &&& attr.clock_id == leader_attr.clock_id
            &&& attr.flags & 0x200_0022 == leader_attr.flags & 0x200_0022
            &&& attr.flags & !0x200_0022u64 == 0
            &&& attr.size == 112
            &&& attr.sample_period_or_freq == 0
            &&& attr.sample_type == 0
            &&& attr.sample_regs_user == 0
            &&& attr.sample_stack_user == 0
            &&& attr.sample_regs_intr == 0
            &&& attr.branch_sample_type == 0
            &&& attr.bp_type == 0
            &&& attr.bp_addr_or_config == 0
            &&& attr.bp_len_or_config == 0
            &&& attr.wakeup_events_or_watermark == 0
            &&& attr.aux_watermark == 0
            &&& attr.sample_max_stack == 0
            &&& attr.reserved == 0
        }),
{
    let flags = leader_attr.flags;
    assert((flags & (0x20u64 | 0x2u64 | 0x200_0000u64)) & 0x200_0022u64 == flags & 0x200_0022u64)
        by (bit_vector);
    assert((flags & (0x20u64 | 0x2u64 | 0x200_0000u64)) & !0x200_0022u64 == 0) by (bit_vector);
}

/// Whether the text is the number in digits: decimal ones, or hexadecimal ones behind `0x` or
/// `0X`, in small or capital letters. There may be zeros in front.
pub open spec fn is_written(text: Seq<char>, n: nat) -> bool {
    ||| text.len() > 0 && all_digits(text, 10) && digits_value(text, 10) == n
    ||| {
        &&& text.len() > 2
        &&& text[0] == '0' && (text[1] == 'x' || text[1] == 'X')
        &&& all_digits(text.skip(2), 16) && digits_value(text.skip(2), 16) == n
    }
}

/// Every number can be written in decimal, and in hexadecimal behind either prefix.
pub proof fn numbers_can_be_written(n: nat)
    ensures
        is_written(decimal(n), n),
        is_written(seq!['0', 'x'] + hexadecimal(n), n),
        is_written(seq!['0', 'X'] + hexadecimal(n), n),
{
    decimal_digits_read_back(n);
    hexadecimal_digits_read_back(n);
    assert((seq!['0', 'x'] + hexadecimal(n)).skip(2) =~= hexadecimal(n));
    assert((seq!['0', 'X'] + hexadecimal(n)).skip(2) =~= hexadecimal(n));
}

proof fn lemma_number_read_back(text: Seq<char>, n: u64)
    requires
        is_written(text, n as nat),
    ensures
        number_of(text) == Some(n),
        forall|i: int| 0 <= i < text.len() ==> #[trigger] text[i] != ':',
{
    if text.len() > 0 && all_digits(text, 10) && digits_value(text, 10) == n {
        assert forall|i: int| 0 <= i < text.len() implies #[trigger] text[i] != ':' && text[i]
            != 'x' && text[i] != 'X' && text[i] != '+' by {
            assert(digit(text[i], 10) is Some);
        }
        if starts_with(text, seq!['0', 'x']) {
            assert(text[1] == text.take(2)[1]);
        }
        if starts_with(text, seq!['0', 'X']) {
            assert(text[1] == text.take(2)[1]);
        }
    } else {
        let digits = text.skip(2);
        assert(text.take(2) =~= seq!['0', 'x'] || text.take(2) =~= seq!['0', 'X']);
        assert forall|i: int| 0 <= i < text.len() implies #[trigger] text[i] != ':' by {
            if i >= 2 {
                assert(digit(digits[i - 2], 16) is Some);
            }
        }
        assert(digit(digits[0], 16) is Some);
    }
}

proof fn lemma_at_last_colon(left: Seq<char>, right: Seq<char>)
    requires
        forall|i: int| 0 <= i < right.len() ==> #[trigger] right[i] != ':',
    ensures
        at_last_colon(left + seq![':'] + right) == Some((left, right)),
{
    let all = left + seq![':'] + right;
    let i = left.len() + 1;
    assert forall|j: int| i <= j < all.len() implies all[j] != ':' by {
        assert(all[j] == right[j - i]);
    }
    lemma_rfind(all, ':', i as int);
    assert(all.take(left.len() as int) =~= left);
    assert(all.skip(i as int) =~= right);
}

/// A spec that is written down reads back as it was, whatever the name is, unless it is empty,
/// and in whichever way each of the numbers is written.
pub proof fn specs_read_back(
    name: Seq<char>,
    event_type: u32,
    config: u64,
    type_text: Seq<char>,
    config_text: Seq<char>,
)
    requires
        name.len() > 0,
        is_written(type_text, event_type as nat),
        is_written(config_text, config as nat),
    ensures
        spec_parts(name + seq![':'] + type_text + seq![':'] + config_text) == Some(
            (event_type, config, name),
        ),
{
    lemma_number_read_back(type_text, event_type as u64);
    lemma_number_read_back(config_text, config);
    lemma_at_last_colon(name + seq![':'] + type_text, config_text);
    lemma_at_last_colon(name, type_text);
}

/// Only what is written as `<name>:<type>:<config>` is an event: the name is not empty, and
/// each number is written in digits, with at most a plus sign in front of them, and fits.
pub proof fn only_written_specs_are_read(spec: Seq<char>)
    ensures
        spec_parts(spec) matches Some((event_type, config, name)) ==> name.len() > 0 && exists|
            type_text: Seq<char>,
            config_text: Seq<char>,
        |
            #![trigger is_written_with_sign(type_text, event_type as nat), is_written_with_sign(config_text, config as nat)]
            spec == name + seq![':'] + type_text + seq![':'] + config_text && is_written_with_sign(
                type_text,
                event_type as nat,
            ) && is_written_with_sign(config_text, config as nat),
{
    if let Some((event_type, config, name)) = spec_parts(spec) {
        let (rest, config_text) = at_last_colon(spec)->0;
        let (_, type_text) = at_last_colon(rest)->0;
        lemma_rfind_range(spec, ':');
        lemma_rfind_range(rest, ':');
        assert(spec =~= rest + seq![':'] + config_text);
        assert(rest =~= name + seq![':'] + type_text);
        assert(spec =~= name + seq![':'] + type_text + seq![':'] + config_text);
        lemma_number_is_written(type_text);
        lemma_number_is_written(config_text);
    }
}

/// Whether the text is the number in digits, with at most a plus sign in front of them.
pub open spec fn is_written_with_sign(text: Seq<char>, n: nat) -> bool {
    ||| is_written(text, n)
    ||| text.len() > 0 && text[0] == '+' && is_written(text.drop_first(), n)
    ||| text.len() > 2 && text[2] == '+' && is_written(text.remove(2), n)
}

proof fn lemma_number_is_written(text: Seq<char>)
    ensures
        number_of(text) matches Some(n) ==> is_written_with_sign(text, n as nat),
{
    if number_of(text) is Some {
        if starts_with(text, seq!['0', 'x']) || starts_with(text, seq!['0', 'X']) {
            assert(text[0] == text.take(2)[0] && text[1] == text.take(2)[1]);
            if text.skip(2)[0] == '+' {
                assert(text.remove(2).skip(2) =~= text.skip(2).drop_first());
            }
        }
    }
}

/// A number that does not fit is no number: the type has 32 bits, and the configuration 64.
pub proof fn numbers_have_to_fit(text: Seq<char>, n: nat)
    requires
        is_written(text, n),
    ensures
        n > u64::MAX ==> number_of(text) is None,
        n > u32::MAX ==> number_u32(text) is None,
        n <= u64::MAX ==> number_of(text) == Some(n as u64),
        n <= u32::MAX ==> number_u32(text) == Some(n as u32),
{
    if text.len() > 0 && all_digits(text, 10) && digits_value(text, 10) == n {
        assert forall|i: int| 0 <= i < text.len() implies #[trigger] text[i] != 'x' && text[i]
            != 'X' && text[i] != '+' by {
            assert(digit(text[i], 10) is Some);
        }
        if starts_with(text, seq!['0', 'x']) {
            assert(text[1] == text.take(2)[1]);
        }
        if starts_with(text, seq!['0', 'X']) {
            assert(text[1] == text.take(2)[1]);
        }
    } else {
        assert(text.take(2) =~= seq!['0', 'x'] || text.take(2) =~= seq!['0', 'X']);
        assert(digit(text.skip(2)[0], 16) is Some);
    }
}

} // verus!
