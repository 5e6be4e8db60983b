//! How the records of an event are read.

use crate::linux::bytes::{bytes_hold_the_value, le_bytes, le_value, lemma_byte_values,
    lemma_le_bytes_len};
use crate::linux::ring::RecordData;
use crate::linux::sys::{PerfEventAttr, PERF_ATTR_FLAG_SAMPLE_ID_ALL,
    PERF_ATTR_FLAG_USE_CLOCKID, PERF_EVENT_ATTR_SIZE, PERF_SAMPLE_ADDR, PERF_SAMPLE_CPU, PERF_SAMPLE_ID, PERF_SAMPLE_IDENTIFIER, PERF_SAMPLE_IP,
    PERF_SAMPLE_STREAM_ID, PERF_SAMPLE_TID, PERF_SAMPLE_TIME};
use byteorder::LittleEndian;
use linux_perf_data::linux_perf_event_reader;
use linux_perf_data::linux_perf_event_reader::{get_record_timestamp, BranchSampleFormat, Endianness,
    RawData, ReadFormat, RecordIdParseInfo, RecordParseInfo, RecordType, SampleFormat};
use vstd::prelude::*;

verus! {

/// What is needed to read the records of an event, apart from the byte order. The fields
/// are those of `linux_perf_event_reader::RecordParseInfo`, with its bit sets as integers.
#[derive(Clone, Copy, Debug, PartialEq, Eq, Structural)]
pub struct ParseInfo {
    pub sample_format: u64,
    pub branch_sample_format: u64,
    pub read_format: u64,
    pub common_data_offset_from_end: Option<u8>,
    pub sample_regs_user: u64,
    pub user_regs_count: u8,
    pub sample_regs_intr: u64,
    pub intr_regs_count: u8,
    pub nonsample_record_id_offset_from_end: Option<u8>,
    pub sample_record_id_offset_from_start: Option<u8>,
    pub nonsample_record_time_offset_from_end: Option<u8>,
    pub sample_record_time_offset_from_start: Option<u8>,
}

/// 1 if the bit is set, and 0 otherwise.
pub open spec fn bit(bits: u64, mask: u64) -> int {
    if bits & mask != 0 {
        1
    } else {
        0
    }
}

/// How far behind its start a sample has its time: behind the id, the instruction
/// pointer and the thread id, as far as it has them.
pub open spec fn sample_time_offset(sample_type: u64) -> Option<u8> {
    if bit(sample_type, PERF_SAMPLE_TIME) == 1 {
        Some(
            (8 * (bit(sample_type, PERF_SAMPLE_IDENTIFIER) + bit(sample_type, PERF_SAMPLE_IP)
                + bit(sample_type, PERF_SAMPLE_TID))) as u8,
        )
    } else {
        None
    }
}

/// How far in front of its end another record has its time: in front of the id, the stream
/// id, the CPU and the identifier, as far as it has them.
pub open spec fn nonsample_time_offset(sample_type: u64, flags: u64) -> Option<u8> {
    if bit(flags, PERF_ATTR_FLAG_SAMPLE_ID_ALL) == 1 && bit(sample_type, PERF_SAMPLE_TIME) == 1 {
        Some(
            (8 * (1 + bit(sample_type, PERF_SAMPLE_ID) + bit(sample_type, PERF_SAMPLE_STREAM_ID)
                + bit(sample_type, PERF_SAMPLE_CPU) + bit(sample_type, PERF_SAMPLE_IDENTIFIER)))
                as u8,
        )
    } else {
        None
    }
}

/// How long the data is that all records have at their end: the thread id, the time, the
/// id, the stream id, the CPU and the identifier, as far as they are asked for.
pub open spec fn common_data_offset(sample_type: u64, flags: u64) -> Option<u8> {
    if bit(flags, PERF_ATTR_FLAG_SAMPLE_ID_ALL) == 1 {
        Some(
            (8 * (bit(sample_type, PERF_SAMPLE_TID) + bit(sample_type, PERF_SAMPLE_TIME) + bit(
                sample_type,
                PERF_SAMPLE_ID,
            ) + bit(sample_type, PERF_SAMPLE_STREAM_ID) + bit(sample_type, PERF_SAMPLE_CPU) + bit(
                sample_type,
                PERF_SAMPLE_IDENTIFIER,
            ))) as u8,
        )
    } else {
        None
    }
}

/// How far behind its start a sample has its id: the identifier is in front of all else, and
/// the id behind the instruction pointer, the thread id, the time and the address.
pub open spec fn sample_id_offset(sample_type: u64) -> Option<u8> {
    if bit(sample_type, PERF_SAMPLE_IDENTIFIER) == 1 {
        Some(0)
    } else if bit(sample_type, PERF_SAMPLE_ID) == 1 {
        Some(
            (8 * (bit(sample_type, PERF_SAMPLE_IP) + bit(sample_type, PERF_SAMPLE_TID) + bit(
                sample_type,
                PERF_SAMPLE_TIME,
            ) + bit(sample_type, PERF_SAMPLE_ADDR))) as u8,
        )
    } else {
        None
    }
}

/// How far in front of its end another record has its id: the identifier is behind all else,
/// and the id in front of the stream id and the CPU.
pub open spec fn nonsample_id_offset(sample_type: u64, flags: u64) -> Option<u8> {
    if bit(flags, PERF_ATTR_FLAG_SAMPLE_ID_ALL) == 0 {
        None
    } else if bit(sample_type, PERF_SAMPLE_IDENTIFIER) == 1 {
        Some(8)
    } else if bit(sample_type, PERF_SAMPLE_ID) == 1 {
        Some(
            (8 * (1 + bit(sample_type, PERF_SAMPLE_STREAM_ID) + bit(sample_type, PERF_SAMPLE_CPU)))
                as u8,
        )
    } else {
        None
    }
}

/// The number of bits that are set.
pub open spec fn ones(bits: nat) -> nat
    decreases bits,
{
    if bits == 0 {
        0
    } else {
        bits % 2 + ones(bits / 2)
    }
}

/// The bits of `sample_type` that have a meaning.
pub const SAMPLE_FORMAT_BITS: u64 = 0x1ff_ffff;

/// The bits of `branch_sample_type` that have a meaning.
pub const BRANCH_SAMPLE_FORMAT_BITS: u64 = 0x3_ffff;

/// The bits of `read_format` that have a meaning.
pub const READ_FORMAT_BITS: u64 = 0xf;

/// How the records of an event are read, given what its attributes say about them.
pub open spec fn parse_info(
    sample_type: u64,
    read_format: u64,
    flags: u64,
    branch_sample_type: u64,
    sample_regs_user: u64,
    sample_regs_intr: u64,
) -> ParseInfo {
    ParseInfo {
        sample_format: sample_type & SAMPLE_FORMAT_BITS,
        branch_sample_format: branch_sample_type & BRANCH_SAMPLE_FORMAT_BITS,
        read_format: read_format & READ_FORMAT_BITS,
        common_data_offset_from_end: common_data_offset(sample_type, flags),
        sample_regs_user,
        user_regs_count: ones(sample_regs_user as nat) as u8,
        sample_regs_intr,
        intr_regs_count: ones(sample_regs_intr as nat) as u8,
        nonsample_record_id_offset_from_end: nonsample_id_offset(sample_type, flags),
        sample_record_id_offset_from_start: sample_id_offset(sample_type),
        nonsample_record_time_offset_from_end: nonsample_time_offset(sample_type, flags),
        sample_record_time_offset_from_start: sample_time_offset(sample_type),
    }
}

impl PerfEventAttr {
    /// How the records of an event with these attributes are read.
    pub open spec fn parse_info(&self) -> ParseInfo {
        parse_info(
            self.sample_type,
            self.read_format,
            self.flags,
            self.branch_sample_type,
            self.sample_regs_user,
            self.sample_regs_intr,
        )
    }
}

/// The field of an event's attributes in the given bytes.
pub open spec fn field(attr: Seq<u8>, start: int, end: int) -> nat {
    le_value(attr.subrange(start, end))
}

/// Whether there is such an event and such a clock. There are ten events of the hardware
/// and twelve of the software, seven caches with three operations that have two results
/// each, and ten clocks. All that other types of events are configured with goes.
pub open spec fn is_known(kind: nat, config: nat, flags: u64, clock_id: nat) -> bool {
    &&& kind == 0 ==> config % 0x100 <= 9
    &&& kind == 1 ==> config <= 11
    &&& kind == 3 ==> config % 0x100 <= 6 && (config / 0x100) % 0x100 <= 2 && (config / 0x1_0000)
        % 0x100 <= 1
    &&& bit(flags, PERF_ATTR_FLAG_USE_CLOCKID) == 1 ==> clock_id <= 9
}

impl PerfEventAttr {
    /// Whether there is such an event and such a clock.
    pub open spec fn is_known(&self) -> bool {
        is_known(self.kind as nat, self.config as nat, self.flags, self.clock_id as u32 as nat)
    }
}

/// Calls `linux_perf_event_reader::PerfEventAttr::parse` on attributes in little endian,
/// and `linux_perf_event_reader::RecordParseInfo::new` on its result, if it has one.
///
/// It has one just if the event and its clock are known. What it then is follows from the
/// attributes field by field: bits without a meaning are dropped from the three formats, the
/// registers are counted, and the offsets are those at which the kernel writes the time and
/// the id.
#[verifier::external_body]
fn parse_attr(attr: &[u8]) -> (res: Option<ParseInfo>)
    requires
        attr@.len() == PERF_EVENT_ATTR_SIZE,
        field(attr@, 4, 8) == PERF_EVENT_ATTR_SIZE,
    ensures
        res == (if is_known(
            field(attr@, 0, 4),
            field(attr@, 8, 16),
            field(attr@, 40, 48) as u64,
            field(attr@, 92, 96),
        ) {
            Some(
                parse_info(
                    field(attr@, 24, 32) as u64,
                    field(attr@, 32, 40) as u64,
                    field(attr@, 40, 48) as u64,
                    field(attr@, 72, 80) as u64,
                    field(attr@, 80, 88) as u64,
                    field(attr@, 96, 104) as u64,
                ),
            )
        } else {
            None
        }),
{
    let attr = linux_perf_event_reader::PerfEventAttr::parse::<_, LittleEndian>(attr).ok()?.0;
    let info = RecordParseInfo::new(&attr, Endianness::LittleEndian);
    Some(ParseInfo {
        sample_format: info.sample_format.bits(),
        branch_sample_format: info.branch_sample_format.bits(),
        read_format: info.read_format.bits(),
        common_data_offset_from_end: info.common_data_offset_from_end,
        sample_regs_user: info.sample_regs_user, user_regs_count: info.user_regs_count,
        sample_regs_intr: info.sample_regs_intr, intr_regs_count: info.intr_regs_count,
        nonsample_record_id_offset_from_end: info.id_parse_info.nonsample_record_id_offset_from_end,
        sample_record_id_offset_from_start: info.id_parse_info.sample_record_id_offset_from_start,
        nonsample_record_time_offset_from_end: info.nonsample_record_time_offset_from_end,
        sample_record_time_offset_from_start: info.sample_record_time_offset_from_start,
    })
}

proof fn lemma_le_bytes(v: nat, n: nat)
    requires
        n == 4 && v <= u32::MAX || n == 8 && v <= u64::MAX,
    ensures
        le_bytes(v, n).len() == n,
        le_value(le_bytes(v, n)) == v,
{
    lemma_byte_values();
    bytes_hold_the_value(v, n);
}

proof fn lemma_fields(attr: PerfEventAttr)
    ensures
        attr.le_bytes().len() == PERF_EVENT_ATTR_SIZE,
        field(attr.le_bytes(), 0, 4) == attr.kind,
        field(attr.le_bytes(), 4, 8) == attr.size,
        field(attr.le_bytes(), 8, 16) == attr.config,
        field(attr.le_bytes(), 24, 32) == attr.sample_type,
        field(attr.le_bytes(), 32, 40) == attr.read_format,
        field(attr.le_bytes(), 40, 48) == attr.flags,
        field(attr.le_bytes(), 72, 80) == attr.branch_sample_type,
        field(attr.le_bytes(), 80, 88) == attr.sample_regs_user,
        field(attr.le_bytes(), 92, 96) == attr.clock_id as u32,
        field(attr.le_bytes(), 96, 104) == attr.sample_regs_intr,
{
    lemma_le_bytes(attr.kind as nat, 4);
    lemma_le_bytes(attr.size as nat, 4);
    lemma_le_bytes(attr.config as nat, 8);
    lemma_le_bytes(attr.sample_period_or_freq as nat, 8);
    lemma_le_bytes(attr.sample_type as nat, 8);
    lemma_le_bytes(attr.read_format as nat, 8);
    lemma_le_bytes(attr.flags as nat, 8);
    lemma_le_bytes(attr.wakeup_events_or_watermark as nat, 4);
    lemma_le_bytes(attr.bp_type as nat, 4);
    lemma_le_bytes(attr.bp_addr_or_config as nat, 8);
    lemma_le_bytes(attr.bp_len_or_config as nat, 8);
    lemma_le_bytes(attr.branch_sample_type as nat, 8);
    lemma_le_bytes(attr.sample_regs_user as nat, 8);
    lemma_le_bytes(attr.sample_stack_user as nat, 4);
    lemma_le_bytes(attr.clock_id as u32 as nat, 4);
    lemma_le_bytes(attr.sample_regs_intr as nat, 8);
    lemma_le_bytes(attr.aux_watermark as nat, 4);
    lemma_le_bytes_len(attr.sample_max_stack as nat, 2);
    lemma_le_bytes_len(attr.reserved as nat, 2);
    let all = attr.le_bytes();
    assert(all.subrange(0, 4) =~= le_bytes(attr.kind as nat, 4));
    assert(all.subrange(4, 8) =~= le_bytes(attr.size as nat, 4));
    assert(all.subrange(8, 16) =~= le_bytes(attr.config as nat, 8));
    assert(all.subrange(24, 32) =~= le_bytes(attr.sample_type as nat, 8));
    assert(all.subrange(32, 40) =~= le_bytes(attr.read_format as nat, 8));
    assert(all.subrange(40, 48) =~= le_bytes(attr.flags as nat, 8));
    assert(all.subrange(72, 80) =~= le_bytes(attr.branch_sample_type as nat, 8));
    assert(all.subrange(80, 88) =~= le_bytes(attr.sample_regs_user as nat, 8));
    assert(all.subrange(92, 96) =~= le_bytes(attr.clock_id as u32 as nat, 4));
    assert(all.subrange(96, 104) =~= le_bytes(attr.sample_regs_intr as nat, 8));
}

impl ParseInfo {
    /// How the records of an event with the given attributes are read; `None` if there is no
    /// such event or no such clock.
    pub fn new(attr: &PerfEventAttr) -> (res: Option<ParseInfo>)
        requires
            attr.size == PERF_EVENT_ATTR_SIZE,
        ensures
            res == (if attr.is_known() {
                Some(attr.parse_info())
            } else {
                None
            }),
    {
        let bytes = attr.to_le_bytes();
        proof {
            lemma_fields(*attr);
        }
        parse_attr(bytes.as_slice())
    }
}

/// The type of the records that are samples.
pub const PERF_RECORD_SAMPLE: u32 = 9;

/// The first type of record that the kernel does not write.
pub const PERF_RECORD_USER_TYPE_START: u32 = 64;

/// The 64-bit integer at `at`, if it is there.
pub open spec fn u64_at(data: Seq<u8>, at: int) -> Option<u64> {
    if 0 <= at && at + 8 <= data.len() {
        Some(le_value(data.subrange(at, at + 8)) as u64)
    } else {
        None
    }
}

/// The time in the data of a record of the given type.
pub open spec fn timestamp(kind: u32, data: Seq<u8>, info: ParseInfo) -> Option<u64> {
    if kind >= PERF_RECORD_USER_TYPE_START {
        None
    } else if kind == PERF_RECORD_SAMPLE {
        match info.sample_record_time_offset_from_start {
            Some(offset) => u64_at(data, offset as int),
            None => None,
        }
    } else {
        match info.nonsample_record_time_offset_from_end {
            Some(offset) => u64_at(data, data.len() - offset),
            None => None,
        }
    }
}

/// Calls `linux_perf_event_reader::get_record_timestamp` for data in little endian.
///
/// The time is the 64-bit integer that lies the first of two offsets behind the start of
/// a sample, or the second in front of the end of another record. There is none where the
/// offset is missing or the integer is not within the data, nor for a type of record that
/// the kernel does not write.
#[verifier::external_body]
pub(crate) fn record_timestamp(kind: u32, data: RecordData<'_>, info: &ParseInfo) -> (res: Option<u64>)
    ensures
        res == timestamp(kind, data@, *info),
{
    let data = match data {
        RecordData::Single(a) => RawData::Single(a),
        RecordData::Split(a, b) => RawData::Split(a, b),
    };
    let ParseInfo { common_data_offset_from_end, sample_regs_user, user_regs_count, sample_regs_intr,
        intr_regs_count, nonsample_record_id_offset_from_end, sample_record_id_offset_from_start,
        nonsample_record_time_offset_from_end, sample_record_time_offset_from_start, .. } = *info;
    let info = RecordParseInfo { endian: Endianness::LittleEndian, sample_regs_user, user_regs_count,
        sample_format: SampleFormat::from_bits_truncate(info.sample_format), sample_regs_intr,
        branch_sample_format: BranchSampleFormat::from_bits_truncate(info.branch_sample_format),
        read_format: ReadFormat::from_bits_truncate(info.read_format), intr_regs_count,
        common_data_offset_from_end, nonsample_record_time_offset_from_end, sample_record_time_offset_from_start,
        id_parse_info: RecordIdParseInfo { nonsample_record_id_offset_from_end, sample_record_id_offset_from_start } };
    get_record_timestamp::<LittleEndian>(RecordType(kind), data, &info)
}

/// The time of a sample is the integer at the first of the offsets from its start, and that of
/// another record the integer at the second of them from its end, with the least significant
/// byte first. Without the offset, or where the data are too short, there is none; nor is there
/// one for what the kernel does not write.
pub proof fn times_are_at_their_offsets(kind: u32, data: Seq<u8>, info: ParseInfo, time: u64)
    ensures
        kind >= 64 ==> timestamp(kind, data, info) is None,
        kind == 9 ==> match info.sample_record_time_offset_from_start {
            Some(offset) => {
                &&& offset + 8 > data.len() ==> timestamp(kind, data, info) is None
                &&& offset + 8 <= data.len() && data.subrange(offset as int, offset + 8) == le_bytes(
                    time as nat,
                    8,
                ) ==> timestamp(kind, data, info) == Some(time)
            },
            None => timestamp(kind, data, info) is None,
        },
        kind < 64 && kind != 9 ==> match info.nonsample_record_time_offset_from_end {
            Some(offset) => {
                let at = data.len() - offset;
                &&& at < 0 || at + 8 > data.len() ==> timestamp(kind, data, info) is None
                &&& at >= 0 && at + 8 <= data.len() && data.subrange(at, at + 8) == le_bytes(
                    time as nat,
                    8,
                ) ==> timestamp(kind, data, info) == Some(time)
            },
            None => timestamp(kind, data, info) is None,
        },
{
    lemma_le_bytes(time as nat, 8);
}

/// A sample has its time behind the identifier, the instruction pointer and the thread id, and
/// its id, unless the identifier stands for it, behind these but the identifier, the time and
/// the address. Each of them takes eight bytes, if it is asked for.
pub proof fn samples_hold_the_time_behind_the_thread(sample_type: u64)
    ensures
        ({
            let identifier: int = if sample_type & 0x1_0000 != 0 {
                8
            } else {
                0
            };
            let ip: int = if sample_type & 0x1 != 0 {
                8
            } else {
                0
            };
            let tid: int = if sample_type & 0x2 != 0 {
                8
            } else {
                0
            };
            let time: int = if sample_type & 0x4 != 0 {
                8
            } else {
                0
            };
            let addr: int = if sample_type & 0x8 != 0 {
                8
            } else {
                0
            };
            &&& sample_time_offset(sample_type) is Some <==> time == 8
            &&& sample_time_offset(sample_type) matches Some(offset) ==> offset == identifier + ip
                + tid
            &&& sample_id_offset(sample_type) is Some <==> identifier == 8 || sample_type & 0x40 != 0
            &&& sample_id_offset(sample_type) matches Some(offset) ==> offset == if identifier == 8 {
                0
            } else {
                ip + tid + time + addr
            }
        }),
{
}

/// The other records have at their end the thread id, the time, the id, the stream id, the CPU
/// and the identifier, each in eight bytes if it is asked for, if all records are to have them;
/// and the time and the id are as far in front of the end as what follows them takes.
pub proof fn other_records_end_in_the_common_data(sample_type: u64, flags: u64)
    ensures
        ({
            let tid: int = if sample_type & 0x2 != 0 {
                8
            } else {
                0
            };
            let time: int = if sample_type & 0x4 != 0 {
                8
            } else {
                0
            };
            let id: int = if sample_type & 0x40 != 0 {
                8
            } else {
                0
            };
            let stream: int = if sample_type & 0x200 != 0 {
                8
            } else {
                0
            };
            let cpu: int = if sample_type & 0x80 != 0 {
                8
            } else {
                0
            };
            let identifier: int = if sample_type & 0x1_0000 != 0 {
                8
            } else {
                0
            };
            let all = flags & 0x4_0000 != 0;
            &&& common_data_offset(sample_type, flags) is Some <==> all
            &&& common_data_offset(sample_type, flags) matches Some(offset) ==> offset == tid + time
                + id + stream + cpu + identifier
            &&& nonsample_time_offset(sample_type, flags) is Some <==> all && time == 8
            &&& nonsample_time_offset(sample_type, flags) matches Some(offset) ==> offset == time
                + id + stream + cpu + identifier
            &&& nonsample_id_offset(sample_type, flags) is Some <==> all && (identifier == 8 || id
                == 8)
            &&& nonsample_id_offset(sample_type, flags) matches Some(offset) ==> offset
                == if identifier == 8 {
                8
            } else {
                id + stream + cpu
            }
        }),
{
}

/// The bits that are set are counted one by one.
pub proof fn bits_are_counted(bits: nat)
    ensures
        ones(0) == 0,
        ones(2 * bits) == ones(bits),
        ones(2 * bits + 1) == ones(bits) + 1,
{
    reveal_with_fuel(ones, 2);
}

} // verus!
