//! Where the records of a ring buffer are.

use crate::linux::bytes::{byte_values, lemma_byte_values, lemma_le_value_bound, read_uint_at, value,
    ByteOrder};
use std::ops::Range;
use vstd::prelude::*;
use vstd::slice::slice_subrange;

verus! {

/// The size of a [`PerfEventHeader`] in memory.
pub const HEADER_SIZE: usize = 8;

#[derive(Debug)]
pub struct PerfEventHeader {
    pub kind: u32,
    pub misc: u16,
    pub size: u16,
}

impl PerfEventHeader {
    /// The header in the first bytes of `bytes`.
    pub open spec fn spec_read(bytes: Seq<u8>, order: ByteOrder) -> PerfEventHeader {
        PerfEventHeader {
            kind: value(bytes.subrange(0, 4), order) as u32,
            misc: value(bytes.subrange(4, 6), order) as u16,
            size: value(bytes.subrange(6, 8), order) as u16,
        }
    }

    /// The header in the first bytes of `bytes`.
    pub fn read(bytes: &[u8], order: ByteOrder) -> (res: PerfEventHeader)
        requires
            bytes@.len() >= HEADER_SIZE,
        ensures
            res == Self::spec_read(bytes@, order),
            res.kind == value(bytes@.subrange(0, 4), order),
            res.misc == value(bytes@.subrange(4, 6), order),
            res.size == value(bytes@.subrange(6, 8), order),
    {
        let kind: u64 = read_uint_at(bytes, 0, 4, order);
        let misc: u64 = read_uint_at(bytes, 4, 2, order);
        let size: u64 = read_uint_at(bytes, 6, 2, order);
        proof {
            lemma_byte_values();
        }
        PerfEventHeader { kind: kind as u32, misc: misc as u16, size: size as u16 }
    }
}

/// The bytes of a record: in one piece, or in two where the ring buffer wraps around.
#[derive(Clone, Copy, Debug)]
pub enum RecordData<'a> {
    Single(&'a [u8]),
    Split(&'a [u8], &'a [u8]),
}

impl<'a> View for RecordData<'a> {
    type V = Seq<u8>;

    open spec fn view(&self) -> Seq<u8> {
        match *self {
            RecordData::Single(bytes) => bytes@,
            RecordData::Split(left, right) => left@ + right@,
        }
    }
}

/// Whether the range can be taken out of `len` bytes.
pub open spec fn range_in(range: Range<usize>, len: nat) -> bool {
    range.start <= range.end <= len
}

#[derive(Debug)]
pub enum SliceLocation {
    Single(Range<usize>),
    Split(Range<usize>, Range<usize>),
}

impl Clone for SliceLocation {
    fn clone(&self) -> (res: Self)
        ensures
            res == *self,
    {
        match self {
            SliceLocation::Single(range) => SliceLocation::Single(range.start..range.end),
            SliceLocation::Split(left, right) => SliceLocation::Split(
                left.start..left.end,
                right.start..right.end,
            ),
        }
    }
}

impl SliceLocation {
    /// Whether it is a place in a buffer of `len` bytes.
    pub open spec fn is_in(&self, len: nat) -> bool {
        match *self {
            SliceLocation::Single(range) => range_in(range, len),
            SliceLocation::Split(left, right) => range_in(left, len) && range_in(right, len),
        }
    }

    /// The bytes there.
    pub open spec fn data(&self, buffer: Seq<u8>) -> Seq<u8> {
        match *self {
            SliceLocation::Single(range) => buffer.subrange(range.start as int, range.end as int),
            SliceLocation::Split(left, right) => buffer.subrange(
                left.start as int,
                left.end as int,
            ) + buffer.subrange(right.start as int, right.end as int),
        }
    }

    pub fn get<'a>(&self, buffer: &'a [u8]) -> (res: RecordData<'a>)
        requires
            self.is_in(buffer@.len()),
        ensures
            res@ == self.data(buffer@),
            res is Single <==> self is Single,
    {
        match self {
            SliceLocation::Single(range) => RecordData::Single(
                slice_subrange(buffer, range.start, range.end),
            ),
            SliceLocation::Split(left, right) => RecordData::Split(
                slice_subrange(buffer, left.start, left.end),
                slice_subrange(buffer, right.start, right.end),
            ),
        }
    }
}

#[derive(Debug)]
pub struct RawRecordLocation {
    pub kind: u32,
    pub misc: u16,
    pub data_location: SliceLocation,
}

impl Clone for RawRecordLocation {
    fn clone(&self) -> (res: Self)
        ensures
            res == *self,
    {
        RawRecordLocation {
            kind: self.kind,
            misc: self.misc,
            data_location: self.data_location.clone(),
        }
    }
}

/// The header of the record at a position of the stream. It does not wrap around.
pub open spec fn header_at(buffer: Seq<u8>, position: u64, order: ByteOrder) -> PerfEventHeader {
    let at = position as int % buffer.len() as int;
    PerfEventHeader::spec_read(buffer.subrange(at, at + HEADER_SIZE), order)
}

/// The place of what follows the header in the ring buffer.
pub open spec fn location_at(buffer: Seq<u8>, position: u64, order: ByteOrder) -> RawRecordLocation {
    let header = header_at(buffer, position, order);
    let start = position as int % buffer.len() as int;
    let end = start + header.size;
    RawRecordLocation {
        kind: header.kind,
        misc: header.misc,
        data_location: if end > buffer.len() {
            SliceLocation::Split(
                Range { start: (start + HEADER_SIZE) as usize, end: buffer.len() as usize },
                Range { start: 0, end: (end % buffer.len() as int) as usize },
            )
        } else {
            SliceLocation::Single(
                Range { start: (start + HEADER_SIZE) as usize, end: end as usize },
            )
        },
    }
}

/// Whether there is a header in the buffer at the position, and the position behind the
/// record is a number.
pub open spec fn readable(buffer: Seq<u8>, position: u64, order: ByteOrder) -> bool {
    &&& 0 < buffer.len()
    &&& position as int % buffer.len() as int + HEADER_SIZE <= buffer.len()
    &&& position + header_at(buffer, position, order).size <= u64::MAX
}

/// The place of the record at the position, which moves behind it; `None` if the kernel
/// has not written further than the position.
pub fn next_raw_event(
    head: u64,
    buffer: &[u8],
    order: ByteOrder,
    position_cell: &mut u64,
) -> (res: Option<RawRecordLocation>)
    requires
        head != *old(position_cell) ==> readable(buffer@, *old(position_cell), order),
        buffer@.len() <= usize::MAX - u16::MAX,
    ensures
        head == *old(position_cell) ==> res is None && *final(position_cell) == *old(position_cell),
        head != *old(position_cell) ==> {
            &&& res == Some(location_at(buffer@, *old(position_cell), order))
            &&& *final(position_cell) == *old(position_cell) + header_at(
                buffer@,
                *old(position_cell),
                order,
            ).size
        },
{
    let position: u64 = *position_cell;
    if head == position {
        return None;
    }
    let size: usize = buffer.len();
    let event_position: usize = (position % size as u64) as usize;
    let event_data_position: usize = event_position + HEADER_SIZE;
    let header = PerfEventHeader::read(
        slice_subrange(buffer, event_position, event_data_position),
        order,
    );
    let next_event_position: usize = event_position + header.size as usize;
    let data_location = if next_event_position > size {
        SliceLocation::Split(event_data_position..size, 0..next_event_position % size)
    } else {
        SliceLocation::Single(event_data_position..next_event_position)
    };
    *position_cell = position + header.size as u64;
    Some(RawRecordLocation { kind: header.kind, misc: header.misc, data_location })
}

/// What lies at each position of the stream in the ring buffer.
pub open spec fn stream_byte(buffer: Seq<u8>, position: int) -> u8 {
    buffer[position % buffer.len() as int]
}

/// The data of a record are the bytes of the stream from the end of its header up to the
/// next record, whether or not they wrap around in the ring buffer.
pub proof fn records_are_read_around_the_ring(buffer: Seq<u8>, position: u64, order: ByteOrder)
    requires
        readable(buffer, position, order),
        HEADER_SIZE <= header_at(buffer, position, order).size <= buffer.len() <= usize::MAX,
    ensures
        location_at(buffer, position, order).data_location.is_in(buffer.len()),
        location_at(buffer, position, order).data_location.data(buffer) == Seq::new(
            (header_at(buffer, position, order).size - HEADER_SIZE) as nat,
            |i: int| stream_byte(buffer, position + HEADER_SIZE + i),
        ),
{
    let n = buffer.len() as int;
    let start = position as int % n;
    let size = header_at(buffer, position, order).size as int;
    let location = location_at(buffer, position, order).data_location;
    let end = start + size;
    if end > n {
        assert(end % n == end - n) by {
            vstd::arithmetic::div_mod::lemma_mod_multiples_vanish(1, end - n, n);
            vstd::arithmetic::div_mod::lemma_small_mod((end - n) as nat, n as nat);
        }
    }
    assert forall|i: int| 0 <= i < size - HEADER_SIZE implies #[trigger] location.data(buffer)[i]
        == stream_byte(buffer, position + HEADER_SIZE + i) by {
        let k = start + HEADER_SIZE + i;
        let p = position + HEADER_SIZE + i;
        vstd::arithmetic::div_mod::lemma_fundamental_div_mod(position as int, n);
        vstd::arithmetic::div_mod::lemma_mod_multiples_vanish(position as int / n, k, n);
        assert(p == n * (position as int / n) + k);
        if k < n {
            vstd::arithmetic::div_mod::lemma_small_mod(k as nat, n as nat);
        } else {
            vstd::arithmetic::div_mod::lemma_mod_multiples_vanish(1, k - n, n);
            vstd::arithmetic::div_mod::lemma_small_mod((k - n) as nat, n as nat);
        }
    }
    assert(location.data(buffer) =~= Seq::new(
        (size - HEADER_SIZE) as nat,
        |i: int| stream_byte(buffer, position + HEADER_SIZE + i),
    ));
}

/// The record at a position has the type, the flags and the size that the stream has there: in
/// the first four bytes, the two behind them, and the two behind these.
pub proof fn headers_are_read_at_the_position(buffer: Seq<u8>, position: u64, order: ByteOrder)
    requires
        readable(buffer, position, order),
    ensures
        ({
            let bytes = Seq::new(8, |i: int| stream_byte(buffer, position + i));
            let header = header_at(buffer, position, order);
            &&& header.kind == value(bytes.subrange(0, 4), order)
            &&& header.misc == value(bytes.subrange(4, 6), order)
            &&& header.size == value(bytes.subrange(6, 8), order)
            &&& location_at(buffer, position, order).kind == header.kind
            &&& location_at(buffer, position, order).misc == header.misc
        }),
{
    let n = buffer.len() as int;
    let at = position as int % n;
    let bytes = Seq::new(8, |i: int| stream_byte(buffer, position + i));
    assert forall|i: int| 0 <= i < 8 implies #[trigger] bytes[i] == buffer[at + i] by {
        vstd::arithmetic::div_mod::lemma_fundamental_div_mod(position as int, n);
        vstd::arithmetic::div_mod::lemma_mod_multiples_vanish(position as int / n, at + i, n);
        vstd::arithmetic::div_mod::lemma_small_mod((at + i) as nat, n as nat);
        assert(position + i == n * (position as int / n) + (at + i));
    }
    let header = buffer.subrange(at, at + HEADER_SIZE);
    assert(header =~= bytes);
    lemma_byte_values();
    lemma_value_bound(bytes.subrange(0, 4), order);
    lemma_value_bound(bytes.subrange(4, 6), order);
    lemma_value_bound(bytes.subrange(6, 8), order);
}

proof fn lemma_value_bound(s: Seq<u8>, order: ByteOrder)
    ensures
        value(s, order) < byte_values(s.len()),
{
    lemma_le_value_bound(s);
    lemma_le_value_bound(s.reverse());
}

} // verus!
