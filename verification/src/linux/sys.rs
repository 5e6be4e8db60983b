//! The kernel's names for what `perf_event_open` takes.

use crate::linux::bytes::{bytes_hold_the_value, le_bytes, le_value, lemma_byte_values, push_le};
use vstd::prelude::*;

verus! {

pub const PERF_TYPE_HARDWARE: u32 = 0;

pub const PERF_TYPE_SOFTWARE: u32 = 1;

pub const PERF_COUNT_HW_CPU_CYCLES: u64 = 0;

pub const PERF_COUNT_SW_CPU_CLOCK: u64 = 0;

pub const PERF_SAMPLE_IP: u64 = 0x1;

pub const PERF_SAMPLE_TID: u64 = 0x2;

pub const PERF_SAMPLE_TIME: u64 = 0x4;

pub const PERF_SAMPLE_ADDR: u64 = 0x8;

pub const PERF_SAMPLE_READ: u64 = 0x10;

pub const PERF_SAMPLE_CALLCHAIN: u64 = 0x20;

pub const PERF_SAMPLE_ID: u64 = 0x40;

pub const PERF_SAMPLE_CPU: u64 = 0x80;

pub const PERF_SAMPLE_PERIOD: u64 = 0x100;

pub const PERF_SAMPLE_STREAM_ID: u64 = 0x200;

pub const PERF_SAMPLE_REGS_USER: u64 = 0x1000;

pub const PERF_SAMPLE_STACK_USER: u64 = 0x2000;

pub const PERF_SAMPLE_IDENTIFIER: u64 = 0x1_0000;

pub const PERF_FORMAT_ID: u64 = 0x4;

pub const PERF_FORMAT_GROUP: u64 = 0x8;

pub const PERF_ATTR_FLAG_DISABLED: u64 = 0x1;

pub const PERF_ATTR_FLAG_INHERIT: u64 = 0x2;

pub const PERF_ATTR_FLAG_EXCLUDE_KERNEL: u64 = 0x20;

pub const PERF_ATTR_FLAG_MMAP: u64 = 0x100;

pub const PERF_ATTR_FLAG_COMM: u64 = 0x200;

pub const PERF_ATTR_FLAG_FREQ: u64 = 0x400;

pub const PERF_ATTR_FLAG_ENABLE_ON_EXEC: u64 = 0x1000;

pub const PERF_ATTR_FLAG_TASK: u64 = 0x2000;

pub const PERF_ATTR_FLAG_MMAP_DATA: u64 = 0x2_0000;

pub const PERF_ATTR_FLAG_SAMPLE_ID_ALL: u64 = 0x4_0000;

pub const PERF_ATTR_FLAG_MMAP2: u64 = 0x80_0000;

pub const PERF_ATTR_FLAG_USE_CLOCKID: u64 = 0x200_0000;

pub const PERF_ATTR_FLAG_CONTEX_SWITCH: u64 = 0x400_0000;

pub const CLOCK_MONOTONIC: i32 = 1;

/// The size of [`PerfEventAttr`] in memory.
pub const PERF_EVENT_ATTR_SIZE: u32 = 112;

/// `perf_event_attr`.
#[derive(Clone, Copy, Debug, PartialEq, Eq, Structural)]
pub struct PerfEventAttr {
    pub kind: u32,
    pub size: u32,
    pub config: u64,
    pub sample_period_or_freq: u64,
    pub sample_type: u64,
    pub read_format: u64,
    pub flags: u64,
    pub wakeup_events_or_watermark: u32,
    pub bp_type: u32,
    pub bp_addr_or_config: u64,
    pub bp_len_or_config: u64,
    pub branch_sample_type: u64,
    pub sample_regs_user: u64,
    pub sample_stack_user: u32,
    pub clock_id: i32,
    pub sample_regs_intr: u64,
    pub aux_watermark: u32,
    pub sample_max_stack: u16,
    pub reserved: u16,
}

impl PerfEventAttr {
    /// All zero but for the size.
    pub open spec fn blank() -> PerfEventAttr {
        PerfEventAttr {
            kind: 0,
            size: PERF_EVENT_ATTR_SIZE,
            config: 0,
            sample_period_or_freq: 0,
            sample_type: 0,
            read_format: 0,
            flags: 0,
            wakeup_events_or_watermark: 0,
            bp_type: 0,
            bp_addr_or_config: 0,
            bp_len_or_config: 0,
            branch_sample_type: 0,
            sample_regs_user: 0,
            sample_stack_user: 0,
            clock_id: 0,
            sample_regs_intr: 0,
            aux_watermark: 0,
            sample_max_stack: 0,
            reserved: 0,
        }
    }

    /// All zero but for the size.
    pub fn zeroed() -> (res: PerfEventAttr)
        ensures
            res == Self::blank(),
            res.size == 112 && res.kind == 0 && res.config == 0 && res.sample_period_or_freq == 0,
            res.sample_type == 0 && res.read_format == 0 && res.flags == 0,
            res.wakeup_events_or_watermark == 0 && res.bp_type == 0 && res.bp_addr_or_config == 0,
            res.bp_len_or_config == 0 && res.branch_sample_type == 0 && res.sample_regs_user == 0,
            res.sample_stack_user == 0 && res.clock_id == 0 && res.sample_regs_intr == 0,
            res.aux_watermark == 0 && res.sample_max_stack == 0 && res.reserved == 0,
    {
        PerfEventAttr {
            kind: 0,
            size: PERF_EVENT_ATTR_SIZE,
            config: 0,
            sample_period_or_freq: 0,
            sample_type: 0,
            read_format: 0,
            flags: 0,
            wakeup_events_or_watermark: 0,
            bp_type: 0,
            bp_addr_or_config: 0,
            bp_len_or_config: 0,
            branch_sample_type: 0,
            sample_regs_user: 0,
            sample_stack_user: 0,
            clock_id: 0,
            sample_regs_intr: 0,
            aux_watermark: 0,
            sample_max_stack: 0,
            reserved: 0,
        }
    }

    /// The fields in memory order, the least significant byte of each first.
    pub open spec fn le_bytes(&self) -> Seq<u8> {
        le_bytes(self.kind as nat, 4) + le_bytes(self.size as nat, 4) + le_bytes(
            self.config as nat,
            8,
        ) + le_bytes(self.sample_period_or_freq as nat, 8) + le_bytes(self.sample_type as nat, 8)
            + le_bytes(self.read_format as nat, 8) + le_bytes(self.flags as nat, 8) + le_bytes(
            self.wakeup_events_or_watermark as nat,
            4,
        ) + le_bytes(self.bp_type as nat, 4) + le_bytes(self.bp_addr_or_config as nat, 8)
            + le_bytes(self.bp_len_or_config as nat, 8) + le_bytes(
            self.branch_sample_type as nat,
            8,
        ) + le_bytes(self.sample_regs_user as nat, 8) + le_bytes(self.sample_stack_user as nat, 4)
            + le_bytes(self.clock_id as u32 as nat, 4) + le_bytes(self.sample_regs_intr as nat, 8)
            + le_bytes(self.aux_watermark as nat, 4) + le_bytes(self.sample_max_stack as nat, 2)
            + le_bytes(self.reserved as nat, 2)
    }

    /// The fields in memory order, the least significant byte of each first.
    pub fn to_le_bytes(&self) -> (res: Vec<u8>)
        ensures
            res@ == self.le_bytes(),
    {
        let mut out: Vec<u8> = Vec::new();
        push_le(&mut out, self.kind as u64, 4);
        push_le(&mut out, self.size as u64, 4);
        push_le(&mut out, self.config, 8);
        push_le(&mut out, self.sample_period_or_freq, 8);
        push_le(&mut out, self.sample_type, 8);
        push_le(&mut out, self.read_format, 8);
        push_le(&mut out, self.flags, 8);
        push_le(&mut out, self.wakeup_events_or_watermark as u64, 4);
        push_le(&mut out, self.bp_type as u64, 4);
        push_le(&mut out, self.bp_addr_or_config, 8);
        push_le(&mut out, self.bp_len_or_config, 8);
        push_le(&mut out, self.branch_sample_type, 8);
        push_le(&mut out, self.sample_regs_user, 8);
        push_le(&mut out, self.sample_stack_user as u64, 4);
        push_le(&mut out, self.clock_id as u32 as u64, 4);
        push_le(&mut out, self.sample_regs_intr, 8);
        push_le(&mut out, self.aux_watermark as u64, 4);
        push_le(&mut out, self.sample_max_stack as u64, 2);
        push_le(&mut out, self.reserved as u64, 2);
        assert(out@ =~= self.le_bytes());
        out
    }
}

/// The bytes of the attributes hold each field where the kernel reads it, and nothing else.
#[verifier::spinoff_prover]
pub proof fn attributes_lie_where_the_kernel_reads_them(attr: PerfEventAttr)
    ensures
        ({
            let bytes = attr.le_bytes();
            &&& bytes.len() == 112
            &&& le_value(bytes.subrange(0, 4)) == attr.kind
            &&& le_value(bytes.subrange(4, 8)) == attr.size
            &&& le_value(bytes.subrange(8, 16)) == attr.config
            &&& le_value(bytes.subrange(16, 24)) == attr.sample_period_or_freq
            &&& le_value(bytes.subrange(24, 32)) == attr.sample_type
            &&& le_value(bytes.subrange(32, 40)) == attr.read_format
            &&& le_value(bytes.subrange(40, 48)) == attr.flags
            &&& le_value(bytes.subrange(48, 52)) == attr.wakeup_events_or_watermark
            &&& le_value(bytes.subrange(52, 56)) == attr.bp_type
            &&& le_value(bytes.subrange(56, 64)) == attr.bp_addr_or_config
            &&& le_value(bytes.subrange(64, 72)) == attr.bp_len_or_config
            &&& le_value(bytes.subrange(72, 80)) == attr.branch_sample_type
            &&& le_value(bytes.subrange(80, 88)) == attr.sample_regs_user
            &&& le_value(bytes.subrange(88, 92)) == attr.sample_stack_user
            &&& le_value(bytes.subrange(92, 96)) == attr.clock_id as u32
            &&& le_value(bytes.subrange(96, 104)) == attr.sample_regs_intr
            &&& le_value(bytes.subrange(104, 108)) == attr.aux_watermark
            &&& le_value(bytes.subrange(108, 110)) == attr.sample_max_stack
            &&& le_value(bytes.subrange(110, 112)) == attr.reserved
        }),
{
    lemma_byte_values();
    let bytes = attr.le_bytes();
    bytes_hold_the_value(attr.kind as nat, 4);
    assert(bytes.subrange(0, 4) =~= le_bytes(attr.kind as nat, 4));
    bytes_hold_the_value(attr.size as nat, 4);
    assert(bytes.subrange(4, 8) =~= le_bytes(attr.size as nat, 4));
    bytes_hold_the_value(attr.config as nat, 8);
    assert(bytes.subrange(8, 16) =~= le_bytes(attr.config as nat, 8));
    bytes_hold_the_value(attr.sample_period_or_freq as nat, 8);
    assert(bytes.subrange(16, 24) =~= le_bytes(attr.sample_period_or_freq as nat, 8));
    bytes_hold_the_value(attr.sample_type as nat, 8);
    assert(bytes.subrange(24, 32) =~= le_bytes(attr.sample_type as nat, 8));
    bytes_hold_the_value(attr.read_format as nat, 8);
    assert(bytes.subrange(32, 40) =~= le_bytes(attr.read_format as nat, 8));
    bytes_hold_the_value(attr.flags as nat, 8);
    assert(bytes.subrange(40, 48) =~= le_bytes(attr.flags as nat, 8));
    bytes_hold_the_value(attr.wakeup_events_or_watermark as nat, 4);
    assert(bytes.subrange(48, 52) =~= le_bytes(attr.wakeup_events_or_watermark as nat, 4));
    bytes_hold_the_value(attr.bp_type as nat, 4);
    assert(bytes.subrange(52, 56) =~= le_bytes(attr.bp_type as nat, 4));
    bytes_hold_the_value(attr.bp_addr_or_config as nat, 8);
    assert(bytes.subrange(56, 64) =~= le_bytes(attr.bp_addr_or_config as nat, 8));
    bytes_hold_the_value(attr.bp_len_or_config as nat, 8);
    assert(bytes.subrange(64, 72) =~= le_bytes(attr.bp_len_or_config as nat, 8));
    bytes_hold_the_value(attr.branch_sample_type as nat, 8);
    assert(bytes.subrange(72, 80) =~= le_bytes(attr.branch_sample_type as nat, 8));
    bytes_hold_the_value(attr.sample_regs_user as nat, 8);
    assert(bytes.subrange(80, 88) =~= le_bytes(attr.sample_regs_user as nat, 8));
    bytes_hold_the_value(attr.sample_stack_user as nat, 4);
    assert(bytes.subrange(88, 92) =~= le_bytes(attr.sample_stack_user as nat, 4));
    bytes_hold_the_value(attr.clock_id as u32 as nat, 4);
    assert(bytes.subrange(92, 96) =~= le_bytes(attr.clock_id as u32 as nat, 4));
    bytes_hold_the_value(attr.sample_regs_intr as nat, 8);
    assert(bytes.subrange(96, 104) =~= le_bytes(attr.sample_regs_intr as nat, 8));
    bytes_hold_the_value(attr.aux_watermark as nat, 4);
    assert(bytes.subrange(104, 108) =~= le_bytes(attr.aux_watermark as nat, 4));
    bytes_hold_the_value(attr.sample_max_stack as nat, 2);
    assert(bytes.subrange(108, 110) =~= le_bytes(attr.sample_max_stack as nat, 2));
    bytes_hold_the_value(attr.reserved as nat, 2);
    assert(bytes.subrange(110, 112) =~= le_bytes(attr.reserved as nat, 2));
}

} // verus!
