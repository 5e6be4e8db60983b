//! What to ask of the kernel for one sampling event.

use crate::linux::bytes::{bytes_hold_the_value, le_bytes, lemma_byte_values};
use crate::linux::extra_event::{EventSource, ExtraEvent};
use crate::linux::record::{timestamp, ParseInfo, PERF_RECORD_SAMPLE, PERF_RECORD_USER_TYPE_START};
use crate::linux::sys::{PerfEventAttr, CLOCK_MONOTONIC, PERF_ATTR_FLAG_COMM,
    PERF_ATTR_FLAG_CONTEX_SWITCH, PERF_ATTR_FLAG_DISABLED, PERF_ATTR_FLAG_ENABLE_ON_EXEC,
    PERF_ATTR_FLAG_EXCLUDE_KERNEL, PERF_ATTR_FLAG_FREQ, PERF_ATTR_FLAG_INHERIT, PERF_ATTR_FLAG_MMAP,
    PERF_ATTR_FLAG_MMAP2, PERF_ATTR_FLAG_MMAP_DATA, PERF_ATTR_FLAG_SAMPLE_ID_ALL,
    PERF_ATTR_FLAG_TASK, PERF_ATTR_FLAG_USE_CLOCKID, PERF_FORMAT_GROUP, PERF_FORMAT_ID,
    PERF_SAMPLE_CALLCHAIN, PERF_SAMPLE_CPU, PERF_SAMPLE_ID, PERF_SAMPLE_IDENTIFIER, PERF_SAMPLE_IP, PERF_SAMPLE_PERIOD, PERF_SAMPLE_READ,
    PERF_SAMPLE_REGS_USER, PERF_SAMPLE_STACK_USER, PERF_SAMPLE_STREAM_ID, PERF_SAMPLE_TID, PERF_SAMPLE_TIME};
use crate::text::{decimal, decimal_of};
use vstd::arithmetic::power2::{lemma2_to64, lemma_pow2_pos, lemma_pow2_unfold, pow2};
use vstd::prelude::*;
use vstd::string::*;

verus! {

/// What a [`PerfBuilder`] has been told.
#[verifier::ext_equal]
pub struct PerfConfig {
    pub pid: u32,
    pub all_processes: bool,
    pub cpu: Option<u32>,
    pub frequency: u64,
    pub stack_size: u32,
    pub reg_mask: u64,
    pub event_source: EventSource,
    pub extra_events: Seq<ExtraEvent>,
    pub inherit: bool,
    pub start_disabled: bool,
    pub enable_on_exec: bool,
    pub exclude_kernel: bool,
    pub gather_context_switches: bool,
}

#[derive(Debug)]
pub struct PerfBuilder {
    pid: u32,
    /// Open the event system-wide (`pid = -1`), capturing every thread
    /// scheduled on the selected CPU instead of a single task tree. Used as a
    /// fallback when the kernel can't combine `inherit` with
    /// `PERF_SAMPLE_READ` (see [`Perf::supports_inherited_sample_read`]).
    ///
    /// [`Perf::supports_inherited_sample_read`]: crate::linux::perf::Perf::supports_inherited_sample_read
    all_processes: bool,
    cpu: Option<u32>,
    frequency: u64,
    stack_size: u32,
    reg_mask: u64,
    event_source: EventSource,
    extra_events: Vec<ExtraEvent>,
    inherit: bool,
    start_disabled: bool,
    enable_on_exec: bool,
    exclude_kernel: bool,
    gather_context_switches: bool,
}

impl View for PerfBuilder {
    type V = PerfConfig;

    closed spec fn view(&self) -> PerfConfig {
        PerfConfig {
            pid: self.pid,
            all_processes: self.all_processes,
            cpu: self.cpu,
            frequency: self.frequency,
            stack_size: self.stack_size,
            reg_mask: self.reg_mask,
            event_source: self.event_source,
            extra_events: self.extra_events@,
            inherit: self.inherit,
            start_disabled: self.start_disabled,
            enable_on_exec: self.enable_on_exec,
            exclude_kernel: self.exclude_kernel,
            gather_context_switches: self.gather_context_switches,
        }
    }
}

/// A copy of the events.
pub fn clone_events(events: &Vec<ExtraEvent>) -> (res: Vec<ExtraEvent>)
    ensures
        res@ == events@,
{
    let mut res: Vec<ExtraEvent> = Vec::new();
    let mut i: usize = 0;
    while i < events.len()
        invariant
            i <= events@.len(),
            res@ == events@.take(i as int),
        decreases events@.len() - i,
    {
        res.push(events[i].clone());
        assert(events@.take(i as int).push(events@[i as int]) =~= events@.take(i + 1));
        i = i + 1;
    }
    assert(events@.take(events@.len() as int) =~= events@);
    res
}

impl Clone for PerfBuilder {
    fn clone(&self) -> (res: Self)
        ensures
            res@ == self@,
    {
        PerfBuilder {
            pid: self.pid,
            all_processes: self.all_processes,
            cpu: self.cpu,
            frequency: self.frequency,
            stack_size: self.stack_size,
            reg_mask: self.reg_mask,
            event_source: self.event_source,
            extra_events: clone_events(&self.extra_events),
            inherit: self.inherit,
            start_disabled: self.start_disabled,
            enable_on_exec: self.enable_on_exec,
            exclude_kernel: self.exclude_kernel,
            gather_context_switches: self.gather_context_switches,
        }
    }
}

impl PerfConfig {
    /// Before anything was told.
    pub open spec fn initial() -> PerfConfig {
        PerfConfig {
            pid: 0,
            all_processes: false,
            cpu: None,
            frequency: 0,
            stack_size: 0,
            reg_mask: 0,
            event_source: EventSource::SwCpuClock,
            extra_events: seq![],
            inherit: false,
            start_disabled: false,
            enable_on_exec: false,
            exclude_kernel: true,
            gather_context_switches: false,
        }
    }
}

impl PerfBuilder {
    pub fn new() -> (res: Self)
        ensures
            res@ == PerfConfig::initial(),
            res@.pid == 0 && !res@.all_processes && res@.cpu is None,
            res@.frequency == 0 && res@.stack_size == 0 && res@.reg_mask == 0,
            res@.event_source == EventSource::SwCpuClock && res@.extra_events.len() == 0,
            !res@.inherit && !res@.start_disabled && !res@.enable_on_exec,
            res@.exclude_kernel && !res@.gather_context_switches,
    {
        let res = PerfBuilder {
            pid: 0,
            all_processes: false,
            cpu: None,
            frequency: 0,
            stack_size: 0,
            reg_mask: 0,
            event_source: EventSource::SwCpuClock,
            extra_events: Vec::new(),
            inherit: false,
            start_disabled: false,
            enable_on_exec: false,
            exclude_kernel: true,
            gather_context_switches: false,
        };
        assert(res@ =~= PerfConfig::initial());
        res
    }

    pub fn pid(self, pid: u32) -> (res: Self)
        ensures
            res@ == (PerfConfig { pid, ..self@ }),
    {
        PerfBuilder { pid, ..self }
    }

    /// Open the event system-wide (`pid = -1`) rather than scoped to a single
    /// pid. Must be paired with [`Self::only_cpu`] (a system-wide event needs a
    /// CPU) and is mutually exclusive with [`Self::inherit_to_children`].
    pub fn all_pids(self) -> (res: Self)
        ensures
            res@ == (PerfConfig { all_processes: true, ..self@ }),
    {
        PerfBuilder { all_processes: true, ..self }
    }

    pub fn only_cpu(self, cpu: u32) -> (res: Self)
        ensures
            res@ == (PerfConfig { cpu: Some(cpu), ..self@ }),
    {
        PerfBuilder { cpu: Some(cpu), ..self }
    }

    pub fn any_cpu(self) -> (res: Self)
        ensures
            res@ == (PerfConfig { cpu: None, ..self@ }),
    {
        PerfBuilder { cpu: None, ..self }
    }

    pub fn frequency(self, frequency: u64) -> (res: Self)
        ensures
            res@ == (PerfConfig { frequency, ..self@ }),
    {
        PerfBuilder { frequency, ..self }
    }

    pub fn sample_user_stack(self, stack_size: u32) -> (res: Self)
        ensures
            res@ == (PerfConfig { stack_size, ..self@ }),
    {
        PerfBuilder { stack_size, ..self }
    }

    pub fn sample_user_regs(self, reg_mask: u64) -> (res: Self)
        ensures
            res@ == (PerfConfig { reg_mask, ..self@ }),
    {
        PerfBuilder { reg_mask, ..self }
    }

    /// Turns on the kernel measurements. This requires the `/proc/sys/kernel/perf_event_paranoid` to be less than `2`.
    pub fn sample_kernel(self) -> (res: Self)
        ensures
            res@ == (PerfConfig { exclude_kernel: false, ..self@ }),
    {
        PerfBuilder { exclude_kernel: false, ..self }
    }

    pub fn event_source(self, event_source: EventSource) -> (res: Self)
        ensures
            res@ == (PerfConfig { event_source, ..self@ }),
    {
        PerfBuilder { event_source, ..self }
    }

    /// Attach extra counters to be read on every sample of the main event.
    pub fn extra_events(self, extra_events: Vec<ExtraEvent>) -> (res: Self)
        ensures
            res@ == (PerfConfig { extra_events: extra_events@, ..self@ }),
    {
        PerfBuilder { extra_events, ..self }
    }

    pub fn inherit_to_children(self) -> (res: Self)
        ensures
            res@ == (PerfConfig { inherit: true, ..self@ }),
    {
        PerfBuilder { inherit: true, ..self }
    }

    pub fn start_disabled(self) -> (res: Self)
        ensures
            res@ == (PerfConfig { start_disabled: true, ..self@ }),
    {
        PerfBuilder { start_disabled: true, ..self }
    }

    pub fn enable_on_exec(self) -> (res: Self)
        ensures
            res@ == (PerfConfig { enable_on_exec: true, ..self@ }),
    {
        PerfBuilder { enable_on_exec: true, ..self }
    }

    pub fn gather_context_switches(self) -> (res: Self)
        ensures
            res@ == (PerfConfig { gather_context_switches: true, ..self@ }),
    {
        PerfBuilder { gather_context_switches: true, ..self }
    }
}

/// The size of a page of memory.
pub const PAGE_SIZE: u32 = 4096;

/// The largest user stack that a sample can hold.
pub const MAX_STACK_SIZE: u32 = 64512;

/// How many stacks have room in a ring buffer.
pub const STACK_COUNT_PER_BUFFER: u32 = 32;

/// The smallest of `pages`, `2 * pages`, `4 * pages`, ... pages that have `space` bytes.
pub open spec fn pages_for(space: int, pages: int) -> int
    decreases 2 * space - pages * PAGE_SIZE,
{
    if pages <= 0 || pages * PAGE_SIZE >= space {
        pages
    } else {
        pages_for(space, 2 * pages)
    }
}

/// The number of bytes that the stacks in a ring buffer need.
pub open spec fn required_space(stack_size: u32) -> int {
    (if stack_size > PAGE_SIZE {
        stack_size
    } else {
        PAGE_SIZE
    }) * STACK_COUNT_PER_BUFFER
}

/// The number of pages of a ring buffer: a power of two.
pub open spec fn ring_pages(stack_size: u32) -> int {
    let pages = pages_for(required_space(stack_size), 2);
    if pages > 16 {
        pages
    } else {
        16
    }
}

/// What a sample holds. The call chain is always asked for, as a fallback.
pub open spec fn sample_bits(regs: bool, stack: bool, read: bool) -> u64 {
    let t = PERF_SAMPLE_IP | PERF_SAMPLE_TID | PERF_SAMPLE_TIME | PERF_SAMPLE_CPU
        | PERF_SAMPLE_PERIOD;
    let t = if regs {
        t | PERF_SAMPLE_REGS_USER
    } else {
        t
    };
    let t = if stack {
        t | PERF_SAMPLE_STACK_USER
    } else {
        t
    };
    let t = if read {
        t | PERF_SAMPLE_READ
    } else {
        t
    };
    t | PERF_SAMPLE_CALLCHAIN
}

/// The flags of a sampling event.
pub open spec fn flag_bits(
    enable_on_exec: bool,
    exclude_kernel: bool,
    inherit: bool,
    gather_context_switches: bool,
) -> u64 {
    let f = PERF_ATTR_FLAG_DISABLED | PERF_ATTR_FLAG_MMAP | PERF_ATTR_FLAG_MMAP2
        | PERF_ATTR_FLAG_MMAP_DATA | PERF_ATTR_FLAG_COMM | PERF_ATTR_FLAG_FREQ
        | PERF_ATTR_FLAG_TASK | PERF_ATTR_FLAG_SAMPLE_ID_ALL | PERF_ATTR_FLAG_USE_CLOCKID;
    let f = if enable_on_exec {
        f | PERF_ATTR_FLAG_ENABLE_ON_EXEC
    } else {
        f
    };
    let f = if exclude_kernel {
        f | PERF_ATTR_FLAG_EXCLUDE_KERNEL
    } else {
        f
    };
    let f = if inherit {
        f | PERF_ATTR_FLAG_INHERIT
    } else {
        f
    };
    if gather_context_switches {
        f | PERF_ATTR_FLAG_CONTEX_SWITCH
    } else {
        f
    }
}

impl PerfConfig {
    /// The process that the kernel is asked for; -1 stands for all of them.
    pub open spec fn kernel_pid(&self) -> i32 {
        if self.all_processes {
            -1i32
        } else {
            self.pid as i32
        }
    }

    /// The CPU that the kernel is asked for; -1 stands for all of them.
    pub open spec fn kernel_cpu(&self) -> i32 {
        match self.cpu {
            Some(cpu) => cpu as i32,
            None => -1i32,
        }
    }

    /// What a sample holds.
    pub open spec fn sample_type(&self) -> u64 {
        sample_bits(self.reg_mask != 0, self.stack_size != 0, self.extra_events.len() > 0)
    }

    pub open spec fn flags(&self) -> u64 {
        flag_bits(
            self.enable_on_exec,
            self.exclude_kernel,
            self.inherit,
            self.gather_context_switches,
        )
    }

    /// The attributes of the sampling event.
    pub open spec fn attr(&self) -> PerfEventAttr {
        PerfEventAttr {
            kind: self.event_source.encoding().0,
            config: self.event_source.encoding().1,
            sample_period_or_freq: self.frequency,
            sample_type: self.sample_type(),
            read_format: if self.extra_events.len() > 0 {
                PERF_FORMAT_GROUP | PERF_FORMAT_ID
            } else {
                0
            },
            flags: self.flags(),
            sample_regs_user: self.reg_mask,
            sample_stack_user: self.stack_size,
            clock_id: CLOCK_MONOTONIC,
            ..PerfEventAttr::blank()
        }
    }

    /// Why the kernel is not even asked.
    pub open spec fn refusal(&self, max_sample_rate: Option<u64>) -> Option<OpenError> {
        if max_sample_rate matches Some(max) && self.frequency > max {
            Some(OpenError::FrequencyTooHigh { max_sample_rate: max_sample_rate->0 })
        } else if self.stack_size > MAX_STACK_SIZE {
            Some(OpenError::StackTooLarge)
        } else if self.kernel_cpu() == -1 && self.inherit {
            Some(OpenError::InheritOnAllCpus)
        } else {
            None
        }
    }
}

/// Why an event cannot be opened as it was asked for. These are faults of the input.
#[derive(Clone, Copy, Debug, PartialEq, Eq, Structural)]
pub enum OpenError {
    FrequencyTooHigh { max_sample_rate: u64 },
    StackTooLarge,
    InheritOnAllCpus,
}

impl OpenError {
    pub open spec fn text(&self) -> Seq<char> {
        match *self {
            OpenError::FrequencyTooHigh { max_sample_rate } => "frequency can be at most "@
                + decimal(max_sample_rate as nat)
                + " as configured in /proc/sys/kernel/perf_event_max_sample_rate"@,
            OpenError::StackTooLarge => "sample_user_stack can be at most 63kb"@,
            OpenError::InheritOnAllCpus => "you can't inherit to children and run on all cpus at the same time"@,
        }
    }

    pub fn message(&self) -> (res: String)
        ensures
            res@ == self.text(),
    {
        match *self {
            OpenError::FrequencyTooHigh { max_sample_rate } => {
                let mut message = "frequency can be at most ".to_owned();
                message.append(decimal_of(max_sample_rate).as_str());
                message.append(" as configured in /proc/sys/kernel/perf_event_max_sample_rate");
                message
            },
            OpenError::StackTooLarge => "sample_user_stack can be at most 63kb".to_owned(),
            OpenError::InheritOnAllCpus => "you can't inherit to children and run on all cpus at the same time".to_owned(),
        }
    }
}

/// What is asked of the kernel for one sampling event, and how it is then read.
#[derive(Debug)]
pub struct OpenRequest {
    pub attr: PerfEventAttr,
    pub pid: i32,
    pub cpu: i32,
    /// The size of the ring buffer and the page in front of it.
    pub full_size: usize,
    /// The size of the ring buffer.
    pub size: u64,
    pub parse_info: ParseInfo,
    pub extra_events: Vec<ExtraEvent>,
    /// Whether the event is enabled once it is open.
    pub enable: bool,
}

impl OpenRequest {
    /// Whether this is what the configuration asks for.
    pub open spec fn asks_for(&self, config: PerfConfig) -> bool {
        &&& self.attr == config.attr()
        &&& self.pid == config.kernel_pid()
        &&& self.cpu == config.kernel_cpu()
        &&& self.size == ring_pages(config.stack_size) * PAGE_SIZE
        &&& self.full_size == self.size + PAGE_SIZE
        &&& self.parse_info == config.attr().parse_info()
        &&& self.extra_events@ == config.extra_events
        &&& self.enable == !config.start_disabled
    }
}

proof fn lemma_pages_for(space: int, pages: int)
    requires
        pages > 0,
        pages * PAGE_SIZE < 2 * space,
    ensures
        pages_for(space, pages) * PAGE_SIZE >= space,
        pages_for(space, pages) * PAGE_SIZE < 2 * space,
        pages_for(space, pages) >= pages,
    decreases 2 * space - pages * PAGE_SIZE,
{
    if pages * PAGE_SIZE < space {
        lemma_pages_for(space, 2 * pages);
    }
}

fn ring_page_count(stack_size: u32) -> (res: u32)
    requires
        stack_size <= MAX_STACK_SIZE,
    ensures
        res == ring_pages(stack_size),
        16 <= res <= 1024,
{
    let required_space: u32 = if stack_size > PAGE_SIZE {
        stack_size * STACK_COUNT_PER_BUFFER
    } else {
        PAGE_SIZE * STACK_COUNT_PER_BUFFER
    };
    let mut pages: u32 = 2;
    while pages * PAGE_SIZE < required_space
        invariant
            0 < pages,
            pages * PAGE_SIZE < 2 * required_space,
            required_space <= MAX_STACK_SIZE * STACK_COUNT_PER_BUFFER,
            pages_for(required_space as int, pages as int) == pages_for(required_space as int, 2),
        decreases 2 * required_space - pages * PAGE_SIZE,
    {
        pages = pages * 2;
    }
    if pages > 16 {
        pages
    } else {
        16
    }
}

impl PerfBuilder {
    fn attr(&self) -> (res: PerfEventAttr)
        ensures
            res == self@.attr(),
    {
        let mut attr = PerfEventAttr::zeroed();
        let (event_type, event_config) = self.event_source.type_and_config();
        attr.kind = event_type;
        attr.config = event_config;
        attr.sample_type = PERF_SAMPLE_IP | PERF_SAMPLE_TID | PERF_SAMPLE_TIME | PERF_SAMPLE_CPU
            | PERF_SAMPLE_PERIOD;
        if self.reg_mask != 0 {
            attr.sample_type = attr.sample_type | PERF_SAMPLE_REGS_USER;
        }
        if self.stack_size != 0 {
            attr.sample_type = attr.sample_type | PERF_SAMPLE_STACK_USER;
        }
        // When extra events are requested, make this the leader of a kernel
        // event group and have every sample carry the group's counter values,
        // each tagged with its event's kernel-assigned id.
        if self.extra_events.len() > 0 {
            attr.sample_type = attr.sample_type | PERF_SAMPLE_READ;
            attr.read_format = PERF_FORMAT_GROUP | PERF_FORMAT_ID;
        }
        // Always request callchain so the kernel walks frame pointers at sample
        // time. The user portion serves as a fallback when DWARF unwinding
        // truncates (e.g. due to the 32 KB captured stack window).
        attr.sample_type = attr.sample_type | PERF_SAMPLE_CALLCHAIN;
        attr.sample_regs_user = self.reg_mask;
        attr.sample_stack_user = self.stack_size;
        attr.sample_period_or_freq = self.frequency;
        attr.clock_id = CLOCK_MONOTONIC;
        attr.flags = PERF_ATTR_FLAG_DISABLED | PERF_ATTR_FLAG_MMAP | PERF_ATTR_FLAG_MMAP2
            | PERF_ATTR_FLAG_MMAP_DATA | PERF_ATTR_FLAG_COMM | PERF_ATTR_FLAG_FREQ
            | PERF_ATTR_FLAG_TASK | PERF_ATTR_FLAG_SAMPLE_ID_ALL | PERF_ATTR_FLAG_USE_CLOCKID;
        if self.enable_on_exec {
            attr.flags = attr.flags | PERF_ATTR_FLAG_ENABLE_ON_EXEC;
        }
        if self.exclude_kernel {
            attr.flags = attr.flags | PERF_ATTR_FLAG_EXCLUDE_KERNEL;
        }
        if self.inherit {
            attr.flags = attr.flags | PERF_ATTR_FLAG_INHERIT;
        }
        if self.gather_context_switches {
            attr.flags = attr.flags | PERF_ATTR_FLAG_CONTEX_SWITCH;
        }
        attr
    }

    /// What is to be asked of the kernel, where `max_sample_rate` is the highest frequency
    /// that it is configured for, as far as that is known.
    pub fn open(self, max_sample_rate: Option<u64>) -> (res: Result<OpenRequest, OpenError>)
        ensures
            match self@.refusal(max_sample_rate) {
                Some(error) => res == Err::<OpenRequest, OpenError>(error),
                None => res matches Ok(request) && request.asks_for(self@),
            },
    {
        // `-1` means "all processes" (system-wide), which the kernel only
        // accepts together with a specific CPU.
        let pid: i32 = if self.all_processes {
            -1
        } else {
            self.pid as i32
        };
        let cpu: i32 = match self.cpu {
            Some(cpu) => cpu as i32,
            None => -1,
        };
        if let Some(max_sample_rate) = max_sample_rate {
            if self.frequency > max_sample_rate {
                return Err(OpenError::FrequencyTooHigh { max_sample_rate });
            }
        }
        if self.stack_size > MAX_STACK_SIZE {
            return Err(OpenError::StackTooLarge);
        }
        // See `perf_mmap` in the Linux kernel.
        if cpu == -1 && self.inherit {
            return Err(OpenError::InheritOnAllCpus);
        }
        let attr = self.attr();
        let page_count: u32 = ring_page_count(self.stack_size);
        let parse_info = ParseInfo::new(&attr).unwrap();
        Ok(
            OpenRequest {
                attr,
                pid,
                cpu,
                full_size: (PAGE_SIZE * (page_count + 1)) as usize,
                size: (PAGE_SIZE * page_count) as u64,
                parse_info,
                extra_events: self.extra_events,
                enable: !self.start_disabled,
            },
        )
    }
}

/// The ring buffer has room for as many stacks as it should, it is no more than twice as
/// large as that takes, and no record is larger than it.
pub proof fn the_ring_has_room_for_its_stacks(stack_size: u32)
    ensures
        ring_pages(stack_size) * PAGE_SIZE >= stack_size * STACK_COUNT_PER_BUFFER,
        ring_pages(stack_size) * PAGE_SIZE < 2 * required_space(stack_size),
        ring_pages(stack_size) * PAGE_SIZE > u16::MAX,
{
    lemma_pages_for(required_space(stack_size), 2);
}

proof fn lemma_sample_bits(regs: bool, stack: bool, read: bool)
    by (bit_vector)
    ensures
        sample_bits(regs, stack, read) & PERF_SAMPLE_TIME != 0,
        sample_bits(regs, stack, read) & PERF_SAMPLE_IP != 0,
        sample_bits(regs, stack, read) & PERF_SAMPLE_TID != 0,
        sample_bits(regs, stack, read) & PERF_SAMPLE_CPU != 0,
        sample_bits(regs, stack, read) & PERF_SAMPLE_ID == 0,
        sample_bits(regs, stack, read) & PERF_SAMPLE_STREAM_ID == 0,
        sample_bits(regs, stack, read) & PERF_SAMPLE_IDENTIFIER == 0,
{
}

proof fn lemma_flag_bits(
    enable_on_exec: bool,
    exclude_kernel: bool,
    inherit: bool,
    gather_context_switches: bool,
)
    by (bit_vector)
    ensures
        flag_bits(enable_on_exec, exclude_kernel, inherit, gather_context_switches)
            & PERF_ATTR_FLAG_SAMPLE_ID_ALL != 0,
        flag_bits(enable_on_exec, exclude_kernel, inherit, gather_context_switches)
            & PERF_ATTR_FLAG_DISABLED != 0,
        (flag_bits(enable_on_exec, exclude_kernel, inherit, gather_context_switches)
            & PERF_ATTR_FLAG_INHERIT != 0) == inherit,
        (flag_bits(enable_on_exec, exclude_kernel, inherit, gather_context_switches)
            & PERF_ATTR_FLAG_EXCLUDE_KERNEL != 0) == exclude_kernel,
        (flag_bits(enable_on_exec, exclude_kernel, inherit, gather_context_switches)
            & PERF_ATTR_FLAG_ENABLE_ON_EXEC != 0) == enable_on_exec,
{
}

/// An event is opened disabled; it follows children, watches the kernel and waits for an
/// `exec` just as it was asked to.
pub proof fn flags_say_what_was_asked(config: PerfConfig)
    ensures
        config.attr().flags & PERF_ATTR_FLAG_DISABLED != 0,
        (config.attr().flags & PERF_ATTR_FLAG_INHERIT != 0) == config.inherit,
        (config.attr().flags & PERF_ATTR_FLAG_EXCLUDE_KERNEL != 0) == config.exclude_kernel,
        (config.attr().flags & PERF_ATTR_FLAG_ENABLE_ON_EXEC != 0) == config.enable_on_exec,
{
    lemma_flag_bits(
        config.enable_on_exec,
        config.exclude_kernel,
        config.inherit,
        config.gather_context_switches,
    );
}

proof fn lemma_sample_wishes(regs: bool, stack: bool, read: bool)
    by (bit_vector)
    ensures
        (sample_bits(regs, stack, read) & 0x1000u64 != 0) == regs,
        (sample_bits(regs, stack, read) & 0x2000u64 != 0) == stack,
        (sample_bits(regs, stack, read) & 0x10u64 != 0) == read,
        sample_bits(regs, stack, read) & 0x1a7u64 == 0x1a7u64,
        sample_bits(regs, stack, read) & !0x31b7u64 == 0,
{
}

proof fn lemma_flag_wishes(
    enable_on_exec: bool,
    exclude_kernel: bool,
    inherit: bool,
    gather_context_switches: bool,
)
    by (bit_vector)
    ensures
        (flag_bits(enable_on_exec, exclude_kernel, inherit, gather_context_switches) & 0x1000u64
            != 0) == enable_on_exec,
        (flag_bits(enable_on_exec, exclude_kernel, inherit, gather_context_switches) & 0x20u64 != 0)
            == exclude_kernel,
        (flag_bits(enable_on_exec, exclude_kernel, inherit, gather_context_switches) & 0x2u64 != 0)
            == inherit,
        (flag_bits(enable_on_exec, exclude_kernel, inherit, gather_context_switches)
            & 0x400_0000u64 != 0) == gather_context_switches,
        flag_bits(enable_on_exec, exclude_kernel, inherit, gather_context_switches)
            & 0x286_2701u64 == 0x286_2701u64,
        flag_bits(enable_on_exec, exclude_kernel, inherit, gather_context_switches)
            & !0x686_3723u64 == 0,
{
}

/// A sample holds what was asked for, each wish on its own: the user registers just if any
/// are asked for, the user stack just if it has a size, and the counts just if there are extra
/// events. In any case it holds the instruction pointer, the thread id, the time, the call
/// chain, the CPU and the period, and never anything else.
pub proof fn samples_hold_what_was_asked(config: PerfConfig)
    ensures
        (config.attr().sample_type & 0x1000 != 0) == (config.reg_mask != 0),
        (config.attr().sample_type & 0x2000 != 0) == (config.stack_size != 0),
        (config.attr().sample_type & 0x10 != 0) == (config.extra_events.len() > 0),
        config.attr().sample_type & 0x1a7 == 0x1a7,
        config.attr().sample_type & !0x31b7u64 == 0,
        config.attr().sample_regs_user == config.reg_mask,
        config.attr().sample_stack_user == config.stack_size,
        config.extra_events.len() > 0 ==> config.attr().read_format == 0xc,
        config.extra_events.len() == 0 ==> config.attr().read_format == 0,
{
    lemma_sample_wishes(
        config.reg_mask != 0,
        config.stack_size != 0,
        config.extra_events.len() > 0,
    );
    assert(0x8u64 | 0x4u64 == 0xcu64) by (bit_vector);
}

/// An event is what it was asked to be: the cycles of the CPU as the hardware counts them, or
/// the clock of the CPU that the software keeps, at the given frequency and by the monotonic
/// clock. It is opened disabled and reports mappings, names, tasks and ids; each of the other
/// wishes has its own flag; and nothing else is asked for.
pub proof fn events_are_what_was_asked(config: PerfConfig)
    ensures
        config.event_source == EventSource::HwCpuCycles ==> config.attr().kind == 0
            && config.attr().config == 0,
        config.event_source == EventSource::SwCpuClock ==> config.attr().kind == 1
            && config.attr().config == 0,
        config.attr().sample_period_or_freq == config.frequency,
        config.attr().clock_id == 1,
        (config.attr().flags & 0x1000 != 0) == config.enable_on_exec,
        (config.attr().flags & 0x20 != 0) == config.exclude_kernel,
        (config.attr().flags & 0x2 != 0) == config.inherit,
        (config.attr().flags & 0x400_0000 != 0) == config.gather_context_switches,
        config.attr().flags & 0x286_2701 == 0x286_2701,
        config.attr().flags & !0x686_3723u64 == 0,
        config.attr().size == 112,
        config.attr().wakeup_events_or_watermark == 0,
        config.attr().bp_type == 0,
        config.attr().bp_addr_or_config == 0,
        config.attr().bp_len_or_config == 0,
        config.attr().branch_sample_type == 0,
        config.attr().sample_regs_intr == 0,
        config.attr().aux_watermark == 0,
        config.attr().sample_max_stack == 0,
        config.attr().reserved == 0,
{
    lemma_flag_wishes(
        config.enable_on_exec,
        config.exclude_kernel,
        config.inherit,
        config.gather_context_switches,
    );
}

/// The kernel is asked for the process and the CPU that were named, or for all of them by -1:
/// all processes if that was asked, and all CPUs if none was named.
pub proof fn the_kernel_is_asked_for_the_target(request: OpenRequest, config: PerfConfig)
    requires
        request.asks_for(config),
    ensures
        config.all_processes ==> request.pid == -1,
        !config.all_processes && config.pid <= i32::MAX ==> request.pid == config.pid,
        config.cpu is None ==> request.cpu == -1,
        config.cpu matches Some(cpu) ==> cpu <= i32::MAX ==> request.cpu == cpu,
        request.enable <==> !config.start_disabled,
        request.extra_events@ == config.extra_events,
        request.attr == config.attr(),
{
}

/// An event is refused just if its frequency is above what the kernel is configured for, its
/// stack is larger than 63 KB, or it is to be inherited without a CPU; the first of these that
/// holds is what is said.
pub proof fn only_faulty_wishes_are_refused(config: PerfConfig, max_sample_rate: Option<u64>)
    requires
        config.cpu matches Some(cpu) ==> cpu <= i32::MAX,
    ensures
        ({
            let too_often = max_sample_rate is Some && config.frequency > max_sample_rate->0;
            let too_large = config.stack_size > 63 * 1024;
            let nowhere = config.cpu is None && config.inherit;
            let refusal = config.refusal(max_sample_rate);
            &&& too_often ==> refusal == Some(
                OpenError::FrequencyTooHigh { max_sample_rate: max_sample_rate->0 },
            )
            &&& !too_often && too_large ==> refusal == Some(OpenError::StackTooLarge)
            &&& !too_often && !too_large && nowhere ==> refusal == Some(OpenError::InheritOnAllCpus)
            &&& !too_often && !too_large && !nowhere ==> refusal is None
        }),
{
}

proof fn lemma_pages_double(space: int, pages: int, k: nat)
    requires
        pages == pow2(k),
        pages * PAGE_SIZE < 2 * space,
    ensures
        exists|n: nat| k <= n && pages_for(space, pages) == #[trigger] pow2(n),
        pages_for(space, pages) == pages || pages_for(space, pages) * PAGE_SIZE < 2 * space,
    decreases 2 * space - pages * PAGE_SIZE,
{
    lemma_pow2_pos(k);
    if pages * PAGE_SIZE < space {
        lemma_pow2_unfold(k + 1);
        lemma_pages_double(space, 2 * pages, k + 1);
        let n = choose|n: nat|
            k + 1 <= n && pages_for(space, 2 * pages) == #[trigger] pow2(n);
        assert(k <= n && pages_for(space, pages) == pow2(n));
    } else {
        assert(pages_for(space, pages) == pow2(k));
    }
    lemma_pages_for(space, pages);
}

/// The ring buffer is a power of two of pages, as the kernel wants it, and the smallest that
/// has room for 32 stacks of at least a page each. One more page is in front of it.
pub proof fn the_ring_is_as_small_as_it_can_be(request: OpenRequest, config: PerfConfig)
    requires
        request.asks_for(config),
    ensures
        ({
            let stack = if config.stack_size > 4096 {
                config.stack_size as int
            } else {
                4096
            };
            &&& request.size >= 32 * stack
            &&& request.size < 64 * stack
            &&& request.size % 4096 == 0
            &&& exists|n: nat| request.size == 4096 * #[trigger] pow2(n)
            &&& request.full_size == request.size + 4096
        }),
{
    let space = required_space(config.stack_size);
    lemma_pages_for(space, 2);
    lemma2_to64();
    lemma_pages_double(space, 2, 1);
    let n = choose|n: nat| 1 <= n && pages_for(space, 2) == #[trigger] pow2(n);
    let pages = pages_for(space, 2);
    assert(space >= 131072 && pages * 4096 >= space);
    assert(ring_pages(config.stack_size) == pages);
    assert(request.size == pages * 4096);
    assert(request.size == 4096 * pow2(n));
    assert(request.size as int % 4096 == 0);
}

/// A sample has its time behind the instruction pointer and the thread id; another record has
/// it in front of the CPU, which is the last that it holds. Both are 64-bit integers with the
/// least significant byte first.
pub proof fn times_are_where_the_kernel_writes_them(
    request: OpenRequest,
    config: PerfConfig,
    kind: u32,
    data: Seq<u8>,
    time: u64,
)
    requires
        request.asks_for(config),
        kind < 64,
        kind == 9 ==> data.len() >= 24 && data.subrange(16, 24) == le_bytes(time as nat, 8),
        kind != 9 ==> data.len() >= 16 && data.subrange(data.len() - 16, data.len() - 8)
            == le_bytes(time as nat, 8),
    ensures
        timestamp(kind, data, request.parse_info) == Some(time),
{
    lemma_sample_bits(config.reg_mask != 0, config.stack_size != 0, config.extra_events.len() > 0);
    lemma_flag_bits(
        config.enable_on_exec,
        config.exclude_kernel,
        config.inherit,
        config.gather_context_switches,
    );
    lemma_byte_values();
    bytes_hold_the_value(time as nat, 8);
}

/// However an event is configured, all of its records have a time: a sample that holds at
/// least its instruction pointer, thread id and time, and another record of the kernel that
/// holds at least its time and CPU.
pub proof fn all_records_have_a_timestamp(
    config: PerfConfig,
    request: OpenRequest,
    kind: u32,
    data: Seq<u8>,
)
    requires
        request.asks_for(config),
        kind < PERF_RECORD_USER_TYPE_START,
        kind == PERF_RECORD_SAMPLE ==> data.len() >= 24,
        kind != PERF_RECORD_SAMPLE ==> data.len() >= 16,
    ensures
        timestamp(kind, data, request.parse_info) is Some,
{
    lemma_sample_bits(config.reg_mask != 0, config.stack_size != 0, config.extra_events.len() > 0);
    lemma_flag_bits(
        config.enable_on_exec,
        config.exclude_kernel,
        config.inherit,
        config.gather_context_switches,
    );
}

} // verus!
