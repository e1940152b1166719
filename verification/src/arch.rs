//! The processor's tables and registers, as values: the global descriptor
//! table with one task state segment per CPU, the per-CPU block, the
//! interrupt command of the local APIC and the timer's calibration. The
//! caller loads them into the machine.

use vstd::prelude::*;

verus! {

/// Number of CPUs the tables have room for.
pub const MAX_CPUS: usize = 64;

/// Kernel code segment selector (ring 0).
pub const KERNEL_CODE_SELECTOR: u16 = 0x08;
/// Kernel data segment selector (ring 0).
pub const KERNEL_DATA_SELECTOR: u16 = 0x10;
/// User code segment selector (ring 3).
pub const USER_CODE_SELECTOR: u16 = 0x18;
/// User data segment selector (ring 3).
pub const USER_DATA_SELECTOR: u16 = 0x20;

/// Vector of the timer interrupt.
pub const TIMER_VECTOR: u8 = 32;
/// Vector of the inter-processor interrupt.
pub const IPI_VECTOR: u8 = 128;

/// The selector of the task state segment of CPU `cpu_id`: its descriptor
/// takes two entries from entry 5 on. The selector is 16 bits wide, so a
/// larger value wraps.
pub fn tss_selector(cpu_id: usize) -> (s: u16)
    requires
        cpu_id <= (usize::MAX - 0x28) / 16,
    ensures
        s == (0x28 + cpu_id * 16) as u16,
{
    (0x28 + cpu_id * 16) as u16
}

/// A task state segment: the stacks the CPU switches to.
#[derive(Clone, Copy, Debug, PartialEq, Eq, Structural)]
pub struct Tss {
    /// Reserved.
    pub reserved_1: u32,
    /// Stack for ring 0.
    pub rsp0: u64,
    /// Stack for ring 1.
    pub rsp1: u64,
    /// Stack for ring 2.
    pub rsp2: u64,
    /// Reserved.
    pub reserved_2: u64,
    /// Interrupt stack 1.
    pub ist1: u64,
    /// Interrupt stack 2.
    pub ist2: u64,
    /// Interrupt stack 3.
    pub ist3: u64,
    /// Interrupt stack 4.
    pub ist4: u64,
    /// Interrupt stack 5.
    pub ist5: u64,
    /// Interrupt stack 6.
    pub ist6: u64,
    /// Interrupt stack 7.
    pub ist7: u64,
    /// Reserved.
    pub reserved_3: u64,
    /// Reserved.
    pub reserved_4: u16,
    /// Offset of the I/O permission map.
    pub iomap_base: u16,
}

/// Size in bytes of a task state segment.
pub const TSS_SIZE: u64 = 104;

impl Tss {
    /// A segment with every field zero.
    pub fn zeroed() -> (t: Tss)
        ensures
            t == (Tss { reserved_1: 0, rsp0: 0, rsp1: 0, rsp2: 0, reserved_2: 0, ist1: 0, ist2: 0, ist3: 0, ist4: 0,
                ist5: 0, ist6: 0, ist7: 0, reserved_3: 0, reserved_4: 0, iomap_base: 0 }),
    {
        Tss { reserved_1: 0, rsp0: 0, rsp1: 0, rsp2: 0, reserved_2: 0, ist1: 0, ist2: 0, ist3: 0, ist4: 0,
            ist5: 0, ist6: 0, ist7: 0, reserved_3: 0, reserved_4: 0, iomap_base: 0 }
    }
}

/// Sets the ring-0 stack of CPU `cpu_id` in the segment table `tss`.
pub fn set_kernel_stack(tss: &mut Vec<Tss>, cpu_id: usize, stack_top: u64)
    requires
        cpu_id < old(tss)@.len(),
    ensures
        final(tss)@ == old(tss)@.update(cpu_id as int, Tss { rsp0: stack_top, ..old(tss)@[cpu_id as int] }),
{
    let mut t = tss[cpu_id];
    t.rsp0 = stack_top;
    tss.set(cpu_id, t);
}

/// Sets interrupt stack `ist_index` (1 to 7) of CPU `cpu_id`.
pub fn set_ist(tss: &mut Vec<Tss>, cpu_id: usize, ist_index: usize, stack_top: u64)
    requires
        cpu_id < old(tss)@.len(),
        1 <= ist_index <= 7,
    ensures
        final(tss)@ == old(tss)@.update(cpu_id as int, {
            let t = old(tss)@[cpu_id as int];
            if ist_index == 1 { Tss { ist1: stack_top, ..t } }
            else if ist_index == 2 { Tss { ist2: stack_top, ..t } }
            else if ist_index == 3 { Tss { ist3: stack_top, ..t } }
            else if ist_index == 4 { Tss { ist4: stack_top, ..t } }
            else if ist_index == 5 { Tss { ist5: stack_top, ..t } }
            else if ist_index == 6 { Tss { ist6: stack_top, ..t } }
            else { Tss { ist7: stack_top, ..t } }
        }),
{
    let mut t = tss[cpu_id];
    if ist_index == 1 { t.ist1 = stack_top; }
    else if ist_index == 2 { t.ist2 = stack_top; }
    else if ist_index == 3 { t.ist3 = stack_top; }
    else if ist_index == 4 { t.ist4 = stack_top; }
    else if ist_index == 5 { t.ist5 = stack_top; }
    else if ist_index == 6 { t.ist6 = stack_top; }
    else { t.ist7 = stack_top; }
    tss.set(cpu_id, t);
}

/// The operand of `lgdt` and `lidt`.
#[derive(Clone, Copy, Debug, PartialEq, Eq, Structural)]
pub struct Dtr {
    /// Size of the table minus one.
    pub limit: u16,
    /// Address of the table.
    pub base: u64,
}

/// Number of entries of the global descriptor table.
pub const GDT_ENTRIES: usize = 133;

/// The global descriptor table: null, kernel code and data, user code and
/// data, then a two-entry task state descriptor per CPU.
pub struct Gdt {
    /// The descriptors.
    pub entries: Vec<u64>,
}

/// The first word of the descriptor of a task state segment at `base` of
/// `limit + 1` bytes: limit bits 0-15, base bits 0-23, access byte 0x89
/// (present, available 64-bit segment), limit bits 16-19, flags 0, base
/// bits 24-31.
pub open spec fn tss_desc_low(base: u64, limit: u64) -> int {
    (limit % 0x1_0000) + (base % 0x100_0000) * 0x1_0000 + 0x89 * 0x100_0000_0000
        + ((limit / 0x1_0000) % 0x10) * 0x1_0000_0000_0000 + ((base / 0x100_0000) % 0x100) * 0x100_0000_0000_0000
}

/// The encoding of a task state descriptor, by fields.
proof fn lemma_tss_desc(base: u64, limit: u64, access: u64, flags: u64, low: u64, high: u64)
    requires
        limit < 0x1_0000,
        access == 0x89,
        flags == 0,
        low == (limit & 0xFFFF) | ((base & 0xFFFFFF) << 16u64) | ((access & 0xFF) << 40u64)
            | (((limit >> 16u64) & 0xF) << 48u64) | ((flags & 0xF) << 52u64) | ((base >> 24u64) << 56u64),
        high == base >> 32u64,
    ensures
        low == tss_desc_low(base, limit),
        high == base / 0x1_0000_0000,
{
    assert(low == (limit % 0x1_0000) + (base % 0x100_0000) * 0x1_0000 + 0x89 * 0x100_0000_0000
        + ((limit / 0x1_0000) % 0x10) * 0x1_0000_0000_0000 + ((base / 0x100_0000) % 0x100) * 0x100_0000_0000_0000
        && high == base / 0x1_0000_0000) by (bit_vector)
        requires
            limit < 0x1_0000,
            access == 0x89,
            flags == 0,
            low == (limit & 0xFFFF) | ((base & 0xFFFFFF) << 16u64) | ((access & 0xFF) << 40u64)
                | (((limit >> 16u64) & 0xF) << 48u64) | ((flags & 0xF) << 52u64) | ((base >> 24u64) << 56u64),
            high == base >> 32u64;
}

impl Gdt {
    /// The table with the four flat segments (kernel code and data, user
    /// code and data) and no task state descriptor.
    pub fn new() -> (g: Gdt)
        ensures
            g.entries@.len() == GDT_ENTRIES,
            g.entries@[0] == 0,
            g.entries@[1] == 0x00209A0000000000,
            g.entries@[2] == 0x0000920000000000,
            g.entries@[3] == 0x0020FA0000000000,
            g.entries@[4] == 0x0000F20000000000,
            forall|i: int| 5 <= i < GDT_ENTRIES ==> g.entries@[i] == 0,
    {
        let mut entries: Vec<u64> = Vec::new();
        entries.push(0);
        entries.push(0x00209A0000000000);
        entries.push(0x0000920000000000);
        entries.push(0x0020FA0000000000);
        entries.push(0x0000F20000000000);
        let mut i: usize = 5;
        while i < GDT_ENTRIES
            invariant
                5 <= i <= GDT_ENTRIES,
                entries@.len() == i,
                entries@[0] == 0,
                entries@[1] == 0x00209A0000000000,
                entries@[2] == 0x0000920000000000,
                entries@[3] == 0x0020FA0000000000,
                entries@[4] == 0x0000F20000000000,
                forall|k: int| 5 <= k < i ==> entries@[k] == 0,
            decreases GDT_ENTRIES - i,
        {
            entries.push(0);
            i = i + 1;
        }
        Gdt { entries }
    }

    /// Installs the descriptor of CPU `cpu_id`'s task state segment at
    /// `base`: its two entries from entry 5 + 2 `cpu_id`.
    pub fn set_tss(&mut self, cpu_id: usize, base: u64)
        requires
            cpu_id < MAX_CPUS,
            old(self).entries@.len() == GDT_ENTRIES,
        ensures
            final(self).entries@ == old(self).entries@
                .update(5 + 2 * cpu_id, tss_desc_low(base, (TSS_SIZE - 1) as u64) as u64)
                .update(6 + 2 * cpu_id, base / 0x1_0000_0000),
    {
        let limit: u64 = TSS_SIZE - 1;
        let access: u64 = 0x89;
        let flags: u64 = 0x00;
        let low = (limit & 0xFFFF) | ((base & 0xFFFFFF) << 16) | ((access & 0xFF) << 40)
            | (((limit >> 16) & 0xF) << 48) | ((flags & 0xF) << 52) | ((base >> 24) << 56);
        let high = base >> 32;
        proof { lemma_tss_desc(base, limit, access, flags, low, high); }
        let idx = 5 + cpu_id * 2;
        self.entries.set(idx, low);
        self.entries.set(idx + 1, high);
    }

    /// The operand that loads this table from address `base`.
    pub fn dtr(&self, base: u64) -> (d: Dtr)
        requires
            self.entries@.len() == GDT_ENTRIES,
        ensures
            d == (Dtr { limit: (GDT_ENTRIES * 8 - 1) as u16, base }),
    {
        Dtr { limit: (GDT_ENTRIES * 8 - 1) as u16, base }
    }
}

/// The per-CPU block that the GS base points at.
#[derive(Clone, Copy, Debug, PartialEq, Eq, Structural)]
pub struct PerCpu {
    /// The user stack pointer saved on system call entry.
    pub user_rsp: u64,
    /// Top of the kernel stack of the running task.
    pub kernel_stack_top: usize,
    /// The CPU's index.
    pub cpu_id: usize,
}

impl PerCpu {
    /// A zeroed block.
    pub fn new() -> (p: PerCpu)
        ensures
            p == (PerCpu { user_rsp: 0, kernel_stack_top: 0, cpu_id: 0 }),
    {
        PerCpu { user_rsp: 0, kernel_stack_top: 0, cpu_id: 0 }
    }

    /// Sets the kernel stack that system calls switch to.
    pub fn set_kernel_stack(&mut self, stack_top: usize)
        ensures
            *final(self) == (PerCpu { kernel_stack_top: stack_top, ..*old(self) }),
    {
        self.kernel_stack_top = stack_top;
    }
}

/// The registers that `cpuid` returns.
#[derive(Clone, Copy, Debug, PartialEq, Eq, Structural)]
pub struct CpuidResult {
    /// EAX.
    pub eax: u32,
    /// EBX.
    pub ebx: u32,
    /// ECX.
    pub ecx: u32,
    /// EDX.
    pub edx: u32,
}

/// How an inter-processor interrupt is delivered.
#[derive(Clone, Copy, Debug, PartialEq, Eq, Structural)]
pub enum DeliveryMode {
    /// To the target processor.
    Fixed,
    /// To the processor of lowest priority.
    LowestPri,
    /// System management interrupt.
    Smi,
    /// Non-maskable interrupt.
    Nmi,
    /// INIT (resets the target).
    Init,
    /// Start-up (boots an application processor).
    StartUp,
}

/// The delivery mode's field of the interrupt command (bits 8-10).
pub open spec fn mode_bits(m: DeliveryMode) -> u32 {
    match m {
        DeliveryMode::Fixed => 0,
        DeliveryMode::LowestPri => 0x100,
        DeliveryMode::Smi => 0x200,
        DeliveryMode::Nmi => 0x400,
        DeliveryMode::Init => 0x500,
        DeliveryMode::StartUp => 0x600,
    }
}

impl DeliveryMode {
    /// The mode's field of the interrupt command.
    pub fn bits(self) -> (b: u32)
        ensures
            b == mode_bits(self),
    {
        match self {
            DeliveryMode::Fixed => 0,
            DeliveryMode::LowestPri => 0x100,
            DeliveryMode::Smi => 0x200,
            DeliveryMode::Nmi => 0x400,
            DeliveryMode::Init => 0x500,
            DeliveryMode::StartUp => 0x600,
        }
    }
}

/// Level "assert" of the interrupt command (bit 14).
pub const ICR_LEVEL_ASSERT: u32 = 0x4000;

/// The low word of the interrupt command: the vector, the delivery mode,
/// physical destination and level "assert".
pub fn icr_low(vector: u8, mode: DeliveryMode) -> (w: u32)
    ensures
        w == vector + mode_bits(mode) + ICR_LEVEL_ASSERT,
{
    let m = mode.bits();
    let w = (vector as u32) | m | ICR_LEVEL_ASSERT;
    proof {
        let v = vector as u32;
        assert(v | m | 0x4000u32 == v + m + 0x4000) by (bit_vector)
            requires v < 0x100, m == 0 || m == 0x100 || m == 0x200 || m == 0x400 || m == 0x500 || m == 0x600;
    }
    w
}

/// The high word of the interrupt command: the target's APIC id in bits
/// 24-31.
pub fn icr_high(target_apic_id: u32) -> (w: u32)
    ensures
        w == (target_apic_id % 0x100) * 0x100_0000,
{
    let w = target_apic_id << 24;
    proof {
        assert(w == (target_apic_id % 0x100) * 0x100_0000) by (bit_vector) requires w == target_apic_id << 24u32;
    }
    w
}

/// How many HPET ticks the calibration waits: 10^12 femtoseconds over the
/// tick period, which is the high half of the capabilities register `cap`;
/// `None` for a zero period.
pub fn hpet_ticks_to_wait(cap: u64) -> (r: Option<u64>)
    ensures
        cap / 0x1_0000_0000 == 0 ==> r is None,
        cap / 0x1_0000_0000 != 0 ==> r == Some((1_000_000_000_000u64 / (cap / 0x1_0000_0000)) as u64),
{
    let period_fs = cap >> 32;
    proof {
        assert(period_fs == cap / 0x1_0000_0000) by (bit_vector) requires period_fs == cap >> 32u64;
    }
    if period_fs == 0 {
        None
    } else {
        Some(1_000_000_000_000u64 / period_fs)
    }
}

/// The calibration of the local APIC timer after one second counted down
/// from the largest value to `current`: the ticks elapsed, and the ticks
/// per 10 ms.
pub fn calibration(current: u32) -> (r: (u64, u64))
    ensures
        r.0 == u32::MAX - current,
        r.1 == (u32::MAX - current) / 100,
{
    let elapsed = u32::MAX - current;
    (elapsed as u64, elapsed as u64 / 100)
}

/// The local vector table entry of the periodic timer.
pub fn timer_lvt() -> (w: u32)
    ensures
        w == 0x2_0000 + TIMER_VECTOR,
{
    let w = (1u32 << 17) | (TIMER_VECTOR as u32);
    assert(w == 0x2_0020) by (bit_vector) requires w == (1u32 << 17u32) | 32u32;
    w
}

} // verus!
