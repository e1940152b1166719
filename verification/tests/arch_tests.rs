use nk::arch::{self, DeliveryMode, Gdt, PerCpu, Tss};

#[test]
fn tss_selectors_follow_the_flat_segments() {
    assert_eq!(arch::tss_selector(0), 0x28);
    assert_eq!(arch::tss_selector(3), 0x58);
}

#[test]
fn gdt_has_the_flat_segments() {
    let g = Gdt::new();
    assert_eq!(g.entries.len(), 133);
    assert_eq!(g.entries[1], 0x00209A0000000000);
    assert_eq!(g.entries[4], 0x0000F20000000000);
    let d = g.dtr(0x1000);
    assert_eq!(d.limit, 133 * 8 - 1);
}

#[test]
fn tss_descriptor_encodes_base_and_limit() {
    let mut g = Gdt::new();
    g.set_tss(1, 0xffff_8000_1234_5678);
    assert_eq!(g.entries[7], 0x1200_8934_5678_0067);
    assert_eq!(g.entries[8], 0xffff_8000);
}

#[test]
fn stacks_are_set_per_cpu() {
    let mut t = vec![Tss::zeroed(); 2];
    arch::set_kernel_stack(&mut t, 1, 0x9000);
    arch::set_ist(&mut t, 1, 3, 0xa000);
    let (r0, i3, r00) = (t[1].rsp0, t[1].ist3, t[0].rsp0);
    assert_eq!((r0, i3, r00), (0x9000, 0xa000, 0));
    let mut p = PerCpu::new();
    p.set_kernel_stack(0x5000);
    assert_eq!(p.kernel_stack_top, 0x5000);
}

#[test]
fn interrupt_command_words() {
    assert_eq!(arch::icr_low(arch::IPI_VECTOR, DeliveryMode::Fixed), 0x4080);
    assert_eq!(arch::icr_low(0x08, DeliveryMode::StartUp), 0x4608);
    assert_eq!(arch::icr_high(3), 0x0300_0000);
    assert_eq!(arch::timer_lvt(), 0x2_0020);
}

#[test]
fn timer_calibration_arithmetic() {
    assert_eq!(arch::hpet_ticks_to_wait(0), None);
    assert_eq!(arch::hpet_ticks_to_wait(10_000_000u64 << 32), Some(100_000));
    assert_eq!(arch::calibration(u32::MAX - 1000), (1000, 10));
}

#[test]
fn tss_selector_wraps_at_sixteen_bits() {
    assert_eq!(arch::tss_selector(4096), 0x28);
    assert_eq!(arch::tss_selector(4095), 0x18);
}
