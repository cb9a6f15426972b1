use kernel::apic::{delivery_pending, RegisterWrite, LAPIC, REG_ICR_HIGH, REG_ICR_LOW, REG_SPURIOUS};
use kernel::arch::KERNEL_BASE;
use kernel::pmm::init;
use kernel::vmm::PageTables;

fn controller() -> LAPIC {
    let mut fma = init(16 * 1024 * 1024, 4096, KERNEL_BASE + 0x10_0000).unwrap();
    let mut pt = PageTables::new(0x1000);
    let lapic = LAPIC::new(&mut pt, &mut fma, 0xFEE0_0000, 0, 0xFF);
    assert_eq!(pt.translate_addr(0x1000, 0xFEE0_0000), Some(0xFEE0_0000));
    lapic
}

#[test]
fn new_controller_is_enabled() {
    let lapic = controller();
    assert_eq!(lapic.lapic_addr(), 0xFEE0_0000);
    assert_eq!(lapic.lapic_id(), 0);
    assert_eq!(
        lapic.register_writes().clone(),
        vec![RegisterWrite { offset: REG_SPURIOUS, value: 0x1FF }]
    );
}

#[test]
fn init_writes_destination_then_command() {
    let mut lapic = controller();
    lapic.send_init_to(3);
    let w = lapic.register_writes();
    assert_eq!(w[1], RegisterWrite { offset: REG_ICR_HIGH, value: 3 << 24 });
    assert_eq!(w[2], RegisterWrite { offset: REG_ICR_LOW, value: 0x500 });
}

#[test]
fn startup_encodes_the_vector() {
    let mut lapic = controller();
    lapic.send_sipi_to(2, 0xA);
    let w = lapic.register_writes();
    assert_eq!(w[1], RegisterWrite { offset: REG_ICR_HIGH, value: 2 << 24 });
    assert_eq!(w[2], RegisterWrite { offset: REG_ICR_LOW, value: 0x460A });
}

#[test]
fn fixed_interrupt_sets_level_assert() {
    let mut lapic = controller();
    assert!(lapic.send_ipi_to(0xFF, 0x40, 0x0400));
    let w = lapic.register_writes();
    assert_eq!(w.len(), 3);
    assert_eq!(w[1], RegisterWrite { offset: REG_ICR_HIGH, value: 0xFF00_0000 });
    assert_eq!(w[2], RegisterWrite { offset: REG_ICR_LOW, value: 0x4040 });
}

#[test]
fn enabling_keeps_the_other_vector_bits() {
    let mut fma = init(16 * 1024 * 1024, 4096, KERNEL_BASE + 0x10_0000).unwrap();
    let mut pt = PageTables::new(0x1000);
    let lapic = LAPIC::new(&mut pt, &mut fma, 0xFEE0_0000, 1, 0x0000_10EF);
    assert_eq!(lapic.register_writes()[0], RegisterWrite { offset: REG_SPURIOUS, value: 0x11EF });
    assert_eq!(lapic.lapic_id(), 1);
}

#[test]
fn a_pending_interrupt_holds_back_the_next() {
    let mut lapic = controller();
    assert!(delivery_pending(0x1000));
    assert!(delivery_pending(0x14FF));
    assert!(!delivery_pending(0x0FFF));
    assert!(!lapic.send_ipi_to(2, 0x30, 0x1000));
    assert_eq!(lapic.register_writes().len(), 1);
    assert!(lapic.send_ipi_to(2, 0x30, 0x0000));
    assert_eq!(lapic.register_writes().len(), 3);
    assert_eq!(lapic.register_writes()[2], RegisterWrite { offset: REG_ICR_LOW, value: 0x4030 });
}
