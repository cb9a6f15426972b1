use kernel::apic::{RegisterWrite, LAPIC, REG_ICR_HIGH, REG_ICR_LOW};
use kernel::arch::KERNEL_BASE;
use kernel::pmm::init;
use kernel::smp::{
    ap_stack_top, bring_up_processors, find_processor, record_apic_id, Processor, WakeAction,
    Waker, UNKNOWN_APIC_ID, WAKE_DELAY,
};
use kernel::vmm::PageTables;

fn image(ids: &[u8]) -> Vec<u8> {
    let mut mem = vec![0u8; 0x10_0000];
    mem[0x413] = 0x7F;
    mem[0x414] = 0x02;
    let hdr = 0x2000usize;
    mem[hdr..hdr + 4].copy_from_slice(b"PCMP");
    let mut pos = hdr + 44;
    for id in ids {
        mem[pos] = 0;
        mem[pos + 1] = *id;
        mem[pos + 3] = 1;
        pos += 20;
    }
    mem[hdr + 34..hdr + 36].copy_from_slice(&(ids.len() as u16).to_le_bytes());
    mem[hdr + 36..hdr + 40].copy_from_slice(&0xFEE0_0000u32.to_le_bytes());
    let fp = 0xF_0000;
    mem[fp..fp + 4].copy_from_slice(b"_MP_");
    mem[fp + 4..fp + 8].copy_from_slice(&(hdr as u32).to_le_bytes());
    mem[fp + 8] = 1;
    let sum: u32 = mem[fp..fp + 16].iter().map(|b| *b as u32).sum();
    mem[fp + 10] = ((256 - sum % 256) % 256) as u8;
    mem
}

fn commands(writes: &[RegisterWrite]) -> Vec<(u32, u32)> {
    let mut out = Vec::new();
    let mut dest = None;
    for w in writes {
        if w.offset == REG_ICR_HIGH {
            dest = Some(w.value >> 24);
        } else if w.offset == REG_ICR_LOW {
            out.push((dest.unwrap(), w.value & 0x700));
        }
    }
    out
}

fn run(waker: &mut Waker, lapic: &mut LAPIC, window: usize) -> usize {
    let mut acked = 0usize;
    let mut steps = 0;
    loop {
        steps += 1;
        assert!(steps < 1000);
        match waker.step(lapic, acked) {
            WakeAction::Delay(n) => assert_eq!(n, WAKE_DELAY),
            WakeAction::AwaitAck => acked += 1,
            WakeAction::Done => return acked,
        }
        assert!(waker.started_count() - acked <= window);
    }
}

#[test]
fn three_processors_are_counted_and_woken() {
    let mem = image(&[0, 1, 2]);
    let mut fma = init(16 * 1024 * 1024, 4096, KERNEL_BASE + 0x10_0000).unwrap();
    let mut pt = PageTables::new(0x1000);
    let before = fma.next_frame_id();
    let mut b = bring_up_processors(&mut fma, &mut pt, &mem, 0xFF);
    assert_eq!(b.processor_count, 3);
    assert_eq!(b.processors.len(), 3);
    assert_eq!(fma.next_frame_id(), before + 3 + 3);
    let first = b.processors[0].stack_frame;
    for (i, p) in b.processors.iter().enumerate() {
        assert_eq!(p.id, i);
        assert_eq!(p.apic_id, UNKNOWN_APIC_ID);
        assert_eq!(p.stack_frame, first + i as u64 * 4096);
    }
    let mut lapic = b.lapic.take().unwrap();
    assert_eq!(lapic.lapic_addr(), 0xFEE0_0000);
    assert_eq!(lapic.register_writes().len(), 1);
    assert_eq!(lapic.register_writes()[0].value, 0x1FF);
    run(&mut b.waker, &mut lapic, 1);
    let sent = commands(lapic.register_writes());
    assert_eq!(sent, vec![(1, 0x500), (1, 0x600), (2, 0x500), (2, 0x600)]);
    let startup: Vec<u32> =
        lapic.register_writes().iter().filter(|w| w.offset == REG_ICR_LOW).map(|w| w.value).collect();
    assert_eq!(startup[1], 0x460A);
    assert_eq!(startup[3], 0x460A);
}

#[test]
fn without_tables_there_is_one_processor() {
    let mem = vec![0u8; 0x10_0000];
    let mut fma = init(16 * 1024 * 1024, 4096, KERNEL_BASE + 0x10_0000).unwrap();
    let mut pt = PageTables::new(0x1000);
    let before = fma.next_frame_id();
    let b = bring_up_processors(&mut fma, &mut pt, &mem, 0xFF);
    assert_eq!(b.processor_count, 1);
    assert!(b.processors.is_empty());
    assert!(b.lapic.is_none());
    assert_eq!(fma.next_frame_id(), before);
}

#[test]
fn an_invalid_floating_pointer_means_one_processor() {
    let mut mem = image(&[0, 1, 2]);
    mem[0xF_000A] ^= 0xFF;
    let mut fma = init(16 * 1024 * 1024, 4096, KERNEL_BASE + 0x10_0000).unwrap();
    let mut pt = PageTables::new(0x1000);
    let b = bring_up_processors(&mut fma, &mut pt, &mem, 0xFF);
    assert_eq!(b.processor_count, 1);
    assert!(b.lapic.is_none());
}

#[test]
fn throttle_keeps_at_most_window_cores_booting() {
    let mut fma = init(16 * 1024 * 1024, 4096, KERNEL_BASE + 0x10_0000).unwrap();
    let mut pt = PageTables::new(0x1000);
    let mut lapic = LAPIC::new(&mut pt, &mut fma, 0xFEE0_0000, 0, 0xFF);
    let mut waker = Waker::new(vec![0, 1, 2, 3, 4, 5, 6], 2);
    let acked = run(&mut waker, &mut lapic, 2);
    assert_eq!(waker.started_count(), 6);
    assert!(acked <= 6);
    let sent = commands(lapic.register_writes());
    assert_eq!(sent.len(), 12);
    for (k, id) in (1u32..=6).enumerate() {
        assert_eq!(sent[2 * k], (id, 0x500));
        assert_eq!(sent[2 * k + 1], (id, 0x600));
    }
}

#[test]
fn waker_waits_for_acknowledgement() {
    let mut fma = init(16 * 1024 * 1024, 4096, KERNEL_BASE + 0x10_0000).unwrap();
    let mut pt = PageTables::new(0x1000);
    let mut lapic = LAPIC::new(&mut pt, &mut fma, 0xFEE0_0000, 0, 0xFF);
    let mut waker = Waker::new(vec![1, 0, 2], 1);
    assert_eq!(waker.step(&mut lapic, 0), WakeAction::Delay(WAKE_DELAY));
    assert_eq!(waker.step(&mut lapic, 0), WakeAction::Delay(WAKE_DELAY));
    assert_eq!(waker.started_count(), 1);
    assert_eq!(waker.step(&mut lapic, 0), WakeAction::AwaitAck);
    assert_eq!(waker.step(&mut lapic, 0), WakeAction::AwaitAck);
    assert_eq!(waker.step(&mut lapic, 1), WakeAction::Delay(WAKE_DELAY));
    assert_eq!(waker.step(&mut lapic, 1), WakeAction::Delay(WAKE_DELAY));
    assert_eq!(waker.step(&mut lapic, 1), WakeAction::Done);
    assert_eq!(waker.started_count(), 2);
    assert_eq!(commands(lapic.register_writes()), vec![(1, 0x500), (1, 0x600), (2, 0x500), (2, 0x600)]);
}

#[test]
fn each_core_finds_its_own_record() {
    let mut list = vec![
        Processor { id: 0, apic_id: UNKNOWN_APIC_ID, stack_frame: 0x10_0000 },
        Processor { id: 1, apic_id: UNKNOWN_APIC_ID, stack_frame: 0x10_1000 },
    ];
    assert_eq!(find_processor(&list, 1), Some(1));
    assert_eq!(find_processor(&list, 7), None);
    assert_eq!(ap_stack_top(&list, 1), Some(0x10_1000 + 0x1000 + KERNEL_BASE));
    assert_eq!(ap_stack_top(&list, 2), None);
    assert!(record_apic_id(&mut list, 1, 5));
    assert_eq!(list[1].apic_id, 5);
    assert!(!record_apic_id(&mut list, 1, 6));
    assert_eq!(list[1].apic_id, 5);
    assert!(!record_apic_id(&mut list, 3, 6));
}

#[test]
fn only_the_first_record_with_an_id_is_written() {
    let mut list = vec![
        Processor { id: 4, apic_id: 9, stack_frame: 0x10_0000 },
        Processor { id: 4, apic_id: UNKNOWN_APIC_ID, stack_frame: 0x10_1000 },
    ];
    assert!(!record_apic_id(&mut list, 4, 7));
    assert_eq!(list[0].apic_id, 9);
    assert_eq!(list[1].apic_id, UNKNOWN_APIC_ID);
    let mut list = vec![Processor { id: 2, apic_id: UNKNOWN_APIC_ID, stack_frame: 0 }];
    assert!(record_apic_id(&mut list, 2, 3));
    assert_eq!(list[0], Processor { id: 2, apic_id: 3, stack_frame: 0 });
}

#[test]
fn stack_beyond_the_high_mapping_has_no_top() {
    let list = vec![Processor { id: 0, apic_id: UNKNOWN_APIC_ID, stack_frame: 0x8000_0000 }];
    assert_eq!(ap_stack_top(&list, 0), None);
}
