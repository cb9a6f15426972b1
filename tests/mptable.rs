use kernel::mptable::{
    enumerate, find_signature, find_tables, is_valid, processor_ids, read_floating_pointer,
    MpEntry,
};

fn image(ids: &[u8], fp_at: usize, with_bus: bool) -> Vec<u8> {
    let mut mem = vec![0u8; 0x10_0000];
    mem[0x413] = 0x7F;
    mem[0x414] = 0x02;
    let hdr = 0x2000usize;
    mem[hdr..hdr + 4].copy_from_slice(b"PCMP");
    let mut pos = hdr + 44;
    let mut count: u16 = 0;
    for id in ids {
        mem[pos] = 0;
        mem[pos + 1] = *id;
        mem[pos + 2] = 0x14;
        mem[pos + 3] = if *id == 0 { 3 } else { 1 };
        pos += 20;
        count += 1;
        if with_bus {
            mem[pos] = 1;
            pos += 8;
            count += 1;
        }
    }
    mem[hdr + 34..hdr + 36].copy_from_slice(&count.to_le_bytes());
    mem[hdr + 36..hdr + 40].copy_from_slice(&0xFEE0_0000u32.to_le_bytes());
    mem[fp_at..fp_at + 4].copy_from_slice(b"_MP_");
    mem[fp_at + 4..fp_at + 8].copy_from_slice(&(hdr as u32).to_le_bytes());
    mem[fp_at + 8] = 1;
    mem[fp_at + 9] = 4;
    let sum: u32 = mem[fp_at..fp_at + 16].iter().map(|b| *b as u32).sum();
    mem[fp_at + 10] = ((256 - sum % 256) % 256) as u8;
    mem
}

#[test]
fn signature_at_a_boundary_is_found_at_its_offset() {
    let mut buf = vec![0u8; 256];
    buf[0x30..0x34].copy_from_slice(b"_MP_");
    assert_eq!(find_signature(&buf, 0, 256), Some(0x30));
    assert_eq!(find_signature(&buf, 0x10, 0x40), Some(0x30));
}

#[test]
fn no_signature_means_not_found() {
    let buf = vec![0u8; 256];
    assert_eq!(find_signature(&buf, 0, 256), None);
    let mut buf = vec![0u8; 256];
    buf[0x34..0x38].copy_from_slice(b"_MP_");
    assert_eq!(find_signature(&buf, 0, 256), None);
    let mut buf = vec![0u8; 256];
    buf[0x40..0x44].copy_from_slice(b"_MP_");
    assert_eq!(find_signature(&buf, 0, 0x40), None);
}

#[test]
fn signature_cut_off_by_the_buffer_end_is_not_found() {
    let mut buf = vec![0u8; 0x42];
    buf[0x40..0x42].copy_from_slice(b"_M");
    assert_eq!(find_signature(&buf, 0, 0x100), None);
}

#[test]
fn tables_are_searched_base_then_ebda_then_rom() {
    let mem = image(&[0], 0xF_5A10, false);
    assert_eq!(find_tables(&mem), Some(0xF_5A10));
    let mut mem = image(&[0], 0xF_5A10, false);
    mem[0x9_FC40..0x9_FC44].copy_from_slice(b"_MP_");
    assert_eq!(find_tables(&mem), Some(0x9_FC40));
    mem[0x9_F800..0x9_F804].copy_from_slice(b"_MP_");
    assert_eq!(find_tables(&mem), Some(0x9_F800));
    assert_eq!(find_tables(&vec![0u8; 0x10_0000]), None);
    assert_eq!(find_tables(&[]), None);
}

#[test]
fn checksum_is_checked() {
    let mut mem = image(&[0, 1], 0xF_0000, false);
    assert!(is_valid(&mem, 0xF_0000));
    let fp = read_floating_pointer(&mem, 0xF_0000).unwrap();
    assert_eq!(fp.physical_address_pointer, 0x2000);
    assert_eq!(fp.length, 1);
    assert_eq!(fp.spec_rev, 4);
    mem[0xF_0000 + 11] ^= 1;
    assert!(!is_valid(&mem, 0xF_0000));
    assert!(read_floating_pointer(&mem, 0xF_0000).is_none());
    assert!(enumerate(&mem, 0xF_0000).is_none());
    assert!(!is_valid(&mem, 0xF_FFF8));
}

#[test]
fn entries_are_read_and_processors_picked_out() {
    let mem = image(&[0, 1, 2], 0xF_0000, true);
    let t = enumerate(&mem, 0xF_0000).unwrap();
    assert_eq!(t.header_addr, 0x2000);
    assert_eq!(t.entry_count, 6);
    assert_eq!(t.local_apic_addr, 0xFEE0_0000);
    assert_eq!(t.entries.len(), 6);
    assert_eq!(t.entries[0], MpEntry::Processor { lapic_id: 0, flags: 3 });
    assert_eq!(t.entries[1], MpEntry::Bus);
    assert_eq!(processor_ids(&t.entries), vec![0, 1, 2]);
}

#[test]
fn an_unknown_entry_code_ends_the_stream() {
    let mut mem = image(&[0, 1, 2], 0xF_0000, false);
    mem[0x2000 + 44 + 20] = 9;
    let t = enumerate(&mem, 0xF_0000).unwrap();
    assert_eq!(t.entry_count, 3);
    assert_eq!(t.entries.len(), 1);
    assert_eq!(processor_ids(&t.entries), vec![0]);
}

#[test]
fn header_outside_memory_is_rejected() {
    let mut mem = image(&[0], 0xF_0000, false);
    mem[0xF_0004..0xF_0008].copy_from_slice(&0x00FF_FFF0u32.to_le_bytes());
    mem[0xF_000A] = 0;
    let sum: u32 = mem[0xF_0000..0xF_0010].iter().map(|b| *b as u32).sum();
    mem[0xF_000A] = ((256 - sum % 256) % 256) as u8;
    assert!(is_valid(&mem, 0xF_0000));
    assert!(enumerate(&mem, 0xF_0000).is_none());
}
