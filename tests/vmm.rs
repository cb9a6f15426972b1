use kernel::arch::{KERNEL_BASE, PAGE_SIZE};
use kernel::pmm::{init, FrameAllocator};
use kernel::vmm::{
    get_address_indices_for, get_pd_index_for, get_pdp_index_for, get_pml4_index_for,
    get_pt_index_for, map_addr_current, map_addr_in, remap_kernel, PageEntry, PageTables,
    ADDRESS_MASK, LEVEL_PD, LEVEL_PDP, LEVEL_PML4, LEVEL_PT, PRESENT, READWRITE, USERSUPERVISOR,
};

fn fresh() -> (PageTables, FrameAllocator, u64) {
    let mut fma = init(16 * 1024 * 1024, 4096, KERNEL_BASE + 0x10_0000).unwrap();
    let mut pt = PageTables::new(0);
    let fr = fma.allocate_frame();
    let root = pt.new_table(LEVEL_PML4, fr);
    pt.set_page_directory(root);
    (pt, fma, root)
}

fn read_back(pt: &PageTables, root: u64, v: u64) -> Option<u64> {
    let (i4, i3, i2, i1) = get_address_indices_for(v);
    let e4 = pt.read_entry(LEVEL_PML4, root, i4);
    if !e4.contains(PRESENT) {
        return None;
    }
    let e3 = pt.read_entry(LEVEL_PDP, e4.get_address(), i3);
    if !e3.contains(PRESENT) {
        return None;
    }
    let e2 = pt.read_entry(LEVEL_PD, e3.get_address(), i2);
    if !e2.contains(PRESENT) {
        return None;
    }
    let e1 = pt.read_entry(LEVEL_PT, e2.get_address(), i1);
    if !e1.contains(PRESENT) {
        return None;
    }
    Some(e1.get_address())
}

#[test]
fn indices_of_a_32bit_address_rebuild_its_page_number() {
    for addr in [0u32, 0x1000, 0xFEE0_0000, 0xDEAD_BEEF, 0xFFFF_FFFF, 0x0040_2000] {
        let (i4, i3, i2, i1) = get_address_indices_for(addr as u64);
        assert!(i4 < 512 && i3 < 512 && i2 < 512 && i1 < 512);
        assert_eq!(i4, 0);
        assert_eq!((i4 << 27) | (i3 << 18) | (i2 << 9) | i1, (addr >> 12) as u64);
    }
}

#[test]
fn indices_of_the_kernel_base() {
    assert_eq!(get_address_indices_for(KERNEL_BASE), (511, 510, 0, 0));
    assert_eq!(get_pml4_index_for(0x0000_7FFF_FFFF_F000), 255);
    assert_eq!(get_pdp_index_for(0x4000_0000), 1);
    assert_eq!(get_pd_index_for(0x20_0000), 1);
    assert_eq!(get_pt_index_for(0x1000), 1);
}

#[test]
fn entry_flags_and_address() {
    let mut e = PageEntry::from_bits(0);
    e.set_address(0x1234_5FFF);
    assert_eq!(e.get_address(), 0x1234_5000);
    e.set(PRESENT, true);
    e.set(USERSUPERVISOR, true);
    assert!(e.contains(PRESENT));
    assert!(e.contains(USERSUPERVISOR));
    assert!(!e.contains(READWRITE));
    e.set(USERSUPERVISOR, false);
    assert!(!e.contains(USERSUPERVISOR));
    assert_eq!(e.bits, 0x1234_5001);
    e.clear();
    assert_eq!(e.bits, 0);
    assert_eq!(PageEntry::mapping(0xABC_DEF0).bits, 0xABC_D003);
}

#[test]
fn mapping_reads_back_through_the_four_levels() {
    let (mut pt, mut fma, root) = fresh();
    let v = 0x0000_1234_5678_9000u64;
    let r = 0x0000_0000_00AB_C000u64;
    let before = fma.next_frame_id();
    map_addr_in(&mut pt, root, &mut fma, r, v);
    assert_eq!(fma.next_frame_id(), before + 3);
    assert_eq!(read_back(&pt, root, v), Some(r));
    assert_eq!(pt.translate_addr(root, v), Some(r));
    let (_, _, _, i1) = get_address_indices_for(v);
    let t3 = pt.read_entry(LEVEL_PML4, root, get_pml4_index_for(v)).get_address();
    let t2 = pt.read_entry(LEVEL_PDP, t3, get_pdp_index_for(v)).get_address();
    let t1 = pt.read_entry(LEVEL_PD, t2, get_pd_index_for(v)).get_address();
    let leaf = pt.read_entry(LEVEL_PT, t1, i1);
    assert!(leaf.contains(PRESENT) && leaf.contains(READWRITE));
}

#[test]
fn remapping_overwrites_the_leaf_entry() {
    let (mut pt, mut fma, root) = fresh();
    let v = 0x0000_0040_0020_3000u64;
    map_addr_in(&mut pt, root, &mut fma, 0x5000, v);
    let after_first = fma.next_frame_id();
    map_addr_in(&mut pt, root, &mut fma, 0x9000, v);
    assert_eq!(fma.next_frame_id(), after_first);
    assert_eq!(read_back(&pt, root, v), Some(0x9000));
}

#[test]
fn neighbouring_pages_share_tables() {
    let (mut pt, mut fma, root) = fresh();
    map_addr_in(&mut pt, root, &mut fma, 0x10_0000, 0x40_0000);
    let after_first = fma.next_frame_id();
    map_addr_in(&mut pt, root, &mut fma, 0x20_0000, 0x40_1000);
    assert_eq!(fma.next_frame_id(), after_first);
    assert_eq!(read_back(&pt, root, 0x40_0000), Some(0x10_0000));
    assert_eq!(read_back(&pt, root, 0x40_1000), Some(0x20_0000));
    assert_eq!(read_back(&pt, root, 0x40_2000), None);
}

#[test]
fn unaligned_physical_addresses_map_their_page() {
    let (mut pt, mut fma, root) = fresh();
    map_addr_in(&mut pt, root, &mut fma, 0x7123, 0x8000);
    assert_eq!(read_back(&pt, root, 0x8000), Some(0x7000));
    assert_eq!(0x7123 & ADDRESS_MASK, 0x7000);
}

#[test]
fn map_current_uses_the_active_root() {
    let (mut pt, mut fma, root) = fresh();
    map_addr_current(&mut pt, &mut fma, 0xFEE0_0000, 0xFEE0_0000);
    assert_eq!(read_back(&pt, root, 0xFEE0_0000), Some(0xFEE0_0000));
}

#[test]
fn remap_kernel_maps_the_first_two_megabytes_high() {
    let mut fma = init(16 * 1024 * 1024, 4096, KERNEL_BASE + 0x10_0000).unwrap();
    let mut pt = PageTables::new(0x9000);
    let first = fma.next_frame_id();
    remap_kernel(&mut pt, &mut fma);
    let root = pt.get_page_directory();
    assert_eq!(root, first * PAGE_SIZE);
    assert_eq!(fma.next_frame_id(), first + 4);
    for i in 0..512u64 {
        assert_eq!(read_back(&pt, root, KERNEL_BASE + i * 4096), Some(i * 4096));
    }
    assert_eq!(read_back(&pt, root, KERNEL_BASE + 512 * 4096), None);
    assert_eq!(read_back(&pt, root, KERNEL_BASE - 4096), None);
    assert_eq!(read_back(&pt, root, 0), None);
    let (i4, i3, i2, _) = get_address_indices_for(KERNEL_BASE);
    let e4 = pt.read_entry(LEVEL_PML4, root, i4);
    let e3 = pt.read_entry(LEVEL_PDP, e4.get_address(), i3);
    let e2 = pt.read_entry(LEVEL_PD, e3.get_address(), i2);
    for e in [e4, e3, e2] {
        assert!(e.contains(PRESENT) && e.contains(READWRITE) && !e.contains(USERSUPERVISOR));
    }
}

#[test]
fn held_tables_list_every_written_table() {
    let (mut pt, mut fma, root) = fresh();
    map_addr_in(&mut pt, root, &mut fma, 0x5000, 0x40_0000);
    let keys = pt.table_keys().clone();
    assert_eq!(keys.len(), 4);
    for (k, (level, addr)) in keys.iter().enumerate() {
        let entries = pt.table_entries(k);
        assert_eq!(entries.len(), 512);
        for i in 0..512u64 {
            assert_eq!(entries[i as usize], pt.read_entry(*level, *addr, i).bits);
        }
    }
    assert!(keys.contains(&(LEVEL_PML4, root)));
}

#[test]
fn new_tables_hold_exactly_one_entry() {
    let (mut pt, mut fma, root) = fresh();
    let first = fma.next_frame_id();
    map_addr_in(&mut pt, root, &mut fma, 0x5000, 0x40_0000);
    let (i4, i3, i2, _) = get_address_indices_for(0x40_0000);
    assert_eq!(pt.read_entry(LEVEL_PML4, root, i4).bits, PageEntry::mapping(first * 4096).bits);
    assert_eq!(pt.read_entry(LEVEL_PDP, first * 4096, i3).bits, PageEntry::mapping((first + 1) * 4096).bits);
    assert_eq!(pt.read_entry(LEVEL_PD, (first + 1) * 4096, i2).bits, PageEntry::mapping((first + 2) * 4096).bits);
    let nonzero = (0..512u64).filter(|i| pt.read_entry(LEVEL_PDP, first * 4096, *i).bits != 0).count();
    assert_eq!(nonzero, 1);
}

#[test]
fn later_mappings_keep_earlier_ones() {
    let (mut pt, mut fma, root) = fresh();
    let pages = [
        (0x0000_0000_0040_0000u64, 0x10_0000u64),
        (0x0000_0080_0000_0000, 0x20_0000),
        (0x0000_0000_4000_0000, 0x30_0000),
        (0x0000_0000_0060_0000, 0x40_0000),
        (0xFFFF_FFFF_8000_0000, 0x50_0000),
        (0x0000_0000_0040_1000, 0x60_0000),
    ];
    for (k, (v, r)) in pages.iter().enumerate() {
        map_addr_in(&mut pt, root, &mut fma, *r, *v);
        for (v2, r2) in pages[..=k].iter() {
            assert_eq!(pt.translate_addr(root, *v2), Some(*r2));
        }
    }
}

#[test]
fn each_new_table_takes_one_frame() {
    let (mut pt, mut fma, root) = fresh();
    let start = fma.next_frame_id();
    map_addr_in(&mut pt, root, &mut fma, 0x1000, 0x40_0000);
    assert_eq!(fma.next_frame_id(), start + 3);
    map_addr_in(&mut pt, root, &mut fma, 0x2000, 0x60_0000);
    assert_eq!(fma.next_frame_id(), start + 4);
    map_addr_in(&mut pt, root, &mut fma, 0x3000, 0x4000_0000);
    assert_eq!(fma.next_frame_id(), start + 6);
    map_addr_in(&mut pt, root, &mut fma, 0x4000, 0x0000_0080_0000_0000);
    assert_eq!(fma.next_frame_id(), start + 9);
}
