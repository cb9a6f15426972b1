//! The bootstrap core's start-up sequence: memory discovery, the frame
//! allocator, the kernel's own page tables, the early heap page, and discovery
//! of the other cores. Waking those cores and idling are left to the caller.
use vstd::prelude::*;
use crate::arch::{early_init, upper_memory_bytes, BootError, KERNEL_BASE, MULTIBOOT_SIGNATURE, PAGE_SIZE};
use crate::heap::HEAP_START;
use crate::pmm::{init, Frame, FrameAllocator, MIN_MEMORY};
use crate::smp::{bring_up_processors, listed_lapic_addr, listed_processors, tables_usable, BringUp};
use crate::vmm::{
    kernel_page, lemma_frame_address_aligned, lemma_kernel_page_number, map_addr_current,
    page_number, remap_kernel, PageTables,
};

verus! {

/// State of the kernel once the bootstrap core has started up.
pub struct Kernel {
    pub allocator: FrameAllocator,
    pub page_tables: PageTables,
    /// The frame that backs the first page of the early heap.
    pub heap_frame: Frame,
    pub bring_up: BringUp,
}

/// The memory size given to the frame allocator: the discovered size, capped
/// at what 32 bits hold.
pub open spec fn allocator_memory(bytes: u64) -> u32 {
    if bytes > u32::MAX {
        u32::MAX
    } else {
        bytes as u32
    }
}

/// Mapping the interrupt controller that the tables in `mem` name leaves the
/// page of `v` alone: there are no usable tables, or the controller's
/// registers lie in another page.
pub open spec fn lapic_spares(mem: Seq<u8>, v: u64) -> bool {
    !tables_usable(mem) || page_number(v) != page_number(listed_lapic_addr(mem) as u64)
}

/// Index of the first free frame when the kernel image ends at `kernel_end`.
pub open spec fn first_free_frame(kernel_end: u64) -> int {
    (kernel_end - KERNEL_BASE + 2 * PAGE_SIZE) / (PAGE_SIZE as int)
}

/// Starts the kernel on the bootstrap core from what the boot loader left
/// (`mboot_sig`, the upper memory size in KiB), the end of the kernel image,
/// the boot-time top table, the bytes of low physical memory and the value of
/// the interrupt controller's spurious-interrupt vector register.
pub fn kmain(
    mboot_sig: u32,
    upper_memory_kib: Option<u32>,
    kernel_end: u64,
    boot_root: u64,
    low_memory: &[u8],
    lapic_svr: u32,
) -> (r: Result<Kernel, BootError>)
    requires
        KERNEL_BASE <= kernel_end,
    ensures
        mboot_sig != MULTIBOOT_SIGNATURE ==> r matches Err(BootError::InvalidSignature),
        mboot_sig == MULTIBOOT_SIGNATURE && upper_memory_kib is None ==> r matches Err(
            BootError::NoMemoryInfo,
        ),
        mboot_sig == MULTIBOOT_SIGNATURE ==> (upper_memory_kib matches Some(kib) ==> (
        allocator_memory(upper_memory_bytes(kib)) < MIN_MEMORY <==> r matches Err(
            BootError::InsufficientMemory,
        ))),
        mboot_sig == MULTIBOOT_SIGNATURE ==> (upper_memory_kib matches Some(kib) ==> (
        allocator_memory(upper_memory_bytes(kib)) >= MIN_MEMORY ==> r is Ok)),
        r matches Ok(k) ==> {
            &&& k.allocator.wf()
            &&& k.page_tables.wf()
            &&& k.page_tables.root_table() == first_free_frame(kernel_end) * PAGE_SIZE
            &&& k.heap_frame.frame_id == first_free_frame(kernel_end) + 4
            &&& forall|j: int|
                0 <= j < 512 && lapic_spares(low_memory@, kernel_page(j)) ==> #[trigger] k.page_tables.translate(
                    k.page_tables.root_table(),
                    kernel_page(j),
                ) == Some((j * 4096) as u64)
            &&& lapic_spares(low_memory@, HEAP_START) ==> k.page_tables.translate(
                k.page_tables.root_table(),
                HEAP_START,
            ) == Some((k.heap_frame.frame_id * PAGE_SIZE) as u64)
            &&& k.bring_up.processor_count == if tables_usable(low_memory@) {
                listed_processors(low_memory@).len()
            } else {
                1
            }
        },
{
    let (mem_sz, page_sz) = match early_init(mboot_sig, upper_memory_kib) {
        Ok(p) => p,
        Err(e) => return Err(e),
    };
    let mem: u32 = if mem_sz > u32::MAX as u64 {
        u32::MAX
    } else {
        mem_sz as u32
    };
    let mut fma = match init(mem, page_sz as u32, kernel_end) {
        Ok(a) => a,
        Err(_) => return Err(BootError::InsufficientMemory),
    };
    proof {
        vstd::arithmetic::div_mod::lemma_div_is_ordered(
            (kernel_end - KERNEL_BASE + 2 * PAGE_SIZE) as int,
            0x8000_1FFF,
            4096,
        );
        assert(0x8000_1FFFint / 4096 == 0x80001);
    }
    let mut pt = PageTables::new(boot_root);
    remap_kernel(&mut pt, &mut fma);
    let ghost root = pt.root_table();
    let ghost p_remapped = pt;
    let heap_frame = fma.allocate_frame();
    proof {
        p_remapped.lemma_sound_grows((fma.next_id() - 1) * PAGE_SIZE, fma.next_id() * PAGE_SIZE);
        lemma_frame_address_aligned(heap_frame.frame_id);
    }
    map_addr_current(&mut pt, &mut fma, heap_frame.frame_addr(), HEAP_START);
    let ghost p_heap = pt;
    proof {
        lemma_kernel_page_number(512);
        assert(HEAP_START == kernel_page(512));
        assert forall|j: int| 0 <= j < 512 implies #[trigger] p_heap.translate(root, kernel_page(j))
            == Some((j * 4096) as u64) by {
            lemma_kernel_page_number(j as u64);
            assert(p_remapped.translate(root, kernel_page(j)) == Some((j * 4096) as u64));
        }
    }
    let bring_up = bring_up_processors(&mut fma, &mut pt, low_memory, lapic_svr);
    proof {
        assert forall|j: int| 0 <= j < 512 && lapic_spares(low_memory@, kernel_page(j)) implies
            #[trigger] pt.translate(pt.root_table(), kernel_page(j)) == Some((j * 4096) as u64) by {
            assert(p_heap.translate(root, kernel_page(j)) == Some((j * 4096) as u64));
        }
    }
    Ok(Kernel { allocator: fma, page_tables: pt, heap_frame, bring_up })
}

} // verus!
