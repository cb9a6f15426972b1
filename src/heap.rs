//! Alignment arithmetic and the early bump-pointer heap.
use vstd::prelude::*;

verus! {

/// First address of the early kernel heap: 2 MiB above the kernel base.
pub const HEAP_START: u64 = 0xFFFF_FFFF_8020_0000;

/// Size of the early kernel heap: 128 KiB.
pub const HEAP_SIZE: u64 = 0x2_0000;

/// `a` is a power of two.
pub open spec fn is_pow2(a: u64) -> bool {
    a != 0 && a & ((a - 1) as u64) == 0
}

/// `x` is a multiple of the power of two `align`: its low bits below `align` are clear.
pub open spec fn is_aligned(x: u64, align: u64) -> bool {
    x & ((align - 1) as u64) == 0
}

/// `r` is `addr` rounded down to a multiple of the power of two `align`: the one
/// multiple of `align` in `(addr - align, addr]`.
pub open spec fn rounds_down_to(addr: u64, align: u64, r: u64) -> bool {
    &&& r <= addr
    &&& addr - r < align
    &&& is_aligned(r, align)
}

proof fn lemma_mask_rounds_down(addr: u64, align: u64)
    requires
        is_pow2(align),
    ensures
        rounds_down_to(addr, align, addr & !((align - 1) as u64)),
{
    assert(align != 0 && align & ((align - 1) as u64) == 0 ==> {
        &&& addr & !((align - 1) as u64) <= addr
        &&& addr - (addr & !((align - 1) as u64)) < align
        &&& (addr & !((align - 1) as u64)) & ((align - 1) as u64) == 0
    }) by (bit_vector);
}

/// Rounds `addr` down to a multiple of `align`. An alignment of zero gives zero.
pub fn align_down(addr: u64, align: u64) -> (r: u64)
    requires
        align == 0 || is_pow2(align),
    ensures
        align == 0 ==> r == 0,
        align != 0 ==> rounds_down_to(addr, align, r),
{
    if align != 0 && align & (align - 1) == 0 {
        proof {
            lemma_mask_rounds_down(addr, align);
        }
        addr & !(align - 1)
    } else {
        align
    }
}

/// Rounds `addr` up to a multiple of the power of two `align`.
pub fn align_up(addr: u64, align: u64) -> (r: u64)
    requires
        is_pow2(align),
        addr + align - 1 <= u64::MAX,
    ensures
        rounds_down_to((addr + align - 1) as u64, align, r),
        addr <= r,
        r - addr < align,
        is_aligned(r, align),
{
    align_down(addr + (align - 1), align)
}

/// Bump allocator over the early kernel heap `[heap_start, heap_end)`. Memory
/// is never given back.
pub struct SimpleBumpAllocator {
    heap_start: u64,
    heap_end: u64,
    next: u64,
}

impl SimpleBumpAllocator {
    /// First address of the heap.
    pub closed spec fn start(&self) -> u64 {
        self.heap_start
    }

    /// End (exclusive) of the heap.
    pub closed spec fn end(&self) -> u64 {
        self.heap_end
    }

    /// First address not yet handed out.
    pub closed spec fn next_free(&self) -> u64 {
        self.next
    }

    /// An allocator over `[heap_start, heap_end)` with nothing handed out.
    pub fn new(heap_start: u64, heap_end: u64) -> (r: Self)
        ensures
            r.start() == heap_start,
            r.end() == heap_end,
            r.next_free() == heap_start,
    {
        SimpleBumpAllocator { heap_start, heap_end, next: heap_start }
    }

    /// Hands out `size` bytes at the first address from the cursor on that is
    /// a multiple of the power of two `align`, or `None` when they do not fit
    /// below the end of the heap.
    pub fn allocate(&mut self, size: u64, align: u64) -> (r: Option<u64>)
        requires
            is_pow2(align),
        ensures
            final(self).start() == old(self).start(),
            final(self).end() == old(self).end(),
            r matches Some(p) ==> {
                &&& old(self).next_free() + align - 1 <= u64::MAX
                &&& rounds_down_to((old(self).next_free() + align - 1) as u64, align, p)
                &&& p + size <= old(self).end()
                &&& final(self).next_free() == p + size
            },
            r is None ==> {
                &&& *final(self) == *old(self)
                &&& old(self).next_free() + align - 1 <= u64::MAX ==> forall|p: u64|
                    #[trigger] rounds_down_to((old(self).next_free() + align - 1) as u64, align, p)
                        ==> p + size > old(self).end()
            },
    {
        if self.next > u64::MAX - (align - 1) {
            return None;
        }
        let alloc_start = align_up(self.next, align);
        proof {
            assert forall|p: u64|
                #[trigger] rounds_down_to((self.next + align - 1) as u64, align, p) implies p == alloc_start by {
                lemma_round_down_unique((self.next + align - 1) as u64, align, p, alloc_start);
            }
        }
        if alloc_start <= self.heap_end && size <= self.heap_end - alloc_start {
            self.next = alloc_start + size;
            Some(alloc_start)
        } else {
            None
        }
    }

    /// Gives memory back. The heap does not reuse memory, so this does nothing.
    pub fn deallocate(&mut self, ptr: u64, size: u64)
        ensures
            *final(self) == *old(self),
    {
    }
}

proof fn lemma_round_down_unique(addr: u64, align: u64, p: u64, q: u64)
    requires
        is_pow2(align),
        rounds_down_to(addr, align, p),
        rounds_down_to(addr, align, q),
    ensures
        p == q,
{
    assert(align != 0 && align & ((align - 1) as u64) == 0 && p <= addr && addr - p < align && p & ((
    align - 1) as u64) == 0 && q <= addr && addr - q < align && q & ((align - 1) as u64) == 0 ==> p
        == q) by (bit_vector);
}

} // verus!
