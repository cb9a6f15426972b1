//! Physical frame allocator: hands out page frames by bumping a cursor.
use vstd::prelude::*;
use crate::arch::{KERNEL_BASE, PAGE_SIZE};

verus! {

/// Number of 4 KiB frames in the 52-bit physical address space of amd64.
pub const MAX_FRAMES: u64 = 0x100_0000_0000;

/// Smallest amount of memory the kernel accepts at boot: 1 MiB.
pub const MIN_MEMORY: u32 = 0x10_0000;

/// One physical page, identified by its index.
#[derive(Clone, Copy, Debug, PartialEq, Eq, Structural)]
pub struct Frame {
    pub frame_id: u64,
}

impl Frame {
    /// Physical address of this frame for pages of `page_size` bytes.
    pub fn frame_addr_with(&self, page_size: u64) -> (r: u64)
        requires
            self.frame_id * page_size <= u64::MAX,
        ensures
            r == self.frame_id * page_size,
    {
        self.frame_id * page_size
    }

    /// Physical address of this frame for the architecture's page size.
    pub fn frame_addr(&self) -> (r: u64)
        requires
            self.frame_id < MAX_FRAMES,
        ensures
            r == self.frame_id * PAGE_SIZE,
            r < 0x10_0000_0000_0000,
    {
        self.frame_id * PAGE_SIZE
    }

    /// The frame with index `id`.
    pub fn get_frame_by_id(id: u64) -> (r: Frame)
        ensures
            r.frame_id == id,
    {
        Frame { frame_id: id }
    }

    /// The frame that holds `address`, for pages of `page_size` bytes.
    pub fn get_frame_for(address: u64, page_size: u64) -> (r: Frame)
        requires
            page_size > 0,
        ensures
            r.frame_id == address / page_size,
    {
        Frame::get_frame_by_id(address / page_size)
    }
}

/// Why the frame allocator could not be set up.
#[derive(Clone, Copy, Debug, PartialEq, Eq, Structural)]
pub enum PmmError {
    /// Less than `MIN_MEMORY` bytes are available.
    InsufficientMemory,
}

/// Bump allocator over physical frames. Every frame below the cursor is
/// allocated and is never handed out again.
pub struct FrameAllocator {
    next_free_frame: Frame,
    page_size: u64,
}

impl FrameAllocator {
    /// Index of the frame that the next allocation returns.
    pub closed spec fn next_id(&self) -> nat {
        self.next_free_frame.frame_id as nat
    }

    /// Size of a page in bytes.
    pub closed spec fn page_bytes(&self) -> nat {
        self.page_size as nat
    }

    pub open spec fn wf(&self) -> bool {
        &&& self.page_bytes() > 0
        &&& self.next_id() <= MAX_FRAMES
    }

    /// At least `n` more frames fit in the physical address space.
    pub open spec fn has_room(&self, n: nat) -> bool {
        self.next_id() + n <= MAX_FRAMES
    }

    /// The frame that the next allocation returns.
    pub open spec fn next_frame(&self) -> Frame {
        Frame { frame_id: self.next_id() as u64 }
    }

    /// The allocator after `n` allocations.
    pub closed spec fn advanced(self, n: nat) -> FrameAllocator {
        FrameAllocator {
            next_free_frame: Frame { frame_id: (self.next_id() + n) as u64 },
            page_size: self.page_size,
        }
    }

    /// The frame returned by the `k`-th allocation from this state, counting from zero.
    pub open spec fn nth_allocation(self, k: nat) -> Frame {
        self.advanced(k).next_frame()
    }

    pub proof fn lemma_advanced(self, n: nat)
        requires
            self.wf(),
            self.has_room(n),
        ensures
            self.advanced(n).next_id() == self.next_id() + n,
            self.advanced(n).page_bytes() == self.page_bytes(),
            self.advanced(n).wf(),
            forall|m: nat| #[trigger] self.advanced(n).advanced(m) == self.advanced(n + m),
            n == 0 ==> self.advanced(n) == self,
    {
    }

    /// Size of a page in bytes.
    pub fn page_size(&self) -> (r: u64)
        ensures
            r == self.page_bytes(),
    {
        self.page_size
    }

    /// Index of the next frame the allocator hands out.
    pub fn next_frame_id(&self) -> (r: u64)
        ensures
            r == self.next_id(),
    {
        self.next_free_frame.frame_id
    }

    /// Returns the next free frame and moves the cursor past it. Never fails:
    /// exhaustion of the memory actually present is not detected.
    pub fn allocate_frame(&mut self) -> (r: Frame)
        requires
            old(self).wf(),
            old(self).has_room(1),
        ensures
            r == old(self).next_frame(),
            *final(self) == old(self).advanced(1),
            final(self).wf(),
            final(self).next_id() == old(self).next_id() + 1,
            final(self).page_bytes() == old(self).page_bytes(),
    {
        let ret = self.next_free_frame;
        self.next_free_frame = Frame::get_frame_by_id(ret.frame_id + 1);
        ret
    }

    /// Releases a frame. Frames are not reclaimed yet, so this does nothing.
    pub fn free_frame(&mut self, frame: Frame)
        ensures
            *final(self) == *old(self),
    {
    }
}

/// Any run of allocations from one allocator state yields consecutive frames:
/// the `k`-th of them, counting from zero, lies `k` pages above the first, and
/// no frame is returned twice.
pub proof fn lemma_allocation_run(a: FrameAllocator, n: nat)
    requires
        a.wf(),
        a.has_room(n),
        (a.next_id() + n) * a.page_bytes() <= u64::MAX,
    ensures
        forall|k: nat|
            k < n ==> (#[trigger] a.nth_allocation(k)).frame_id * a.page_bytes() == a.next_id()
                * a.page_bytes() + k * a.page_bytes(),
        forall|k: nat| k < n ==> (#[trigger] a.nth_allocation(k)).frame_id * a.page_bytes() <= u64::MAX,
        forall|i: nat, j: nat|
            i < j < n ==> #[trigger] a.nth_allocation(i) != #[trigger] a.nth_allocation(j),
{
    assert forall|k: nat| k < n implies (#[trigger] a.nth_allocation(k)).frame_id * a.page_bytes()
        == a.next_id() * a.page_bytes() + k * a.page_bytes() && a.nth_allocation(k).frame_id
        * a.page_bytes() <= u64::MAX by {
        a.lemma_advanced(k);
        vstd::arithmetic::mul::lemma_mul_is_distributive_add_other_way(
            a.page_bytes() as int,
            a.next_id() as int,
            k as int,
        );
        vstd::arithmetic::mul::lemma_mul_inequality(
            (a.next_id() + k) as int,
            (a.next_id() + n) as int,
            a.page_bytes() as int,
        );
    }
    assert forall|i: nat, j: nat| i < j < n implies #[trigger] a.nth_allocation(i)
        != #[trigger] a.nth_allocation(j) by {
        a.lemma_advanced(i);
        a.lemma_advanced(j);
    }
}

/// Sets up the frame allocator for `mem_size` bytes of memory in pages of
/// `page_size` bytes. The first free frame is the one holding the address two
/// pages past `kernel_end`, the virtual end of the loaded kernel image.
pub fn init(mem_size: u32, page_size: u32, kernel_end: u64) -> (r: Result<FrameAllocator, PmmError>)
    requires
        page_size > 0,
        KERNEL_BASE <= kernel_end,
    ensures
        mem_size < MIN_MEMORY <==> r is Err,
        r matches Ok(a) ==> {
            &&& a.wf()
            &&& a.page_bytes() == page_size
            &&& a.next_id() == (kernel_end - KERNEL_BASE + 2 * page_size) / (page_size as int)
        },
{
    if mem_size < MIN_MEMORY {
        return Err(PmmError::InsufficientMemory);
    }
    let first = Frame::get_frame_for(
        kernel_end - KERNEL_BASE + 2 * (page_size as u64),
        page_size as u64,
    );
    proof {
        vstd::arithmetic::div_mod::lemma_div_is_ordered_by_denominator(
            (kernel_end - KERNEL_BASE + 2 * page_size) as int,
            1,
            page_size as int,
        );
    }
    Ok(FrameAllocator { next_free_frame: first, page_size: page_size as u64 })
}

} // verus!
