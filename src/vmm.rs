//! Page-table manager: the four-level amd64 hierarchy, address decomposition,
//! mapping a virtual page onto a physical one, and remapping the kernel into
//! its high virtual range.
//!
//! Table memory is held by `PageTables`, which records the 512 entries of each
//! table frame in use at each level. A frame that was never written reads as
//! all zeroes.
use vstd::prelude::*;
use crate::arch::{KERNEL_BASE, PAGE_SHIFT, PAGE_SIZE};
use crate::pmm::{Frame, FrameAllocator, MAX_FRAMES};

verus! {

/// Entries in one table at every level.
pub const ENTRY_COUNT: u64 = 512;

/// Entry flag: the entry is valid.
pub const PRESENT: u64 = 0x1;

/// Entry flag: the mapped memory is writable.
pub const READWRITE: u64 = 0x2;

/// Entry flag: the mapped memory is reachable from user mode.
pub const USERSUPERVISOR: u64 = 0x4;

/// Bits of an entry that hold the page-aligned physical address.
pub const ADDRESS_MASK: u64 = 0xFFFF_FFFF_FFFF_F000;

/// Level of the top table (PML4).
pub const LEVEL_PML4: u8 = 4;

/// Level of the upper directory (PDP).
pub const LEVEL_PDP: u8 = 3;

/// Level of the middle directory (PD).
pub const LEVEL_PD: u8 = 2;

/// Level of the leaf table (PT).
pub const LEVEL_PT: u8 = 1;

/// Entry bits with the present flag set.
pub open spec fn is_present(bits: u64) -> bool {
    bits & PRESENT == PRESENT
}

/// The physical address held in entry bits.
pub open spec fn entry_address(bits: u64) -> u64 {
    bits & ADDRESS_MASK
}

/// Entry bits that map `addr` present and writable.
pub open spec fn mapping_entry(addr: u64) -> u64 {
    (addr & ADDRESS_MASK) | PRESENT | READWRITE
}

/// Index of `v`'s entry in the table of `level` (4 = top, 1 = leaf).
pub open spec fn level_index(v: u64, level: u8) -> int {
    if level == LEVEL_PML4 {
        ((v >> 39u64) & 0x1ff) as int
    } else if level == LEVEL_PDP {
        ((v >> 30u64) & 0x1ff) as int
    } else if level == LEVEL_PD {
        ((v >> 21u64) & 0x1ff) as int
    } else {
        ((v >> 12u64) & 0x1ff) as int
    }
}

/// The page number of `v` within the 48-bit virtual address space.
pub open spec fn page_number(v: u64) -> u64 {
    (v >> 12u64) & 0xF_FFFF_FFFF
}

pub proof fn lemma_mapping_entry(addr: u64)
    ensures
        is_present(mapping_entry(addr)),
        entry_address(mapping_entry(addr)) == addr & ADDRESS_MASK,
{
    assert(((addr & 0xFFFF_FFFF_FFFF_F000u64) | 1u64 | 2u64) & 1u64 == 1u64) by (bit_vector);
    assert(((addr & 0xFFFF_FFFF_FFFF_F000u64) | 1u64 | 2u64) & 0xFFFF_FFFF_FFFF_F000u64 == addr
        & 0xFFFF_FFFF_FFFF_F000u64) by (bit_vector);
}

pub(crate) proof fn lemma_frame_address_aligned(id: u64)
    requires
        id < MAX_FRAMES,
    ensures
        (id * 4096) as u64 & ADDRESS_MASK == id * 4096,
{
    assert(id < 0x100_0000_0000u64 ==> ((id * 4096u64) as u64) & 0xFFFF_FFFF_FFFF_F000u64 == (id
        * 4096u64) as u64) by (bit_vector);
}

/// One entry of a table at any level: a present flag, a writable flag, a
/// privilege flag and a page-aligned physical address.
#[derive(Clone, Copy, Debug, PartialEq, Eq, Structural)]
pub struct PageEntry {
    pub bits: u64,
}

impl PageEntry {
    /// The entry with the given raw bits.
    pub fn from_bits(bits: u64) -> (r: PageEntry)
        ensures
            r.bits == bits,
    {
        PageEntry { bits }
    }

    /// Whether every bit of `flag` is set.
    pub fn contains(&self, flag: u64) -> (r: bool)
        ensures
            r == (self.bits & flag == flag),
    {
        self.bits & flag == flag
    }

    /// Sets or clears the bits of `flag`.
    pub fn set(&mut self, flag: u64, value: bool)
        ensures
            final(self).bits == if value {
                old(self).bits | flag
            } else {
                old(self).bits & !flag
            },
    {
        if value {
            self.bits = self.bits | flag;
        } else {
            self.bits = self.bits & !flag;
        }
    }

    /// Adds the page-aligned part of `addr` to the address bits.
    pub fn set_address(&mut self, addr: u64)
        ensures
            final(self).bits == old(self).bits | (addr & ADDRESS_MASK),
    {
        self.bits = self.bits | (addr & ADDRESS_MASK);
    }

    /// The physical address this entry holds.
    pub fn get_address(&self) -> (r: u64)
        ensures
            r == entry_address(self.bits),
    {
        self.bits & ADDRESS_MASK
    }

    /// Resets every bit.
    pub fn clear(&mut self)
        ensures
            final(self).bits == 0,
    {
        self.bits = 0;
    }

    /// The entry that maps `addr` present and writable.
    pub fn mapping(addr: u64) -> (r: PageEntry)
        ensures
            r.bits == mapping_entry(addr),
            is_present(r.bits),
            entry_address(r.bits) == addr & ADDRESS_MASK,
    {
        let mut e = PageEntry { bits: 0 };
        e.clear();
        e.set_address(addr);
        e.set(PRESENT, true);
        e.set(READWRITE, true);
        proof {
            assert(0u64 | (addr & 0xFFFF_FFFF_FFFF_F000u64) == addr & 0xFFFF_FFFF_FFFF_F000u64)
                by (bit_vector);
            lemma_mapping_entry(addr);
        }
        e
    }
}

/// Index into the top table (bits 39 to 47).
pub fn get_pml4_index_for(addr: u64) -> (r: u64)
    ensures
        r == level_index(addr, LEVEL_PML4),
        r < 512,
{
    proof {
        assert((addr >> 39u64) & 0x1ffu64 < 512) by (bit_vector);
    }
    (addr >> 39) & 0x1ff
}

/// Index into the upper directory (bits 30 to 38).
pub fn get_pdp_index_for(addr: u64) -> (r: u64)
    ensures
        r == level_index(addr, LEVEL_PDP),
        r < 512,
{
    proof {
        assert((addr >> 30u64) & 0x1ffu64 < 512) by (bit_vector);
    }
    (addr >> 30) & 0x1ff
}

/// Index into the middle directory (bits 21 to 29).
pub fn get_pd_index_for(addr: u64) -> (r: u64)
    ensures
        r == level_index(addr, LEVEL_PD),
        r < 512,
{
    proof {
        assert((addr >> 21u64) & 0x1ffu64 < 512) by (bit_vector);
    }
    (addr >> 21) & 0x1ff
}

/// Index into the leaf table (bits 12 to 20).
pub fn get_pt_index_for(addr: u64) -> (r: u64)
    ensures
        r == level_index(addr, LEVEL_PT),
        r < 512,
{
    proof {
        assert((addr >> 12u64) & 0x1ffu64 < 512) by (bit_vector);
    }
    (addr >> 12) & 0x1ff
}

proof fn lemma_indices_concatenate(addr: u64)
    ensures
        ((addr >> 39u64) & 0x1ff) * 0x800_0000 + ((addr >> 30u64) & 0x1ff) * 0x4_0000 + ((addr
            >> 21u64) & 0x1ff) * 0x200 + ((addr >> 12u64) & 0x1ff) == page_number(addr),
{
    assert(((addr >> 39u64) & 0x1ffu64) * 0x800_0000u64 + ((addr >> 30u64) & 0x1ffu64) * 0x4_0000u64
        + ((addr >> 21u64) & 0x1ffu64) * 0x200u64 + ((addr >> 12u64) & 0x1ffu64) == (addr >> 12u64)
        & 0xF_FFFF_FFFFu64) by (bit_vector);
}

/// The indices of `addr` into the four levels: (PML4, PDP, PD, PT). Each is
/// below 512, and read as the digits of a base-512 number they give the page
/// number of `addr`.
pub fn get_address_indices_for(addr: u64) -> (r: (u64, u64, u64, u64))
    ensures
        r.0 == level_index(addr, LEVEL_PML4),
        r.1 == level_index(addr, LEVEL_PDP),
        r.2 == level_index(addr, LEVEL_PD),
        r.3 == level_index(addr, LEVEL_PT),
        r.0 < 512 && r.1 < 512 && r.2 < 512 && r.3 < 512,
        r.0 * 0x800_0000 + r.1 * 0x4_0000 + r.2 * 0x200 + r.3 == page_number(addr),
{
    proof {
        lemma_indices_concatenate(addr);
    }
    (get_pml4_index_for(addr), get_pdp_index_for(addr), get_pd_index_for(addr), get_pt_index_for(addr))
}

/// For a 32-bit address, the four indices read as base-512 digits give exactly
/// its page number.
pub proof fn lemma_indices_of_32bit_address(addr: u32)
    ensures
        level_index(addr as u64, LEVEL_PML4) == 0,
        level_index(addr as u64, LEVEL_PDP) < 4,
        level_index(addr as u64, LEVEL_PD) < 512,
        level_index(addr as u64, LEVEL_PT) < 512,
        level_index(addr as u64, LEVEL_PML4) * 0x800_0000 + level_index(addr as u64, LEVEL_PDP)
            * 0x4_0000 + level_index(addr as u64, LEVEL_PD) * 0x200 + level_index(
            addr as u64,
            LEVEL_PT,
        ) == addr >> 12u32,
{
    let a = addr as u64;
    lemma_indices_concatenate(a);
    assert((a >> 39u64) & 0x1ffu64 == 0 && (a >> 30u64) & 0x1ffu64 < 4 && (a >> 21u64) & 0x1ffu64
        < 512 && (a >> 12u64) & 0x1ffu64 < 512 && (a >> 12u64) & 0xF_FFFF_FFFFu64 == (addr >> 12u32)
        as u64) by (bit_vector)
        requires
            a == addr as u64,
    ;
}

/// Virtual address of the `j`-th page of the kernel's high range.
pub open spec fn kernel_page(j: int) -> u64 {
    (KERNEL_BASE + j * 4096) as u64
}

proof fn lemma_kernel_page_indices(j: u64)
    requires
        j < 512,
    ensures
        level_index(kernel_page(j as int), LEVEL_PML4) == 511,
        level_index(kernel_page(j as int), LEVEL_PDP) == 510,
        level_index(kernel_page(j as int), LEVEL_PD) == 0,
        level_index(kernel_page(j as int), LEVEL_PT) == j,
{
    let v = kernel_page(j as int);
    assert(v == 0xFFFF_FFFF_8000_0000u64 + j * 4096u64);
    assert(j < 512u64 && v == 0xFFFF_FFFF_8000_0000u64 + j * 4096u64 ==> {
        &&& (v >> 39u64) & 0x1ffu64 == 511u64
        &&& (v >> 30u64) & 0x1ffu64 == 510u64
        &&& (v >> 21u64) & 0x1ffu64 == 0u64
        &&& (v >> 12u64) & 0x1ffu64 == j
    }) by (bit_vector);
}

spec fn holds_in(keys: Seq<(u8, u64)>, level: u8, t: u64) -> bool {
    exists|k: int| 0 <= k < keys.len() && #[trigger] keys[k] == (level, t)
}

spec fn slot_of(keys: Seq<(u8, u64)>, level: u8, t: u64) -> int {
    choose|k: int| 0 <= k < keys.len() && #[trigger] keys[k] == (level, t)
}

pub(crate) proof fn lemma_kernel_page_number(j: u64)
    requires
        j <= 512,
    ensures
        page_number(kernel_page(j as int)) == 0xF_FFF8_0000 + j,
{
    let v = kernel_page(j as int);
    assert(v == 0xFFFF_FFFF_8000_0000u64 + j * 4096u64);
    assert(j <= 512u64 && v == 0xFFFF_FFFF_8000_0000u64 + j * 4096u64 ==> (v >> 12u64)
        & 0xF_FFFF_FFFFu64 == 0xF_FFF8_0000u64 + j) by (bit_vector);
}

/// Table memory of the paging hierarchy and the active root register.
///
/// Each table frame in use at a level holds 512 entries; the frames are kept
/// apart by level, and a frame never written reads as all zeroes.
pub struct PageTables {
    keys: Vec<(u8, u64)>,
    tables: Vec<Vec<u64>>,
    root: u64,
}

impl PageTables {
    pub closed spec fn wf(&self) -> bool {
        &&& self.keys@.len() == self.tables@.len()
        &&& forall|k: int| 0 <= k < self.tables@.len() ==> (#[trigger] self.tables@[k])@.len() == 512
        &&& forall|a: int, b: int|
            0 <= a < b < self.keys@.len() ==> #[trigger] self.keys@[a] != #[trigger] self.keys@[b]
    }

    closed spec fn holds(&self, level: u8, t: u64) -> bool {
        holds_in(self.keys@, level, t)
    }

    closed spec fn slot(&self, level: u8, t: u64) -> int {
        slot_of(self.keys@, level, t)
    }

    /// Entry `i` of the table at physical address `t` used at `level`.
    pub closed spec fn read(&self, level: u8, t: u64, i: int) -> u64 {
        if self.holds(level, t) && 0 <= i < 512 {
            self.tables@[self.slot(level, t)]@[i]
        } else {
            0
        }
    }

    /// Physical address of the active top table.
    pub closed spec fn root_table(&self) -> u64 {
        self.root
    }

    /// Where entry `i` of table `t` at `level` present points to, if it is present.
    pub open spec fn next_table(&self, level: u8, t: u64, i: int) -> Option<u64> {
        if is_present(self.read(level, t, i)) {
            Some(entry_address(self.read(level, t, i)))
        } else {
            None
        }
    }

    /// The table that the walk for `v` from `root` reaches at `level`.
    pub open spec fn table_at(&self, root: u64, v: u64, level: u8) -> Option<u64> {
        if level == LEVEL_PML4 {
            Some(root)
        } else if level == LEVEL_PDP {
            self.next_table(LEVEL_PML4, root, level_index(v, LEVEL_PML4))
        } else if level == LEVEL_PD {
            match self.next_table(LEVEL_PML4, root, level_index(v, LEVEL_PML4)) {
                Some(t3) => self.next_table(LEVEL_PDP, t3, level_index(v, LEVEL_PDP)),
                None => None,
            }
        } else {
            match self.next_table(LEVEL_PML4, root, level_index(v, LEVEL_PML4)) {
                Some(t3) => match self.next_table(LEVEL_PDP, t3, level_index(v, LEVEL_PDP)) {
                    Some(t2) => self.next_table(LEVEL_PD, t2, level_index(v, LEVEL_PD)),
                    None => None,
                },
                None => None,
            }
        }
    }

    /// The physical page that `v` maps to through the hierarchy at `root`.
    pub open spec fn translate(&self, root: u64, v: u64) -> Option<u64> {
        match self.table_at(root, v, LEVEL_PT) {
            Some(t1) => self.next_table(LEVEL_PT, t1, level_index(v, LEVEL_PT)),
            None => None,
        }
    }

    /// The entry the walk for `v` from `root` reads at `level` exists and is
    /// present and writable.
    pub open spec fn entry_on_walk_writable(&self, root: u64, v: u64, level: u8) -> bool {
        match self.table_at(root, v, level) {
            Some(t) => is_present(self.read(level, t, level_index(v, level))) && is_writable(
                self.read(level, t, level_index(v, level)),
            ),
            None => false,
        }
    }

    /// Every entry the walk for `v` from `root` reads is present and writable.
    pub open spec fn walk_writable(&self, root: u64, v: u64) -> bool {
        forall|l: u8| LEVEL_PT <= l <= LEVEL_PML4 ==> #[trigger] self.entry_on_walk_writable(root, v, l)
    }

    /// Entry `(level, t, i)` is one the walk for `v` from `root` reads.
    pub open spec fn on_path(&self, root: u64, v: u64, level: u8, t: u64, i: int) -> bool {
        &&& LEVEL_PT <= level <= LEVEL_PML4
        &&& self.table_at(root, v, level) == Some(t)
        &&& i == level_index(v, level)
    }

    /// Both hold the same entries everywhere but at `(level, t, i)`, and the same root.
    pub open spec fn agrees_except(&self, other: &PageTables, level: u8, t: u64, i: int) -> bool {
        &&& self.root_table() == other.root_table()
        &&& forall|l: u8, u: u64, j: int|
            !(l == level && u == t && j == i) ==> #[trigger] self.read(l, u, j) == other.read(
                l,
                u,
                j,
            )
    }

    /// Every present entry of the directory levels (2 to 4) points below
    /// `bound`, and no two present entries of one level point to the same table.
    pub open spec fn directory_sound(&self, bound: int) -> bool {
        &&& forall|l: u8, t: u64, i: int|
            LEVEL_PD <= l <= LEVEL_PML4 && is_present(#[trigger] self.read(l, t, i)) ==> entry_address(
                self.read(l, t, i),
            ) < bound
        &&& forall|l: u8, t1: u64, i1: int, t2: u64, i2: int|
            LEVEL_PD <= l <= LEVEL_PML4 && (t1 != t2 || i1 != i2) && is_present(
                #[trigger] self.read(l, t1, i1),
            ) && is_present(#[trigger] self.read(l, t2, i2)) ==> entry_address(self.read(l, t1, i1))
                != entry_address(self.read(l, t2, i2))
    }

    proof fn lemma_slot(&self, k: int)
        requires
            self.wf(),
            0 <= k < self.keys@.len(),
        ensures
            self.holds(self.keys@[k].0, self.keys@[k].1),
            self.slot(self.keys@[k].0, self.keys@[k].1) == k,
    {
        let (l, t) = self.keys@[k];
        assert(self.keys@[k] == (l, t));
        assert(self.holds(l, t));
    }

    /// Empty table memory whose active root is `root`.
    pub fn new(root: u64) -> (r: PageTables)
        ensures
            r.wf(),
            r.root_table() == root,
            forall|l: u8, t: u64, i: int| #[trigger] r.read(l, t, i) == 0,
            r.directory_sound(0),
    {
        let r = PageTables { keys: Vec::new(), tables: Vec::new(), root };
        proof {
            assert(0u64 & 1u64 == 0) by (bit_vector);
            assert forall|l: u8, t: u64, i: int| #[trigger] r.read(l, t, i) == 0 by {
                assert(!r.holds(l, t));
            }
        }
        r
    }

    /// Physical address of the active top table.
    pub fn get_page_directory(&self) -> (r: u64)
        ensures
            r == self.root_table(),
    {
        self.root
    }

    /// Makes the table at `pml4` the active top table.
    pub fn set_page_directory(&mut self, pml4: u64)
        requires
            old(self).wf(),
        ensures
            final(self).wf(),
            final(self).root_table() == pml4,
            forall|l: u8, t: u64, i: int| #[trigger] final(self).read(l, t, i) == old(self).read(l, t, i),
            forall|b: int| old(self).directory_sound(b) ==> #[trigger] final(self).directory_sound(b),
    {
        let ghost before = *self;
        self.root = pml4;
        assert forall|l: u8, t: u64, i: int| #[trigger] self.read(l, t, i) == before.read(l, t, i) by {
            assert(self.keys@ == before.keys@ && self.tables@ == before.tables@);
        }
        assert forall|b: int| before.directory_sound(b) implies #[trigger] self.directory_sound(b) by {
            assert forall|l: u8, t1: u64, i1: int, t2: u64, i2: int|
                LEVEL_PD <= l <= LEVEL_PML4 && (t1 != t2 || i1 != i2) && is_present(
                    #[trigger] self.read(l, t1, i1),
                ) && is_present(#[trigger] self.read(l, t2, i2)) implies entry_address(
                self.read(l, t1, i1),
            ) != entry_address(self.read(l, t2, i2)) by {
                assert(self.read(l, t1, i1) == before.read(l, t1, i1));
                assert(self.read(l, t2, i2) == before.read(l, t2, i2));
            }
        }
    }

    /// Soundness below a bound holds below every larger bound.
    pub proof fn lemma_sound_grows(&self, b: int, b2: int)
        requires
            self.directory_sound(b),
            b <= b2,
        ensures
            self.directory_sound(b2),
    {
    }

    fn find(&self, level: u8, t: u64) -> (r: Option<usize>)
        requires
            self.wf(),
        ensures
            match r {
                Some(k) => k < self.keys@.len() && self.keys@[k as int] == (level, t),
                None => !self.holds(level, t),
            },
    {
        let mut k: usize = 0;
        while k < self.keys.len()
            invariant
                k <= self.keys@.len(),
                forall|j: int| 0 <= j < k ==> self.keys@[j] != (level, t),
            decreases self.keys@.len() - k,
        {
            if self.keys[k].0 == level && self.keys[k].1 == t {
                return Some(k);
            }
            k = k + 1;
        }
        None
    }

    fn zeroed_table() -> (r: Vec<u64>)
        ensures
            r@.len() == 512,
            forall|i: int| 0 <= i < 512 ==> r@[i] == 0,
    {
        let mut v: Vec<u64> = Vec::new();
        let mut n: usize = 0;
        while n < 512
            invariant
                n <= 512,
                v@.len() == n,
                forall|i: int| 0 <= i < n ==> v@[i] == 0,
            decreases 512 - n,
        {
            v.push(0);
            n = n + 1;
        }
        v
    }

    /// Entry `i` of the table at `t` used at `level`.
    pub fn read_entry(&self, level: u8, t: u64, i: u64) -> (r: PageEntry)
        requires
            self.wf(),
            i < 512,
        ensures
            r.bits == self.read(level, t, i as int),
    {
        match self.find(level, t) {
            Some(k) => {
                proof {
                    self.lemma_slot(k as int);
                }
                PageEntry { bits: self.tables[k][i as usize] }
            },
            None => PageEntry { bits: 0 },
        }
    }

    fn write_entry(&mut self, level: u8, t: u64, i: u64, value: u64)
        requires
            old(self).wf(),
            i < 512,
        ensures
            final(self).wf(),
            final(self).root_table() == old(self).root_table(),
            forall|l: u8, u: u64, j: int| #[trigger]
                final(self).read(l, u, j) == if l == level && u == t && j == i {
                    value
                } else {
                    old(self).read(l, u, j)
                },
    {
        let ghost before = *self;
        match self.find(level, t) {
            Some(k) => {
                proof {
                    before.lemma_slot(k as int);
                }
                let mut table = self.tables[k].clone();
                proof {
                    assert(table@ =~= before.tables@[k as int]@);
                }
                table.set(i as usize, value);
                self.tables.set(k, table);
                assert(self.keys@ == before.keys@);
                assert forall|m: int| 0 <= m < self.tables@.len() implies (
                #[trigger] self.tables@[m])@.len() == 512 by {
                    if m != k {
                        assert(self.tables@[m] == before.tables@[m]);
                    }
                }
                assert(self.wf());
                assert forall|l: u8, u: u64, j: int| #[trigger]
                    self.read(l, u, j) == if l == level && u == t && j == i {
                        value
                    } else {
                        before.read(l, u, j)
                    } by {
                    if before.holds(l, u) {
                        let s = before.slot(l, u);
                        before.lemma_slot(s);
                        self.lemma_slot(s);
                    } else {
                        assert(!self.holds(l, u));
                    }
                }
            },
            None => {
                let mut table = PageTables::zeroed_table();
                table.set(i as usize, value);
                self.keys.push((level, t));
                self.tables.push(table);
                let n = self.keys.len() - 1;
                assert forall|m: int| 0 <= m < self.tables@.len() implies (
                #[trigger] self.tables@[m])@.len() == 512 by {
                    if m < n {
                        assert(self.tables@[m] == before.tables@[m]);
                    }
                }
                assert forall|x: int, y: int| 0 <= x < y < self.keys@.len() implies #[trigger]
                self.keys@[x] != #[trigger] self.keys@[y] by {
                    if y == n {
                        assert(before.keys@[x] == self.keys@[x]);
                    } else {
                        assert(before.keys@[x] == self.keys@[x] && before.keys@[y] == self.keys@[y]);
                    }
                }
                assert(self.wf());
                proof {
                    self.lemma_slot(n as int);
                }
                assert forall|l: u8, u: u64, j: int| #[trigger]
                    self.read(l, u, j) == if l == level && u == t && j == i {
                        value
                    } else {
                        before.read(l, u, j)
                    } by {
                    if before.holds(l, u) {
                        let s = before.slot(l, u);
                        before.lemma_slot(s);
                        self.lemma_slot(s);
                    } else if !(l == level && u == t) {
                        if self.holds(l, u) {
                            let s = self.slot(l, u);
                            self.lemma_slot(s);
                            assert(before.keys@[s] == (l, u));
                        }
                    }
                }
            },
        }
    }

    fn zero_table(&mut self, level: u8, t: u64)
        requires
            old(self).wf(),
        ensures
            final(self).wf(),
            final(self).root_table() == old(self).root_table(),
            forall|l: u8, u: u64, j: int| #[trigger]
                final(self).read(l, u, j) == if l == level && u == t {
                    0
                } else {
                    old(self).read(l, u, j)
                },
    {
        let ghost before = *self;
        match self.find(level, t) {
            Some(k) => {
                proof {
                    before.lemma_slot(k as int);
                }
                let table = PageTables::zeroed_table();
                self.tables.set(k, table);
                assert(self.keys@ == before.keys@);
                assert forall|m: int| 0 <= m < self.tables@.len() implies (
                #[trigger] self.tables@[m])@.len() == 512 by {
                    if m != k {
                        assert(self.tables@[m] == before.tables@[m]);
                    }
                }
                assert(self.wf());
                assert forall|l: u8, u: u64, j: int| #[trigger]
                    self.read(l, u, j) == if l == level && u == t {
                        0
                    } else {
                        before.read(l, u, j)
                    } by {
                    if before.holds(l, u) {
                        let s = before.slot(l, u);
                        before.lemma_slot(s);
                        self.lemma_slot(s);
                    }
                }
            },
            None => {},
        }
    }

    /// The physical page that `v` maps to through the hierarchy at `root`.
    pub fn translate_addr(&self, root: u64, v: u64) -> (r: Option<u64>)
        requires
            self.wf(),
        ensures
            r == self.translate(root, v),
    {
        let (pml4_idx, pdp_idx, pd_idx, pt_idx) = get_address_indices_for(v);
        let e4 = self.read_entry(LEVEL_PML4, root, pml4_idx);
        if !e4.contains(PRESENT) {
            return None;
        }
        let e3 = self.read_entry(LEVEL_PDP, e4.get_address(), pdp_idx);
        if !e3.contains(PRESENT) {
            return None;
        }
        let e2 = self.read_entry(LEVEL_PD, e3.get_address(), pd_idx);
        if !e2.contains(PRESENT) {
            return None;
        }
        let e1 = self.read_entry(LEVEL_PT, e2.get_address(), pt_idx);
        if !e1.contains(PRESENT) {
            return None;
        }
        Some(e1.get_address())
    }

    /// The tables held, as (level, physical address), in the order they were
    /// first written.
    pub closed spec fn held(&self) -> Seq<(u8, u64)> {
        self.keys@
    }

    /// The tables held, as (level, physical address): each appears once, and
    /// every table with an entry that is not zero is among them.
    pub fn table_keys(&self) -> (r: &Vec<(u8, u64)>)
        requires
            self.wf(),
        ensures
            r@ == self.held(),
            forall|a: int, b: int| 0 <= a < b < r@.len() ==> r@[a] != r@[b],
            forall|l: u8, t: u64, i: int|
                #[trigger] self.read(l, t, i) != 0 ==> exists|k: int| 0 <= k < r@.len() && r@[k] == (l, t),
    {
        &self.keys
    }

    /// The 512 entries of the `k`-th table held.
    pub fn table_entries(&self, k: usize) -> (r: &Vec<u64>)
        requires
            self.wf(),
            k < self.held().len(),
        ensures
            r@.len() == 512,
            forall|i: int| 0 <= i < 512 ==> r@[i] == self.read(self.held()[k as int].0, self.held()[k as int].1, i),
    {
        proof {
            self.lemma_slot(k as int);
        }
        &self.tables[k]
    }

    /// Zeroes the table in frame `fr` for use at `level`; returns its address.
    pub fn new_table(&mut self, level: u8, fr: Frame) -> (r: u64)
        requires
            old(self).wf(),
            fr.frame_id < MAX_FRAMES,
        ensures
            final(self).wf(),
            r == fr.frame_id * PAGE_SIZE,
            final(self).root_table() == old(self).root_table(),
            forall|l: u8, u: u64, j: int| #[trigger]
                final(self).read(l, u, j) == if l == level && u == r {
                    0
                } else {
                    old(self).read(l, u, j)
                },
            forall|b: int| old(self).directory_sound(b) ==> #[trigger] final(self).directory_sound(b),
    {
        let ghost before = *self;
        let addr = fr.frame_addr();
        self.zero_table(level, addr);
        proof {
            assert(0u64 & 1u64 == 0) by (bit_vector);
            assert forall|b: int| before.directory_sound(b) implies #[trigger] self.directory_sound(b) by {
                assert forall|l: u8, t: u64, i: int|
                    LEVEL_PD <= l <= LEVEL_PML4 && is_present(
                        #[trigger] self.read(l, t, i),
                    ) implies entry_address(self.read(l, t, i)) < b by {
                    assert(self.read(l, t, i) == before.read(l, t, i));
                }
                assert forall|l: u8, t1: u64, i1: int, t2: u64, i2: int|
                    LEVEL_PD <= l <= LEVEL_PML4 && (t1 != t2 || i1 != i2) && is_present(
                        #[trigger] self.read(l, t1, i1),
                    ) && is_present(#[trigger] self.read(l, t2, i2)) implies entry_address(
                    self.read(l, t1, i1),
                ) != entry_address(self.read(l, t2, i2)) by {
                    assert(self.read(l, t1, i1) == before.read(l, t1, i1));
                    assert(self.read(l, t2, i2) == before.read(l, t2, i2));
                }
            }
        }
        addr
    }

    /// Follows entry `i` of table `t` at `level` to the table one level down,
    /// installing a freshly allocated zeroed table there first if the entry is
    /// not present.
    fn table_below(&mut self, fma: &mut FrameAllocator, level: u8, t: u64, i: u64) -> (r: u64)
        requires
            old(self).wf(),
            old(fma).wf(),
            old(fma).has_room(1),
            LEVEL_PD <= level <= LEVEL_PML4,
            i < 512,
        ensures
            final(self).wf(),
            final(fma).wf(),
            final(self).root_table() == old(self).root_table(),
            final(self).next_table(level, t, i as int) == Some(r),
            old(fma).next_id() <= final(fma).next_id() <= old(fma).next_id() + 1,
            final(fma).page_bytes() == old(fma).page_bytes(),
            old(self).next_table(level, t, i as int) matches Some(x) ==> {
                &&& r == x
                &&& *final(fma) == *old(fma)
                &&& forall|l: u8, u: u64, j: int| #[trigger]
                    final(self).read(l, u, j) == old(self).read(l, u, j)
            },
            old(self).directory_sound(old(fma).next_id() * PAGE_SIZE) ==> final(self).directory_sound(
                final(fma).next_id() * PAGE_SIZE,
            ),
            old(self).next_table(level, t, i as int) is None ==> {
                &&& r == old(fma).next_id() * PAGE_SIZE
                &&& *final(fma) == old(fma).advanced(1)
                &&& forall|l: u8, u: u64, j: int| #[trigger]
                    final(self).read(l, u, j) == if l == level && u == t && j == i {
                        mapping_entry(r)
                    } else if l == level - 1 && u == r {
                        0
                    } else {
                        old(self).read(l, u, j)
                    }
            },
    {
        let e = self.read_entry(level, t, i);
        if e.contains(PRESENT) {
            e.get_address()
        } else {
            let ghost f0 = *fma;
            let fr = fma.allocate_frame();
            proof {
                f0.lemma_advanced(1);
                lemma_frame_address_aligned(fr.frame_id);
            }
            let ghost p0 = *self;
            let addr = self.new_table(level - 1, fr);
            let entry = PageEntry::mapping(addr);
            self.write_entry(level, t, i, entry.bits);
            proof {
                let b0 = f0.next_id() * PAGE_SIZE;
                let b1 = fma.next_id() * PAGE_SIZE;
                if p0.directory_sound(b0) {
                    assert forall|l: u8, u: u64, j: int|
                        LEVEL_PD <= l <= LEVEL_PML4 && is_present(
                            #[trigger] self.read(l, u, j),
                        ) implies entry_address(self.read(l, u, j)) < b1 by {
                        if l == level && u == t && j == i {
                        } else if l == level - 1 && u == addr {
                            assert(0u64 & 1u64 == 0) by (bit_vector);
                        } else {
                            assert(self.read(l, u, j) == p0.read(l, u, j));
                        }
                    }
                    assert forall|l: u8, t1: u64, i1: int, t2: u64, i2: int|
                        LEVEL_PD <= l <= LEVEL_PML4 && (t1 != t2 || i1 != i2) && is_present(
                            #[trigger] self.read(l, t1, i1),
                        ) && is_present(#[trigger] self.read(l, t2, i2)) implies entry_address(
                        self.read(l, t1, i1),
                    ) != entry_address(self.read(l, t2, i2)) by {
                        assert(0u64 & 1u64 == 0) by (bit_vector);
                        if l == level && t1 == t && i1 == i {
                            assert(self.read(l, t2, i2) == p0.read(l, t2, i2));
                        } else if l == level && t2 == t && i2 == i {
                            assert(self.read(l, t1, i1) == p0.read(l, t1, i1));
                        } else {
                            assert(self.read(l, t1, i1) == p0.read(l, t1, i1));
                            assert(self.read(l, t2, i2) == p0.read(l, t2, i2));
                        }
                    }
                }
            }
            addr
        }
    }
}

/// Number of tables missing on the walk for `to` from `root`: three when the
/// top-level entry is absent, two when only the upper one is, one when only
/// the middle one is, none otherwise.
pub open spec fn missing_tables(p: PageTables, root: u64, to: u64) -> nat {
    if p.table_at(root, to, LEVEL_PDP) is None {
        3
    } else if p.table_at(root, to, LEVEL_PD) is None {
        2
    } else if p.table_at(root, to, LEVEL_PT) is None {
        1
    } else {
        0
    }
}

/// The table at `level` on the walk for `to` is missing from `p` and has to
/// be allocated.
pub open spec fn fresh_level(p: PageTables, root: u64, to: u64, level: u8) -> bool {
    LEVEL_PT <= level <= LEVEL_PDP && p.table_at(root, to, level) is None
}

/// Address of the table allocated for `level` on the walk for `to` when the
/// allocator's cursor starts at `f`: missing tables are allocated top down.
pub open spec fn fresh_table(p: PageTables, f: FrameAllocator, root: u64, to: u64, level: u8) -> u64 {
    ((f.next_id() + missing_tables(p, root, to) - level) * PAGE_SIZE) as u64
}

/// The effect of mapping virtual `to` onto physical `addr` through the
/// hierarchy at `root`, taking table memory from `p0` to `p1` and the frame
/// allocator from `f0` to `f1`:
/// - the walk for `to` reaches a leaf entry that maps `addr` present and writable;
/// - exactly one frame is allocated per missing table, top down; each new
///   table reads zero but for its entry on the walk, and each directory entry
///   the walk needed is set present and writable, pointing to the new table;
/// - when the walk for `to` already reached a leaf table, nothing is allocated
///   and only that leaf entry changes;
/// - no other entry changes but the leaf entry of `to`, directory entries on
///   the walk for `to` that were absent, and entries of freshly allocated
///   tables;
/// - when every directory entry pointed below the allocator's cursor and no
///   two of one level shared a table, this still holds afterwards, and every
///   other page keeps its translation, mapped or not.
pub open spec fn map_post(
    p0: PageTables,
    f0: FrameAllocator,
    p1: PageTables,
    f1: FrameAllocator,
    root: u64,
    addr: u64,
    to: u64,
) -> bool {
    &&& p1.translate(root, to) == Some(addr & ADDRESS_MASK)
    &&& p1.table_at(root, to, LEVEL_PT) matches Some(t1) && p1.read(
        LEVEL_PT,
        t1,
        level_index(to, LEVEL_PT),
    ) == mapping_entry(addr)
    &&& p1.root_table() == p0.root_table()
    &&& f1.page_bytes() == f0.page_bytes()
    &&& f0.next_id() <= f1.next_id() <= f0.next_id() + 3
    &&& f1 == f0.advanced(missing_tables(p0, root, to))
    &&& forall|l: u8|
        #[trigger] fresh_level(p0, root, to, l) ==> {
            &&& p1.table_at(root, to, l) == Some(fresh_table(p0, f0, root, to, l))
            &&& p1.read((l + 1) as u8, p1.table_at(root, to, (l + 1) as u8)->Some_0, level_index(to, (l + 1) as u8))
                == mapping_entry(fresh_table(p0, f0, root, to, l))
            &&& forall|j: int|
                j != level_index(to, l) ==> #[trigger] p1.read(l, fresh_table(p0, f0, root, to, l), j)
                    == 0
        }
    &&& forall|l: u8, u: u64, j: int| #[trigger]
        p1.read(l, u, j) != p0.read(l, u, j) ==> (p1.on_path(root, to, l, u, j) && (l == LEVEL_PT
            || !is_present(p0.read(l, u, j)))) || (fresh_level(p0, root, to, l) && u == fresh_table(
            p0,
            f0,
            root,
            to,
            l,
        ))
    &&& p0.table_at(root, to, LEVEL_PT) matches Some(t1) ==> {
        &&& f1 == f0
        &&& p1.table_at(root, to, LEVEL_PT) == Some(t1)
        &&& p1.agrees_except(&p0, LEVEL_PT, t1, level_index(to, LEVEL_PT))
    }
    &&& forall|l: u8, u: u64, j: int| #[trigger]
        p1.read(l, u, j) != p0.read(l, u, j) ==> (p1.on_path(root, to, l, u, j) && (l == LEVEL_PT
            || !is_present(p0.read(l, u, j)))) || (l < LEVEL_PML4 && u >= f0.next_id() * PAGE_SIZE)
    &&& p0.directory_sound(f0.next_id() * PAGE_SIZE) ==> {
        &&& p1.directory_sound(f1.next_id() * PAGE_SIZE)
        &&& forall|v: u64|
            #![trigger p0.translate(root, v)]
            #![trigger p1.translate(root, v)]
            page_number(v) != page_number(to) ==> p1.translate(root, v) == p0.translate(root, v)
    }
}

/// Under a sound hierarchy, a change confined to entries that were absent, to
/// the leaf entry of `to` and to tables at or above `bound` leaves the mapping
/// of every other page as it was.
proof fn lemma_other_mapping_kept(
    p0: PageTables,
    p1: PageTables,
    root: u64,
    to: u64,
    v: u64,
    bound: int,
    bound1: int,
)
    requires
        p0.directory_sound(bound),
        p1.directory_sound(bound1),
        forall|l: u8, u: u64, j: int| #[trigger]
            p1.read(l, u, j) != p0.read(l, u, j) ==> (p1.on_path(root, to, l, u, j) && (l == LEVEL_PT
                || !is_present(p0.read(l, u, j)))) || (l < LEVEL_PML4 && u >= bound),
        p1.translate(root, to) is Some,
        p0.translate(root, v) is Some,
        page_number(v) != page_number(to),
    ensures
        p1.translate(root, v) == p0.translate(root, v),
{
    let v4 = level_index(v, LEVEL_PML4);
    let v3 = level_index(v, LEVEL_PDP);
    let v2 = level_index(v, LEVEL_PD);
    let v1 = level_index(v, LEVEL_PT);
    let to4 = level_index(to, LEVEL_PML4);
    let to3 = level_index(to, LEVEL_PDP);
    let to2 = level_index(to, LEVEL_PD);
    let to1 = level_index(to, LEVEL_PT);
    let t3v = entry_address(p0.read(LEVEL_PML4, root, v4));
    let t2v = entry_address(p0.read(LEVEL_PDP, t3v, v3));
    let t1v = entry_address(p0.read(LEVEL_PD, t2v, v2));
    assert(p1.read(LEVEL_PML4, root, v4) == p0.read(LEVEL_PML4, root, v4));
    assert(p1.read(LEVEL_PDP, t3v, v3) == p0.read(LEVEL_PDP, t3v, v3));
    assert(p1.read(LEVEL_PD, t2v, v2) == p0.read(LEVEL_PD, t2v, v2));
    if p1.read(LEVEL_PT, t1v, v1) != p0.read(LEVEL_PT, t1v, v1) {
        lemma_indices_concatenate(v);
        lemma_indices_concatenate(to);
        let t3 = entry_address(p1.read(LEVEL_PML4, root, to4));
        let t2 = entry_address(p1.read(LEVEL_PDP, t3, to3));
        let t1 = entry_address(p1.read(LEVEL_PD, t2, to2));
        assert(t1 == t1v && to1 == v1);
        if to4 != v4 {
            assert(t3 != t3v);
            assert(t2 != t2v);
            assert(t1 != t1v);
        } else if to3 != v3 {
            assert(t2 != t2v);
            assert(t1 != t1v);
        } else if to2 != v2 {
            assert(t1 != t1v);
        }
    }
}

/// Two walks that meet at one table at `level` in a sound hierarchy came
/// there through the same entries: their indices above `level` agree.
proof fn lemma_same_table_above(p: PageTables, root: u64, v: u64, to: u64, level: u8, bound: int)
    requires
        p.directory_sound(bound),
        LEVEL_PT <= level <= LEVEL_PDP,
        p.table_at(root, v, level) is Some,
        p.table_at(root, v, level) == p.table_at(root, to, level),
    ensures
        level_index(v, LEVEL_PML4) == level_index(to, LEVEL_PML4),
        level <= LEVEL_PD ==> level_index(v, LEVEL_PDP) == level_index(to, LEVEL_PDP),
        level <= LEVEL_PT ==> level_index(v, LEVEL_PD) == level_index(to, LEVEL_PD),
        p.table_at(root, v, LEVEL_PDP) == p.table_at(root, to, LEVEL_PDP),
        level <= LEVEL_PD ==> p.table_at(root, v, LEVEL_PD) == p.table_at(root, to, LEVEL_PD),
    decreases LEVEL_PDP - level,
{
    let v4 = level_index(v, LEVEL_PML4);
    let to4 = level_index(to, LEVEL_PML4);
    if level == LEVEL_PDP {
        assert(is_present(p.read(LEVEL_PML4, root, v4)));
        assert(is_present(p.read(LEVEL_PML4, root, to4)));
    } else if level == LEVEL_PD {
        let a = p.table_at(root, v, LEVEL_PDP)->Some_0;
        let b = p.table_at(root, to, LEVEL_PDP)->Some_0;
        assert(is_present(p.read(LEVEL_PDP, a, level_index(v, LEVEL_PDP))));
        assert(is_present(p.read(LEVEL_PDP, b, level_index(to, LEVEL_PDP))));
        lemma_same_table_above(p, root, v, to, LEVEL_PDP, bound);
    } else {
        let a = p.table_at(root, v, LEVEL_PD)->Some_0;
        let b = p.table_at(root, to, LEVEL_PD)->Some_0;
        assert(is_present(p.read(LEVEL_PD, a, level_index(v, LEVEL_PD))));
        assert(is_present(p.read(LEVEL_PD, b, level_index(to, LEVEL_PD))));
        lemma_same_table_above(p, root, v, to, LEVEL_PD, bound);
    }
}

/// Under a sound hierarchy, mapping `to` as `map_post` describes leaves every
/// other page that was unmapped unmapped.
#[verifier::rlimit(100)]
#[verifier::spinoff_prover]
proof fn lemma_unmapped_page_kept(
    p0: PageTables,
    f0: FrameAllocator,
    p1: PageTables,
    root: u64,
    to: u64,
    v: u64,
    bound1: int,
)
    requires
        f0.wf(),
        f0.has_room(3),
        p0.directory_sound(f0.next_id() * PAGE_SIZE),
        p1.directory_sound(bound1),
        forall|l: u8|
            #[trigger] fresh_level(p0, root, to, l) ==> {
                &&& p1.table_at(root, to, l) == Some(fresh_table(p0, f0, root, to, l))
                &&& forall|j: int|
                    j != level_index(to, l) ==> #[trigger] p1.read(l, fresh_table(p0, f0, root, to, l), j)
                        == 0
            },
        forall|l: u8, u: u64, j: int| #[trigger]
            p1.read(l, u, j) != p0.read(l, u, j) ==> (p1.on_path(root, to, l, u, j) && (l == LEVEL_PT
                || !is_present(p0.read(l, u, j)))) || (fresh_level(p0, root, to, l) && u == fresh_table(
                p0,
                f0,
                root,
                to,
                l,
            )),
        p1.translate(root, to) is Some,
        p0.translate(root, v) is None,
        page_number(v) != page_number(to),
    ensures
        p1.translate(root, v) is None,
{
    if p1.translate(root, v) is Some {
        let bound0 = f0.next_id() * PAGE_SIZE;
        assert(0u64 & 1u64 == 0) by (bit_vector);
        lemma_indices_concatenate(v);
        lemma_indices_concatenate(to);
        let v4 = level_index(v, LEVEL_PML4);
        let v3 = level_index(v, LEVEL_PDP);
        let v2 = level_index(v, LEVEL_PD);
        let v1 = level_index(v, LEVEL_PT);
        let to4 = level_index(to, LEVEL_PML4);
        let to3 = level_index(to, LEVEL_PDP);
        let to2 = level_index(to, LEVEL_PD);
        let to1 = level_index(to, LEVEL_PT);
        let a3 = p1.table_at(root, v, LEVEL_PDP)->Some_0;
        let a2 = p1.table_at(root, v, LEVEL_PD)->Some_0;
        let a1 = p1.table_at(root, v, LEVEL_PT)->Some_0;
        let t3 = p1.table_at(root, to, LEVEL_PDP)->Some_0;
        let t2 = p1.table_at(root, to, LEVEL_PD)->Some_0;
        let t1 = p1.table_at(root, to, LEVEL_PT)->Some_0;
        assert(fresh_level(p0, root, to, LEVEL_PDP) ==> fresh_table(p0, f0, root, to, LEVEL_PDP) >= bound0);
        assert(fresh_level(p0, root, to, LEVEL_PD) ==> fresh_table(p0, f0, root, to, LEVEL_PD) >= bound0);
        assert(fresh_level(p0, root, to, LEVEL_PT) ==> fresh_table(p0, f0, root, to, LEVEL_PT) >= bound0);
        if a1 == t1 {
            lemma_same_table_above(p1, root, v, to, LEVEL_PT, bound1);
            assert(v1 != to1);
            if fresh_level(p0, root, to, LEVEL_PT) {
                assert(p1.read(LEVEL_PT, t1, v1) == 0);
            } else {
                assert(p1.read(LEVEL_PML4, root, to4) == p0.read(LEVEL_PML4, root, to4));
                assert(p1.read(LEVEL_PDP, t3, to3) == p0.read(LEVEL_PDP, t3, to3));
                assert(p1.read(LEVEL_PD, t2, to2) == p0.read(LEVEL_PD, t2, to2));
                assert(p1.read(LEVEL_PT, t1, v1) == p0.read(LEVEL_PT, t1, v1));
            }
        } else if a2 == t2 {
            lemma_same_table_above(p1, root, v, to, LEVEL_PD, bound1);
            assert(v2 != to2);
            if fresh_level(p0, root, to, LEVEL_PD) {
                assert(p1.read(LEVEL_PD, t2, v2) == 0);
            } else {
                assert(p1.read(LEVEL_PML4, root, to4) == p0.read(LEVEL_PML4, root, to4));
                assert(p1.read(LEVEL_PDP, t3, to3) == p0.read(LEVEL_PDP, t3, to3));
                assert(p1.read(LEVEL_PD, t2, v2) == p0.read(LEVEL_PD, t2, v2));
                assert(a1 < bound0);
                assert(p1.read(LEVEL_PT, a1, v1) == p0.read(LEVEL_PT, a1, v1));
            }
        } else if a3 == t3 {
            lemma_same_table_above(p1, root, v, to, LEVEL_PDP, bound1);
            assert(v3 != to3);
            if fresh_level(p0, root, to, LEVEL_PDP) {
                assert(p1.read(LEVEL_PDP, t3, v3) == 0);
            } else {
                assert(p1.read(LEVEL_PML4, root, to4) == p0.read(LEVEL_PML4, root, to4));
                assert(p1.read(LEVEL_PDP, t3, v3) == p0.read(LEVEL_PDP, t3, v3));
                assert(a2 < bound0);
                assert(is_present(p1.read(LEVEL_PD, t2, to2)));
                assert(p1.read(LEVEL_PD, a2, v2) == p0.read(LEVEL_PD, a2, v2));
                assert(a1 < bound0);
                assert(p1.read(LEVEL_PT, a1, v1) == p0.read(LEVEL_PT, a1, v1));
            }
        } else {
            assert(p1.read(LEVEL_PML4, root, v4) == p0.read(LEVEL_PML4, root, v4));
            assert(a3 < bound0);
            assert(is_present(p1.read(LEVEL_PDP, t3, to3)));
            assert(p1.read(LEVEL_PDP, a3, v3) == p0.read(LEVEL_PDP, a3, v3));
            assert(a2 < bound0);
            assert(is_present(p1.read(LEVEL_PD, t2, to2)));
            assert(p1.read(LEVEL_PD, a2, v2) == p0.read(LEVEL_PD, a2, v2));
            assert(a1 < bound0);
            assert(p1.read(LEVEL_PT, a1, v1) == p0.read(LEVEL_PT, a1, v1));
        }
    }
}

/// Maps virtual address `to` onto physical address `addr` in the hierarchy
/// whose top table is at `root`, allocating the missing tables from `fma`. An
/// existing mapping of `to` is overwritten.
#[verifier::rlimit(100)]
#[verifier::spinoff_prover]
pub fn map_addr_in(pt: &mut PageTables, root: u64, fma: &mut FrameAllocator, addr: u64, to: u64)
    requires
        old(pt).wf(),
        old(fma).wf(),
        old(fma).has_room(3),
    ensures
        final(pt).wf(),
        final(fma).wf(),
        map_post(*old(pt), *old(fma), *final(pt), *final(fma), root, addr, to),
{
    let ghost p0 = *pt;
    let ghost f0 = *fma;
    let (pml4_idx, pdp_idx, pd_idx, pt_idx) = get_address_indices_for(to);
    let pdp_table = pt.table_below(fma, LEVEL_PML4, root, pml4_idx);
    let ghost p1 = *pt;
    let pd_table = pt.table_below(fma, LEVEL_PDP, pdp_table, pdp_idx);
    let ghost p2 = *pt;
    let pt_table = pt.table_below(fma, LEVEL_PD, pd_table, pd_idx);
    let ghost p3 = *pt;
    let entry = PageEntry::mapping(addr);
    pt.write_entry(LEVEL_PT, pt_table, pt_idx, entry.bits);
    proof {
        assert(0u64 & 1u64 == 0) by (bit_vector);
        f0.lemma_advanced(0);
        f0.lemma_advanced(1);
        f0.lemma_advanced(2);
        f0.lemma_advanced(3);
        let m = missing_tables(p0, root, to);
        if p0.table_at(root, to, LEVEL_PDP) is None {
            assert(pdp_table == f0.next_id() * PAGE_SIZE);
            assert(p1.next_table(LEVEL_PDP, pdp_table, pdp_idx as int) is None);
            assert(pd_table == (f0.next_id() + 1) * PAGE_SIZE);
            assert(p2.next_table(LEVEL_PD, pd_table, pd_idx as int) is None);
            assert(pt_table == (f0.next_id() + 2) * PAGE_SIZE);
            assert(*fma == f0.advanced(3));
        } else if p0.table_at(root, to, LEVEL_PD) is None {
            assert(p1.read(LEVEL_PDP, pdp_table, pdp_idx as int) == p0.read(
                LEVEL_PDP,
                pdp_table,
                pdp_idx as int,
            ));
            assert(pd_table == f0.next_id() * PAGE_SIZE);
            assert(p2.next_table(LEVEL_PD, pd_table, pd_idx as int) is None);
            assert(pt_table == (f0.next_id() + 1) * PAGE_SIZE);
            assert(*fma == f0.advanced(2));
        } else if p0.table_at(root, to, LEVEL_PT) is None {
            assert(p2.read(LEVEL_PD, pd_table, pd_idx as int) == p0.read(
                LEVEL_PD,
                pd_table,
                pd_idx as int,
            ));
            assert(pt_table == f0.next_id() * PAGE_SIZE);
            assert(*fma == f0.advanced(1));
        } else {
            assert(*fma == f0.advanced(0));
        }
        assert(pt.next_table(LEVEL_PML4, root, pml4_idx as int) == Some(pdp_table));
        assert(pt.next_table(LEVEL_PDP, pdp_table, pdp_idx as int) == Some(pd_table));
        assert(pt.next_table(LEVEL_PD, pd_table, pd_idx as int) == Some(pt_table));
        assert forall|l: u8| #[trigger] fresh_level(p0, root, to, l) implies {
            &&& pt.table_at(root, to, l) == Some(fresh_table(p0, f0, root, to, l))
            &&& pt.read((l + 1) as u8, pt.table_at(root, to, (l + 1) as u8)->Some_0, level_index(to, (l + 1) as u8))
                == mapping_entry(fresh_table(p0, f0, root, to, l))
            &&& forall|j: int|
                j != level_index(to, l) ==> #[trigger] pt.read(l, fresh_table(p0, f0, root, to, l), j)
                    == 0
        } by {
            assert(pt.table_at(root, to, LEVEL_PDP) == Some(pdp_table));
            assert(pt.table_at(root, to, LEVEL_PD) == Some(pd_table));
            assert(pt.table_at(root, to, LEVEL_PT) == Some(pt_table));
        }
        assert forall|l: u8, u: u64, j: int| #[trigger]
            pt.read(l, u, j) != p0.read(l, u, j) implies (pt.on_path(root, to, l, u, j) && (l
            == LEVEL_PT || !is_present(p0.read(l, u, j)))) || (fresh_level(p0, root, to, l) && u
            == fresh_table(p0, f0, root, to, l)) by {
            assert(pt.table_at(root, to, LEVEL_PDP) == Some(pdp_table));
            assert(pt.table_at(root, to, LEVEL_PD) == Some(pd_table));
            assert(pt.table_at(root, to, LEVEL_PT) == Some(pt_table));
            if l == LEVEL_PML4 && u == root && j == pml4_idx {
            } else if l == LEVEL_PDP && u == pdp_table && j == pdp_idx {
            } else if l == LEVEL_PD && u == pd_table && j == pd_idx {
            } else if l == LEVEL_PT && u == pt_table && j == pt_idx {
            } else {
                assert(pt.read(l, u, j) == p3.read(l, u, j));
            }
        }
        lemma_mapping_entry(addr);
        assert(pt.next_table(LEVEL_PML4, root, pml4_idx as int) == Some(pdp_table));
        assert(pt.next_table(LEVEL_PDP, pdp_table, pdp_idx as int) == Some(pd_table));
        assert(pt.next_table(LEVEL_PD, pd_table, pd_idx as int) == Some(pt_table));
        assert(pt.table_at(root, to, LEVEL_PT) == Some(pt_table));
        assert forall|l: u8, u: u64, j: int| #[trigger]
            pt.read(l, u, j) != p0.read(l, u, j) implies (pt.on_path(root, to, l, u, j) && (l
            == LEVEL_PT || !is_present(p0.read(l, u, j)))) || (l < LEVEL_PML4 && u >= f0.next_id()
            * PAGE_SIZE) by {
            if l == LEVEL_PML4 && u == root && j == pml4_idx {
            } else if l == LEVEL_PDP && u == pdp_table && j == pdp_idx {
            } else if l == LEVEL_PD && u == pd_table && j == pd_idx {
            } else if l == LEVEL_PT && u == pt_table && j == pt_idx {
            } else {
                assert(pt.read(l, u, j) == p3.read(l, u, j));
            }
        }
        if p0.table_at(root, to, LEVEL_PT) is Some {
            assert(pt.agrees_except(&p0, LEVEL_PT, pt_table, pt_idx as int));
        }
        let b0 = f0.next_id() * PAGE_SIZE;
        if p0.directory_sound(b0) {
            let b1 = fma.next_id() * PAGE_SIZE;
            assert forall|l: u8, t: u64, i: int|
                LEVEL_PD <= l <= LEVEL_PML4 && is_present(#[trigger] pt.read(l, t, i)) implies entry_address(
                pt.read(l, t, i),
            ) < b1 by {
                assert(pt.read(l, t, i) == p3.read(l, t, i));
            }
            assert forall|l: u8, t1: u64, i1: int, t2: u64, i2: int|
                LEVEL_PD <= l <= LEVEL_PML4 && (t1 != t2 || i1 != i2) && is_present(
                    #[trigger] pt.read(l, t1, i1),
                ) && is_present(#[trigger] pt.read(l, t2, i2)) implies entry_address(
                pt.read(l, t1, i1),
            ) != entry_address(pt.read(l, t2, i2)) by {
                assert(pt.read(l, t1, i1) == p3.read(l, t1, i1));
                assert(pt.read(l, t2, i2) == p3.read(l, t2, i2));
            }
            assert forall|v: u64|
                #![trigger p0.translate(root, v)]
                #![trigger pt.translate(root, v)]
                page_number(v) != page_number(to) implies pt.translate(root, v) == p0.translate(
                root,
                v,
            ) by {
                if p0.translate(root, v) is Some {
                    lemma_other_mapping_kept(p0, *pt, root, to, v, b0, b1);
                } else {
                    lemma_unmapped_page_kept(p0, f0, *pt, root, to, v, b1);
                }
            }
        }
    }
}

/// Maps virtual `to` onto physical `addr` in the active hierarchy.
pub fn map_addr_current(pt: &mut PageTables, fma: &mut FrameAllocator, addr: u64, to: u64)
    requires
        old(pt).wf(),
        old(fma).wf(),
        old(fma).has_room(3),
    ensures
        final(pt).wf(),
        final(fma).wf(),
        map_post(*old(pt), *old(fma), *final(pt), *final(fma), old(pt).root_table(), addr, to),
{
    let root = pt.get_page_directory();
    map_addr_in(pt, root, fma, addr, to);
}

/// Mapping one virtual address twice leaves the second mapping in place of
/// the first: the second call allocates nothing and rewrites only the leaf
/// entry that the first one filled.
pub proof fn lemma_remap_overwrites(
    p0: PageTables,
    f0: FrameAllocator,
    p1: PageTables,
    f1: FrameAllocator,
    p2: PageTables,
    f2: FrameAllocator,
    root: u64,
    first: u64,
    second: u64,
    v: u64,
)
    requires
        map_post(p0, f0, p1, f1, root, first, v),
        map_post(p1, f1, p2, f2, root, second, v),
    ensures
        p1.translate(root, v) == Some(first & ADDRESS_MASK),
        p2.translate(root, v) == Some(second & ADDRESS_MASK),
        f2 == f1,
        p2.table_at(root, v, LEVEL_PT) == p1.table_at(root, v, LEVEL_PT),
        p1.table_at(root, v, LEVEL_PT) matches Some(t1) && p2.agrees_except(
            &p1,
            LEVEL_PT,
            t1,
            level_index(v, LEVEL_PT),
        ),
{
}

proof fn lemma_page_offset(i: u64)
    requires
        i < 512,
    ensures
        i << 12u64 == i * 4096,
        (i * 4096) as u64 & ADDRESS_MASK == i * 4096,
        KERNEL_BASE + i * 4096 <= u64::MAX,
{
    assert(i < 512u64 ==> i << 12u64 == i * 4096u64 && ((i * 4096u64) as u64) & 0xFFFF_FFFF_FFFF_F000u64
        == i * 4096u64) by (bit_vector);
}

/// Entry bits with the writable flag set.
pub open spec fn is_writable(bits: u64) -> bool {
    bits & READWRITE == READWRITE
}

proof fn lemma_mapping_entry_writable(addr: u64)
    ensures
        is_writable(mapping_entry(addr)),
{
    assert(((addr & 0xFFFF_FFFF_FFFF_F000u64) | 1u64 | 2u64) & 2u64 == 2u64) by (bit_vector);
}

/// First page number of the kernel's high range.
pub open spec fn kernel_first_page() -> int {
    0xF_FFF8_0000
}

/// Builds a new top table in which the first 512 pages of physical memory
/// appear at `KERNEL_BASE` and up, then makes it the active one. It takes
/// four frames: the top table and one upper, middle and leaf table. Every
/// entry on the walks of those pages is present and writable, and under the
/// new root no other page is mapped.
#[verifier::rlimit(100)]
#[verifier::spinoff_prover]
pub fn remap_kernel(pt: &mut PageTables, allocator: &mut FrameAllocator)
    requires
        old(pt).wf(),
        old(allocator).wf(),
        old(allocator).has_room(7),
    ensures
        final(pt).wf(),
        final(allocator).wf(),
        final(pt).root_table() == old(allocator).next_id() * PAGE_SIZE,
        forall|j: int|
            0 <= j < 512 ==> #[trigger] final(pt).translate(final(pt).root_table(), kernel_page(j))
                == Some((j * 4096) as u64),
        forall|j: int|
            0 <= j < 512 ==> #[trigger] final(pt).walk_writable(final(pt).root_table(), kernel_page(j)),
        forall|v: u64|
            !(kernel_first_page() <= page_number(v) < kernel_first_page() + 512)
                ==> #[trigger] final(pt).translate(final(pt).root_table(), v) is None,
        final(allocator).next_id() == old(allocator).next_id() + 4,
        final(allocator).page_bytes() == old(allocator).page_bytes(),
        old(pt).directory_sound(old(allocator).next_id() * PAGE_SIZE) ==> final(pt).directory_sound(
            final(allocator).next_id() * PAGE_SIZE,
        ),
{
    let ghost a0 = *allocator;
    let pml4 = allocator.allocate_frame();
    let ghost sound = pt.directory_sound(a0.next_id() * PAGE_SIZE);
    let root = pt.new_table(LEVEL_PML4, pml4);
    let ghost start = allocator.next_id();
    let ghost t3: u64 = (start * PAGE_SIZE) as u64;
    let ghost t2: u64 = ((start + 1) * PAGE_SIZE) as u64;
    let ghost t1: u64 = ((start + 2) * PAGE_SIZE) as u64;
    proof {
        if sound {
            pt.lemma_sound_grows(a0.next_id() * PAGE_SIZE, allocator.next_id() * PAGE_SIZE);
        }
        assert(0u64 & 1u64 == 0) by (bit_vector);
    }
    let mut i: u64 = 0;
    while i < ENTRY_COUNT
        invariant
            i <= 512,
            pt.wf(),
            allocator.wf(),
            root == a0.next_id() * PAGE_SIZE,
            start == a0.next_id() + 1,
            t3 == start * PAGE_SIZE,
            t2 == (start + 1) * PAGE_SIZE,
            t1 == (start + 2) * PAGE_SIZE,
            a0.has_room(7),
            allocator.page_bytes() == a0.page_bytes(),
            sound ==> pt.directory_sound(allocator.next_id() * PAGE_SIZE),
            i == 0 ==> allocator.next_id() == start,
            i == 0 ==> forall|j: int| #[trigger] pt.read(LEVEL_PML4, root, j) == 0,
            i > 0 ==> allocator.next_id() == start + 3,
            i > 0 ==> forall|j: int| #[trigger]
                pt.read(LEVEL_PML4, root, j) == if j == 511 {
                    mapping_entry(t3)
                } else {
                    0
                },
            i > 0 ==> forall|j: int| #[trigger]
                pt.read(LEVEL_PDP, t3, j) == if j == 510 {
                    mapping_entry(t2)
                } else {
                    0
                },
            i > 0 ==> forall|j: int| #[trigger]
                pt.read(LEVEL_PD, t2, j) == if j == 0 {
                    mapping_entry(t1)
                } else {
                    0
                },
            forall|j: int| 0 <= j < i ==> #[trigger] pt.read(LEVEL_PT, t1, j) == mapping_entry((j * 4096) as u64),
        decreases 512 - i,
    {
        let ghost p0 = *pt;
        let ghost f0 = *allocator;
        proof {
            lemma_page_offset(i);
            lemma_kernel_page_indices(i);
            lemma_frame_address_aligned(start as u64);
            lemma_frame_address_aligned((start + 1) as u64);
            lemma_frame_address_aligned((start + 2) as u64);
            lemma_mapping_entry(t3);
            lemma_mapping_entry(t2);
            lemma_mapping_entry(t1);
        }
        let offset = i << PAGE_SHIFT;
        map_addr_in(pt, root, allocator, offset, KERNEL_BASE + offset);
        proof {
            let v = kernel_page(i as int);
            assert(0u64 & 1u64 == 0) by (bit_vector);
            assert(KERNEL_BASE + offset == v);
            if i == 0 {
                assert(p0.table_at(root, v, LEVEL_PDP) is None);
                assert(missing_tables(p0, root, v) == 3);
                assert(fresh_level(p0, root, v, LEVEL_PDP));
                assert(fresh_level(p0, root, v, LEVEL_PD));
                assert(fresh_level(p0, root, v, LEVEL_PT));
                assert(fresh_table(p0, f0, root, v, LEVEL_PDP) == t3);
                assert(fresh_table(p0, f0, root, v, LEVEL_PD) == t2);
                assert(fresh_table(p0, f0, root, v, LEVEL_PT) == t1);
                assert(pt.table_at(root, v, LEVEL_PDP) == Some(t3));
                assert(pt.table_at(root, v, LEVEL_PD) == Some(t2));
                assert(pt.table_at(root, v, LEVEL_PT) == Some(t1));
                f0.lemma_advanced(3);
                assert forall|j: int| #[trigger]
                    pt.read(LEVEL_PML4, root, j) == if j == 511 {
                        mapping_entry(t3)
                    } else {
                        0
                    } by {
                    if j != 511 {
                        if pt.read(LEVEL_PML4, root, j) != p0.read(LEVEL_PML4, root, j) {
                        }
                    }
                }
                assert forall|j: int| #[trigger]
                    pt.read(LEVEL_PDP, t3, j) == if j == 510 {
                        mapping_entry(t2)
                    } else {
                        0
                    } by {
                }
                assert forall|j: int| #[trigger]
                    pt.read(LEVEL_PD, t2, j) == if j == 0 {
                        mapping_entry(t1)
                    } else {
                        0
                    } by {
                }
            } else {
                assert(p0.table_at(root, v, LEVEL_PDP) == Some(t3));
                assert(p0.table_at(root, v, LEVEL_PD) == Some(t2));
                assert(p0.table_at(root, v, LEVEL_PT) == Some(t1));
                f0.lemma_advanced(0);
                assert(pt.table_at(root, v, LEVEL_PT) == Some(t1));
            }
            assert forall|j: int| 0 <= j < i + 1 implies #[trigger] pt.read(LEVEL_PT, t1, j)
                == mapping_entry((j * 4096) as u64) by {
                if j < i {
                    assert(p0.read(LEVEL_PT, t1, j) == mapping_entry((j * 4096) as u64));
                }
            }
        }
        i = i + 1;
    }
    let ghost before = *pt;
    pt.set_page_directory(root);
    proof {
        lemma_mapping_entry(t3);
        lemma_mapping_entry(t2);
        lemma_mapping_entry(t1);
        lemma_mapping_entry_writable(t3);
        lemma_mapping_entry_writable(t2);
        lemma_mapping_entry_writable(t1);
        lemma_frame_address_aligned(start as u64);
        lemma_frame_address_aligned((start + 1) as u64);
        lemma_frame_address_aligned((start + 2) as u64);
        assert(pt.read(LEVEL_PML4, root, 511) == mapping_entry(t3));
        assert(pt.read(LEVEL_PDP, t3, 510) == mapping_entry(t2));
        assert(pt.read(LEVEL_PD, t2, 0) == mapping_entry(t1));
        assert forall|j: int| 0 <= j < 512 implies #[trigger] pt.walk_writable(pt.root_table(), kernel_page(j))
            && pt.translate(pt.root_table(), kernel_page(j)) == Some((j * 4096) as u64) by {
            lemma_kernel_page_indices(j as u64);
            lemma_page_offset(j as u64);
            lemma_mapping_entry((j * 4096) as u64);
            lemma_mapping_entry_writable((j * 4096) as u64);
            assert(pt.read(LEVEL_PT, t1, j) == mapping_entry((j * 4096) as u64));
            assert forall|l: u8| LEVEL_PT <= l <= LEVEL_PML4 implies #[trigger] pt.entry_on_walk_writable(
                pt.root_table(),
                kernel_page(j),
                l,
            ) by {
            }
        }
        assert forall|j: int| 0 <= j < 512 implies #[trigger] pt.translate(pt.root_table(), kernel_page(j))
            == Some((j * 4096) as u64) by {
            assert(pt.walk_writable(pt.root_table(), kernel_page(j)));
        }
        assert forall|v: u64|
            !(kernel_first_page() <= page_number(v) < kernel_first_page() + 512) implies #[trigger] pt.translate(
            pt.root_table(),
            v,
        ) is None by {
            lemma_indices_concatenate(v);
            if pt.translate(root, v) is Some {
                assert(level_index(v, LEVEL_PML4) == 511);
                assert(level_index(v, LEVEL_PDP) == 510);
                assert(level_index(v, LEVEL_PD) == 0);
                assert(level_index(v, LEVEL_PT) < 512) by {
                    assert((v >> 12u64) & 0x1ffu64 < 512) by (bit_vector);
                }
            }
        }
    }
}

} // verus!
