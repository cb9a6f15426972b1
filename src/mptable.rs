//! Multiprocessor configuration tables: locating the floating pointer
//! structure in low physical memory, checking it, and reading the processor
//! entries of the configuration table it points to.
//!
//! Physical memory is read through a byte slice whose index `i` holds the byte
//! at physical address `i`.
use vstd::prelude::*;

verus! {

/// The signature `_MP_` read as a little-endian 32-bit word.
pub const MP_SIGNATURE: u32 = 0x5F50_4D5F;

/// Physical address of the BIOS data area word that holds the size of base
/// memory in KiB.
pub const BASE_MEMORY_SIZE_ADDR: usize = 0x413;

/// Bytes at the top of base memory that are searched.
pub const BASE_MEMORY_WINDOW: usize = 0x800;

/// Start of the extended BIOS data area window that is searched.
pub const EBDA_START: usize = 0x9_FC00;

/// End (exclusive) of the extended BIOS data area window.
pub const EBDA_END: usize = 0x9_FFFF;

/// Start of the BIOS read-only memory window that is searched.
pub const ROM_START: usize = 0xF_0000;

/// End (exclusive) of the BIOS read-only memory window.
pub const ROM_END: usize = 0xF_FFFF;

/// Bytes in the floating pointer structure.
pub const FLOATING_POINTER_SIZE: usize = 16;

/// Bytes in the configuration table header; the entries follow it.
pub const HEADER_SIZE: usize = 44;

/// Entry code of a processor entry.
pub const ENTRY_PROCESSOR: u8 = 0;

/// The little-endian 16-bit word at `o`.
pub open spec fn u16_at(s: Seq<u8>, o: int) -> int {
    s[o] + s[o + 1] * 0x100
}

/// The little-endian 32-bit word at `o`.
pub open spec fn u32_at(s: Seq<u8>, o: int) -> int {
    s[o] + s[o + 1] * 0x100 + s[o + 2] * 0x1_0000 + s[o + 3] * 0x100_0000
}

/// The signature lies at `o`.
pub open spec fn signature_at(s: Seq<u8>, o: int) -> bool {
    0 <= o && o + 4 <= s.len() && u32_at(s, o) == MP_SIGNATURE
}

/// The first of `start`, `start + 16`, ... below `end` that holds the signature.
pub open spec fn first_signature(s: Seq<u8>, start: int, end: int) -> Option<int>
    decreases if start < end { end - start } else { 0 },
{
    if start >= end {
        None
    } else if signature_at(s, start) {
        Some(start)
    } else {
        first_signature(s, start + 16, end)
    }
}

/// End of base memory as recorded in the BIOS data area (zero when the slice
/// does not reach that far).
pub open spec fn base_memory_end(s: Seq<u8>) -> int {
    if BASE_MEMORY_SIZE_ADDR + 2 <= s.len() {
        u16_at(s, BASE_MEMORY_SIZE_ADDR as int) * 1024
    } else {
        0
    }
}

/// Where the floating pointer structure is found: the first match in the top
/// of base memory, else in the extended BIOS data area, else in the BIOS ROM.
pub open spec fn tables_location(s: Seq<u8>) -> Option<int> {
    let base_end = base_memory_end(s);
    let base_start = if base_end >= BASE_MEMORY_WINDOW { base_end - BASE_MEMORY_WINDOW } else { 0 };
    match first_signature(s, base_start, base_end) {
        Some(o) => Some(o),
        None => match first_signature(s, EBDA_START as int, EBDA_END as int) {
            Some(o) => Some(o),
            None => first_signature(s, ROM_START as int, ROM_END as int),
        },
    }
}

/// Sum of the bytes of `s`.
pub open spec fn byte_sum(s: Seq<u8>) -> int
    decreases s.len(),
{
    if s.len() == 0 {
        0
    } else {
        byte_sum(s.drop_last()) + s.last()
    }
}

/// A floating pointer structure with a correct signature and checksum lies at `at`.
pub open spec fn floating_pointer_valid(s: Seq<u8>, at: int) -> bool {
    &&& 0 <= at
    &&& at + FLOATING_POINTER_SIZE <= s.len()
    &&& signature_at(s, at)
    &&& byte_sum(s.subrange(at, at + FLOATING_POINTER_SIZE)) % 256 == 0
}

/// One entry of the configuration table.
#[derive(Clone, Copy, Debug, PartialEq, Eq, Structural)]
pub enum MpEntry {
    /// A processor, with its local interrupt controller id and its flags.
    Processor { lapic_id: u8, flags: u8 },
    Bus,
    IoApic,
    IoInterrupt,
    LocalInterrupt,
}

/// Length in bytes of an entry with code `code`; zero for an unknown code.
pub open spec fn entry_length(code: u8) -> int {
    if code == 0 {
        20
    } else if 1 <= code <= 4 {
        8
    } else {
        0
    }
}

/// The entry whose bytes start at `pos`.
pub open spec fn decode_entry(s: Seq<u8>, pos: int) -> MpEntry {
    let code = s[pos];
    if code == 0 {
        MpEntry::Processor { lapic_id: s[pos + 1], flags: s[pos + 3] }
    } else if code == 1 {
        MpEntry::Bus
    } else if code == 2 {
        MpEntry::IoApic
    } else if code == 3 {
        MpEntry::IoInterrupt
    } else {
        MpEntry::LocalInterrupt
    }
}

/// Up to `count` entries read from `pos` on; the stream stops early at an
/// unknown code or at an entry that runs past the end of memory.
pub open spec fn entries_from(s: Seq<u8>, pos: int, count: nat) -> Seq<MpEntry>
    decreases count,
{
    if count == 0 || pos < 0 || pos >= s.len() {
        Seq::empty()
    } else {
        let len = entry_length(s[pos]);
        if len == 0 || pos + len > s.len() {
            Seq::empty()
        } else {
            seq![decode_entry(s, pos)] + entries_from(s, pos + len, (count - 1) as nat)
        }
    }
}

/// The controller ids of the processor entries, in table order.
pub open spec fn processor_ids_of(entries: Seq<MpEntry>) -> Seq<u8>
    decreases entries.len(),
{
    if entries.len() == 0 {
        Seq::empty()
    } else {
        let rest = processor_ids_of(entries.drop_last());
        match entries.last() {
            MpEntry::Processor { lapic_id, .. } => rest.push(lapic_id),
            _ => rest,
        }
    }
}

fn read_u16(mem: &[u8], o: usize) -> (r: u16)
    requires
        o + 2 <= mem@.len(),
    ensures
        r == u16_at(mem@, o as int),
{
    mem[o] as u16 + (mem[o + 1] as u16) * 0x100
}

fn read_u32(mem: &[u8], o: usize) -> (r: u32)
    requires
        o + 4 <= mem@.len(),
    ensures
        r == u32_at(mem@, o as int),
{
    mem[o] as u32 + (mem[o + 1] as u32) * 0x100 + (mem[o + 2] as u32) * 0x1_0000 + (mem[o
        + 3] as u32) * 0x100_0000
}

/// Looks for the signature at `start`, `start + 16`, ... below `end`, and
/// returns the first offset that holds it.
pub fn find_signature(mem: &[u8], start: usize, end: usize) -> (r: Option<usize>)
    requires
        end + 16 <= usize::MAX,
    ensures
        r matches Some(o) ==> first_signature(mem@, start as int, end as int) == Some(o as int),
        r is None ==> first_signature(mem@, start as int, end as int) is None,
{
    let mut o: usize = start;
    while o < end
        invariant
            start <= o,
            o < end + 16 || o == start,
            end + 16 <= usize::MAX,
            first_signature(mem@, start as int, end as int) == first_signature(
                mem@,
                o as int,
                end as int,
            ),
        decreases end + 16 - o,
    {
        if o + 4 <= mem.len() && read_u32(mem, o) == MP_SIGNATURE {
            return Some(o);
        }
        o = o + 16;
    }
    None
}

/// Searches the three places where firmware may put the floating pointer
/// structure, in order, and returns the address of the first one found.
pub fn find_tables(mem: &[u8]) -> (r: Option<usize>)
    ensures
        r matches Some(o) ==> tables_location(mem@) == Some(o as int),
        r is None ==> tables_location(mem@) is None,
{
    let base_end: usize = if BASE_MEMORY_SIZE_ADDR + 2 <= mem.len() {
        (read_u16(mem, BASE_MEMORY_SIZE_ADDR) as usize) * 1024
    } else {
        0
    };
    let base_start: usize = if base_end >= BASE_MEMORY_WINDOW {
        base_end - BASE_MEMORY_WINDOW
    } else {
        0
    };
    if let Some(o) = find_signature(mem, base_start, base_end) {
        return Some(o);
    }
    if let Some(o) = find_signature(mem, EBDA_START, EBDA_END) {
        return Some(o);
    }
    find_signature(mem, ROM_START, ROM_END)
}

/// Physical address of the configuration table header that the floating
/// pointer structure at `at` points to.
pub open spec fn header_address(s: Seq<u8>, at: int) -> int {
    u32_at(s, at + 4)
}

/// A floating pointer structure.
#[derive(Clone, Copy, Debug, PartialEq, Eq, Structural)]
pub struct MpFloatingPointer {
    /// Physical address of the configuration table header.
    pub physical_address_pointer: u32,
    /// Length of the structure in 16-byte units.
    pub length: u8,
    pub spec_rev: u8,
    pub checksum: u8,
}

/// The configuration table: its header fields and its entries.
#[derive(Debug)]
pub struct MpConfigurationTable {
    /// Physical address of the header.
    pub header_addr: usize,
    /// Number of entries the header declares.
    pub entry_count: u16,
    /// Physical address of the local interrupt controllers' registers.
    pub local_apic_addr: u32,
    /// The entries that could be read.
    pub entries: Vec<MpEntry>,
}

/// Whether a valid floating pointer structure lies at `at`.
pub fn is_valid(mem: &[u8], at: usize) -> (r: bool)
    ensures
        r == floating_pointer_valid(mem@, at as int),
{
    if at > mem.len() || mem.len() - at < FLOATING_POINTER_SIZE {
        return false;
    }
    if read_u32(mem, at) != MP_SIGNATURE {
        return false;
    }
    let mut sum: u32 = 0;
    let mut k: usize = 0;
    while k < FLOATING_POINTER_SIZE
        invariant
            k <= FLOATING_POINTER_SIZE,
            at + FLOATING_POINTER_SIZE <= mem@.len(),
            mem@.len() <= usize::MAX,
            sum == byte_sum(mem@.subrange(at as int, at + k)),
            sum <= 255 * k,
        decreases FLOATING_POINTER_SIZE - k,
    {
        proof {
            assert(mem@.subrange(at as int, at + k + 1).drop_last() =~= mem@.subrange(
                at as int,
                at + k,
            ));
        }
        sum = sum + mem[at + k] as u32;
        k = k + 1;
    }
    sum % 256 == 0
}

/// Reads the floating pointer structure at `at` if it is valid.
pub fn read_floating_pointer(mem: &[u8], at: usize) -> (r: Option<MpFloatingPointer>)
    ensures
        r is Some <==> floating_pointer_valid(mem@, at as int),
        r matches Some(fp) ==> {
            &&& fp.physical_address_pointer == header_address(mem@, at as int)
            &&& fp.length == mem@[at + 8]
            &&& fp.spec_rev == mem@[at + 9]
            &&& fp.checksum == mem@[at + 10]
        },
{
    if at > mem.len() || mem.len() - at < FLOATING_POINTER_SIZE || !is_valid(mem, at) {
        return None;
    }
    Some(
        MpFloatingPointer {
            physical_address_pointer: read_u32(mem, at + 4),
            length: mem[at + 8],
            spec_rev: mem[at + 9],
            checksum: mem[at + 10],
        },
    )
}

/// Reads up to `count` entries from `pos` on.
fn parse_entries(mem: &[u8], pos: usize, count: u16) -> (r: Vec<MpEntry>)
    ensures
        r@ == entries_from(mem@, pos as int, count as nat),
{
    let mut out: Vec<MpEntry> = Vec::new();
    let mut p: usize = pos;
    let mut left: u16 = count;
    while left > 0 && p < mem.len()
        invariant
            out@ + entries_from(mem@, p as int, left as nat) == entries_from(
                mem@,
                pos as int,
                count as nat,
            ),
        decreases left,
    {
        let code = mem[p];
        let len: usize = if code == 0 {
            20
        } else if 1 <= code && code <= 4 {
            8
        } else {
            0
        };
        if len == 0 || len > mem.len() - p {
            proof {
                assert(entries_from(mem@, p as int, left as nat) =~= Seq::empty());
                assert(out@ + Seq::<MpEntry>::empty() =~= out@);
            }
            return out;
        }
        let entry = if code == 0 {
            MpEntry::Processor { lapic_id: mem[p + 1], flags: mem[p + 3] }
        } else if code == 1 {
            MpEntry::Bus
        } else if code == 2 {
            MpEntry::IoApic
        } else if code == 3 {
            MpEntry::IoInterrupt
        } else {
            MpEntry::LocalInterrupt
        };
        proof {
            let rest = entries_from(mem@, p + len, (left - 1) as nat);
            assert(entries_from(mem@, p as int, left as nat) == seq![entry] + rest);
            assert(out@.push(entry) + rest =~= out@ + (seq![entry] + rest));
        }
        out.push(entry);
        p = p + len;
        left = left - 1;
    }
    proof {
        assert(entries_from(mem@, p as int, left as nat) =~= Seq::empty());
        assert(out@ + Seq::<MpEntry>::empty() =~= out@);
    }
    out
}

/// Checks the floating pointer structure at `table_address` and reads the
/// configuration table it points to. `None` when the structure is invalid or
/// the header lies outside memory.
pub fn enumerate(mem: &[u8], table_address: usize) -> (r: Option<MpConfigurationTable>)
    ensures
        r is Some <==> floating_pointer_valid(mem@, table_address as int) && header_address(
            mem@,
            table_address as int,
        ) + HEADER_SIZE <= mem@.len(),
        r matches Some(t) ==> {
            let h = header_address(mem@, table_address as int);
            &&& t.header_addr == h
            &&& t.entry_count == u16_at(mem@, h + 34)
            &&& t.local_apic_addr == u32_at(mem@, h + 36)
            &&& t.entries@ == entries_from(mem@, h + HEADER_SIZE, t.entry_count as nat)
        },
{
    let fp = match read_floating_pointer(mem, table_address) {
        Some(fp) => fp,
        None => return None,
    };
    let hdr = fp.physical_address_pointer as usize;
    if hdr > mem.len() || mem.len() - hdr < HEADER_SIZE {
        return None;
    }
    let entry_count = read_u16(mem, hdr + 34);
    let local_apic_addr = read_u32(mem, hdr + 36);
    let entries = parse_entries(mem, hdr + HEADER_SIZE, entry_count);
    Some(MpConfigurationTable { header_addr: hdr, entry_count, local_apic_addr, entries })
}

/// The controller ids of the processor entries, in table order.
pub fn processor_ids(entries: &Vec<MpEntry>) -> (r: Vec<u8>)
    ensures
        r@ == processor_ids_of(entries@),
{
    let mut out: Vec<u8> = Vec::new();
    let mut i: usize = 0;
    while i < entries.len()
        invariant
            i <= entries@.len(),
            out@ == processor_ids_of(entries@.subrange(0, i as int)),
        decreases entries@.len() - i,
    {
        proof {
            assert(entries@.subrange(0, i + 1).drop_last() =~= entries@.subrange(0, i as int));
        }
        match entries[i] {
            MpEntry::Processor { lapic_id, .. } => out.push(lapic_id),
            _ => {},
        }
        i = i + 1;
    }
    proof {
        assert(entries@.subrange(0, i as int) =~= entries@);
    }
    out
}

} // verus!
