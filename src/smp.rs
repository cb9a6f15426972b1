//! Bring-up of the application cores: discovering them from the
//! multiprocessor tables, allocating their boot stacks, and waking them one
//! by one through the local interrupt controller with a bounded number of
//! cores booting at once.
//!
//! Waking is a state machine: each `Waker::step` sends what it can and returns
//! the outside work it waits for (a delay, or acknowledgements from booting
//! cores), which the caller performs before the next step.
use vstd::prelude::*;
use crate::apic::{
    command_writes, init_command, startup_command, RegisterWrite, LAPIC, REG_SPURIOUS, SVR_ENABLE,
};
use crate::arch::{KERNEL_BASE, PAGE_SIZE};
use crate::mptable::{
    enumerate, entries_from, find_tables, floating_pointer_valid, header_address, processor_ids,
    processor_ids_of, tables_location, u16_at, u32_at, MpEntry, HEADER_SIZE,
};
use crate::pmm::FrameAllocator;
use crate::vmm::{page_number, PageTables, ADDRESS_MASK};

verus! {

/// Controller id of a record whose core has not reported in yet.
pub const UNKNOWN_APIC_ID: u64 = 0xFFFF_FFFF_FFFF_FFFF;

/// Startup vector: application cores begin at physical address 0xA000.
pub const AP_START_VECTOR: u8 = 0xA;

/// Busy-wait iterations after each INIT and each startup interrupt.
pub const WAKE_DELAY: u32 = 400_000;

/// How many cores may be between startup and acknowledgement at once.
pub const PARALLEL_BOOT_WINDOW: usize = 1;

/// One core: its logical id, its controller id once known, and the physical
/// frame of its boot stack.
#[derive(Clone, Copy, Debug, PartialEq, Eq, Structural)]
pub struct Processor {
    pub id: usize,
    pub apic_id: u64,
    pub stack_frame: u64,
}

/// The outside work a waking step waits for.
#[derive(Clone, Copy, Debug, PartialEq, Eq, Structural)]
pub enum WakeAction {
    /// Spin for this many iterations, then step again.
    Delay(u32),
    /// Too many cores are booting: step again once more have acknowledged.
    AwaitAck,
    /// Every core has been sent its interrupts.
    Done,
}

/// The first index from `from` on whose controller id is not zero (the
/// bootstrap core, already running), or the length when there is none.
pub open spec fn next_target(targets: Seq<u8>, from: int) -> int
    decreases if from < targets.len() { targets.len() - from } else { 0 },
{
    if from >= targets.len() {
        targets.len() as int
    } else if targets[from] != 0 {
        from
    } else {
        next_target(targets, from + 1)
    }
}

proof fn lemma_next_target_bounds(targets: Seq<u8>, from: int)
    requires
        0 <= from <= targets.len(),
    ensures
        from <= next_target(targets, from) <= targets.len(),
        next_target(targets, from) < targets.len() ==> targets[next_target(targets, from)] != 0,
    decreases targets.len() - from,
{
    if from < targets.len() && targets[from] == 0 {
        lemma_next_target_bounds(targets, from + 1);
    }
}

/// The register writes that wake every core of `targets` but the bootstrap
/// core (id zero): for each, in order, an INIT and then a startup interrupt.
pub open spec fn wake_writes(targets: Seq<u8>) -> Seq<RegisterWrite>
    decreases targets.len(),
{
    if targets.len() == 0 {
        Seq::empty()
    } else {
        let t = targets.last();
        wake_writes(targets.drop_last()) + if t != 0 {
            command_writes(t, init_command()) + command_writes(t, startup_command(AP_START_VECTOR))
        } else {
            Seq::empty()
        }
    }
}

proof fn lemma_wake_writes_step(targets: Seq<u8>, k: int)
    requires
        0 <= k < targets.len(),
    ensures
        wake_writes(targets.take(k + 1)) == wake_writes(targets.take(k)) + if targets[k] != 0 {
            command_writes(targets[k], init_command()) + command_writes(
                targets[k],
                startup_command(AP_START_VECTOR),
            )
        } else {
            Seq::empty()
        },
{
    assert(targets.take(k + 1).drop_last() =~= targets.take(k));
}

/// Sequencer that wakes the cores listed by controller id, in order, with at
/// most `window` of them between their startup interrupt and their
/// acknowledgement.
pub struct Waker {
    targets: Vec<u8>,
    next: usize,
    started: usize,
    acked: usize,
    window: usize,
    init_sent: bool,
}

impl Waker {
    /// Controller ids of the cores to wake, in order.
    pub closed spec fn targets(&self) -> Seq<u8> {
        self.targets@
    }

    /// Index of the next core to consider.
    pub closed spec fn next_index(&self) -> int {
        self.next as int
    }

    /// Startup interrupts sent so far.
    pub closed spec fn started(&self) -> int {
        self.started as int
    }

    /// Acknowledgements seen so far.
    pub closed spec fn acked(&self) -> int {
        self.acked as int
    }

    /// Largest number of cores that may be booting at once.
    pub closed spec fn window(&self) -> int {
        self.window as int
    }

    /// INIT was sent to the core at `next_index` and its startup interrupt is due.
    pub closed spec fn init_pending(&self) -> bool {
        self.init_sent
    }

    /// The register writes issued so far: the full sequence for every core
    /// before `next_index`, and the INIT of the core at `next_index` when its
    /// startup interrupt is due.
    pub open spec fn issued_writes(&self) -> Seq<RegisterWrite> {
        wake_writes(self.targets().take(self.next_index())) + if self.init_pending() {
            command_writes(self.targets()[self.next_index()], init_command())
        } else {
            Seq::empty()
        }
    }

    /// Cores that were sent a startup interrupt and have not acknowledged.
    pub open spec fn in_flight(&self) -> int {
        self.started() - self.acked()
    }

    pub open spec fn wf(&self) -> bool {
        &&& 0 <= self.next_index() <= self.targets().len()
        &&& 0 <= self.acked() <= self.started() <= self.next_index()
        &&& 1 <= self.window()
        &&& self.in_flight() <= self.window()
        &&& self.init_pending() ==> {
            &&& self.next_index() < self.targets().len()
            &&& self.targets()[self.next_index()] != 0
            &&& self.in_flight() < self.window()
        }
    }

    /// A sequencer for `targets` that lets at most `window` cores boot at once.
    pub fn new(targets: Vec<u8>, window: usize) -> (r: Waker)
        requires
            window >= 1,
        ensures
            r.wf(),
            r.targets() == targets@,
            r.window() == window,
            r.next_index() == 0,
            r.started() == 0,
            r.acked() == 0,
            !r.init_pending(),
    {
        Waker { targets, next: 0, started: 0, acked: 0, window, init_sent: false }
    }

    /// Startup interrupts sent so far.
    pub fn started_count(&self) -> (r: usize)
        ensures
            r == self.started(),
    {
        self.started
    }

    /// Takes one step, given the number of cores that have acknowledged so
    /// far: sends the startup interrupt that is due after an INIT, or else
    /// moves to the next core other than the bootstrap core and sends it INIT
    /// if fewer than `window` cores are booting.
    pub fn step(&mut self, lapic: &mut LAPIC, acked: usize) -> (r: WakeAction)
        requires
            old(self).wf(),
            old(self).acked() <= acked <= old(self).started(),
        ensures
            final(self).wf(),
            final(lapic).base() == old(lapic).base(),
            final(self).targets() == old(self).targets(),
            final(self).window() == old(self).window(),
            final(self).acked() == acked,
            final(self).in_flight() <= final(self).window(),
            forall|prefix: Seq<RegisterWrite>|
                old(lapic).writes() == prefix + old(self).issued_writes()
                    ==> #[trigger] final(lapic).writes() == prefix + final(self).issued_writes(),
            r == WakeAction::Done ==> final(self).next_index() == final(self).targets().len()
                && !final(self).init_pending(),
            old(self).init_pending() ==> {
                &&& r == WakeAction::Delay(WAKE_DELAY)
                &&& final(lapic).writes() == old(lapic).writes() + command_writes(
                    old(self).targets()[old(self).next_index()],
                    startup_command(AP_START_VECTOR),
                )
                &&& final(self).started() == old(self).started() + 1
                &&& final(self).next_index() == old(self).next_index() + 1
                &&& !final(self).init_pending()
            },
            !old(self).init_pending() ==> {
                let n = next_target(old(self).targets(), old(self).next_index());
                &&& final(self).next_index() == n
                &&& final(self).started() == old(self).started()
                &&& n == old(self).targets().len() ==> {
                    &&& r == WakeAction::Done
                    &&& final(lapic).writes() == old(lapic).writes()
                    &&& !final(self).init_pending()
                }
                &&& n < old(self).targets().len() && old(self).started() - acked >= old(
                    self,
                ).window() ==> {
                    &&& r == WakeAction::AwaitAck
                    &&& final(lapic).writes() == old(lapic).writes()
                    &&& !final(self).init_pending()
                }
                &&& n < old(self).targets().len() && old(self).started() - acked < old(
                    self,
                ).window() ==> {
                    &&& r == WakeAction::Delay(WAKE_DELAY)
                    &&& final(lapic).writes() == old(lapic).writes() + command_writes(
                        old(self).targets()[n],
                        init_command(),
                    )
                    &&& final(self).init_pending()
                }
            },
    {
        self.acked = acked;
        let len = self.targets.len();
        if self.init_sent {
            let target = self.targets[self.next];
            let ghost w0 = *self;
            let ghost l0 = *lapic;
            lapic.send_sipi_to(target, AP_START_VECTOR);
            self.started = self.started + 1;
            self.next = self.next + 1;
            self.init_sent = false;
            proof {
                lemma_wake_writes_step(self.targets@, w0.next as int);
                assert forall|prefix: Seq<RegisterWrite>|
                    l0.writes() == prefix + w0.issued_writes() implies #[trigger] lapic.writes()
                    == prefix + self.issued_writes() by {
                    assert(lapic.writes() =~= prefix + self.issued_writes());
                }
            }
            return WakeAction::Delay(WAKE_DELAY);
        }
        let ghost from = self.next as int;
        proof {
            lemma_next_target_bounds(self.targets@, from);
        }
        let mut n: usize = self.next;
        while n < len && self.targets[n] == 0
            invariant
                from <= n <= self.targets@.len(),
                len == self.targets@.len(),
                next_target(self.targets@, n as int) == next_target(self.targets@, from),
                wake_writes(self.targets@.take(n as int)) == wake_writes(self.targets@.take(from)),
            decreases self.targets@.len() - n,
        {
            proof {
                lemma_wake_writes_step(self.targets@, n as int);
                assert(wake_writes(self.targets@.take(n as int)) + Seq::<RegisterWrite>::empty()
                    =~= wake_writes(self.targets@.take(n as int)));
            }
            n = n + 1;
        }
        let ghost w0 = *self;
        let ghost l0 = *lapic;
        self.next = n;
        if n == len {
            WakeAction::Done
        } else if self.started - self.acked >= self.window {
            WakeAction::AwaitAck
        } else {
            lapic.send_init_to(self.targets[n]);
            self.init_sent = true;
            proof {
                assert forall|prefix: Seq<RegisterWrite>|
                    l0.writes() == prefix + w0.issued_writes() implies #[trigger] lapic.writes()
                    == prefix + self.issued_writes() by {
                    assert(w0.issued_writes() =~= wake_writes(self.targets@.take(from)));
                    assert(lapic.writes() =~= prefix + self.issued_writes());
                }
            }
            WakeAction::Delay(WAKE_DELAY)
        }
    }
}

/// Once the waker has gone through every listed core with no startup
/// interrupt due, the writes it issued are exactly, in table order, an INIT
/// and then a startup interrupt for each listed core but the bootstrap core.
pub proof fn lemma_complete_wake_run(w: Waker, prefix: Seq<RegisterWrite>, writes: Seq<RegisterWrite>)
    requires
        w.wf(),
        writes == prefix + w.issued_writes(),
        w.next_index() == w.targets().len(),
        !w.init_pending(),
    ensures
        writes == prefix + wake_writes(w.targets()),
{
    assert(w.targets().take(w.next_index()) =~= w.targets());
    assert(w.issued_writes() =~= wake_writes(w.targets()));
}

/// `procs` are the records of `count` cores with logical ids `0..count`, no
/// controller id yet, and boot stacks in consecutive frames from `first` on.
pub open spec fn fresh_records(procs: Seq<Processor>, count: nat, first: nat) -> bool {
    &&& procs.len() == count
    &&& forall|i: int|
        0 <= i < count ==> #[trigger] procs[i] == Processor {
            id: i as usize,
            apic_id: UNKNOWN_APIC_ID,
            stack_frame: ((first + i) * PAGE_SIZE) as u64,
        }
}

/// What discovery leaves for the waking stage.
pub struct BringUp {
    /// Number of processors the tables list, or one when there are no usable tables.
    pub processor_count: usize,
    /// One record per listed processor.
    pub processors: Vec<Processor>,
    /// The bootstrap core's controller, when the tables name one.
    pub lapic: Option<LAPIC>,
    /// The sequencer that wakes the listed cores.
    pub waker: Waker,
}

proof fn lemma_entries_len(s: Seq<u8>, pos: int, count: nat)
    ensures
        entries_from(s, pos, count).len() <= count,
    decreases count,
{
    if count > 0 && 0 <= pos < s.len() {
        let len = crate::mptable::entry_length(s[pos]);
        if len != 0 && pos + len <= s.len() {
            lemma_entries_len(s, pos + len, (count - 1) as nat);
        }
    }
}

proof fn lemma_processor_ids_len(entries: Seq<MpEntry>)
    ensures
        processor_ids_of(entries).len() <= entries.len(),
    decreases entries.len(),
{
    if entries.len() > 0 {
        lemma_processor_ids_len(entries.drop_last());
    }
}

/// The multiprocessor tables in `mem` are present and readable.
pub open spec fn tables_usable(mem: Seq<u8>) -> bool {
    tables_location(mem) matches Some(a) && floating_pointer_valid(mem, a) && header_address(mem, a)
        + HEADER_SIZE <= mem.len()
}

/// Controller ids of the processors that usable tables in `mem` list.
pub open spec fn listed_processors(mem: Seq<u8>) -> Seq<u8> {
    let h = header_address(mem, tables_location(mem)->Some_0);
    processor_ids_of(entries_from(mem, h + HEADER_SIZE, u16_at(mem, h + 34) as nat))
}

/// Physical address of the controllers' registers that usable tables in `mem` give.
pub open spec fn listed_lapic_addr(mem: Seq<u8>) -> int {
    u32_at(mem, header_address(mem, tables_location(mem)->Some_0) + 36)
}

/// Discovers the cores from the multiprocessor tables in `mem` (physical
/// memory from address zero), maps the bootstrap core's controller, and
/// allocates one boot-stack frame per listed core. `lapic_svr` is the value
/// of the controller's spurious-interrupt vector register, which is enabled
/// keeping its other bits; nothing else is sent. Without usable tables
/// there is one core and nothing is allocated.
pub fn bring_up_processors(
    fma: &mut FrameAllocator,
    pt: &mut PageTables,
    mem: &[u8],
    lapic_svr: u32,
) -> (r: BringUp)
    requires
        old(fma).wf(),
        old(pt).wf(),
        old(fma).has_room(0x1_0003),
    ensures
        final(fma).wf(),
        final(pt).wf(),
        final(fma).page_bytes() == old(fma).page_bytes(),
        final(pt).root_table() == old(pt).root_table(),
        old(pt).directory_sound(old(fma).next_id() * PAGE_SIZE) ==> {
            &&& final(pt).directory_sound(final(fma).next_id() * PAGE_SIZE)
            &&& forall|v: u64|
                (!tables_usable(mem@) || page_number(v) != page_number(
                    listed_lapic_addr(mem@) as u64,
                )) && (#[trigger] old(pt).translate(old(pt).root_table(), v)) is Some
                    ==> final(pt).translate(old(pt).root_table(), v) == old(pt).translate(
                    old(pt).root_table(),
                    v,
                )
        },
        r.waker.wf(),
        r.waker.next_index() == 0 && r.waker.started() == 0 && r.waker.acked() == 0,
        r.waker.window() == PARALLEL_BOOT_WINDOW,
        !r.waker.init_pending(),
        !tables_usable(mem@) ==> {
            &&& r.processor_count == 1
            &&& r.processors@.len() == 0
            &&& r.lapic is None
            &&& r.waker.targets().len() == 0
            &&& *final(fma) == *old(fma)
            &&& *final(pt) == *old(pt)
        },
        tables_usable(mem@) ==> {
            let ids = listed_processors(mem@);
            let first = (final(fma).next_id() - ids.len()) as nat;
            &&& r.processor_count == ids.len()
            &&& r.waker.targets() == ids
            &&& old(fma).next_id() <= first <= old(fma).next_id() + 3
            &&& fresh_records(r.processors@, ids.len(), first)
            &&& final(pt).translate(old(pt).root_table(), listed_lapic_addr(mem@) as u64) == Some(
                (listed_lapic_addr(mem@) as u64) & ADDRESS_MASK,
            )
            &&& r.lapic matches Some(l) && l.base() == listed_lapic_addr(mem@) && l.id() == 0
                && l.writes() == seq![RegisterWrite { offset: REG_SPURIOUS, value: lapic_svr | SVR_ENABLE }]
        },
{
    let no_tables = BringUp {
        processor_count: 1,
        processors: Vec::new(),
        lapic: None,
        waker: Waker::new(Vec::new(), PARALLEL_BOOT_WINDOW),
    };
    let location = match find_tables(mem) {
        Some(a) => a,
        None => return no_tables,
    };
    let table = match enumerate(mem, location) {
        Some(t) => t,
        None => return no_tables,
    };
    let lapic = LAPIC::new(pt, fma, table.local_apic_addr as u64, 0, lapic_svr);
    let ids = processor_ids(&table.entries);
    let count = ids.len();
    proof {
        lemma_entries_len(mem@, table.header_addr + HEADER_SIZE, table.entry_count as nat);
        lemma_processor_ids_len(table.entries@);
    }
    let ghost first = fma.next_id();
    let ghost mapped = *pt;
    let mut processors: Vec<Processor> = Vec::new();
    let mut i: usize = 0;
    while i < count
        invariant
            i <= count,
            count <= 0xFFFF,
            fma.wf(),
            fma.next_id() == first + i,
            fma.has_room((count - i) as nat),
            fma.page_bytes() == old(fma).page_bytes(),
            fresh_records(processors@, i as nat, first),
        decreases count - i,
    {
        let fr = fma.allocate_frame();
        processors.push(Processor { id: i, apic_id: UNKNOWN_APIC_ID, stack_frame: fr.frame_addr() });
        i = i + 1;
    }
    proof {
        if old(pt).directory_sound(old(fma).next_id() * PAGE_SIZE) {
            pt.lemma_sound_grows(first * PAGE_SIZE, fma.next_id() * PAGE_SIZE);
        }
    }
    BringUp {
        processor_count: count,
        processors,
        lapic: Some(lapic),
        waker: Waker::new(ids, PARALLEL_BOOT_WINDOW),
    }
}

/// Position of the record of the core with logical id `cpu_id`.
pub fn find_processor(list: &Vec<Processor>, cpu_id: usize) -> (r: Option<usize>)
    ensures
        r matches Some(k) ==> k < list@.len() && list@[k as int].id == cpu_id && forall|j: int|
            0 <= j < k ==> list@[j].id != cpu_id,
        r is None ==> forall|j: int| 0 <= j < list@.len() ==> list@[j].id != cpu_id,
{
    let mut k: usize = 0;
    while k < list.len()
        invariant
            k <= list@.len(),
            forall|j: int| 0 <= j < k ==> list@[j].id != cpu_id,
        decreases list@.len() - k,
    {
        if list[k].id == cpu_id {
            return Some(k);
        }
        k = k + 1;
    }
    None
}

/// The initial stack pointer of core `cpu_id`: the top of its boot-stack
/// frame as seen through the kernel's high mapping. `None` when no record
/// has that id or the frame lies beyond the high mapping.
pub fn ap_stack_top(list: &Vec<Processor>, cpu_id: usize) -> (r: Option<u64>)
    ensures
        r matches Some(top) ==> exists|k: int|
            0 <= k < list@.len() && #[trigger] list@[k].id == cpu_id && top == list@[k].stack_frame
                + PAGE_SIZE + KERNEL_BASE,
        r is None ==> forall|k: int|
            0 <= k < list@.len() && #[trigger] list@[k].id == cpu_id ==> list@[k].stack_frame
                + PAGE_SIZE + KERNEL_BASE > u64::MAX || exists|j: int|
                0 <= j < k && list@[j].id == cpu_id,
{
    match find_processor(list, cpu_id) {
        Some(k) => {
            let frame = list[k].stack_frame;
            if frame <= u64::MAX - PAGE_SIZE - KERNEL_BASE {
                Some(frame + PAGE_SIZE + KERNEL_BASE)
            } else {
                None
            }
        },
        None => None,
    }
}

/// Position `k` holds the first record of `list` whose logical id is `id`.
pub open spec fn first_record(list: Seq<Processor>, id: usize, k: int) -> bool {
    &&& 0 <= k < list.len()
    &&& list[k].id == id
    &&& forall|j: int| 0 <= j < k ==> list[j].id != id
}

/// Records the controller id that core `cpu_id` reports about itself, in the
/// first record with that logical id. The field is written once: it succeeds
/// exactly when that record has no controller id yet.
pub fn record_apic_id(list: &mut Vec<Processor>, cpu_id: usize, apic_id: u64) -> (r: bool)
    ensures
        r == exists|k: int| #[trigger]
            first_record(old(list)@, cpu_id, k) && old(list)@[k].apic_id == UNKNOWN_APIC_ID,
        forall|k: int| #[trigger]
            first_record(old(list)@, cpu_id, k) && r ==> final(list)@ == old(list)@.update(
                k,
                Processor { apic_id, ..old(list)@[k] },
            ),
        !r ==> final(list)@ == old(list)@,
{
    match find_processor(list, cpu_id) {
        Some(k) => {
            proof {
                assert forall|m: int| #[trigger] first_record(list@, cpu_id, m) implies m == k by {
                    if m < k {
                    } else if m > k {
                        assert(list@[k as int].id == cpu_id);
                    }
                }
                assert(first_record(list@, cpu_id, k as int));
            }
            if list[k].apic_id != UNKNOWN_APIC_ID {
                return false;
            }
            let p = list[k];
            list.set(k, Processor { apic_id, ..p });
            true
        },
        None => false,
    }
}

} // verus!
