//! Local interrupt controller (LAPIC) driver: enabling the controller and
//! sending INIT, startup and fixed interprocessor interrupts.
//!
//! The writes made to the controller's registers are kept as a log, in order;
//! the hardware layer replays that log onto the memory-mapped page at
//! `lapic_addr`. Register values the driver depends on (the spurious-interrupt
//! vector, the delivery status) are read by the caller and handed in.
use vstd::prelude::*;
use crate::pmm::FrameAllocator;
use crate::vmm::{map_addr_current, map_post, PageTables};

verus! {

/// Offset of the spurious-interrupt vector register, which holds the enable bit.
pub const REG_SPURIOUS: u64 = 0xF0;

/// Offset of the low word of the interrupt command register; writing it sends.
pub const REG_ICR_LOW: u64 = 0x300;

/// Offset of the high word of the interrupt command register: the destination.
pub const REG_ICR_HIGH: u64 = 0x310;

/// Software-enable bit of the spurious-interrupt vector register.
pub const SVR_ENABLE: u32 = 0x100;

/// Delivery-status bit of the command register: an interrupt is still pending.
pub const DELIVERY_PENDING: u32 = 0x1000;

/// Level-assert bit of the command register.
pub const LEVEL_ASSERT: u32 = 0x4000;

/// Delivery mode INIT in the command register.
pub const DELIVERY_INIT: u32 = 0x500;

/// Delivery mode startup in the command register.
pub const DELIVERY_STARTUP: u32 = 0x600;

/// One write to a controller register.
#[derive(Clone, Copy, Debug, PartialEq, Eq, Structural)]
pub struct RegisterWrite {
    pub offset: u64,
    pub value: u32,
}

/// The destination word that selects controller `target`.
pub open spec fn destination_word(target: u8) -> u32 {
    ((target as u32) << 24u32) as u32
}

/// The command word for an INIT interrupt.
pub open spec fn init_command() -> u32 {
    DELIVERY_INIT
}

/// The command word for a startup interrupt to `vector`: the core starts at
/// physical address `vector * 4096`.
pub open spec fn startup_command(vector: u8) -> u32 {
    DELIVERY_STARTUP | LEVEL_ASSERT | (vector as u32)
}

/// The command word for a fixed interrupt with `vector`.
pub open spec fn fixed_command(vector: u8) -> u32 {
    (vector as u32) | LEVEL_ASSERT
}

/// The two writes that send command word `command` to `target`: the
/// destination first, since the controller latches it when the command word
/// is written.
pub open spec fn command_writes(target: u8, command: u32) -> Seq<RegisterWrite> {
    seq![
        RegisterWrite { offset: REG_ICR_HIGH, value: destination_word(target) },
        RegisterWrite { offset: REG_ICR_LOW, value: command },
    ]
}

/// Whether a command-register low word read from the controller shows the
/// previous interrupt as still pending.
pub fn delivery_pending(icr_low: u32) -> (r: bool)
    ensures
        r == (icr_low & DELIVERY_PENDING != 0),
{
    icr_low & DELIVERY_PENDING != 0
}

/// The local interrupt controller of the running core.
pub struct LAPIC {
    lapic_addr: u64,
    lapic_id: u8,
    log: Vec<RegisterWrite>,
}

impl LAPIC {
    /// Physical address of the register page.
    pub closed spec fn base(&self) -> u64 {
        self.lapic_addr
    }

    /// Controller id of the core that owns this controller.
    pub closed spec fn id(&self) -> u8 {
        self.lapic_id
    }

    /// The writes made to the registers so far, oldest first.
    pub closed spec fn writes(&self) -> Seq<RegisterWrite> {
        self.log@
    }

    /// Maps the register page at `lapic_addr` onto itself in the active
    /// hierarchy, then sets the enable bit of the spurious-interrupt vector
    /// register, whose current value is `svr`, keeping its other bits.
    pub fn new(
        pt: &mut PageTables,
        fma: &mut FrameAllocator,
        lapic_addr: u64,
        lapic_id: u8,
        svr: u32,
    ) -> (r: LAPIC)
        requires
            old(pt).wf(),
            old(fma).wf(),
            old(fma).has_room(3),
        ensures
            final(pt).wf(),
            final(fma).wf(),
            map_post(
                *old(pt),
                *old(fma),
                *final(pt),
                *final(fma),
                old(pt).root_table(),
                lapic_addr,
                lapic_addr,
            ),
            r.base() == lapic_addr,
            r.id() == lapic_id,
            r.writes() == seq![RegisterWrite { offset: REG_SPURIOUS, value: svr | SVR_ENABLE }],
    {
        map_addr_current(pt, fma, lapic_addr, lapic_addr);
        let mut ret = LAPIC { lapic_addr, lapic_id, log: Vec::new() };
        ret.write_u32(REG_SPURIOUS, svr | SVR_ENABLE);
        proof {
            assert(ret.log@ =~= seq![RegisterWrite { offset: REG_SPURIOUS, value: svr | SVR_ENABLE }]);
        }
        ret
    }

    fn write_u32(&mut self, register: u64, value: u32)
        ensures
            final(self).base() == old(self).base(),
            final(self).id() == old(self).id(),
            final(self).writes() == old(self).writes().push(RegisterWrite { offset: register, value }),
    {
        self.log.push(RegisterWrite { offset: register, value });
    }

    /// Sends a fixed interrupt with `vector` to controller `target` once the
    /// previous one has left the controller. `icr_low` is the command-register
    /// low word just read from the controller: while it shows an interrupt
    /// pending nothing is written and `false` comes back, and the caller reads
    /// the register again and retries. There is no timeout.
    pub fn send_ipi_to(&mut self, target_id: u8, vector: u8, icr_low: u32) -> (sent: bool)
        ensures
            sent == (icr_low & DELIVERY_PENDING == 0),
            final(self).base() == old(self).base(),
            final(self).id() == old(self).id(),
            sent ==> final(self).writes() == old(self).writes() + command_writes(
                target_id,
                fixed_command(vector),
            ),
            !sent ==> final(self).writes() == old(self).writes(),
    {
        if delivery_pending(icr_low) {
            return false;
        }
        self.write_u32(REG_ICR_HIGH, (target_id as u32) << 24);
        let control: u32 = (vector as u32) | LEVEL_ASSERT;
        self.write_u32(REG_ICR_LOW, control);
        proof {
            assert(self.writes() =~= old(self).writes() + command_writes(
                target_id,
                fixed_command(vector),
            ));
        }
        true
    }

    /// Sends a startup interrupt to controller `target`: it begins executing
    /// at physical address `vector * 4096`.
    pub fn send_sipi_to(&mut self, target_id: u8, vector: u8)
        ensures
            final(self).base() == old(self).base(),
            final(self).id() == old(self).id(),
            final(self).writes() == old(self).writes() + command_writes(
                target_id,
                startup_command(vector),
            ),
    {
        let higher: u32 = (target_id as u32) << 24;
        let lower: u32 = DELIVERY_STARTUP | LEVEL_ASSERT | (vector as u32);
        self.write_u32(REG_ICR_HIGH, higher);
        self.write_u32(REG_ICR_LOW, lower);
        proof {
            assert(self.writes() =~= old(self).writes() + command_writes(
                target_id,
                startup_command(vector),
            ));
        }
    }

    /// Sends an INIT interrupt to controller `target`, which resets it.
    pub fn send_init_to(&mut self, target_id: u8)
        ensures
            final(self).base() == old(self).base(),
            final(self).id() == old(self).id(),
            final(self).writes() == old(self).writes() + command_writes(target_id, init_command()),
    {
        let higher: u32 = (target_id as u32) << 24;
        let lower: u32 = DELIVERY_INIT;
        self.write_u32(REG_ICR_HIGH, higher);
        self.write_u32(REG_ICR_LOW, lower);
        proof {
            assert(self.writes() =~= old(self).writes() + command_writes(target_id, init_command()));
        }
    }

    /// Physical address of the register page.
    pub fn lapic_addr(&self) -> (r: u64)
        ensures
            r == self.base(),
    {
        self.lapic_addr
    }

    /// Controller id of the core that owns this controller.
    pub fn lapic_id(&self) -> (r: u8)
        ensures
            r == self.id(),
    {
        self.lapic_id
    }

    /// The writes made to the registers so far, oldest first.
    pub fn register_writes(&self) -> (r: &Vec<RegisterWrite>)
        ensures
            r@ == self.writes(),
    {
        &self.log
    }
}

} // verus!
