//! Memory management and multiprocessor bring-up core of a freestanding
//! amd64 kernel: a physical frame allocator, a four-level page-table
//! manager, the local interrupt controller's command interface, the
//! multiprocessor configuration table scanner and the bring-up sequencer.
pub mod arch;
pub mod heap;
pub mod pmm;
pub mod vmm;
pub mod mptable;
pub mod apic;
pub mod smp;
pub mod boot;
