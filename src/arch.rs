//! Architecture constants for amd64. Addresses are 64-bit on this
//! architecture, so they are carried as `u64`.
use vstd::prelude::*;

verus! {

/// Virtual base at which the kernel image is mapped.
pub const KERNEL_BASE: u64 = 0xFFFF_FFFF_8000_0000;

/// Number of address bits covered by one page.
pub const PAGE_SHIFT: u64 = 12;

/// Size of one page in bytes.
pub const PAGE_SIZE: u64 = 4096;

/// Value a Multiboot-compliant boot loader leaves in `eax`.
pub const MULTIBOOT_SIGNATURE: u32 = 0x2BAD_B002;

/// Why the kernel cannot start.
#[derive(Clone, Copy, Debug, PartialEq, Eq, Structural)]
pub enum BootError {
    /// The boot loader is not Multiboot-compliant.
    InvalidSignature,
    /// The boot loader did not report the memory bounds.
    NoMemoryInfo,
    /// Less memory is available than the kernel needs.
    InsufficientMemory,
}

/// Bytes of upper memory: the boot loader reports it in KiB.
pub open spec fn upper_memory_bytes(kib: u32) -> u64 {
    (kib * 1024) as u64
}

/// Bytes of memory available above 1 MiB, from the boot loader's signature
/// and its report of upper memory in KiB.
pub fn discover_memory(mboot_sig: u32, upper_memory_kib: Option<u32>) -> (r: Result<u64, BootError>)
    ensures
        mboot_sig != MULTIBOOT_SIGNATURE ==> r == Err::<u64, BootError>(BootError::InvalidSignature),
        mboot_sig == MULTIBOOT_SIGNATURE ==> r == match upper_memory_kib {
            Some(kib) => Ok(upper_memory_bytes(kib)),
            None => Err(BootError::NoMemoryInfo),
        },
{
    if mboot_sig != MULTIBOOT_SIGNATURE {
        return Err(BootError::InvalidSignature);
    }
    match upper_memory_kib {
        Some(kib) => Ok(kib as u64 * 1024),
        None => Err(BootError::NoMemoryInfo),
    }
}

/// Early architecture set-up: the available memory and the page size.
pub fn early_init(mboot_sig: u32, upper_memory_kib: Option<u32>) -> (r: Result<(u64, u64), BootError>)
    ensures
        mboot_sig != MULTIBOOT_SIGNATURE ==> r == Err::<(u64, u64), BootError>(
            BootError::InvalidSignature,
        ),
        mboot_sig == MULTIBOOT_SIGNATURE ==> r == match upper_memory_kib {
            Some(kib) => Ok((upper_memory_bytes(kib), PAGE_SIZE)),
            None => Err(BootError::NoMemoryInfo),
        },
{
    match discover_memory(mboot_sig, upper_memory_kib) {
        Ok(available_memory) => Ok((available_memory, PAGE_SIZE)),
        Err(e) => Err(e),
    }
}

} // verus!
