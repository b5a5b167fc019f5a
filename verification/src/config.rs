//! Constants shared by the memory and file-system models.
use vstd::prelude::*;

verus! {

/// Size of a page and of a physical frame, in bytes.
pub const PAGE_SIZE: u64 = 4096;

/// Number of low bits of an address that select a byte within its page.
pub const PAGE_SIZE_BITS: u64 = 12;

/// Number of significant bits of an SV39 virtual address.
pub const VA_WIDTH_SV39: u64 = 39;

/// Number of significant bits of an SV39 virtual page number.
pub const VPN_WIDTH_SV39: u64 = 27;

/// `1 << VA_WIDTH_SV39`: the size of the SV39 virtual address space.
pub const VA_LIMIT: u64 = 0x80_0000_0000;

/// `1 << VPN_WIDTH_SV39`: the number of SV39 virtual pages.
pub const VPN_LIMIT: u64 = 0x800_0000;

/// Longest file name, in bytes, that a directory entry can hold.
pub const NAME_LENGTH_LIMIT: usize = 27;

/// Size in bytes of one directory entry on disk.
pub const DIRENT_SZ: usize = 32;

} // verus!
