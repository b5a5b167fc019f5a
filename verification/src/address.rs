//! SV39 address arithmetic: truncation of addresses and page numbers,
//! page offsets, and rounding of addresses to page numbers.
use vstd::prelude::*;
use crate::config::{PAGE_SIZE, VA_LIMIT, VPN_LIMIT};

verus! {

/// The virtual address that a raw `u64` denotes: its low 39 bits.
pub open spec fn va_of(v: int) -> int {
    v % (VA_LIMIT as int)
}

/// The virtual page number that a raw `u64` denotes: its low 27 bits.
pub open spec fn vpn_of(v: int) -> int {
    v % (VPN_LIMIT as int)
}

/// The page that holds address `va`.
pub open spec fn floor(va: int) -> int {
    va / (PAGE_SIZE as int)
}

/// The first page that starts at or after `va`.
pub open spec fn ceil(va: int) -> int {
    if va == 0 { 0 } else { (va - 1 + PAGE_SIZE as int) / (PAGE_SIZE as int) }
}

/// The position of address `va` within its page.
pub open spec fn page_offset(va: int) -> int {
    va % (PAGE_SIZE as int)
}

/// Truncates a raw value to an SV39 virtual address.
pub fn virt_addr(v: u64) -> (r: u64)
    ensures
        r == va_of(v as int),
        r < VA_LIMIT,
{
    let r = v & 0x7f_ffff_ffff;
    assert(v & 0x7f_ffff_ffffu64 == v % 0x80_0000_0000u64) by (bit_vector);
    r
}

/// Truncates a raw value to an SV39 virtual page number.
pub fn virt_page_num(v: u64) -> (r: u64)
    ensures
        r == vpn_of(v as int),
        r < VPN_LIMIT,
{
    let r = v & 0x7ff_ffff;
    assert(v & 0x7ff_ffffu64 == v % 0x800_0000u64) by (bit_vector);
    r
}

/// The position of `va` within its page.
pub fn va_page_offset(va: u64) -> (r: u64)
    ensures
        r == page_offset(va as int),
        r < PAGE_SIZE,
{
    let r = va & 0xfff;
    assert(va & 0xfffu64 == va % 4096u64) by (bit_vector);
    r
}

/// The page that holds `va`.
pub fn va_floor(va: u64) -> (r: u64)
    ensures
        r == floor(va as int),
{
    va / PAGE_SIZE
}

/// The first page that starts at or after `va`, for an SV39 address.
pub fn va_ceil(va: u64) -> (r: u64)
    requires
        va < VA_LIMIT,
    ensures
        r == ceil(va as int),
        r <= VPN_LIMIT,
{
    if va == 0 {
        0
    } else {
        (va - 1 + PAGE_SIZE) / PAGE_SIZE
    }
}

} // verus!
