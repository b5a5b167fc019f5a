//! How the page table of an address space agrees with its areas: a page
//! that the table maps is backed by an area, by the very frame the table
//! maps it to. Two mapped pages thus never share a frame, and each frame a
//! page is mapped to is one the address space owns.
use vstd::prelude::*;
use crate::frame::PhysMemory;
use crate::page_table::{PageTableEntry, PTE_V, empty_pte, lemma_empty_invalid};
use crate::config::{VA_LIMIT, VPN_LIMIT};
use crate::address::{va_of, floor, page_offset};
use crate::memory_set::{MemorySet, vpn_at, user_space_post, fork_post, shrink_post, append_post};
use crate::syscall::mm::{mmap_post, munmap_post, covers, range_vpns, munmap_lo, munmap_hi};

verus! {

impl MemorySet {
    /// Whether an area backs page `v` with frame `f`.
    pub open spec fn backed_by(&self, v: u64, f: u64) -> bool {
        exists|j: int| #[trigger] self.backs(j, v) && self.data_frame(j, v) == f
    }

    /// Whether every page that the table maps is backed by an area with the
    /// frame it is mapped to.
    pub open spec fn maps_ok(&self) -> bool {
        forall|v: u64| #[trigger] self.page_table.entry(v).valid() ==> self.backed_by(v, self.page_table.entry(v).ppn)
    }
}

/// A valid entry with the valid bit set by hand.
proof fn lemma_flags_valid(flags: u8)
    ensures
        (PageTableEntry { ppn: 0, flags: flags | PTE_V }).valid(),
        forall|p: u64| #[trigger] (PageTableEntry { ppn: p, flags: flags | PTE_V }).valid(),
{
    assert((flags | 1u8) & 1u8 != 0) by (bit_vector);
}

/// In an address space whose table agrees with its areas and that uses no
/// frame twice, two mapped pages are mapped to different frames, and a
/// mapped page is mapped to a frame the address space owns.
pub proof fn lemma_mapped_distinct(ms: MemorySet, v1: u64, v2: u64)
    requires
        ms.maps_ok(),
        ms.frames_distinct(),
        ms.page_table.entry(v1).valid(),
    ensures
        ms.owns(ms.page_table.entry(v1).ppn),
        ms.page_table.entry(v2).valid() && v1 != v2 ==> ms.page_table.entry(v1).ppn != ms.page_table.entry(v2).ppn,
{
    let f1 = ms.page_table.entry(v1).ppn;
    assert(ms.backed_by(v1, f1));
    let j1 = choose|j: int| #[trigger] ms.backs(j, v1) && ms.data_frame(j, v1) == f1;
    assert(ms.holds_data(f1));
    if ms.page_table.entry(v2).valid() && v1 != v2 {
        let f2 = ms.page_table.entry(v2).ppn;
        assert(ms.backed_by(v2, f2));
        let j2 = choose|j: int| #[trigger] ms.backs(j, v2) && ms.data_frame(j, v2) == f2;
        assert(ms.backs(j1, v1) && ms.backs(j2, v2));
    }
}

/// A freshly loaded program's address space agrees with its areas.
pub proof fn lemma_user_space_maps(pm0: PhysMemory, ms: MemorySet, pm1: PhysMemory)
    requires
        user_space_post(pm0, ms, pm1),
    ensures
        ms.maps_ok(),
{
    lemma_empty_invalid();
    assert forall|v: u64| #[trigger] ms.page_table.entry(v).valid() implies ms.backed_by(v, ms.page_table.entry(v).ppn) by {
        assert(ms.page_table.entries@.contains_key(v));
        let j = choose|j: int| 0 <= j < 3 && #[trigger] ms.areas@[j].contains(v);
        assert(ms.areas@[j].data_frames@.dom().contains(v));
        assert(ms.backs(j, v));
    }
}

/// A copy made by `fork` agrees with its areas.
pub proof fn lemma_fork_maps(parent: MemorySet, pm0: PhysMemory, child: MemorySet, pm1: PhysMemory)
    requires
        fork_post(parent, pm0, child, pm1),
    ensures
        child.maps_ok(),
{
    lemma_empty_invalid();
    assert forall|v: u64| #[trigger] child.page_table.entry(v).valid() implies child.backed_by(v, child.page_table.entry(v).ppn) by {
        assert(child.page_table.entries@.contains_key(v));
        let j = choose|j: int| 0 <= j < parent.areas@.len() && #[trigger] parent.areas@[j].contains(v);
        assert(child.areas@[j].contains(v));
        assert(child.areas@[j].data_frames@.dom().contains(v));
        assert(child.backs(j, v));
    }
}

/// `mmap` keeps the table in agreement with the areas.
pub proof fn lemma_mmap_maps(
    ms0: MemorySet,
    pm0: PhysMemory,
    ms1: MemorySet,
    pm1: PhysMemory,
    start: u64,
    len: u64,
    prot: u64,
    r: i64,
)
    requires
        ms0.maps_ok(),
        mmap_post(ms0, pm0, ms1, pm1, start, len, prot, r),
    ensures
        ms1.maps_ok(),
{
    let n = ms0.areas@.len() as int;
    assert forall|j: int, v: u64| 0 <= j < n && #[trigger] ms0.backs(j, v) implies ms1.backs(j, v) && ms1.data_frame(j, v)
        == ms0.data_frame(j, v) by {
        assert(ms1.areas@[j] == ms0.areas@[j]);
    }
    if r == 0 {
        let s = crate::syscall::mm::mmap_first(start as int);
        let e = crate::syscall::mm::mmap_end(start as int, len as int);
        let area = ms1.areas@.last();
        lemma_flags_valid(((2 * prot + 16) as u8));
        assert forall|v: u64| #[trigger] ms1.page_table.entry(v).valid() implies ms1.backed_by(v, ms1.page_table.entry(v).ppn) by {
            if s <= v < e {
                assert(area.data_frames@.dom().contains(v));
                assert(ms1.areas@[n] == area);
                assert(ms1.backs(n, v));
            } else {
                assert(ms1.page_table.entries@.contains_key(v) == ms0.page_table.entries@.contains_key(v));
                assert(ms1.page_table.entry(v) == ms0.page_table.entry(v));
                let j = choose|j: int| #[trigger] ms0.backs(j, v) && ms0.data_frame(j, v) == ms0.page_table.entry(v).ppn;
                assert(ms1.backs(j, v));
            }
        }
    } else {
        assert forall|v: u64| #[trigger] ms1.page_table.entry(v).valid() implies ms1.backed_by(v, ms1.page_table.entry(v).ppn) by {
            assert(ms1.page_table.entry(v) == ms0.page_table.entry(v));
            let j = choose|j: int| #[trigger] ms0.backs(j, v) && ms0.data_frame(j, v) == ms0.page_table.entry(v).ppn;
            assert(ms1.backs(j, v));
        }
    }
}

/// `munmap` keeps the table in agreement with the areas.
pub proof fn lemma_munmap_maps(
    ms0: MemorySet,
    pm0: PhysMemory,
    ms1: MemorySet,
    pm1: PhysMemory,
    start: u64,
    len: u64,
    r: i64,
)
    requires
        ms0.wf(),
        ms0.maps_ok(),
        munmap_post(ms0, pm0, ms1, pm1, start, len, r),
    ensures
        ms1.maps_ok(),
{
    if r == 0 {
        lemma_empty_invalid();
        let rv = range_vpns(munmap_lo(start as int), munmap_hi(start as int, len as int) + 1);
        assert forall|v: u64| #[trigger] ms1.page_table.entry(v).valid() implies ms1.backed_by(v, ms1.page_table.entry(v).ppn) by {
            if rv.contains(v) && covers(ms0.areas@, v) {
                assert(ms1.page_table.entry(v) == empty_pte());
            } else {
                assert(ms1.page_table.entry(v) == ms0.page_table.entry(v));
                let j = choose|j: int| #[trigger] ms0.backs(j, v) && ms0.data_frame(j, v) == ms0.page_table.entry(v).ppn;
                assert(ms0.areas@[j].contains(v));
                if rv.contains(v) {
                    assert(covers(ms0.areas@, v));
                }
                assert(ms1.areas@[j].data_frames@ == ms0.areas@[j].data_frames@.remove_keys(rv));
                assert(ms1.backs(j, v));
            }
        }
    }
}

/// Shrinking an area keeps the table in agreement with the areas.
pub proof fn lemma_shrink_maps(ms0: MemorySet, pm0: PhysMemory, ms1: MemorySet, pm1: PhysMemory, j: int, new_end: u64)
    requires
        0 <= j < ms0.areas@.len(),
        ms0.maps_ok(),
        shrink_post(ms0, pm0, ms1, pm1, j, new_end),
    ensures
        ms1.maps_ok(),
{
    lemma_empty_invalid();
    let o = ms0.areas@[j];
    assert forall|v: u64| #[trigger] ms1.page_table.entry(v).valid() implies ms1.backed_by(v, ms1.page_table.entry(v).ppn) by {
        if new_end <= v < o.end_vpn {
            assert(ms1.page_table.entry(v) == empty_pte());
        } else {
            assert(ms1.page_table.entry(v) == ms0.page_table.entry(v));
            let i = choose|i: int| #[trigger] ms0.backs(i, v) && ms0.data_frame(i, v) == ms0.page_table.entry(v).ppn;
            if i == j {
                assert(ms1.areas@[j].data_frames@.contains_key(v));
            } else {
                assert(ms1.areas@[i] == ms0.areas@[i]);
            }
            assert(ms1.backs(i, v));
        }
    }
}

/// Growing an area keeps the table in agreement with the areas.
pub proof fn lemma_append_maps(ms0: MemorySet, pm0: PhysMemory, ms1: MemorySet, pm1: PhysMemory, j: int, new_end: u64)
    requires
        0 <= j < ms0.areas@.len(),
        ms0.maps_ok(),
        append_post(ms0, pm0, ms1, pm1, j, new_end),
    ensures
        ms1.maps_ok(),
{
    let o = ms0.areas@[j];
    let a = ms1.areas@[j];
    lemma_flags_valid(o.map_perm);
    assert forall|v: u64| #[trigger] ms1.page_table.entry(v).valid() implies ms1.backed_by(v, ms1.page_table.entry(v).ppn) by {
        if o.end_vpn <= v < new_end {
            assert(a.data_frames@.dom().contains(v));
            assert(ms1.backs(j, v));
        } else {
            assert(ms1.page_table.entry(v) == ms0.page_table.entry(v));
            let i = choose|i: int| #[trigger] ms0.backs(i, v) && ms0.data_frame(i, v) == ms0.page_table.entry(v).ppn;
            if i != j {
                assert(ms1.areas@[i] == ms0.areas@[i]);
            }
            assert(ms1.backs(i, v));
        }
    }
}

/// In an address space whose table agrees with its areas and that uses no
/// frame twice, two different addresses of a mapped range shorter than the
/// address space reach different bytes of memory.
pub proof fn lemma_range_distinct(ms: MemorySet, pm: PhysMemory, a: int, len: int)
    requires
        ms.maps_ok(),
        ms.frames_distinct(),
        ms.range_mapped(pm, a, len),
        0 <= a,
        len < VA_LIMIT,
    ensures
        forall|j: int, k: int|
            0 <= j < k < len ==> #[trigger] ms.frame_at(a + j) != #[trigger] ms.frame_at(a + k) || page_offset(va_of(a + j))
                != page_offset(va_of(a + k)),
{
    assert forall|j: int, k: int| 0 <= j < k < len implies #[trigger] ms.frame_at(a + j) != #[trigger] ms.frame_at(a + k)
        || page_offset(va_of(a + j)) != page_offset(va_of(a + k)) by {
        let x = a + j;
        let y = a + k;
        let vx = va_of(x);
        let vy = va_of(y);
        assert(0 <= vx < VA_LIMIT && 0 <= vy < VA_LIMIT);
        assert(ms.byte_mapped(pm, a + j));
        assert(ms.byte_mapped(pm, a + k));
        if vpn_at(x) != vpn_at(y) {
            lemma_mapped_distinct(ms, vpn_at(x), vpn_at(y));
        } else {
            assert(floor(vx) < VPN_LIMIT && floor(vy) < VPN_LIMIT);
            assert(floor(vx) == floor(vy));
            assert(vx == floor(vx) * 4096 + page_offset(vx));
            assert(vy == floor(vy) * 4096 + page_offset(vy));
            if page_offset(vx) == page_offset(vy) {
                assert(vx == vy);
                assert(x % (VA_LIMIT as int) == (x + (k - j)) % (VA_LIMIT as int));
                assert(false);
            }
        }
    }
}

/// The four bytes of an aligned word lie at four different offsets of one
/// page.
pub proof fn lemma_word_offsets(a: u64)
    requires
        a % 4 == 0,
        a + 4 <= u64::MAX,
    ensures
        forall|j: int, k: int|
            0 <= j < k < 4 ==> #[trigger] page_offset(va_of(a + j)) != #[trigger] page_offset(va_of(a + k)),
{
    let b: u64 = a;
    assert((b + 1) as u64 % 0x80_0000_0000 % 4096 == b % 0x80_0000_0000 % 4096 + 1) by (bit_vector)
        requires
            b % 4 == 0,
            b + 4 <= 0xffff_ffff_ffff_ffff,
    ;
    assert((b + 2) as u64 % 0x80_0000_0000 % 4096 == b % 0x80_0000_0000 % 4096 + 2) by (bit_vector)
        requires
            b % 4 == 0,
            b + 4 <= 0xffff_ffff_ffff_ffff,
    ;
    assert((b + 3) as u64 % 0x80_0000_0000 % 4096 == b % 0x80_0000_0000 % 4096 + 3) by (bit_vector)
        requires
            b % 4 == 0,
            b + 4 <= 0xffff_ffff_ffff_ffff,
    ;
}

/// A copy made by `fork` holds, at every address of a page in one of the
/// parent's areas, the byte the parent held there.
pub proof fn law_fork_copies(parent: MemorySet, pm0: PhysMemory, child: MemorySet, pm1: PhysMemory, a: int)
    requires
        fork_post(parent, pm0, child, pm1),
        covers(parent.areas@, vpn_at(a)),
    ensures
        child.user_byte(pm1, a) == parent.user_byte(pm0, a),
{
    let v = vpn_at(a);
    let j = choose|j: int| 0 <= j < parent.areas@.len() && #[trigger] parent.areas@[j].contains(v);
    assert(child.areas@[j].contains(v));
}

} // verus!
