//! The address-space work of `sys_mmap` and `sys_munmap`: mapping a fresh
//! framed area and unmapping pages again.
use vstd::prelude::*;
use vstd::hash_map::HashMapWithView;
use crate::config::{PAGE_SIZE, VPN_LIMIT, VA_LIMIT};
use crate::address::{va_of, vpn_of, floor, ceil, virt_addr, virt_page_num, va_floor, va_ceil};
use crate::frame::{PhysMemory, zero_page};
use crate::page_table::{PageTable, PageTableEntry, PTE_V, empty_pte, dir_index, leaf_index, tables_for_range};
use crate::memory_set::{MapArea, MemorySet};
use crate::ownership::{frames_step, dropped, lemma_step_refl, lemma_step_mono, lemma_step_trans, lemma_tables_grown,
    lemma_area_added, lemma_owns_same, lemma_frames_dropped};

verus! {

broadcast use vstd::std_specs::hash::axiom_u64_obeys_hash_table_key_model;

/// First page of the range that `mmap(start, len, _)` maps.
pub open spec fn mmap_first(start: int) -> u64 {
    floor(va_of(start)) as u64
}

/// One past the last page of the range that `mmap(start, len, _)` maps.
pub open spec fn mmap_end(start: int, len: int) -> u64 {
    ceil(va_of(start + len)) as u64
}

/// Number of pages that `mmap(start, len, _)` maps.
pub open spec fn mmap_pages(start: int, len: int) -> int {
    if mmap_first(start) < mmap_end(start, len) {
        mmap_end(start, len) - mmap_first(start)
    } else {
        0
    }
}

/// Leaf-entry flags of a page mapped by `mmap` with protection `prot`: the
/// protection bits moved to R/W/X, plus U and V.
pub open spec fn mmap_pte_flags(prot: int) -> u8 {
    ((2 * prot + 16) as u8) | PTE_V
}

/// Whether some page of `[s, e)` is mapped by a valid entry.
pub open spec fn some_page_valid(ms: MemorySet, s: u64, e: u64) -> bool {
    exists|v: u64| s <= v < e && #[trigger] ms.page_table.entry(v).valid()
}

/// `entries` with every page of `[s, e)` mapped to its frame in `frames`.
pub open spec fn with_mapped_range(
    entries: Map<u64, PageTableEntry>,
    s: u64,
    e: u64,
    frames: Map<u64, u64>,
    flags: u8,
) -> Map<u64, PageTableEntry> {
    Map::new(
        |v: u64| entries.contains_key(v) || (s <= v < e),
        |v: u64|
            if s <= v < e {
                PageTableEntry { ppn: frames[v], flags }
            } else {
                entries[v]
            },
    )
}

/// The first page of `[v, e)` that `pt` maps by a valid entry, or `e`.
pub open spec fn first_valid(pt: PageTable, v: u64, e: u64) -> u64
    decreases e - v,
{
    if v >= e {
        e
    } else if pt.entry(v).valid() {
        v
    } else {
        first_valid(pt, (v + 1) as u64, e)
    }
}

/// How many frames `mmap(start, len, prot)` allocates in `ms`: none when
/// `prot` or `start` is refused; else the tables created while the pages are
/// checked, up to the first mapped page, and, when no page is mapped, one
/// frame per page.
pub open spec fn mmap_frames_needed(ms: MemorySet, start: int, len: int, prot: int) -> int {
    if !(1 <= prot <= 7) || start % (PAGE_SIZE as int) != 0 {
        0
    } else {
        let s = mmap_first(start);
        let e = mmap_end(start, len);
        let stop = first_valid(ms.page_table, s, e);
        tables_for_range(ms.page_table.dirs@.dom(), ms.page_table.leaves@.dom(), s, stop) + (if stop == e {
            mmap_pages(start, len)
        } else {
            0
        })
    }
}

proof fn lemma_first_valid_bound(pt: PageTable, v: u64, e: u64)
    requires
        v <= e,
    ensures
        v <= first_valid(pt, v, e) <= e,
    decreases e - v,
{
    if v < e && !pt.entry(v).valid() {
        lemma_first_valid_bound(pt, (v + 1) as u64, e);
    }
}

proof fn lemma_valid_has_tables(pt: PageTable, v: u64)
    requires
        pt.wf(),
        pt.entry(v).valid(),
    ensures
        pt.has_leaf(v),
        pt.dirs@.contains_key(dir_index(v)),
        pt.tables_missing(v) == 0,
{
    crate::page_table::lemma_empty_invalid();
    assert(pt.entries@.contains_key(v));
    assert(leaf_index(v) / 0x200 == dir_index(v)) by (bit_vector)
        requires
            leaf_index(v) == v / 0x200,
            dir_index(v) == v / 0x4_0000,
    ;
}

proof fn lemma_prot_check(prot: u64)
    ensures
        (prot & !7u64 != 0 || prot & 7u64 == 0) <==> !(1 <= prot <= 7),
        1 <= prot <= 7 ==> (((2 * prot + 16) as u8) | 1u8) & 1u8 != 0,
{
    assert((prot & !7u64 != 0 || prot & 7u64 == 0) <==> !(1 <= prot <= 7)) by (bit_vector);
    assert(1 <= prot <= 7 ==> (((2 * prot + 16) as u8) | 1u8) & 1u8 != 0) by (bit_vector);
}

/// What `mmap_in(start, len, prot)` does to address space `ms0` and memory
/// `pm0`, giving `ms1`, `pm1` and result `r`.
pub open spec fn mmap_post(
    ms0: MemorySet,
    pm0: PhysMemory,
    ms1: MemorySet,
    pm1: PhysMemory,
    start: u64,
    len: u64,
    prot: u64,
    r: i64,
) -> bool {
    &&& ms1.wf()
    &&& pm1.wf()
    &&& (r == 0 || r == -1)
    &&& (r == -1 <==> !(1 <= prot <= 7) || start % PAGE_SIZE != 0 || some_page_valid(
            ms0,
            mmap_first(start as int),
            mmap_end(start as int, len as int),
        ))
    &&& pm1.start == pm0.start
    &&& pm1.end == pm0.end
    &&& forall|q: u64| #[trigger] pm0.is_allocated(q) ==> pm1.is_allocated(q) && pm1.page(q)
            == pm0.page(q)
    &&& forall|q: u64| #[trigger] pm0.frames@.contains_key(q) ==> pm1.frames@.contains_key(q)
    &&& (r == -1 ==> ms1.page_table.entries@ == ms0.page_table.entries@ && ms1.areas@ == ms0.areas@)
    &&& ((!(1 <= prot <= 7) || start % PAGE_SIZE != 0) ==> ms1 == ms0 && pm1 == pm0)
    &&& r == 0 ==> {
            let s = mmap_first(start as int);
            let e = mmap_end(start as int, len as int);
            let area = ms1.areas@.last();
            &&& ms1.areas@ == ms0.areas@.push(area)
            &&& area.start_vpn == s
            &&& area.end_vpn == e
            &&& area.map_perm == (2 * prot) as u8
            &&& area.data_frames@.dom() == Set::new(|v: u64| s <= v < e)
            &&& ms1.page_table.entries@ == with_mapped_range(
                ms0.page_table.entries@,
                s,
                e,
                area.data_frames@,
                mmap_pte_flags(prot as int),
            )
            &&& forall|v: u64|
                #![trigger area.data_frames@[v]]
                s <= v < e ==> {
                    &&& !pm0.is_allocated(area.data_frames@[v])
                    &&& pm1.is_allocated(area.data_frames@[v])
                    &&& pm1.frames@.contains_key(area.data_frames@[v])
                    &&& pm1.page(area.data_frames@[v]) == zero_page()
                }
            &&& forall|v1: u64, v2: u64|
                s <= v1 < e && s <= v2 < e && v1 != v2 ==> #[trigger] area.data_frames@[v1]
                    != #[trigger] area.data_frames@[v2]
        }
}

/// Maps `len` bytes from `start` with protection `prot` (R = 1, W = 2,
/// X = 4) to fresh zeroed frames, as one new area. Returns -1 when `prot`
/// has other bits or none of these, when `start` is not page aligned, or when
/// a page of the range is already mapped; else 0.
pub fn mmap_in(ms: &mut MemorySet, pm: &mut PhysMemory, start: u64, len: u64, prot: u64) -> (r: i64)
    requires
        old(ms).wf(),
        old(pm).wf(),
        start + len <= u64::MAX,
        old(pm).free_count() >= mmap_frames_needed(*old(ms), start as int, len as int, prot as int),
    ensures
        mmap_post(*old(ms), *old(pm), *final(ms), *final(pm), start, len, prot, r),
        old(ms).frames_held(*old(pm)) ==> frames_step(*old(ms), *old(pm), *final(ms), *final(pm)),
{
    proof {
        if old(ms).frames_held(*old(pm)) {
            lemma_step_refl(*old(ms), *old(pm));
        }
    }
    proof {
        lemma_prot_check(prot);
    }
    if prot & !0x7 != 0 || prot & 0x7 == 0 {
        return -1;
    }
    if start % PAGE_SIZE != 0 {
        return -1;
    }
    let s = va_floor(virt_addr(start));
    let e = va_ceil(virt_addr(start + len));
    let ghost pt0 = old(ms).page_table;
    let ghost pm0 = *old(pm);
    let ghost stop = first_valid(pt0, s, e);
    let ghost extra = if stop == e { mmap_pages(start as int, len as int) } else { 0 };
    let mut vpn = s;
    while vpn < e
        invariant
            ms.wf(),
            pm.wf(),
            s == mmap_first(start as int),
            e == mmap_end(start as int, len as int),
            e <= VPN_LIMIT,
            s <= vpn,
            s < e ==> vpn <= e,
            e <= s ==> vpn == s,
            ms.page_table.entries@ == pt0.entries@,
            pt0 == old(ms).page_table,
            pm0 == *old(pm),
            1 <= prot <= 7,
            start % PAGE_SIZE == 0,
            ms.areas@ == old(ms).areas@,
            forall|v: u64| s <= v < vpn ==> #[trigger] ms.page_table.has_leaf(v) && !pt0.entry(v).valid(),
            stop == first_valid(pt0, s, e),
            extra == if stop == e { mmap_pages(start as int, len as int) } else { 0 },
            first_valid(pt0, vpn, e) == stop,
            pm.free_count() >= tables_for_range(ms.page_table.dirs@.dom(), ms.page_table.leaves@.dom(), vpn, stop) + extra,
            pm.start == pm0.start,
            pm.end == pm0.end,
            forall|q: u64| #[trigger] pm0.is_allocated(q) ==> pm.is_allocated(q) && pm.page(q) == pm0.page(q),
            forall|q: u64| #[trigger] pm0.frames@.contains_key(q) ==> pm.frames@.contains_key(q),
            old(ms).frames_held(pm0) ==> frames_step(*old(ms), pm0, *ms, *pm),
        decreases e - vpn,
    {
        let ghost pt1 = ms.page_table;
        let ghost pm1 = *pm;
        let ghost ms1 = *ms;
        proof {
            if pt0.entry(vpn).valid() {
                assert(ms.page_table.entry(vpn) == pt0.entry(vpn));
                lemma_valid_has_tables(ms.page_table, vpn);
            } else {
                assert(stop == first_valid(pt0, (vpn + 1) as u64, e));
                assert(vpn < stop) by {
                    lemma_first_valid_bound(pt0, (vpn + 1) as u64, e);
                }
            }
        }
        ms.page_table.find_pte_create(pm, vpn);
        proof {
            if old(ms).frames_held(pm0) {
                lemma_tables_grown(ms1, pm1, *ms, *pm);
                lemma_step_trans(*old(ms), pm0, ms1, pm1, *ms, *pm);
            }
        }
        assert forall|v: u64| s <= v < vpn + 1 implies #[trigger] ms.page_table.has_leaf(v) by {
            if v < vpn {
                assert(pt1.has_leaf(v));
            }
        }
        let pte = ms.page_table.find_pte(vpn).unwrap();
        if pte.is_valid() {
            assert(old(ms).page_table.entry(vpn).valid());
            return -1;
        }
        assert(pte == pt0.entry(vpn));
        assert forall|v: u64| s <= v < vpn + 1 implies #[trigger] ms.page_table.has_leaf(v) && !pt0.entry(v).valid() by {
            if v < vpn {
                assert(pt1.has_leaf(v));
            }
        }
        vpn = vpn + 1;
    }
    let ghost pt_mid = ms.page_table;
    let ghost pm_mid = *pm;
    assert(!some_page_valid(*old(ms), s, e)) by {
        if some_page_valid(*old(ms), s, e) {
            let v = choose|v: u64| s <= v < e && #[trigger] old(ms).page_table.entry(v).valid();
            assert(ms.page_table.has_leaf(v));
            assert(!pt0.entry(v).valid());
        }
    }
    let flags: u8 = (((prot + 8) * 2) as u8) | PTE_V;
    let mut frames: HashMapWithView<u64, u64> = HashMapWithView::new();
    vpn = s;
    while vpn < e
        invariant
            ms.wf(),
            pm.wf(),
            s == mmap_first(start as int),
            e == mmap_end(start as int, len as int),
            e <= VPN_LIMIT,
            1 <= prot <= 7,
            flags == mmap_pte_flags(prot as int),
            s <= vpn,
            s < e ==> vpn <= e,
            e <= s ==> vpn == s,
            ms.areas@ == old(ms).areas@,
            pt0 == old(ms).page_table,
            pm0 == *old(pm),
            forall|v: u64| s <= v < e ==> #[trigger] ms.page_table.has_leaf(v),
            frames@.dom() == Set::new(|v: u64| s <= v < vpn),
            ms.page_table.entries@ == with_mapped_range(pt0.entries@, s, vpn, frames@, flags),
            pm.free_count() >= e - vpn,
            pm.start == pm0.start,
            pm.end == pm0.end,
            forall|q: u64| #[trigger] pm0.is_allocated(q) ==> pm.is_allocated(q) && pm.page(q) == pm0.page(q),
            forall|q: u64| #[trigger] pm0.frames@.contains_key(q) ==> pm.frames@.contains_key(q),
            forall|v: u64|
                #![trigger frames@[v]]
                s <= v < vpn ==> {
                    &&& !pm0.is_allocated(frames@[v])
                    &&& pm.is_allocated(frames@[v])
                    &&& pm.frames@.contains_key(frames@[v])
                    &&& pm.page(frames@[v]) == zero_page()
                },
            forall|v1: u64, v2: u64|
                s <= v1 < vpn && s <= v2 < vpn && v1 != v2 ==> #[trigger] frames@[v1] != #[trigger] frames@[v2],
            ms.page_table.frames@ == pt_mid.frames@,
            old(ms).frames_held(pm0) ==> frames_step(*old(ms), pm0, *ms, *pm),
            old(ms).frames_held(pm0) ==> forall|v: u64| s <= v < vpn ==> !ms.owns(#[trigger] frames@[v]),
        decreases e - vpn,
    {
        let ghost pm1 = *pm;
        let ghost f1 = frames@;
        let ghost pt1 = ms.page_table;
        let ghost ms1 = *ms;
        let ppn = pm.frame_alloc().unwrap();
        frames.insert(vpn, ppn);
        ms.page_table.set_entry(vpn, PageTableEntry { ppn, flags });
        proof {
            assert forall|v: u64| s <= v < e implies #[trigger] ms.page_table.has_leaf(v) by {
                assert(pt1.has_leaf(v));
            }
            assert forall|q: u64| #[trigger] pm0.is_allocated(q) implies pm.is_allocated(q) && pm.page(q)
                == pm0.page(q) by {
                assert(pm1.is_allocated(q));
                assert(pm1.frames@.contains_key(q));
            }
            assert forall|v: u64| #![trigger frames@[v]] s <= v < vpn + 1 implies {
                &&& !pm0.is_allocated(frames@[v])
                &&& pm.is_allocated(frames@[v])
                &&& pm.frames@.contains_key(frames@[v])
                &&& pm.page(frames@[v]) == zero_page()
            } by {
                if v < vpn {
                    assert(f1[v] == frames@[v]);
                    assert(pm1.is_allocated(f1[v]));
                    assert(pm1.frames@.contains_key(f1[v]));
                } else {
                    assert(!pm1.is_allocated(ppn));
                    assert(!pm0.is_allocated(ppn));
                }
            }
            assert forall|v1: u64, v2: u64|
                s <= v1 < vpn + 1 && s <= v2 < vpn + 1 && v1 != v2 implies #[trigger] frames@[v1]
                != #[trigger] frames@[v2] by {
                if v1 < vpn && v2 < vpn {
                    assert(f1[v1] != f1[v2]);
                } else if v1 < vpn {
                    assert(pm1.is_allocated(f1[v1]));
                } else {
                    assert(pm1.is_allocated(f1[v2]));
                }
            }
            assert(frames@.dom() =~= Set::new(|v: u64| s <= v < vpn + 1));
            assert(ms.page_table.entries@ =~= with_mapped_range(pt0.entries@, s, (vpn + 1) as u64, frames@, flags));
            if old(ms).frames_held(pm0) {
                assert forall|q: u64| #[trigger] pm1.is_allocated(q) implies pm.is_allocated(q) by {}
                lemma_step_mono(*old(ms), pm0, ms1, pm1, *pm);
                lemma_owns_same(ms1, *ms);
                assert forall|v: u64| s <= v < vpn + 1 implies !ms.owns(#[trigger] frames@[v]) by {
                    if v < vpn {
                        assert(f1[v] == frames@[v]);
                        assert(!ms1.owns(f1[v]));
                    } else {
                        assert(!pm1.is_allocated(ppn));
                        assert(ms1.frames_held(pm1));
                    }
                }
            }
        }
        vpn = vpn + 1;
    }
    let area = MapArea { start_vpn: s, end_vpn: e, map_perm: (prot * 2) as u8, data_frames: frames };
    let ghost ms1 = *ms;
    let ghost pm_end = *pm;
    ms.areas.push(area);
    proof {
        if old(ms).frames_held(pm0) {
            assert(ms.areas@.last() == area);
            assert forall|v: u64| #[trigger] area.data_frames@.contains_key(v) implies {
                let f = area.data_frames@[v];
                &&& !pm0.is_allocated(f)
                &&& pm_end.is_allocated(f)
                &&& !ms1.owns(f)
            } by {
                assert(s <= v < e);
                assert(!ms1.owns(frames@[v]));
            }
            lemma_area_added(*old(ms), pm0, ms1, pm_end, *ms);
        }
        assert forall|i: int| 0 <= i < ms.areas@.len() implies {
            &&& #[trigger] ms.areas@[i].start_vpn <= VPN_LIMIT && ms.areas@[i].end_vpn <= VPN_LIMIT
            &&& forall|v: u64| #[trigger] ms.areas@[i].data_frames@.contains_key(v) ==> ms.areas@[i].contains(v)
        } by {
            if i < ms1.areas@.len() {
                assert(ms.areas@[i] == ms1.areas@[i]);
            }
        }
        if s < e {
            assert(vpn == e);
        }
        assert(frames@.dom() =~= Set::new(|v: u64| s <= v < e));
        assert(ms.page_table.entries@ =~= with_mapped_range(pt0.entries@, s, e, frames@, flags));
    }
    0
}

/// Whether some area's range holds page `w`.
pub open spec fn covers(areas: Seq<MapArea>, w: u64) -> bool {
    exists|j: int| 0 <= j < areas.len() && #[trigger] areas[j].contains(w)
}

/// An area whose range holds page `w` (the only one, where only one does).
pub open spec fn owner(areas: Seq<MapArea>, w: u64) -> int {
    choose|j: int| 0 <= j < areas.len() && #[trigger] areas[j].contains(w)
}

/// Whether at most one area's range holds page `w`.
pub open spec fn single_owner(areas: Seq<MapArea>, w: u64) -> bool {
    forall|j1: int, j2: int|
        0 <= j1 < areas.len() && 0 <= j2 < areas.len() && #[trigger] areas[j1].contains(w)
            && #[trigger] areas[j2].contains(w) ==> j1 == j2
}

/// The frame that unmapping page `w` releases: the one its area keeps for it.
pub open spec fn frame_freed(areas: Seq<MapArea>, w: u64) -> Seq<u64> {
    if covers(areas, w) && areas[owner(areas, w)].data_frames@.contains_key(w) {
        seq![areas[owner(areas, w)].data_frames@[w]]
    } else {
        seq![]
    }
}

/// The frames released, in order, by unmapping the pages `vpn_of(k)` for
/// `lo <= k < i`.
pub open spec fn freed_frames(areas: Seq<MapArea>, lo: int, i: int) -> Seq<u64>
    decreases i - lo,
{
    if i <= lo {
        seq![]
    } else {
        freed_frames(areas, lo, i - 1) + frame_freed(areas, vpn_of(i - 1) as u64)
    }
}

/// The pages `vpn_of(k)` for `lo <= k < i`.
pub open spec fn range_vpns(lo: int, i: int) -> Set<u64> {
    Set::new(|w: u64| exists|k: int| lo <= k < i && vpn_of(k) == w)
}

/// First raw page number that `munmap(start, len)` visits.
pub open spec fn munmap_lo(start: int) -> int {
    start / (PAGE_SIZE as int)
}

/// Last raw page number that `munmap(start, len)` visits.
pub open spec fn munmap_hi(start: int, len: int) -> int {
    (start + len - 1) / (PAGE_SIZE as int)
}

/// Whether every page `vpn_of(k)`, `lo <= k <= hi`, is mapped.
pub open spec fn all_mapped(ms: MemorySet, lo: int, hi: int) -> bool {
    forall|k: int| lo <= k <= hi ==> #[trigger] ms.page_table.is_mapped(vpn_of(k) as u64)
}

/// What `munmap` needs to run to its end without a kernel panic: the walk
/// that checks the pages finds a leaf table up to the first unmapped page,
/// and, when all pages are mapped, no page is unmapped twice (one area per
/// page, no page visited twice when an area holds it).
#[verifier::opaque]
pub open spec fn munmap_ok(ms: MemorySet, lo: int, hi: int) -> bool {
    &&& forall|k: int| lo <= k <= hi && all_mapped(ms, lo, k - 1) ==> #[trigger] ms.page_table.has_leaf(
        vpn_of(k) as u64,
    )
    &&& all_mapped(ms, lo, hi) ==> {
        &&& forall|k: int| lo <= k <= hi ==> #[trigger] single_owner(ms.areas@, vpn_of(k) as u64)
        &&& forall|k1: int, k2: int|
            lo <= k1 < k2 <= hi && #[trigger] vpn_of(k1) == #[trigger] vpn_of(k2) ==> !covers(
                ms.areas@,
                vpn_of(k1) as u64,
            )
    }
}

/// `munmap_ok`, and the frames that the unmapping releases are handed out
/// and distinct.
#[verifier::opaque]
pub open spec fn munmap_safe(ms: MemorySet, pm: PhysMemory, lo: int, hi: int) -> bool {
    &&& forall|k: int| lo <= k <= hi && all_mapped(ms, lo, k - 1) ==> #[trigger] ms.page_table.has_leaf(
        vpn_of(k) as u64,
    )
    &&& all_mapped(ms, lo, hi) ==> {
        &&& forall|k: int| lo <= k <= hi ==> #[trigger] single_owner(ms.areas@, vpn_of(k) as u64)
        &&& forall|k1: int, k2: int|
            lo <= k1 < k2 <= hi && #[trigger] vpn_of(k1) == #[trigger] vpn_of(k2) ==> !covers(
                ms.areas@,
                vpn_of(k1) as u64,
            )
        &&& freed_frames(ms.areas@, lo, hi + 1).no_duplicates()
        &&& forall|x: int| 0 <= x < freed_frames(ms.areas@, lo, hi + 1).len() ==> pm.is_allocated(
            #[trigger] freed_frames(ms.areas@, lo, hi + 1)[x],
        )
    }
}


/// Whether `f` is the frame released for one of the pages `vpn_of(k)`,
/// `lo <= k < i`.
pub open spec fn freed_at(areas: Seq<MapArea>, lo: int, i: int, f: u64) -> bool {
    exists|k: int| lo <= k < i && #[trigger] frame_freed(areas, vpn_of(k) as u64) == seq![f]
}

/// Each frame that unmapping releases is the one kept for one of the pages.
proof fn lemma_freed_members(areas: Seq<MapArea>, lo: int, i: int)
    ensures
        forall|x: int| 0 <= x < freed_frames(areas, lo, i).len() ==> #[trigger] freed_at(areas, lo, i, freed_frames(areas, lo, i)[x]),
    decreases i - lo,
{
    if i > lo {
        lemma_freed_members(areas, lo, i - 1);
        let prev = freed_frames(areas, lo, i - 1);
        let ff = frame_freed(areas, vpn_of(i - 1) as u64);
        let all = freed_frames(areas, lo, i);
        assert(all == prev + ff);
        assert forall|x: int| 0 <= x < all.len() implies #[trigger] freed_at(areas, lo, i, all[x]) by {
            if x < prev.len() {
                assert(all[x] == prev[x]);
                assert(freed_at(areas, lo, i - 1, prev[x]));
                let k = choose|k: int| lo <= k < i - 1 && #[trigger] frame_freed(areas, vpn_of(k) as u64) == seq![prev[x]];
                assert(lo <= k < i && frame_freed(areas, vpn_of(k) as u64) == seq![all[x]]);
            } else {
                assert(ff.len() == 1);
                assert(all[x] == ff[0]);
                assert(ff == seq![all[x]]);
            }
        }
    }
}

/// What a released frame is: the frame an area keeps for a page it holds.
proof fn lemma_frame_freed_is(areas: Seq<MapArea>, w: u64, f: u64)
    requires
        frame_freed(areas, w) == seq![f],
    ensures
        covers(areas, w),
        0 <= owner(areas, w) < areas.len(),
        areas[owner(areas, w)].contains(w),
        areas[owner(areas, w)].data_frames@.contains_key(w),
        areas[owner(areas, w)].data_frames@[w] == f,
{
    if !(covers(areas, w) && areas[owner(areas, w)].data_frames@.contains_key(w)) {
        assert(frame_freed(areas, w).len() == 0);
    }
    assert(frame_freed(areas, w)[0] == f);
}

/// The frames released while unmapping the pages up to `vpn_of(i - 1)` are
/// distinct and handed out, in an address space without shared frames.
proof fn lemma_freed_distinct(ms: MemorySet, pm: PhysMemory, lo: int, hi: int, i: int)
    requires
        ms.frames_held(pm),
        lo <= i <= hi + 1,
        forall|k1: int, k2: int|
            lo <= k1 < k2 <= hi && #[trigger] vpn_of(k1) == #[trigger] vpn_of(k2) ==> !covers(ms.areas@, vpn_of(k1) as u64),
    ensures
        freed_frames(ms.areas@, lo, i).no_duplicates(),
        forall|x: int| 0 <= x < freed_frames(ms.areas@, lo, i).len() ==> pm.is_allocated(#[trigger] freed_frames(ms.areas@, lo, i)[x]),
    decreases i - lo,
{
    let areas = ms.areas@;
    lemma_freed_members(areas, lo, i);
    let all = freed_frames(areas, lo, i);
    assert forall|x: int| 0 <= x < all.len() implies pm.is_allocated(#[trigger] all[x]) by {
        assert(freed_at(areas, lo, i, all[x]));
        let k = choose|k: int| lo <= k < i && #[trigger] frame_freed(areas, vpn_of(k) as u64) == seq![all[x]];
        let w = vpn_of(k) as u64;
        lemma_frame_freed_is(areas, w, all[x]);
        assert(ms.backs(owner(areas, w), w));
        assert(ms.holds_data(all[x]));
        assert(ms.owns(all[x]));
    }
    if i > lo {
        lemma_freed_distinct(ms, pm, lo, hi, i - 1);
        lemma_freed_members(areas, lo, i - 1);
        let prev = freed_frames(areas, lo, i - 1);
        let ff = frame_freed(areas, vpn_of(i - 1) as u64);
        assert(all == prev + ff);
        assert forall|x: int, y: int| 0 <= x < y < all.len() implies all[x] != all[y] by {
            if y < prev.len() {
                assert(all[x] == prev[x]);
                assert(all[y] == prev[y]);
            } else {
                assert(x < prev.len());
                assert(all[x] == prev[x]);
                assert(ff.len() == 1);
                assert(all[y] == ff[0]);
                assert(ff == seq![all[y]]);
                let w = vpn_of(i - 1) as u64;
                lemma_frame_freed_is(areas, w, all[y]);
                assert(freed_at(areas, lo, i - 1, prev[x]));
                let k = choose|k: int| lo <= k < i - 1 && #[trigger] frame_freed(areas, vpn_of(k) as u64) == seq![prev[x]];
                let w2 = vpn_of(k) as u64;
                lemma_frame_freed_is(areas, w2, all[x]);
                if vpn_of(k) == vpn_of(i - 1) {
                    assert(!covers(areas, vpn_of(k) as u64));
                }
                assert(ms.backs(owner(areas, w), w));
                assert(ms.backs(owner(areas, w2), w2));
            }
        }
    }
}

/// `munmap_ok` in an address space without shared frames gives what the
/// unmapping needs.
proof fn lemma_munmap_safe(ms: MemorySet, pm: PhysMemory, lo: int, hi: int)
    requires
        munmap_ok(ms, lo, hi),
        ms.frames_held(pm),
    ensures
        munmap_safe(ms, pm, lo, hi),
{
    let fr = freed_frames(ms.areas@, lo, hi + 1);
    if all_mapped(ms, lo, hi) {
        assert(forall|k1: int, k2: int|
            lo <= k1 < k2 <= hi && #[trigger] vpn_of(k1) == #[trigger] vpn_of(k2) ==> !covers(ms.areas@, vpn_of(k1) as u64)) by {
            reveal(munmap_ok);
        }
        if lo <= hi + 1 {
            lemma_freed_distinct(ms, pm, lo, hi, hi + 1);
        } else {
            assert(fr =~= Seq::<u64>::empty());
        }
    }
    assert(munmap_safe(ms, pm, lo, hi)) by {
        reveal(munmap_ok);
        reveal(munmap_safe);
    }
}

/// `entries` with every page of `r` that some area holds set to the empty
/// entry.
pub open spec fn with_cleared(entries: Map<u64, PageTableEntry>, areas: Seq<MapArea>, r: Set<u64>) -> Map<
    u64,
    PageTableEntry,
> {
    Map::new(
        |w: u64| entries.contains_key(w) || (r.contains(w) && covers(areas, w)),
        |w: u64|
            if r.contains(w) && covers(areas, w) {
                empty_pte()
            } else {
                entries[w]
            },
    )
}

proof fn lemma_range_vpns_step(lo: int, i: int)
    requires
        lo <= i,
    ensures
        range_vpns(lo, i + 1) == range_vpns(lo, i).insert(vpn_of(i) as u64),
{
    assert forall|w: u64| #[trigger] range_vpns(lo, i + 1).contains(w) <==> range_vpns(lo, i).insert(
        vpn_of(i) as u64,
    ).contains(w) by {
        if range_vpns(lo, i + 1).contains(w) {
            let k = choose|k: int| lo <= k < i + 1 && vpn_of(k) == w;
            if k < i {
                assert(range_vpns(lo, i).contains(w));
            }
        }
        if range_vpns(lo, i).contains(w) {
            let k = choose|k: int| lo <= k < i && vpn_of(k) == w;
            assert(lo <= k < i + 1 && vpn_of(k) == w);
        }
        if w == vpn_of(i) as u64 {
            assert(lo <= i < i + 1 && vpn_of(i) == w);
        }
    }
    assert(range_vpns(lo, i + 1) =~= range_vpns(lo, i).insert(vpn_of(i) as u64));
}

proof fn lemma_freed_prefix(areas: Seq<MapArea>, lo: int, i: int, n: int)
    requires
        lo <= i <= n,
    ensures
        freed_frames(areas, lo, i).len() <= freed_frames(areas, lo, n).len(),
        freed_frames(areas, lo, n).subrange(0, freed_frames(areas, lo, i).len() as int) == freed_frames(areas, lo, i),
    decreases n - i,
{
    if i < n {
        lemma_freed_prefix(areas, lo, i, n - 1);
        let a = freed_frames(areas, lo, i);
        let b = freed_frames(areas, lo, n - 1);
        assert(freed_frames(areas, lo, n) == b + frame_freed(areas, vpn_of(n - 1) as u64));
        assert(freed_frames(areas, lo, n).subrange(0, a.len() as int) =~= b.subrange(0, a.len() as int));
    } else {
        assert(freed_frames(areas, lo, n).subrange(0, freed_frames(areas, lo, i).len() as int) =~= freed_frames(
            areas,
            lo,
            i,
        ));
    }
}

proof fn lemma_frame_freed_owner(areas: Seq<MapArea>, w: u64, j: int)
    requires
        0 <= j < areas.len(),
        areas[j].contains(w),
        single_owner(areas, w),
    ensures
        covers(areas, w),
        owner(areas, w) == j,
        frame_freed(areas, w) == (if areas[j].data_frames@.contains_key(w) {
            seq![areas[j].data_frames@[w]]
        } else {
            seq![]
        }),
{
    assert(covers(areas, w));
    let o = owner(areas, w);
    assert(areas[o].contains(w));
}

/// The frames that areas `areas` keep are released when `w` is unmapped.
proof fn lemma_frame_freed_same(a: Seq<MapArea>, b: Seq<MapArea>, w: u64)
    requires
        a.len() == b.len(),
        single_owner(a, w),
        forall|j: int| 0 <= j < a.len() ==> (#[trigger] a[j]).start_vpn == b[j].start_vpn && a[j].end_vpn == b[j].end_vpn,
        forall|j: int| 0 <= j < a.len() && #[trigger] a[j].contains(w) ==> a[j].data_frames@.contains_key(w)
            == b[j].data_frames@.contains_key(w) && (a[j].data_frames@.contains_key(w) ==> a[j].data_frames@[w] == b[j].data_frames@[w]),
    ensures
        covers(a, w) == covers(b, w),
        frame_freed(a, w) == frame_freed(b, w),
{
    if covers(a, w) {
        let j = choose|j: int| 0 <= j < a.len() && #[trigger] a[j].contains(w);
        assert(b[j].contains(w));
    }
    if covers(b, w) {
        let j = choose|j: int| 0 <= j < b.len() && #[trigger] b[j].contains(w);
        assert(a[j].contains(w));
    }
    if covers(a, w) {
        let oa = owner(a, w);
        let ob = owner(b, w);
        assert(a[oa].contains(w));
        assert(b[ob].contains(w));
        assert(a[ob].contains(w));
        assert(oa == ob);
    }
}

/// Unmaps page `w` in every area whose range holds it: drops the page from
/// the area, releases its frame, and clears its leaf entry.
fn unmap_in_areas(ms: &mut MemorySet, pm: &mut PhysMemory, w: u64)
    requires
        old(ms).wf(),
        old(pm).wf(),
        w < VPN_LIMIT,
        single_owner(old(ms).areas@, w),
        covers(old(ms).areas@, w) ==> old(ms).page_table.is_mapped(w),
        forall|x: int| 0 <= x < frame_freed(old(ms).areas@, w).len() ==> old(pm).is_allocated(
            #[trigger] frame_freed(old(ms).areas@, w)[x],
        ),
    ensures
        final(ms).wf(),
        final(pm).wf(),
        final(ms).page_table.dirs@ == old(ms).page_table.dirs@,
        final(ms).page_table.leaves@ == old(ms).page_table.leaves@,
        final(ms).page_table.root_ppn == old(ms).page_table.root_ppn,
        final(ms).page_table.frames@ == old(ms).page_table.frames@,
        final(ms).page_table.entries@ == if covers(old(ms).areas@, w) {
            old(ms).page_table.entries@.insert(w, empty_pte())
        } else {
            old(ms).page_table.entries@
        },
        final(ms).areas@.len() == old(ms).areas@.len(),
        forall|j: int|
            0 <= j < old(ms).areas@.len() ==> {
                &&& (#[trigger] final(ms).areas@[j]).start_vpn == old(ms).areas@[j].start_vpn
                &&& final(ms).areas@[j].end_vpn == old(ms).areas@[j].end_vpn
                &&& final(ms).areas@[j].map_perm == old(ms).areas@[j].map_perm
                &&& final(ms).areas@[j].data_frames@ == old(ms).areas@[j].data_frames@.remove(w)
            },
        final(pm).recycled@ == old(pm).recycled@ + frame_freed(old(ms).areas@, w),
        final(pm).start == old(pm).start,
        final(pm).current == old(pm).current,
        final(pm).end == old(pm).end,
        final(pm).frames@ == old(pm).frames@,
{
    let ghost a0 = old(ms).areas@;
    let ghost e0 = old(ms).page_table.entries@;
    let mut j: usize = 0;
    while j < ms.areas.len()
        invariant
            ms.wf(),
            pm.wf(),
            a0 == old(ms).areas@,
            e0 == old(ms).page_table.entries@,
            old(ms).wf(),
            w < VPN_LIMIT,
            single_owner(a0, w),
            covers(a0, w) ==> old(ms).page_table.is_mapped(w),
            forall|x: int| 0 <= x < frame_freed(a0, w).len() ==> old(pm).is_allocated(#[trigger] frame_freed(a0, w)[x]),
            ms.areas@.len() == a0.len(),
            0 <= j <= a0.len(),
            ms.page_table.dirs@ == old(ms).page_table.dirs@,
            ms.page_table.leaves@ == old(ms).page_table.leaves@,
            ms.page_table.root_ppn == old(ms).page_table.root_ppn,
            ms.page_table.frames@ == old(ms).page_table.frames@,
            forall|jj: int|
                0 <= jj < a0.len() ==> {
                    &&& (#[trigger] ms.areas@[jj]).start_vpn == a0[jj].start_vpn
                    &&& ms.areas@[jj].end_vpn == a0[jj].end_vpn
                    &&& ms.areas@[jj].map_perm == a0[jj].map_perm
                    &&& ms.areas@[jj].data_frames@ == if jj < j {
                        a0[jj].data_frames@.remove(w)
                    } else {
                        a0[jj].data_frames@
                    }
                },
            (exists|jj: int| 0 <= jj < j && #[trigger] a0[jj].contains(w)) ==> {
                &&& ms.page_table.entries@ == e0.insert(w, empty_pte())
                &&& pm.recycled@ == old(pm).recycled@ + frame_freed(a0, w)
            },
            !(exists|jj: int| 0 <= jj < j && #[trigger] a0[jj].contains(w)) ==> {
                &&& ms.page_table.entries@ == e0
                &&& pm.recycled@ == old(pm).recycled@
            },
            pm.start == old(pm).start,
            pm.current == old(pm).current,
            pm.end == old(pm).end,
            pm.frames@ == old(pm).frames@,
        decreases a0.len() - j,
    {
        let ghost ms_j = *ms;
        if ms.areas[j].contains_vpn(w) {
            proof {
                lemma_frame_freed_owner(a0, w, j as int);
                assert(!(exists|jj: int| 0 <= jj < j && #[trigger] a0[jj].contains(w))) by {
                    if exists|jj: int| 0 <= jj < j && #[trigger] a0[jj].contains(w) {
                        let jj = choose|jj: int| 0 <= jj < j && #[trigger] a0[jj].contains(w);
                        assert(jj == j);
                    }
                }
            }
            let mut area = ms.areas.remove(j);
            let ghost area0 = area;
            let f = area.data_frames.remove(&w);
            ms.areas.insert(j, area);
            proof {
                assert(area0 == ms_j.areas@[j as int]);
                assert(ms.areas@ =~= ms_j.areas@.update(j as int, area));
                assert(area.data_frames@ =~= a0[j as int].data_frames@.remove(w));
            }
            match f {
                Some(p) => {
                    proof {
                        assert(frame_freed(a0, w) == seq![p]);
                        assert(frame_freed(a0, w)[0] == p);
                    }
                    pm.frame_dealloc(p);
                },
                None => {
                    proof {
                        assert(frame_freed(a0, w) =~= Seq::<u64>::empty());
                        assert(pm.recycled@ =~= old(pm).recycled@ + frame_freed(a0, w));
                    }
                },
            }
            let pte = ms.page_table.find_pte(w).unwrap();
            assert(pte.valid());
            ms.page_table.set_entry(w, PageTableEntry::empty());
            proof {
                assert forall|ii: int| 0 <= ii < ms.areas@.len() implies {
                    &&& #[trigger] ms.areas@[ii].start_vpn <= VPN_LIMIT && ms.areas@[ii].end_vpn <= VPN_LIMIT
                    &&& forall|v: u64| #[trigger] ms.areas@[ii].data_frames@.contains_key(v) ==> ms.areas@[ii].contains(v)
                } by {
                    if ii == j {
                        assert forall|v: u64| #[trigger] ms.areas@[ii].data_frames@.contains_key(v) implies ms.areas@[ii].contains(v) by {
                            assert(a0[ii].data_frames@.contains_key(v));
                            assert(old(ms).areas@[ii].data_frames@.contains_key(v));
                        }
                    } else {
                        assert(ms.areas@[ii] == ms_j.areas@[ii]);
                    }
                }
                assert(exists|jj: int| 0 <= jj < j + 1 && #[trigger] a0[jj].contains(w));
            }
        } else {
            proof {
                assert(!a0[j as int].data_frames@.contains_key(w)) by {
                    if a0[j as int].data_frames@.contains_key(w) {
                        assert(old(ms).areas@[j as int].data_frames@.contains_key(w));
                    }
                }
                assert(a0[j as int].data_frames@.remove(w) =~= a0[j as int].data_frames@);
                if exists|jj: int| 0 <= jj < j + 1 && #[trigger] a0[jj].contains(w) {
                    let jj = choose|jj: int| 0 <= jj < j + 1 && #[trigger] a0[jj].contains(w);
                    assert(jj < j);
                }
            }
        }
        j = j + 1;
    }
    proof {
        if covers(a0, w) {
            let jj = choose|jj: int| 0 <= jj < a0.len() && #[trigger] a0[jj].contains(w);
            assert(exists|jj: int| 0 <= jj < j && #[trigger] a0[jj].contains(w));
        } else {
            assert(frame_freed(a0, w) =~= Seq::<u64>::empty());
            assert(pm.recycled@ =~= old(pm).recycled@ + frame_freed(a0, w));
        }
    }
}

/// What holds of the state before page `vpn_of(i)` is unmapped by the second
/// pass of `munmap_in`, given what the pass keeps.
proof fn lemma_before_unmap(ms: MemorySet, ms0: MemorySet, pm: PhysMemory, pm0: PhysMemory, lo: int, hi: int, i: int)
    requires
        ms0.wf(),
        lo <= i <= hi,
        munmap_safe(ms0, pm0, lo, hi),
        all_mapped(ms0, lo, hi),
        ms.page_table.entries@ == with_cleared(ms0.page_table.entries@, ms0.areas@, range_vpns(lo, i)),
        ms.areas@.len() == ms0.areas@.len(),
        forall|j: int|
            0 <= j < ms0.areas@.len() ==> {
                &&& (#[trigger] ms.areas@[j]).start_vpn == ms0.areas@[j].start_vpn
                &&& ms.areas@[j].end_vpn == ms0.areas@[j].end_vpn
                &&& ms.areas@[j].map_perm == ms0.areas@[j].map_perm
                &&& ms.areas@[j].data_frames@ == ms0.areas@[j].data_frames@.remove_keys(range_vpns(lo, i))
            },
        ms.page_table.leaves@ == ms0.page_table.leaves@,
        pm.recycled@ == pm0.recycled@ + freed_frames(ms0.areas@, lo, i),
        pm.start == pm0.start,
        pm.current == pm0.current,
    ensures
        ({
            let w = vpn_of(i) as u64;
            &&& single_owner(ms.areas@, w)
            &&& covers(ms.areas@, w) ==> ms.page_table.is_mapped(w)
            &&& covers(ms.areas@, w) == covers(ms0.areas@, w)
            &&& frame_freed(ms.areas@, w) == frame_freed(ms0.areas@, w)
            &&& forall|x: int| 0 <= x < frame_freed(ms.areas@, w).len() ==> pm.is_allocated(
                #[trigger] frame_freed(ms.areas@, w)[x],
            )
        }),
{
    reveal(munmap_safe);
    let w = vpn_of(i) as u64;
    let areas0 = ms0.areas@;
    let entries0 = ms0.page_table.entries@;
    let rv = range_vpns(lo, i);
    assert(single_owner(areas0, w));
    assert(covers(areas0, w) ==> !rv.contains(w)) by {
        if covers(areas0, w) && rv.contains(w) {
            let k = choose|k: int| lo <= k < i && vpn_of(k) == w;
            assert(vpn_of(k) == vpn_of(i));
        }
    }
    assert(ms0.page_table.is_mapped(w));
    assert forall|j: int| 0 <= j < areas0.len() && #[trigger] areas0[j].contains(w) implies areas0[j].data_frames@.contains_key(w)
        == ms.areas@[j].data_frames@.contains_key(w) && (areas0[j].data_frames@.contains_key(w) ==> areas0[j].data_frames@[w] == ms.areas@[j].data_frames@[w]) by {
        assert(ms.areas@[j].data_frames@ == areas0[j].data_frames@.remove_keys(rv));
        assert(!rv.contains(w));
        let m = areas0[j].data_frames@;
        let m2 = m.remove_keys(rv);
        if m.contains_key(w) {
            assert(m2.contains_key(w));
            assert(m2[w] == m[w]);
        } else {
            assert(!m2.contains_key(w));
        }
    }
    assert forall|j: int| 0 <= j < areas0.len() implies (#[trigger] areas0[j]).start_vpn == ms.areas@[j].start_vpn
        && areas0[j].end_vpn == ms.areas@[j].end_vpn by {
        assert(ms.areas@[j].start_vpn == areas0[j].start_vpn);
    }
    lemma_frame_freed_same(areas0, ms.areas@, w);
    assert forall|j1: int, j2: int|
        0 <= j1 < ms.areas@.len() && 0 <= j2 < ms.areas@.len() && #[trigger] ms.areas@[j1].contains(w)
            && #[trigger] ms.areas@[j2].contains(w) implies j1 == j2 by {
        assert(areas0[j1].contains(w));
        assert(areas0[j2].contains(w));
    }
    if covers(areas0, w) {
        assert(ms.page_table.entry(w) == ms0.page_table.entry(w));
    }
    let fi = freed_frames(areas0, lo, i);
    let fn_ = freed_frames(areas0, lo, hi + 1);
    lemma_freed_prefix(areas0, lo, i + 1, hi + 1);
    lemma_freed_prefix(areas0, lo, i, hi + 1);
    assert(freed_frames(areas0, lo, i + 1) == fi + frame_freed(areas0, w));
    assert forall|x: int| 0 <= x < frame_freed(ms.areas@, w).len() implies pm.is_allocated(
        #[trigger] frame_freed(ms.areas@, w)[x],
    ) by {
        let p = frame_freed(areas0, w)[x];
        let y = fi.len() + x;
        assert(fn_.subrange(0, freed_frames(areas0, lo, i + 1).len() as int)[y] == p);
        assert(fn_[y] == p);
        assert(pm0.is_allocated(p));
        assert(!fi.contains(p)) by {
            if fi.contains(p) {
                let z = choose|z: int| 0 <= z < fi.len() && fi[z] == p;
                assert(fn_.subrange(0, fi.len() as int)[z] == p);
                assert(fn_[z] == fn_[y]);
            }
        }
        assert(!pm.recycled@.contains(p)) by {
            if pm.recycled@.contains(p) {
                let z = choose|z: int| 0 <= z < pm.recycled@.len() && pm.recycled@[z] == p;
                if z < pm0.recycled@.len() {
                    assert(pm0.recycled@.contains(p));
                } else {
                    assert(fi[z - pm0.recycled@.len()] == p);
                }
            }
        }
    }
}

/// The second pass of `munmap_in` keeps what it keeps across the unmapping
/// of page `vpn_of(i)`.
proof fn lemma_after_unmap(
    ms: MemorySet,
    ms1: MemorySet,
    ms0: MemorySet,
    pm: PhysMemory,
    pm1: PhysMemory,
    pm0: PhysMemory,
    lo: int,
    i: int,
)
    requires
        ms0.wf(),
        lo <= i,
        ms.page_table.entries@ == with_cleared(ms0.page_table.entries@, ms0.areas@, range_vpns(lo, i)),
        ms.areas@.len() == ms0.areas@.len(),
        forall|j: int|
            0 <= j < ms0.areas@.len() ==> {
                &&& (#[trigger] ms.areas@[j]).start_vpn == ms0.areas@[j].start_vpn
                &&& ms.areas@[j].end_vpn == ms0.areas@[j].end_vpn
                &&& ms.areas@[j].map_perm == ms0.areas@[j].map_perm
                &&& ms.areas@[j].data_frames@ == ms0.areas@[j].data_frames@.remove_keys(range_vpns(lo, i))
            },
        pm.recycled@ == pm0.recycled@ + freed_frames(ms0.areas@, lo, i),
        covers(ms.areas@, vpn_of(i) as u64) == covers(ms0.areas@, vpn_of(i) as u64),
        frame_freed(ms.areas@, vpn_of(i) as u64) == frame_freed(ms0.areas@, vpn_of(i) as u64),
        ms1.page_table.entries@ == if covers(ms.areas@, vpn_of(i) as u64) {
            ms.page_table.entries@.insert(vpn_of(i) as u64, empty_pte())
        } else {
            ms.page_table.entries@
        },
        ms1.areas@.len() == ms.areas@.len(),
        forall|j: int|
            0 <= j < ms.areas@.len() ==> {
                &&& (#[trigger] ms1.areas@[j]).start_vpn == ms.areas@[j].start_vpn
                &&& ms1.areas@[j].end_vpn == ms.areas@[j].end_vpn
                &&& ms1.areas@[j].map_perm == ms.areas@[j].map_perm
                &&& ms1.areas@[j].data_frames@ == ms.areas@[j].data_frames@.remove(vpn_of(i) as u64)
            },
        pm1.recycled@ == pm.recycled@ + frame_freed(ms.areas@, vpn_of(i) as u64),
    ensures
        ms1.page_table.entries@ == with_cleared(ms0.page_table.entries@, ms0.areas@, range_vpns(lo, i + 1)),
        forall|j: int|
            0 <= j < ms0.areas@.len() ==> {
                &&& (#[trigger] ms1.areas@[j]).start_vpn == ms0.areas@[j].start_vpn
                &&& ms1.areas@[j].end_vpn == ms0.areas@[j].end_vpn
                &&& ms1.areas@[j].map_perm == ms0.areas@[j].map_perm
                &&& ms1.areas@[j].data_frames@ == ms0.areas@[j].data_frames@.remove_keys(range_vpns(lo, i + 1))
            },
        pm1.recycled@ == pm0.recycled@ + freed_frames(ms0.areas@, lo, i + 1),
{
    let w = vpn_of(i) as u64;
    let rv = range_vpns(lo, i);
    let rv1 = range_vpns(lo, i + 1);
    lemma_range_vpns_step(lo, i);
    assert(rv1 == rv.insert(w));
    assert(ms1.page_table.entries@ =~= with_cleared(ms0.page_table.entries@, ms0.areas@, rv1));
    assert(freed_frames(ms0.areas@, lo, i + 1) == freed_frames(ms0.areas@, lo, i) + frame_freed(ms0.areas@, w));
    assert(pm1.recycled@ =~= pm0.recycled@ + freed_frames(ms0.areas@, lo, i + 1));
    assert forall|j: int| 0 <= j < ms0.areas@.len() implies (#[trigger] ms1.areas@[j]).data_frames@
        == ms0.areas@[j].data_frames@.remove_keys(rv1) by {
        assert(ms.areas@[j].data_frames@ == ms0.areas@[j].data_frames@.remove_keys(rv));
        assert(ms1.areas@[j].data_frames@ =~= ms0.areas@[j].data_frames@.remove_keys(rv1));
    }
    assert forall|j: int| 0 <= j < ms0.areas@.len() implies (#[trigger] ms1.areas@[j]).start_vpn
        == ms0.areas@[j].start_vpn && ms1.areas@[j].end_vpn == ms0.areas@[j].end_vpn && ms1.areas@[j].map_perm
        == ms0.areas@[j].map_perm by {
        assert(ms.areas@[j].start_vpn == ms0.areas@[j].start_vpn);
    }
}

/// What `munmap_in(start, len)` does to address space `ms0` and memory
/// `pm0`, giving `ms1`, `pm1` and result `r`.
pub open spec fn munmap_post(
    ms0: MemorySet,
    pm0: PhysMemory,
    ms1: MemorySet,
    pm1: PhysMemory,
    start: u64,
    len: u64,
    r: i64,
) -> bool {
    &&& ms1.wf()
    &&& pm1.wf()
    &&& (r == 0 || r == -1)
    &&& (r == -1 <==> start % PAGE_SIZE != 0 || !all_mapped(
        ms0,
        munmap_lo(start as int),
        munmap_hi(start as int, len as int),
    ))
    &&& (r == -1 ==> ms1 == ms0 && pm1 == pm0)
    &&& r == 0 ==> {
        let lo = munmap_lo(start as int);
        let hi = munmap_hi(start as int, len as int);
        let rv = range_vpns(lo, hi + 1);
        &&& ms1.page_table.entries@ == with_cleared(ms0.page_table.entries@, ms0.areas@, rv)
        &&& ms1.page_table.dirs@ == ms0.page_table.dirs@
        &&& ms1.page_table.leaves@ == ms0.page_table.leaves@
        &&& ms1.page_table.root_ppn == ms0.page_table.root_ppn
        &&& ms1.page_table.frames@ == ms0.page_table.frames@
        &&& ms1.areas@.len() == ms0.areas@.len()
        &&& forall|j: int|
            0 <= j < ms0.areas@.len() ==> {
                &&& (#[trigger] ms1.areas@[j]).start_vpn == ms0.areas@[j].start_vpn
                &&& ms1.areas@[j].end_vpn == ms0.areas@[j].end_vpn
                &&& ms1.areas@[j].map_perm == ms0.areas@[j].map_perm
                &&& ms1.areas@[j].data_frames@ == ms0.areas@[j].data_frames@.remove_keys(rv)
            }
        &&& pm1.recycled@ == pm0.recycled@ + freed_frames(ms0.areas@, lo, hi + 1)
        &&& pm1.start == pm0.start
        &&& pm1.current == pm0.current
        &&& pm1.end == pm0.end
        &&& pm1.frames@ == pm0.frames@
    }
}

/// Unmaps the pages of `len` bytes from `start`. Returns -1 when `start` is
/// not page aligned or some page of the range is not mapped, without changing
/// anything; else clears the entry of every page of the range that an area
/// holds, drops the page from its area and releases its frame, and returns 0.
#[verifier::rlimit(100)]
pub fn munmap_in(ms: &mut MemorySet, pm: &mut PhysMemory, start: u64, len: u64) -> (r: i64)
    requires
        old(ms).wf(),
        old(pm).wf(),
        1 <= start + len <= u64::MAX,
        start % PAGE_SIZE == 0 ==> munmap_ok(*old(ms), munmap_lo(start as int), munmap_hi(start as int, len as int)),
        old(ms).frames_held(*old(pm)),
    ensures
        munmap_post(*old(ms), *old(pm), *final(ms), *final(pm), start, len, r),
        frames_step(*old(ms), *old(pm), *final(ms), *final(pm)),
{
    proof {
        lemma_step_refl(*old(ms), *old(pm));
    }
    if start % PAGE_SIZE != 0 {
        return -1;
    }
    let lo = start / PAGE_SIZE;
    let hi = (start + len - 1) / PAGE_SIZE;
    let ghost ms0 = *old(ms);
    let ghost pm0 = *old(pm);
    proof {
        lemma_munmap_safe(ms0, pm0, lo as int, hi as int);
    }
    let mut i = lo;
    while i <= hi
        invariant
            ms.wf(),
            pm.wf(),
            *ms == ms0,
            *pm == pm0,
            ms0 == *old(ms),
            pm0 == *old(pm),
            lo == munmap_lo(start as int),
            hi == munmap_hi(start as int, len as int),
            hi < u64::MAX,
            lo <= i <= hi + 1,
            munmap_safe(ms0, pm0, lo as int, hi as int),
            all_mapped(ms0, lo as int, i - 1),
            ms0.frames_held(pm0),
        decreases hi + 1 - i,
    {
        let w = virt_page_num(i);
        assert(ms.page_table.has_leaf(w)) by {
            reveal(munmap_safe);
        }
        let pte = ms.page_table.find_pte(w).unwrap();
        if !pte.is_valid() {
            assert(!ms0.page_table.is_mapped(vpn_of(i as int) as u64));
            proof {
                lemma_step_refl(ms0, pm0);
            }
            return -1;
        }
        assert(all_mapped(ms0, lo as int, i as int)) by {
            assert forall|k: int| lo <= k <= i implies #[trigger] ms0.page_table.is_mapped(vpn_of(k) as u64) by {
                if k < i {
                    assert(ms0.page_table.is_mapped(vpn_of(k) as u64));
                }
            }
        }
        i = i + 1;
    }
    let ghost areas0 = ms0.areas@;
    let ghost entries0 = ms0.page_table.entries@;
    assert(range_vpns(lo as int, lo as int) =~= Set::<u64>::empty());
    assert(with_cleared(entries0, areas0, Set::<u64>::empty()) =~= entries0);
    assert forall|j: int| 0 <= j < areas0.len() implies (#[trigger] areas0[j]).data_frames@.remove_keys(
        Set::<u64>::empty(),
    ) == areas0[j].data_frames@ by {
        assert(areas0[j].data_frames@.remove_keys(Set::<u64>::empty()) =~= areas0[j].data_frames@);
    }
    assert(pm0.recycled@ + freed_frames(areas0, lo as int, lo as int) =~= pm0.recycled@);
    i = lo;
    while i <= hi
        invariant
            ms.wf(),
            pm.wf(),
            ms0 == *old(ms),
            pm0 == *old(pm),
            areas0 == ms0.areas@,
            entries0 == ms0.page_table.entries@,
            lo == munmap_lo(start as int),
            hi == munmap_hi(start as int, len as int),
            hi < u64::MAX,
            lo <= i <= hi + 1,
            ms0.wf(),
            munmap_safe(ms0, pm0, lo as int, hi as int),
            all_mapped(ms0, lo as int, hi as int),
            ms.page_table.dirs@ == ms0.page_table.dirs@,
            ms.page_table.leaves@ == ms0.page_table.leaves@,
            ms.page_table.root_ppn == ms0.page_table.root_ppn,
            ms.page_table.entries@ == with_cleared(entries0, areas0, range_vpns(lo as int, i as int)),
            ms.areas@.len() == areas0.len(),
            forall|j: int|
                0 <= j < areas0.len() ==> {
                    &&& (#[trigger] ms.areas@[j]).start_vpn == areas0[j].start_vpn
                    &&& ms.areas@[j].end_vpn == areas0[j].end_vpn
                    &&& ms.areas@[j].map_perm == areas0[j].map_perm
                    &&& ms.areas@[j].data_frames@ == areas0[j].data_frames@.remove_keys(range_vpns(lo as int, i as int))
                },
            pm.recycled@ == pm0.recycled@ + freed_frames(areas0, lo as int, i as int),
            pm.start == pm0.start,
            pm.current == pm0.current,
            pm.end == pm0.end,
            pm.frames@ == pm0.frames@,
            ms.page_table.frames@ == ms0.page_table.frames@,
        decreases hi + 1 - i,
    {
        let w = virt_page_num(i);
        proof {
            lemma_before_unmap(*ms, ms0, *pm, pm0, lo as int, hi as int, i as int);
        }
        let ghost ms_i = *ms;
        let ghost pm_i = *pm;
        unmap_in_areas(ms, pm, w);
        proof {
            lemma_after_unmap(ms_i, *ms, ms0, pm_i, *pm, pm0, lo as int, i as int);
        }
        i = i + 1;
    }
    proof {
        let rel = freed_frames(areas0, lo as int, hi + 1);
        let rv = range_vpns(lo as int, hi + 1);
        assert forall|j: int, v: u64| #[trigger] ms.backs(j, v) implies ms0.backs(j, v) && ms.data_frame(j, v) == ms0.data_frame(j, v) by {
            assert(ms.areas@[j].data_frames@ == areas0[j].data_frames@.remove_keys(rv));
        }
        lemma_freed_members(areas0, lo as int, hi + 1);
        assert forall|x: int| 0 <= x < rel.len() implies #[trigger] dropped(ms0, *ms, rel[x]) by {
            assert(freed_at(areas0, lo as int, hi + 1, rel[x]));
            let k = choose|k: int| lo <= k < hi + 1 && #[trigger] frame_freed(areas0, vpn_of(k) as u64) == seq![rel[x]];
            let w = vpn_of(k) as u64;
            lemma_frame_freed_is(areas0, w, rel[x]);
            let j = owner(areas0, w);
            assert(rv.contains(w));
            assert(ms.areas@[j].data_frames@ == areas0[j].data_frames@.remove_keys(rv));
            assert(ms0.backs(j, w) && !ms.backs(j, w));
        }
        lemma_frames_dropped(ms0, pm0, *ms, *pm, rel);
    }
    0
}


/// The pages that `munmap(start, len)` visits are those that
/// `mmap(start, len, _)` maps, for a page-aligned `start` and a range of at
/// least one byte that ends below the top of the address space.
pub proof fn lemma_same_range(start: int, len: int)
    requires
        start % (PAGE_SIZE as int) == 0,
        0 <= start,
        1 <= len,
        start + len < VA_LIMIT,
    ensures
        munmap_lo(start) == mmap_first(start),
        munmap_hi(start, len) + 1 == mmap_end(start, len),
        mmap_end(start, len) <= VPN_LIMIT,
        forall|w: u64| #[trigger] range_vpns(munmap_lo(start), munmap_hi(start, len) + 1).contains(w) <==> mmap_first(start) <= w
            < mmap_end(start, len),
{
    let lo = munmap_lo(start);
    let hi = munmap_hi(start, len);
    let a = start / 4096;
    assert(start == 4096 * a);
    assert(va_of(start) == start);
    assert(va_of(start + len) == start + len);
    assert(hi == a + (len - 1) / 4096) by (nonlinear_arith)
        requires
            hi == (start + len - 1) / 4096,
            start == 4096 * a,
            len >= 1,
    ;
    assert(ceil(start + len) == a + (len - 1) / 4096 + 1) by (nonlinear_arith)
        requires
            start == 4096 * a,
            len >= 1,
            start + len > 0,
            ceil(start + len) == (start + len - 1 + 4096) / 4096,
    ;
    assert(hi < VPN_LIMIT) by (nonlinear_arith)
        requires
            hi == (start + len - 1) / 4096,
            start + len < 0x80_0000_0000,
            start >= 0,
            len >= 1,
    ;
    assert forall|w: u64| #[trigger] range_vpns(lo, hi + 1).contains(w) <==> lo <= w < hi + 1 by {
        if lo <= w < hi + 1 {
            assert(vpn_of(w as int) == w);
        }
        if range_vpns(lo, hi + 1).contains(w) {
            let k = choose|k: int| lo <= k < hi + 1 && vpn_of(k) == w;
            assert(vpn_of(k) == k);
        }
    }
}

/// Mapping a range of pages and unmapping the same range again leaves every
/// page of the address space mapped exactly as before.
pub proof fn lemma_mmap_then_munmap(
    ms0: MemorySet,
    pm0: PhysMemory,
    ms1: MemorySet,
    pm1: PhysMemory,
    ms2: MemorySet,
    pm2: PhysMemory,
    start: u64,
    len: u64,
    prot: u64,
)
    requires
        1 <= len,
        start + len < VA_LIMIT,
        mmap_post(ms0, pm0, ms1, pm1, start, len, prot, 0),
        munmap_post(ms1, pm1, ms2, pm2, start, len, 0),
    ensures
        forall|v: u64| #[trigger] ms2.page_table.entry(v).valid() == ms0.page_table.entry(v).valid(),
{
    lemma_same_range(start as int, len as int);
    crate::page_table::lemma_empty_invalid();
    let s = mmap_first(start as int);
    let e = mmap_end(start as int, len as int);
    let rv = range_vpns(munmap_lo(start as int), munmap_hi(start as int, len as int) + 1);
    let area = ms1.areas@.last();
    assert forall|v: u64| #[trigger] ms2.page_table.entry(v).valid() == ms0.page_table.entry(v).valid() by {
        if s <= v < e {
            assert(rv.contains(v));
            assert(ms1.areas@[ms1.areas@.len() - 1].contains(v));
            assert(covers(ms1.areas@, v));
            assert(ms2.page_table.entry(v) == empty_pte());
            if ms0.page_table.entry(v).valid() {
                assert(some_page_valid(ms0, s, e));
            }
        } else {
            assert(!rv.contains(v));
            assert(ms2.page_table.entries@.contains_key(v) == ms0.page_table.entries@.contains_key(v));
        }
    }
}

/// A range that `mmap` has just mapped, of at least one page, cannot be
/// mapped again: a second `mmap` of it is refused and changes nothing.
pub proof fn lemma_mmap_twice(
    ms0: MemorySet,
    pm0: PhysMemory,
    ms1: MemorySet,
    pm1: PhysMemory,
    ms2: MemorySet,
    pm2: PhysMemory,
    start: u64,
    len: u64,
    prot: u64,
    r: i64,
)
    requires
        mmap_pages(start as int, len as int) > 0,
        mmap_post(ms0, pm0, ms1, pm1, start, len, prot, 0),
        mmap_post(ms1, pm1, ms2, pm2, start, len, prot, r),
    ensures
        r == -1,
        ms2.page_table.entries@ == ms1.page_table.entries@,
        ms2.areas@ == ms1.areas@,
{
    let s = mmap_first(start as int);
    lemma_prot_check(prot);
    assert(ms1.page_table.entry(s).valid());
    assert(some_page_valid(ms1, s, mmap_end(start as int, len as int)));
}

/// Once a range holding a page of some area has been unmapped, a second
/// `munmap` of the same range is refused and changes nothing.
pub proof fn lemma_munmap_twice(
    ms0: MemorySet,
    pm0: PhysMemory,
    ms1: MemorySet,
    pm1: PhysMemory,
    ms2: MemorySet,
    pm2: PhysMemory,
    start: u64,
    len: u64,
    r: i64,
)
    requires
        munmap_lo(start as int) <= munmap_hi(start as int, len as int),
        covers(ms0.areas@, vpn_of(munmap_lo(start as int)) as u64),
        munmap_post(ms0, pm0, ms1, pm1, start, len, 0),
        munmap_post(ms1, pm1, ms2, pm2, start, len, r),
    ensures
        r == -1,
        ms2 == ms1,
        pm2 == pm1,
{
    let lo = munmap_lo(start as int);
    let w = vpn_of(lo) as u64;
    crate::page_table::lemma_empty_invalid();
    assert(range_vpns(lo, munmap_hi(start as int, len as int) + 1).contains(w));
    assert(ms1.page_table.entry(w) == empty_pte());
    assert(!ms1.page_table.is_mapped(vpn_of(lo) as u64));
    assert(!all_mapped(ms1, lo, munmap_hi(start as int, len as int)));
}

/// After `mmap` has mapped a range of at least one byte that no area held
/// before, `munmap` of the same range is admitted: every page of it is
/// mapped, has its leaf table, and belongs to one area only.
pub proof fn lemma_munmap_admitted(
    ms0: MemorySet,
    pm0: PhysMemory,
    ms1: MemorySet,
    pm1: PhysMemory,
    start: u64,
    len: u64,
    prot: u64,
)
    requires
        1 <= len,
        start + len < VA_LIMIT,
        mmap_post(ms0, pm0, ms1, pm1, start, len, prot, 0),
        forall|w: u64| mmap_first(start as int) <= w < mmap_end(start as int, len as int) ==> !#[trigger] covers(ms0.areas@, w),
    ensures
        start % PAGE_SIZE == 0,
        all_mapped(ms1, munmap_lo(start as int), munmap_hi(start as int, len as int)),
        munmap_ok(ms1, munmap_lo(start as int), munmap_hi(start as int, len as int)),
{
    lemma_prot_check(prot);
    lemma_same_range(start as int, len as int);
    let s = mmap_first(start as int);
    let e = mmap_end(start as int, len as int);
    let lo = munmap_lo(start as int);
    let hi = munmap_hi(start as int, len as int);
    let n0 = ms0.areas@.len();
    let area = ms1.areas@.last();
    assert forall|k: int| lo <= k <= hi implies #[trigger] ms1.page_table.is_mapped(vpn_of(k) as u64) by {
        assert(vpn_of(k) == k);
        let w = k as u64;
        assert(ms1.page_table.entries@.contains_key(w));
        assert(ms1.page_table.entry(w).valid());
    }
    assert forall|k: int| lo <= k <= hi implies #[trigger] single_owner(ms1.areas@, vpn_of(k) as u64) by {
        assert(vpn_of(k) == k);
        let w = k as u64;
        assert forall|j1: int, j2: int|
            0 <= j1 < ms1.areas@.len() && 0 <= j2 < ms1.areas@.len() && #[trigger] ms1.areas@[j1].contains(w)
                && #[trigger] ms1.areas@[j2].contains(w) implies j1 == j2 by {
            if j1 < n0 {
                assert(ms1.areas@[j1] == ms0.areas@[j1]);
                assert(covers(ms0.areas@, w));
            }
            if j2 < n0 {
                assert(ms1.areas@[j2] == ms0.areas@[j2]);
                assert(covers(ms0.areas@, w));
            }
        }
    }
    assert forall|k1: int, k2: int|
        lo <= k1 < k2 <= hi && #[trigger] vpn_of(k1) == #[trigger] vpn_of(k2) implies !covers(ms1.areas@, vpn_of(k1) as u64) by {
        assert(vpn_of(k1) == k1);
        assert(vpn_of(k2) == k2);
    }
    assert forall|k: int| lo <= k <= hi && all_mapped(ms1, lo, k - 1) implies #[trigger] ms1.page_table.has_leaf(
        vpn_of(k) as u64,
    ) by {
        assert(ms1.page_table.is_mapped(vpn_of(k) as u64));
    }
    assert(all_mapped(ms1, lo, hi));
    reveal(munmap_ok);
}

} // verus!
