//! The address space of one process: its page table and the list of framed
//! areas it was built from, plus byte-level access to user memory through the
//! page table.
use vstd::prelude::*;
use vstd::hash_map::HashMapWithView;
use crate::config::{PAGE_SIZE, VPN_LIMIT};
use crate::address::{va_of, floor, page_offset, virt_addr, va_floor, va_page_offset};
use crate::frame::{PhysMemory, zero_page};
use crate::ownership::{frames_step, fresh_space, lemma_fresh_step, lemma_fresh_same_alloc, dropped, lemma_frames_dropped, lemma_area_extended, lemma_step_mono, lemma_tables_grown, lemma_step_trans, lemma_area_added};
use crate::page_table::{PageTable, PageTableEntry, PTE_V, lemma_empty_invalid, tables_for_range, added_dirs, added_leaves,
    dir_index, leaf_index};

verus! {

broadcast use vstd::std_specs::hash::axiom_u64_obeys_hash_table_key_model;

/// A contiguous range of user pages, each backed by a frame of its own.
pub struct MapArea {
    /// First page of the range.
    pub start_vpn: u64,
    /// One past the last page of the range.
    pub end_vpn: u64,
    /// Permission bits the area was created with (R = 2, W = 4, X = 8, U = 16).
    pub map_perm: u8,
    /// The frame that backs each page of the range that is still mapped.
    pub data_frames: HashMapWithView<u64, u64>,
}

impl MapArea {
    /// Whether page `vpn` lies in the area's range.
    pub open spec fn contains(&self, vpn: u64) -> bool {
        self.start_vpn <= vpn < self.end_vpn
    }

    /// Whether page `vpn` lies in the area's range.
    pub fn contains_vpn(&self, vpn: u64) -> (r: bool)
        ensures
            r == self.contains(vpn),
    {
        vpn < self.end_vpn && vpn >= self.start_vpn
    }
}

/// One process's address space.
pub struct MemorySet {
    pub page_table: PageTable,
    pub areas: Vec<MapArea>,
}

/// The page that holds raw user address `a`.
pub open spec fn vpn_at(a: int) -> u64 {
    floor(va_of(a)) as u64
}

/// Replacing area `j` by one with the same start, an end within bounds and
/// only pages of the old area below that end keeps the areas well formed.
proof fn lemma_shrunk_areas(areas: Seq<MapArea>, j: int, area: MapArea, new_end: u64)
    requires
        0 <= j < areas.len(),
        forall|i: int|
            0 <= i < areas.len() ==> {
                &&& #[trigger] areas[i].start_vpn <= VPN_LIMIT && areas[i].end_vpn <= VPN_LIMIT
                &&& forall|v: u64| #[trigger] areas[i].data_frames@.contains_key(v) ==> areas[i].contains(v)
            },
        new_end <= VPN_LIMIT,
        area.start_vpn == areas[j].start_vpn,
        area.end_vpn == new_end,
        forall|w: u64| #[trigger] area.data_frames@.contains_key(w) ==> areas[j].data_frames@.contains_key(w) && w < new_end,
    ensures
        forall|i: int|
            0 <= i < areas.update(j, area).len() ==> {
                &&& #[trigger] areas.update(j, area)[i].start_vpn <= VPN_LIMIT && areas.update(j, area)[i].end_vpn <= VPN_LIMIT
                &&& forall|v: u64| #[trigger] areas.update(j, area)[i].data_frames@.contains_key(v) ==> areas.update(j, area)[i].contains(v)
            },
{
    let a2 = areas.update(j, area);
    assert forall|i: int| 0 <= i < a2.len() implies {
        &&& #[trigger] a2[i].start_vpn <= VPN_LIMIT && a2[i].end_vpn <= VPN_LIMIT
        &&& forall|v: u64| #[trigger] a2[i].data_frames@.contains_key(v) ==> a2[i].contains(v)
    } by {
        if i == j {
            assert(a2[i] == area);
            assert(areas[j].start_vpn <= VPN_LIMIT);
            assert forall|v: u64| #[trigger] a2[i].data_frames@.contains_key(v) implies a2[i].contains(v) by {
                assert(areas[j].data_frames@.contains_key(v));
                assert(areas[j].contains(v));
            }
        } else {
            assert(a2[i] == areas[i]);
            assert(areas[i].start_vpn <= VPN_LIMIT);
            assert forall|v: u64| #[trigger] a2[i].data_frames@.contains_key(v) implies a2[i].contains(v) by {
                assert(areas[i].data_frames@.contains_key(v));
            }
        }
    }
}

impl MemorySet {
    pub open spec fn wf(&self) -> bool {
        &&& self.page_table.wf()
        &&& forall|i: int|
            0 <= i < self.areas@.len() ==> {
                &&& #[trigger] self.areas@[i].start_vpn <= VPN_LIMIT && self.areas@[i].end_vpn <= VPN_LIMIT
                &&& forall|v: u64| #[trigger] self.areas@[i].data_frames@.contains_key(v) ==> self.areas@[i].contains(v)
            }
    }

    /// The frame that backs raw user address `a`.
    pub open spec fn frame_at(&self, a: int) -> u64 {
        self.page_table.entry(vpn_at(a)).ppn
    }

    /// Whether raw user address `a` is backed by a valid mapping to a frame
    /// that exists.
    pub open spec fn byte_mapped(&self, pm: PhysMemory, a: int) -> bool {
        &&& self.page_table.is_mapped(vpn_at(a))
        &&& pm.frames@.contains_key(self.frame_at(a))
    }

    /// The byte at raw user address `a`.
    pub open spec fn user_byte(&self, pm: PhysMemory, a: int) -> u8 {
        pm.page(self.frame_at(a))[page_offset(va_of(a))]
    }

    /// Whether the `len` bytes from raw address `a` are all mapped.
    pub open spec fn range_mapped(&self, pm: PhysMemory, a: int, len: int) -> bool {
        forall|k: int| 0 <= k < len ==> #[trigger] self.byte_mapped(pm, a + k)
    }

    /// The `len` bytes from raw address `a`.
    pub open spec fn user_bytes(&self, pm: PhysMemory, a: int, len: nat) -> Seq<u8> {
        Seq::new(len, |k: int| self.user_byte(pm, a + k))
    }

    /// Frame contents after storing `data` byte by byte from raw address `a`,
    /// starting from contents `c`.
    pub open spec fn store_bytes(&self, c: Map<u64, Seq<u8>>, a: int, data: Seq<u8>) -> Map<u64, Seq<u8>>
        decreases data.len(),
    {
        if data.len() == 0 {
            c
        } else {
            let c1 = self.store_bytes(c, a, data.drop_last());
            let last = a + data.len() - 1;
            let p = self.frame_at(last);
            c1.insert(p, c1[p].update(page_offset(va_of(last)), data.last()))
        }
    }

    /// An empty address space whose root table lives in frame `root_ppn`.
    pub fn new_bare(root_ppn: u64) -> (r: Self)
        ensures
            r.wf(),
            r.page_table.root_ppn == root_ppn,
            r.page_table.dirs@ == Map::<u64, u64>::empty(),
            r.page_table.leaves@ == Map::<u64, u64>::empty(),
            r.page_table.entries@ == Map::<u64, PageTableEntry>::empty(),
            r.page_table.frames@ == seq![root_ppn],
            r.areas@ == Seq::<MapArea>::empty(),
    {
        MemorySet { page_table: PageTable::new(root_ppn), areas: Vec::new() }
    }

    /// The frame behind raw user address `a`, found the way the kernel
    /// translates a user pointer.
    pub fn translate_addr(&self, pm: &PhysMemory, a: u64) -> (r: (u64, u64))
        requires
            self.wf(),
            self.byte_mapped(*pm, a as int),
        ensures
            r.0 == self.frame_at(a as int),
            r.1 == page_offset(va_of(a as int)),
            r.1 < PAGE_SIZE,
    {
        let va = virt_addr(a);
        let vpn = va_floor(va);
        let pte = self.page_table.find_pte(vpn).unwrap();
        (pte.ppn, va_page_offset(va))
    }

    /// Reads the byte at raw user address `a`.
    pub fn read_user_byte(&self, pm: &PhysMemory, a: u64) -> (b: u8)
        requires
            self.wf(),
            pm.wf(),
            self.byte_mapped(*pm, a as int),
        ensures
            b == self.user_byte(*pm, a as int),
    {
        let (ppn, off) = self.translate_addr(pm, a);
        pm.read_byte(ppn, off)
    }

    /// Reads the `len` bytes from raw user address `a`, as the kernel gathers
    /// a user buffer.
    pub fn read_user_bytes(&self, pm: &PhysMemory, a: u64, len: u64) -> (r: Vec<u8>)
        requires
            self.wf(),
            pm.wf(),
            a + len <= u64::MAX,
            self.range_mapped(*pm, a as int, len as int),
        ensures
            r@ == self.user_bytes(*pm, a as int, len as nat),
    {
        let mut r: Vec<u8> = Vec::new();
        let mut k: u64 = 0;
        while k < len
            invariant
                self.wf(),
                pm.wf(),
                a + len <= u64::MAX,
                self.range_mapped(*pm, a as int, len as int),
                k <= len,
                r@ == self.user_bytes(*pm, a as int, k as nat),
            decreases len - k,
        {
            assert(self.byte_mapped(*pm, a + k));
            let b = self.read_user_byte(pm, a + k);
            r.push(b);
            k = k + 1;
            assert(r@ =~= self.user_bytes(*pm, a as int, k as nat));
        }
        r
    }

    /// Writes the byte at raw user address `a`.
    pub fn write_user_byte(&self, pm: &mut PhysMemory, a: u64, b: u8)
        requires
            self.wf(),
            old(pm).wf(),
            self.byte_mapped(*old(pm), a as int),
        ensures
            final(pm).wf(),
            final(pm).start == old(pm).start,
            final(pm).current == old(pm).current,
            final(pm).end == old(pm).end,
            final(pm).recycled@ == old(pm).recycled@,
            final(pm).frames@.dom() == old(pm).frames@.dom(),
            final(pm).contents() == old(pm).contents().insert(
                self.frame_at(a as int),
                old(pm).page(self.frame_at(a as int)).update(page_offset(va_of(a as int)), b),
            ),
    {
        let (ppn, off) = self.translate_addr(pm, a);
        pm.write_byte(ppn, off, b);
    }

    /// Stores `data` byte by byte from raw user address `a`, as the kernel
    /// fills a user buffer.
    pub fn write_user_bytes(&self, pm: &mut PhysMemory, a: u64, data: &Vec<u8>)
        requires
            self.wf(),
            old(pm).wf(),
            a + data@.len() <= u64::MAX,
            self.range_mapped(*old(pm), a as int, data@.len() as int),
        ensures
            final(pm).wf(),
            final(pm).start == old(pm).start,
            final(pm).current == old(pm).current,
            final(pm).end == old(pm).end,
            final(pm).recycled@ == old(pm).recycled@,
            final(pm).frames@.dom() == old(pm).frames@.dom(),
            final(pm).contents() == self.store_bytes(old(pm).contents(), a as int, data@),
    {
        let mut k: usize = 0;
        while k < data.len()
            invariant
                self.wf(),
                pm.wf(),
                a + data@.len() <= u64::MAX,
                k <= data@.len(),
                pm.start == old(pm).start,
                pm.current == old(pm).current,
                pm.end == old(pm).end,
                pm.recycled@ == old(pm).recycled@,
                pm.frames@.dom() == old(pm).frames@.dom(),
                self.range_mapped(*old(pm), a as int, data@.len() as int),
                pm.contents() == self.store_bytes(old(pm).contents(), a as int, data@.take(k as int)),
            decreases data@.len() - k,
        {
            assert(self.byte_mapped(*old(pm), a + k));
            self.write_user_byte(pm, a + k as u64, data[k]);
            proof {
                let t = data@.take(k + 1);
                assert(t.drop_last() =~= data@.take(k as int));
            }
            k = k + 1;
        }
        assert(data@.take(data@.len() as int) =~= data@);
    }
}

impl MemorySet {
    /// Storing bytes keeps the set of frames and the size of every page.
    pub proof fn lemma_store_bytes_shape(&self, c: Map<u64, Seq<u8>>, a: int, data: Seq<u8>)
        requires
            forall|k: int| 0 <= k < data.len() ==> c.contains_key(#[trigger] self.frame_at(a + k)),
            forall|p: u64| #[trigger] c.contains_key(p) ==> c[p].len() == PAGE_SIZE,
        ensures
            self.store_bytes(c, a, data).dom() == c.dom(),
            forall|p: u64| #[trigger] c.contains_key(p) ==> self.store_bytes(c, a, data)[p].len() == PAGE_SIZE,
        decreases data.len(),
    {
        if data.len() > 0 {
            let dl = data.drop_last();
            assert forall|k: int| 0 <= k < dl.len() implies c.contains_key(#[trigger] self.frame_at(a + k)) by {
                assert(c.contains_key(self.frame_at(a + k)));
            }
            self.lemma_store_bytes_shape(c, a, dl);
            let c1 = self.store_bytes(c, a, dl);
            let last = a + data.len() - 1;
            assert(c.contains_key(self.frame_at(a + (data.len() - 1))));
            assert(self.store_bytes(c, a, data).dom() =~= c.dom());
        }
    }

    /// After storing `data` byte by byte from raw address `a`, the byte stored
    /// for position `k` sits at the frame and offset of `a + k`, provided no
    /// two positions of the run share a frame and offset.
    pub proof fn lemma_store_bytes_reads_back(&self, c: Map<u64, Seq<u8>>, a: int, data: Seq<u8>)
        requires
            forall|k: int| 0 <= k < data.len() ==> c.contains_key(#[trigger] self.frame_at(a + k)),
            forall|p: u64| #[trigger] c.contains_key(p) ==> c[p].len() == PAGE_SIZE,
            forall|j: int, k: int|
                0 <= j < k < data.len() ==> #[trigger] self.frame_at(a + j) != #[trigger] self.frame_at(a + k)
                    || page_offset(va_of(a + j)) != page_offset(va_of(a + k)),
        ensures
            forall|k: int|
                0 <= k < data.len() ==> #[trigger] self.store_bytes(c, a, data)[self.frame_at(a + k)][page_offset(
                    va_of(a + k),
                )] == data[k],
        decreases data.len(),
    {
        if data.len() > 0 {
            let dl = data.drop_last();
            assert forall|k: int| 0 <= k < dl.len() implies c.contains_key(#[trigger] self.frame_at(a + k)) by {
                assert(c.contains_key(self.frame_at(a + k)));
            }
            assert forall|j: int, k: int|
                0 <= j < k < dl.len() implies #[trigger] self.frame_at(a + j) != #[trigger] self.frame_at(a + k)
                || page_offset(va_of(a + j)) != page_offset(va_of(a + k)) by {
                assert(self.frame_at(a + j) != self.frame_at(a + k) || page_offset(va_of(a + j)) != page_offset(
                    va_of(a + k),
                ));
            }
            self.lemma_store_bytes_reads_back(c, a, dl);
            self.lemma_store_bytes_shape(c, a, dl);
            let c1 = self.store_bytes(c, a, dl);
            let n = data.len() - 1;
            let last = a + n;
            assert(c.contains_key(self.frame_at(a + n)));
            assert forall|k: int| 0 <= k < data.len() implies #[trigger] self.store_bytes(c, a, data)[self.frame_at(
                a + k,
            )][page_offset(va_of(a + k))] == data[k] by {
                if k < n {
                    assert(self.frame_at(a + k) != self.frame_at(a + n) || page_offset(va_of(a + k)) != page_offset(
                        va_of(a + n),
                    ));
                    assert(c.contains_key(self.frame_at(a + k)));
                    assert(c1[self.frame_at(a + k)][page_offset(va_of(a + k))] == dl[k]);
                }
            }
        }
    }
}

/// Law: bytes stored into user memory read back as stored, wherever no two of
/// their addresses reach the same frame and offset.
pub proof fn law_user_write_reads_back(ms: MemorySet, pm0: PhysMemory, pm1: PhysMemory, a: u64, data: Seq<u8>)
    requires
        ms.wf(),
        pm0.wf(),
        pm1.wf(),
        ms.range_mapped(pm0, a as int, data.len() as int),
        pm1.frames@.dom() == pm0.frames@.dom(),
        pm1.contents() == ms.store_bytes(pm0.contents(), a as int, data),
        forall|j: int, k: int|
            0 <= j < k < data.len() ==> #[trigger] ms.frame_at(a + j) != #[trigger] ms.frame_at(a + k)
                || page_offset(va_of(a + j)) != page_offset(va_of(a + k)),
    ensures
        ms.user_bytes(pm1, a as int, data.len()) == data,
{
    let c = pm0.contents();
    assert forall|k: int| 0 <= k < data.len() implies c.contains_key(#[trigger] ms.frame_at(a + k)) by {
        assert(ms.byte_mapped(pm0, a + k));
    }
    ms.lemma_store_bytes_reads_back(c, a as int, data);
    assert forall|k: int| 0 <= k < data.len() implies #[trigger] ms.user_bytes(pm1, a as int, data.len())[k]
        == data[k] by {
        assert(ms.byte_mapped(pm0, a + k));
        assert(pm1.frames@.contains_key(ms.frame_at(a + k)));
        assert(pm1.contents()[ms.frame_at(a + k)] == pm1.page(ms.frame_at(a + k)));
        assert(ms.store_bytes(c, a as int, data)[ms.frame_at(a + k)][page_offset(va_of(a + k))] == data[k]);
    }
    assert(ms.user_bytes(pm1, a as int, data.len()) =~= data);
}

/// Number of pages of an area.
pub open spec fn area_pages(a: MapArea) -> int {
    if a.start_vpn < a.end_vpn { a.end_vpn - a.start_vpn } else { 0 }
}


/// `entries` with every page of `[s, e)` mapped to its frame in `frames`
/// with flags `flags`.
pub open spec fn map_range(
    entries: Map<u64, PageTableEntry>,
    s: u64,
    e: u64,
    frames: Map<u64, u64>,
    flags: u8,
) -> Map<u64, PageTableEntry> {
    Map::new(
        |v: u64| entries.contains_key(v) || (s <= v < e),
        |v: u64|
            if s <= v < e {
                PageTableEntry { ppn: frames[v], flags }
            } else {
                entries[v]
            },
    )
}


/// Whether no two areas of `areas` share a page.
pub open spec fn areas_disjoint(areas: Seq<MapArea>) -> bool {
    forall|j1: int, j2: int, v: u64|
        0 <= j1 < j2 < areas.len() && #[trigger] areas[j1].contains(v) ==> !#[trigger] areas[j2].contains(v)
}

/// What adding the framed area `[s, e)` with permission `perm` does.
pub open spec fn push_framed_post(
    ms0: MemorySet,
    pm0: PhysMemory,
    ms1: MemorySet,
    pm1: PhysMemory,
    s: u64,
    e: u64,
    perm: u8,
) -> bool {
    let area = ms1.areas@.last();
    &&& ms1.areas@ == ms0.areas@.push(area)
    &&& area.start_vpn == s
    &&& area.end_vpn == e
    &&& area.map_perm == perm
    &&& area.data_frames@.dom() == Set::new(|v: u64| s <= v < e)
    &&& ms1.page_table.entries@ == map_range(ms0.page_table.entries@, s, e, area.data_frames@, perm | PTE_V)
    &&& ms1.page_table.root_ppn == ms0.page_table.root_ppn
    &&& forall|v: u64| s <= v < e ==> #[trigger] ms1.page_table.has_leaf(v)
    &&& ms1.page_table.frames@.subrange(0, ms0.page_table.frames@.len() as int) == ms0.page_table.frames@
    &&& forall|v: u64|
        #![trigger area.data_frames@[v]]
        s <= v < e ==> {
            &&& !pm0.is_allocated(area.data_frames@[v])
            &&& pm1.is_allocated(area.data_frames@[v])
            &&& pm1.frames@.contains_key(area.data_frames@[v])
            &&& pm1.page(area.data_frames@[v]) == zero_page()
        }
    &&& forall|v1: u64, v2: u64|
        s <= v1 < e && s <= v2 < e && v1 != v2 ==> #[trigger] area.data_frames@[v1] != #[trigger] area.data_frames@[v2]
    &&& pm1.start == pm0.start
    &&& pm1.end == pm0.end
    &&& pm1.free_count() >= pm0.free_count() - 3 * (if s < e { e - s } else { 0 })
    &&& forall|q: u64| #[trigger] pm0.is_allocated(q) ==> pm1.is_allocated(q) && pm1.page(q) == pm0.page(q)
    &&& forall|q: u64| #[trigger] pm0.frames@.contains_key(q) ==> pm1.frames@.contains_key(q)
}

/// Frames that mapping each page of `[s, e)` to a fresh frame takes in a
/// space with page table `pt`: one per page, plus the tables created.
pub open spec fn range_frames(pt: PageTable, s: u64, e: u64) -> int {
    (if s < e { e - s } else { 0 }) + tables_for_range(pt.dirs@.dom(), pt.leaves@.dom(), s, e)
}

/// At most two tables are created per page.
pub proof fn lemma_tables_bound(dirs: Set<u64>, leaves: Set<u64>, v: u64, stop: u64)
    ensures
        tables_for_range(dirs, leaves, v, stop) <= 2 * (if v < stop { stop - v } else { 0 }),
    decreases stop - v,
{
    if v < stop {
        lemma_tables_bound(dirs.insert(dir_index(v)), leaves.insert(leaf_index(v)), (v + 1) as u64, stop);
    }
}

/// The frames that the layout of a fresh user space takes in a table with
/// no second-level or leaf table yet: four for the stack (two pages, one
/// table of each level), none for the empty heap, three for the trap
/// context page (its page and two tables).
proof fn lemma_fresh_tables(pt: PageTable)
    requires
        pt.dirs@.dom() == Set::<u64>::empty(),
        pt.leaves@.dom() == Set::<u64>::empty(),
    ensures
        range_frames(pt, USER_STACK_VPN, USER_STACK_TOP_VPN) == 4,
        ({
            let d = added_dirs(pt.dirs@.dom(), USER_STACK_VPN, USER_STACK_TOP_VPN);
            let l = added_leaves(pt.leaves@.dom(), USER_STACK_VPN, USER_STACK_TOP_VPN);
            &&& tables_for_range(d, l, USER_STACK_TOP_VPN, USER_STACK_TOP_VPN) == 0
            &&& added_dirs(d, USER_STACK_TOP_VPN, USER_STACK_TOP_VPN) == d
            &&& added_leaves(l, USER_STACK_TOP_VPN, USER_STACK_TOP_VPN) == l
            &&& tables_for_range(d, l, TRAP_CONTEXT_VPN, (TRAP_CONTEXT_VPN + 1) as u64) == 2
        }),
{
    let e = Set::<u64>::empty();
    let d1 = e.insert(dir_index(1));
    let l1 = e.insert(leaf_index(1));
    let d2 = d1.insert(dir_index(2));
    let l2 = l1.insert(leaf_index(2));
    assert(tables_for_range(d2, l2, 3, 3) == 0);
    assert(tables_for_range(d1, l1, 2, 3) == 0);
    assert(tables_for_range(e, e, 1, 3) == 2);
    assert(added_dirs(d2, 3, 3) == d2);
    assert(added_dirs(d1, 2, 3) == d2);
    assert(added_dirs(e, 1, 3) == d2);
    assert(added_leaves(l2, 3, 3) == l2);
    assert(added_leaves(l1, 2, 3) == l2);
    assert(added_leaves(e, 1, 3) == l2);
    let t = TRAP_CONTEXT_VPN;
    assert(!d2.contains(dir_index(t)));
    assert(!l2.contains(leaf_index(t)));
    assert(tables_for_range(d2.insert(dir_index(t)), l2.insert(leaf_index(t)), (t + 1) as u64, (t + 1) as u64) == 0);
    assert(tables_for_range(d2, l2, t, (t + 1) as u64) == 2);
}

/// Frames that copying the areas from index `i` on, in order, into a space
/// whose page table has second-level tables `dirs` and leaf tables `leaves`
/// takes: a frame per page, plus the tables created for the pages.
pub open spec fn copy_frames(dirs: Set<u64>, leaves: Set<u64>, areas: Seq<MapArea>, i: int) -> int
    decreases areas.len() - i,
{
    if i >= areas.len() || i < 0 {
        0
    } else {
        let a = areas[i];
        area_pages(a) + tables_for_range(dirs, leaves, a.start_vpn, a.end_vpn) + copy_frames(
            added_dirs(dirs, a.start_vpn, a.end_vpn),
            added_leaves(leaves, a.start_vpn, a.end_vpn),
            areas,
            i + 1,
        )
    }
}

pub proof fn lemma_copy_frames_nonneg(dirs: Set<u64>, leaves: Set<u64>, areas: Seq<MapArea>, i: int)
    ensures
        copy_frames(dirs, leaves, areas, i) >= 0,
    decreases areas.len() - i,
{
    if 0 <= i < areas.len() {
        let a = areas[i];
        lemma_copy_frames_nonneg(
            added_dirs(dirs, a.start_vpn, a.end_vpn),
            added_leaves(leaves, a.start_vpn, a.end_vpn),
            areas,
            i + 1,
        );
    }
}

impl MemorySet {
    /// Adds the area `[s, e)` with permission `perm`, mapping each of its
    /// pages, in order, to a fresh zeroed frame with flags `perm | V`.
    pub fn push_framed(&mut self, pm: &mut PhysMemory, s: u64, e: u64, perm: u8)
        requires
            old(self).wf(),
            old(pm).wf(),
            s <= VPN_LIMIT,
            e <= VPN_LIMIT,
            forall|v: u64| s <= v < e ==> !(#[trigger] old(self).page_table.entry(v)).valid(),
            old(pm).free_count() >= range_frames(old(self).page_table, s, e),
        ensures
            final(self).wf(),
            final(pm).wf(),
            push_framed_post(*old(self), *old(pm), *final(self), *final(pm), s, e, perm),
            final(pm).free_count() == old(pm).free_count() - range_frames(old(self).page_table, s, e),
            final(self).page_table.dirs@.dom() == added_dirs(old(self).page_table.dirs@.dom(), s, e),
            final(self).page_table.leaves@.dom() == added_leaves(old(self).page_table.leaves@.dom(), s, e),
            old(self).frames_held(*old(pm)) ==> frames_step(*old(self), *old(pm), *final(self), *final(pm)),
    {
        let ghost ms0 = *old(self);
        let ghost pm0 = *old(pm);
        let flags = perm | PTE_V;
        let mut frames: HashMapWithView<u64, u64> = HashMapWithView::new();
        let mut vpn = s;
        while vpn < e
            invariant
                self.wf(),
                pm.wf(),
                ms0 == *old(self),
                pm0 == *old(pm),
                s <= vpn,
                s <= e ==> vpn <= e,
                e < s ==> vpn == s,
                s <= VPN_LIMIT,
                e <= VPN_LIMIT,
                flags == perm | PTE_V,
                self.areas@ == ms0.areas@,
                self.page_table.root_ppn == ms0.page_table.root_ppn,
                self.page_table.frames@.subrange(0, ms0.page_table.frames@.len() as int) == ms0.page_table.frames@,
                self.page_table.frames@.len() >= ms0.page_table.frames@.len(),
                forall|v: u64| s <= v < e ==> !(#[trigger] ms0.page_table.entry(v)).valid(),
                frames@.dom() == Set::new(|v: u64| s <= v < vpn),
                forall|v: u64| s <= v < vpn ==> #[trigger] self.page_table.has_leaf(v),
                self.page_table.entries@ == map_range(ms0.page_table.entries@, s, vpn, frames@, flags),
                pm.free_count() == pm0.free_count() - range_frames(ms0.page_table, s, e) + (if vpn < e { e - vpn } else { 0 })
                    + tables_for_range(self.page_table.dirs@.dom(), self.page_table.leaves@.dom(), vpn, e),
                pm0.free_count() >= range_frames(ms0.page_table, s, e),
                added_dirs(self.page_table.dirs@.dom(), vpn, e) == added_dirs(ms0.page_table.dirs@.dom(), s, e),
                added_leaves(self.page_table.leaves@.dom(), vpn, e) == added_leaves(ms0.page_table.leaves@.dom(), s, e),
                pm.start == pm0.start,
                pm.end == pm0.end,
                forall|q: u64| #[trigger] pm0.is_allocated(q) ==> pm.is_allocated(q) && pm.page(q) == pm0.page(q),
                forall|q: u64| #[trigger] pm0.frames@.contains_key(q) ==> pm.frames@.contains_key(q),
                forall|v: u64|
                    #![trigger frames@[v]]
                    s <= v < vpn ==> {
                        &&& !pm0.is_allocated(frames@[v])
                        &&& pm.is_allocated(frames@[v])
                        &&& pm.frames@.contains_key(frames@[v])
                        &&& pm.page(frames@[v]) == zero_page()
                    },
                forall|v1: u64, v2: u64|
                    s <= v1 < vpn && s <= v2 < vpn && v1 != v2 ==> #[trigger] frames@[v1] != #[trigger] frames@[v2],
                ms0.frames_held(pm0) ==> frames_step(ms0, pm0, *self, *pm),
                ms0.frames_held(pm0) ==> forall|v: u64| s <= v < vpn ==> !self.page_table.frames@.contains(#[trigger] frames@[v]),
            decreases e - vpn,
        {
            let ghost pm1 = *pm;
            let ghost f1 = frames@;
            let ghost pt1 = self.page_table;
            let ghost self1 = *self;
            let ppn = pm.frame_alloc().unwrap();
            let ghost pm2 = *pm;
            frames.insert(vpn, ppn);
            self.page_table.find_pte_create(pm, vpn);
            let pte = self.page_table.find_pte(vpn).unwrap();
            proof {
                assert(!ms0.page_table.entry(vpn).valid());
                assert(!self.page_table.entries@.contains_key(vpn) || self.page_table.entries@[vpn] == ms0.page_table.entries@[vpn]);
                assert(!pte.valid());
            }
            self.page_table.set_entry(vpn, PageTableEntry { ppn, flags });
            proof {
                let t1 = pt1.frames@;
                let t2 = self.page_table.frames@;
                assert forall|x: int| 0 <= x < t1.len() implies #[trigger] t2[x] == t1[x] by {
                    assert(t2.subrange(0, t1.len() as int)[x] == t2[x]);
                }
                if ms0.frames_held(pm0) {
                    assert forall|q: u64| #[trigger] pm1.is_allocated(q) implies pm2.is_allocated(q) by {}
                    lemma_step_mono(ms0, pm0, self1, pm1, pm2);
                    assert(self1.frames_held(pm2));
                    lemma_tables_grown(self1, pm2, *self, *pm);
                    lemma_step_trans(ms0, pm0, self1, pm2, *self, *pm);
                }
                if ms0.frames_held(pm0) {
                    assert forall|v: u64| s <= v < vpn + 1 implies !t2.contains(#[trigger] frames@[v]) by {
                        let f = frames@[v];
                        if t2.contains(f) {
                            let x = choose|x: int| 0 <= x < t2.len() && t2[x] == f;
                            if x < t1.len() {
                                assert(t1[x] == f);
                                assert(t1.contains(f));
                                if v < vpn {
                                    assert(f1[v] == f);
                                } else {
                                    assert(f == ppn);
                                    assert(self1.owns(ppn));
                                }
                            } else {
                                assert(!pm2.is_allocated(t2[x]));
                                if v < vpn {
                                    assert(f1[v] == f);
                                    assert(pm1.is_allocated(f));
                                    assert(f != ppn);
                                }
                            }
                        }
                    }
                }
                assert(self.page_table.frames@.subrange(0, ms0.page_table.frames@.len() as int) =~= pt1.frames@.subrange(0, ms0.page_table.frames@.len() as int));
                assert forall|v: u64| s <= v < vpn + 1 implies #[trigger] self.page_table.has_leaf(v) by {
                    if v < vpn {
                        assert(pt1.has_leaf(v));
                    }
                }
                assert forall|q: u64| #[trigger] pm0.is_allocated(q) implies pm.is_allocated(q) && pm.page(q)
                    == pm0.page(q) by {
                    assert(pm1.is_allocated(q));
                    assert(pm1.frames@.contains_key(q));
                    assert(pm2.is_allocated(q));
                }
                assert forall|q: u64| #[trigger] pm0.frames@.contains_key(q) implies pm.frames@.contains_key(q) by {
                    assert(pm1.frames@.contains_key(q));
                    assert(pm2.frames@.contains_key(q));
                }
                assert forall|v: u64| #![trigger frames@[v]] s <= v < vpn + 1 implies {
                    &&& !pm0.is_allocated(frames@[v])
                    &&& pm.is_allocated(frames@[v])
                    &&& pm.frames@.contains_key(frames@[v])
                    &&& pm.page(frames@[v]) == zero_page()
                } by {
                    if v < vpn {
                        assert(f1[v] == frames@[v]);
                        assert(pm1.is_allocated(f1[v]));
                        assert(pm1.frames@.contains_key(f1[v]));
                        assert(pm2.is_allocated(f1[v]));
                    } else {
                        assert(!pm1.is_allocated(ppn));
                        assert(!pm0.is_allocated(ppn));
                        assert(pm2.is_allocated(ppn));
                        assert(pm2.frames@.contains_key(ppn));
                    }
                }
                assert forall|v1: u64, v2: u64|
                    s <= v1 < vpn + 1 && s <= v2 < vpn + 1 && v1 != v2 implies #[trigger] frames@[v1]
                    != #[trigger] frames@[v2] by {
                    if v1 < vpn && v2 < vpn {
                        assert(f1[v1] != f1[v2]);
                    } else if v1 < vpn {
                        assert(pm1.is_allocated(f1[v1]));
                    } else {
                        assert(pm1.is_allocated(f1[v2]));
                    }
                }
                assert(frames@.dom() =~= Set::new(|v: u64| s <= v < vpn + 1));
                assert(self.page_table.entries@ =~= map_range(ms0.page_table.entries@, s, (vpn + 1) as u64, frames@, flags));
            }
            vpn = vpn + 1;
        }
        proof {
            if e < s {
                assert(frames@.dom() =~= Set::new(|v: u64| s <= v < e));
                assert(self.page_table.entries@ =~= map_range(ms0.page_table.entries@, s, e, frames@, flags));
            }
        }
        let area = MapArea { start_vpn: s, end_vpn: e, map_perm: perm, data_frames: frames };
        let ghost ms1 = *self;
        let ghost pm_end = *pm;
        self.areas.push(area);
        proof {
            lemma_tables_bound(ms0.page_table.dirs@.dom(), ms0.page_table.leaves@.dom(), s, e);
            if ms0.frames_held(pm0) {
                assert forall|v: u64| #[trigger] area.data_frames@.contains_key(v) implies {
                    let f = area.data_frames@[v];
                    &&& !pm0.is_allocated(f)
                    &&& pm_end.is_allocated(f)
                    &&& !ms1.owns(f)
                } by {
                    let f = area.data_frames@[v];
                    assert(s <= v < e);
                    assert(!ms1.page_table.frames@.contains(frames@[v]));
                    if ms1.holds_data(f) {
                        let (j, w) = choose|j: int, w: u64| #[trigger] ms1.backs(j, w) && ms1.data_frame(j, w) == f;
                        assert(ms0.backs(j, w));
                        assert(ms0.holds_data(f));
                        assert(ms0.owns(f));
                    }
                }
                assert(self.areas@.last() == area);
                lemma_area_added(ms0, pm0, ms1, pm_end, *self);
            }
            assert forall|i: int| 0 <= i < self.areas@.len() implies {
                &&& #[trigger] self.areas@[i].start_vpn <= VPN_LIMIT && self.areas@[i].end_vpn <= VPN_LIMIT
                &&& forall|v: u64| #[trigger] self.areas@[i].data_frames@.contains_key(v) ==> self.areas@[i].contains(v)
            } by {
                if i < ms1.areas@.len() {
                    assert(self.areas@[i] == ms1.areas@[i]);
                }
            }
        }
    }

    /// An empty address space with a fresh root table.
    pub fn new_bare_alloc(pm: &mut PhysMemory) -> (r: Self)
        requires
            old(pm).wf(),
            old(pm).can_alloc(),
        ensures
            r.wf(),
            final(pm).wf(),
            r.areas@ == Seq::<MapArea>::empty(),
            r.page_table.entries@ == Map::<u64, PageTableEntry>::empty(),
            r.page_table.dirs@ == Map::<u64, u64>::empty(),
            r.page_table.leaves@ == Map::<u64, u64>::empty(),
            r.page_table.frames@ == seq![r.page_table.root_ppn],
            !old(pm).is_allocated(r.page_table.root_ppn),
            final(pm).is_allocated(r.page_table.root_ppn),
            final(pm).start == old(pm).start,
            final(pm).end == old(pm).end,
            final(pm).free_count() == old(pm).free_count() - 1,
            forall|q: u64| #[trigger] old(pm).is_allocated(q) ==> final(pm).is_allocated(q) && final(pm).page(q) == old(pm).page(q),
            forall|q: u64| #[trigger] old(pm).frames@.contains_key(q) ==> final(pm).frames@.contains_key(q),
            fresh_space(r, *old(pm), *final(pm)),
    {
        let root = pm.frame_alloc().unwrap();
        proof {
            assert forall|q: u64| #[trigger] old(pm).is_allocated(q) implies pm.is_allocated(q) && pm.page(q) == old(pm).page(q) by {
                assert(old(pm).frames@.contains_key(q));
            }
        }
        let r = MemorySet::new_bare(root);
        proof {
            assert(r.page_table.frames@ =~= seq![root]);
            assert forall|j: int, v: u64| !(#[trigger] r.backs(j, v)) by {}
            assert forall|f: u64| #[trigger] r.owns(f) implies f == root by {
                if !r.page_table.frames@.contains(f) {
                    let (j, v) = choose|j: int, v: u64| #[trigger] r.backs(j, v) && r.data_frame(j, v) == f;
                }
            }
        }
        r
    }

    /// A copy of the user address space `parent`: the same areas, each page
    /// backed by a fresh frame that holds the bytes of the parent's page.
    pub fn from_existed_user(parent: &MemorySet, pm: &mut PhysMemory) -> (r: Self)
        requires
            parent.wf(),
            old(pm).wf(),
            areas_disjoint(parent.areas@),
            forall|j: int, v: u64|
                0 <= j < parent.areas@.len() && #[trigger] parent.areas@[j].contains(v) ==> parent.page_table.is_mapped(v)
                    && old(pm).is_allocated(parent.page_table.entry(v).ppn),
            old(pm).free_count() >= 1 + copy_frames(Set::empty(), Set::empty(), parent.areas@, 0),
        ensures
            r.wf(),
            final(pm).wf(),
            fork_post(*parent, *old(pm), r, *final(pm)),
            fresh_space(r, *old(pm), *final(pm)),
    {
        let ghost pm0 = *old(pm);
        proof {
            lemma_empty_invalid();
            lemma_copy_frames_nonneg(Set::empty(), Set::empty(), parent.areas@, 0);
        }
        let mut child = MemorySet::new_bare_alloc(pm);
        let mut i: usize = 0;
        proof {
            assert(child.page_table.entries@ =~= Map::<u64, PageTableEntry>::empty());
            assert(child.page_table.dirs@.dom() =~= Set::<u64>::empty());
            assert(child.page_table.leaves@.dom() =~= Set::<u64>::empty());
        }
        while i < parent.areas.len()
            invariant
                parent.wf(),
                child.wf(),
                pm.wf(),
                pm0 == *old(pm),
                pm0.wf(),
                !pm0.is_allocated(child.page_table.root_ppn),
                i <= parent.areas@.len(),
                areas_disjoint(parent.areas@),
                forall|j: int, v: u64|
                    0 <= j < parent.areas@.len() && #[trigger] parent.areas@[j].contains(v) ==> parent.page_table.is_mapped(v)
                        && pm0.is_allocated(parent.page_table.entry(v).ppn),
                pm.free_count() >= copy_frames(
                    child.page_table.dirs@.dom(),
                    child.page_table.leaves@.dom(),
                    parent.areas@,
                    i as int,
                ),
                child.areas@.len() == i,
                forall|j: int| 0 <= j < i ==> {
                    &&& (#[trigger] child.areas@[j]).start_vpn == parent.areas@[j].start_vpn
                    &&& child.areas@[j].end_vpn == parent.areas@[j].end_vpn
                    &&& child.areas@[j].map_perm == parent.areas@[j].map_perm
                    &&& child.areas@[j].data_frames@.dom() == Set::new(|v: u64| child.areas@[j].contains(v))
                },
                forall|v: u64| #[trigger] child.page_table.entries@.contains_key(v) ==> exists|j: int| 0 <= j < i && #[trigger] parent.areas@[j].contains(v),
                forall|j: int, v: u64| 0 <= j < i && #[trigger] child.areas@[j].contains(v) ==> {
                    let f = child.areas@[j].data_frames@[v];
                    &&& child.page_table.entry(v) == PageTableEntry { ppn: f, flags: child.areas@[j].map_perm | PTE_V }
                    &&& !pm0.is_allocated(f)
                    &&& pm.is_allocated(f)
                    &&& pm.frames@.contains_key(f)
                    &&& pm.page(f) == pm0.page(parent.page_table.entry(v).ppn)
                },
                pm.start == pm0.start,
                pm.end == pm0.end,
                forall|q: u64| #[trigger] pm0.is_allocated(q) ==> pm.is_allocated(q) && pm.page(q) == pm0.page(q),
                forall|q: u64| #[trigger] pm0.frames@.contains_key(q) ==> pm.frames@.contains_key(q),
                fresh_space(child, pm0, *pm),
            decreases parent.areas@.len() - i,
        {
            let s = parent.areas[i].start_vpn;
            let e = parent.areas[i].end_vpn;
            let perm = parent.areas[i].map_perm;
            let ghost c1 = child;
            let ghost pm1 = *pm;
            proof {
                lemma_empty_invalid();
                lemma_copy_frames_nonneg(
                    added_dirs(child.page_table.dirs@.dom(), s, e),
                    added_leaves(child.page_table.leaves@.dom(), s, e),
                    parent.areas@,
                    i + 1,
                );
                assert forall|v: u64| s <= v < e implies !(#[trigger] child.page_table.entry(v)).valid() by {
                    if child.page_table.entries@.contains_key(v) {
                        let j = choose|j: int| 0 <= j < i && #[trigger] parent.areas@[j].contains(v);
                        assert(parent.areas@[i as int].contains(v));
                    }
                }
            }
            child.push_framed(pm, s, e, perm);
            let ghost c2 = child;
            let ghost pm2 = *pm;
            proof {
                lemma_fresh_step(c1, pm0, pm1, c2, pm2);
            }
            let mut v = s;
            while v < e
                invariant
                    parent.wf(),
                    child.wf(),
                    pm.wf(),
                    child == c2,
                    pm0.wf(),
                    s <= v,
                    s <= e ==> v <= e,
                    e < s ==> v == s,
                    e <= VPN_LIMIT,
                    s == parent.areas@[i as int].start_vpn,
                    e == parent.areas@[i as int].end_vpn,
                    i < parent.areas@.len(),
                    push_framed_post(c1, pm1, c2, pm2, s, e, perm),
                    forall|j: int, w: u64|
                        0 <= j < parent.areas@.len() && #[trigger] parent.areas@[j].contains(w) ==> parent.page_table.is_mapped(w)
                            && pm0.is_allocated(parent.page_table.entry(w).ppn),
                    forall|q: u64| #[trigger] pm0.is_allocated(q) ==> pm1.is_allocated(q) && pm1.page(q) == pm0.page(q),
                    forall|q: u64| #[trigger] pm0.is_allocated(q) ==> pm.is_allocated(q) && pm.page(q) == pm0.page(q),
                    forall|q: u64| #[trigger] pm1.is_allocated(q) ==> pm.is_allocated(q) && pm.page(q) == pm1.page(q),
                    forall|q: u64| #[trigger] pm0.frames@.contains_key(q) ==> pm.frames@.contains_key(q),
                    forall|w: u64| s <= w < e ==> {
                        let f = #[trigger] c2.areas@.last().data_frames@[w];
                        &&& pm.is_allocated(f)
                        &&& pm.frames@.contains_key(f)
                        &&& pm.page(f) == if w < v { pm0.page(parent.page_table.entry(w).ppn) } else { zero_page() }
                    },
                    pm.start == pm0.start,
                    pm.end == pm0.end,
                    pm.free_count() == pm2.free_count(),
                    pm.current == pm2.current,
                    pm.recycled@ == pm2.recycled@,
                    fresh_space(c2, pm0, pm2),
                decreases e - v,
            {
                proof {
                    assert(parent.areas@[i as int].contains(v));
                }
                let src = parent.page_table.find_pte(v).unwrap().ppn;
                let dst = child.page_table.find_pte(v).unwrap().ppn;
                proof {
                    assert(c2.areas@.last().data_frames@.dom().contains(v));
                    assert(dst == c2.areas@.last().data_frames@[v]);
                    assert(pm.frames@.contains_key(src)) by {
                        assert(pm0.is_allocated(src));
                        assert(pm0.frames@.contains_key(src));
                    }
                }
                let ghost pm3 = *pm;
                pm.copy_frame(src, dst);
                proof {
                    assert(pm3.page(src) == pm0.page(src));
                    assert(!pm0.is_allocated(dst));
                    assert(!pm1.is_allocated(dst));
                    assert forall|q: u64| #[trigger] pm0.is_allocated(q) implies pm.is_allocated(q) && pm.page(q) == pm0.page(q) by {
                        assert(pm3.is_allocated(q));
                        assert(pm.contents()[q] == pm3.contents()[q]);
                    }
                    assert forall|q: u64| #[trigger] pm1.is_allocated(q) implies pm.is_allocated(q) && pm.page(q) == pm1.page(q) by {
                        assert(pm3.is_allocated(q));
                        assert(pm.contents()[q] == pm3.contents()[q]);
                    }
                    assert forall|w: u64| s <= w < e implies {
                        let f = #[trigger] c2.areas@.last().data_frames@[w];
                        &&& pm.is_allocated(f)
                        &&& pm.frames@.contains_key(f)
                        &&& pm.page(f) == if w < v + 1 { pm0.page(parent.page_table.entry(w).ppn) } else { zero_page() }
                    } by {
                        let f = c2.areas@.last().data_frames@[w];
                        if w != v {
                            assert(f != dst);
                            assert(pm.contents()[f] == pm3.contents()[f]);
                        } else {
                            assert(pm.contents()[dst] == pm3.page(src));
                        }
                    }
                }
                v = v + 1;
            }
            proof {
                lemma_fresh_same_alloc(c2, pm0, pm2, *pm);
                let na = c2.areas@.last();
                assert(child.areas@ == c1.areas@.push(na));
                assert forall|j: int| 0 <= j < i + 1 implies {
                    &&& (#[trigger] child.areas@[j]).start_vpn == parent.areas@[j].start_vpn
                    &&& child.areas@[j].end_vpn == parent.areas@[j].end_vpn
                    &&& child.areas@[j].map_perm == parent.areas@[j].map_perm
                    &&& child.areas@[j].data_frames@.dom() == Set::new(|w: u64| child.areas@[j].contains(w))
                } by {
                    if j < i {
                        assert(child.areas@[j] == c1.areas@[j]);
                    } else {
                        assert(na.data_frames@.dom() =~= Set::new(|w: u64| na.contains(w)));
                    }
                }
                assert forall|w: u64| #[trigger] child.page_table.entries@.contains_key(w) implies exists|j: int| 0 <= j < i + 1 && #[trigger] parent.areas@[j].contains(w) by {
                    if c1.page_table.entries@.contains_key(w) {
                        let j = choose|j: int| 0 <= j < i && #[trigger] parent.areas@[j].contains(w);
                        assert(0 <= j < i + 1 && parent.areas@[j].contains(w));
                    } else {
                        assert(parent.areas@[i as int].contains(w));
                    }
                }
                assert forall|j: int, w: u64| 0 <= j < i + 1 && #[trigger] child.areas@[j].contains(w) implies {
                    let f = child.areas@[j].data_frames@[w];
                    &&& child.page_table.entry(w) == PageTableEntry { ppn: f, flags: child.areas@[j].map_perm | PTE_V }
                    &&& !pm0.is_allocated(f)
                    &&& pm.is_allocated(f)
                    &&& pm.frames@.contains_key(f)
                    &&& pm.page(f) == pm0.page(parent.page_table.entry(w).ppn)
                } by {
                    if j < i {
                        assert(child.areas@[j] == c1.areas@[j]);
                        assert(parent.areas@[j].contains(w));
                        assert(!parent.areas@[i as int].contains(w));
                        let f = c1.areas@[j].data_frames@[w];
                        assert(pm1.is_allocated(f));
                        assert(pm1.frames@.contains_key(f));
                    } else {
                        assert(child.areas@[j] == na);
                    }
                }
            }
            i = i + 1;
        }
        child
    }
}

/// What copying the user address space `parent` gives: `child`, with the
/// same areas, each page mapped with the area's permission to a fresh frame
/// holding the bytes of the parent's page, and nothing else mapped.
pub open spec fn fork_post(parent: MemorySet, pm0: PhysMemory, child: MemorySet, pm1: PhysMemory) -> bool {
    &&& child.areas@.len() == parent.areas@.len()
    &&& forall|j: int| 0 <= j < parent.areas@.len() ==> {
        &&& (#[trigger] child.areas@[j]).start_vpn == parent.areas@[j].start_vpn
        &&& child.areas@[j].end_vpn == parent.areas@[j].end_vpn
        &&& child.areas@[j].map_perm == parent.areas@[j].map_perm
        &&& child.areas@[j].data_frames@.dom() == Set::new(|v: u64| child.areas@[j].contains(v))
    }
    &&& forall|v: u64| #[trigger] child.page_table.entries@.contains_key(v) ==> exists|j: int| 0 <= j < parent.areas@.len() && #[trigger] parent.areas@[j].contains(v)
    &&& forall|j: int, v: u64| 0 <= j < parent.areas@.len() && #[trigger] child.areas@[j].contains(v) ==> {
        let f = child.areas@[j].data_frames@[v];
        &&& child.page_table.entry(v) == PageTableEntry { ppn: f, flags: child.areas@[j].map_perm | PTE_V }
        &&& !pm0.is_allocated(f)
        &&& pm1.is_allocated(f)
        &&& pm1.frames@.contains_key(f)
        &&& pm1.page(f) == pm0.page(parent.page_table.entry(v).ppn)
    }
    &&& !pm0.is_allocated(child.page_table.root_ppn)
    &&& pm1.start == pm0.start
    &&& pm1.end == pm0.end
    &&& forall|q: u64| #[trigger] pm0.is_allocated(q) ==> pm1.is_allocated(q) && pm1.page(q) == pm0.page(q)
    &&& forall|q: u64| #[trigger] pm0.frames@.contains_key(q) ==> pm1.frames@.contains_key(q)
}

/// The frames of area `a` for pages `[s, v)`, in page order.
pub open spec fn frames_in(a: MapArea, s: int, v: int) -> Seq<u64>
    decreases v - s,
{
    if v <= s {
        Seq::empty()
    } else {
        frames_in(a, s, v - 1) + if a.data_frames@.contains_key((v - 1) as u64) {
            seq![a.data_frames@[(v - 1) as u64]]
        } else {
            Seq::empty()
        }
    }
}

/// The frames that the areas `areas[0..i]` keep, area by area, each in page
/// order: the order in which dropping the areas releases them.
pub open spec fn area_frames(areas: Seq<MapArea>, i: int) -> Seq<u64>
    decreases i,
{
    if i <= 0 {
        Seq::empty()
    } else {
        area_frames(areas, i - 1) + frames_in(areas[i - 1], areas[i - 1].start_vpn as int, areas[i - 1].end_vpn as int)
    }
}

/// Whether the frames of `seq` are distinct and all handed out.
pub open spec fn releasable(pm: PhysMemory, seq: Seq<u64>) -> bool {
    &&& seq.no_duplicates()
    &&& forall|x: int| 0 <= x < seq.len() ==> pm.is_allocated(#[trigger] seq[x])
}

/// What releasing the frames of `seq`, in order, does to memory `pm0`.
pub open spec fn released(pm0: PhysMemory, pm1: PhysMemory, seq: Seq<u64>) -> bool {
    &&& pm1.wf()
    &&& pm1.recycled@ == pm0.recycled@ + seq
    &&& pm1.start == pm0.start
    &&& pm1.current == pm0.current
    &&& pm1.end == pm0.end
    &&& pm1.frames@ == pm0.frames@
}

/// The next frame of a releasable run is still handed out once the ones
/// before it are released.
proof fn lemma_release_next(pm0: PhysMemory, pm: PhysMemory, seq: Seq<u64>, k: int)
    requires
        pm0.wf(),
        releasable(pm0, seq),
        0 <= k < seq.len(),
        pm.recycled@ == pm0.recycled@ + seq.subrange(0, k),
        pm.start == pm0.start,
        pm.current == pm0.current,
    ensures
        pm.is_allocated(seq[k]),
{
    let p = seq[k];
    assert(pm0.is_allocated(p));
    if pm.recycled@.contains(p) {
        let z = choose|z: int| 0 <= z < pm.recycled@.len() && pm.recycled@[z] == p;
        if z < pm0.recycled@.len() {
            assert(pm0.recycled@.contains(p));
        } else {
            assert(seq[z - pm0.recycled@.len()] == p);
        }
    }
}

/// Releases the frames of `frames`, in order.
pub fn release_all(pm: &mut PhysMemory, frames: &Vec<u64>)
    requires
        old(pm).wf(),
        releasable(*old(pm), frames@),
    ensures
        released(*old(pm), *final(pm), frames@),
{
    let mut k: usize = 0;
    while k < frames.len()
        invariant
            pm.wf(),
            old(pm).wf(),
            releasable(*old(pm), frames@),
            k <= frames@.len(),
            pm.recycled@ == old(pm).recycled@ + frames@.subrange(0, k as int),
            pm.start == old(pm).start,
            pm.current == old(pm).current,
            pm.end == old(pm).end,
            pm.frames@ == old(pm).frames@,
        decreases frames@.len() - k,
    {
        proof {
            lemma_release_next(*old(pm), *pm, frames@, k as int);
        }
        pm.frame_dealloc(frames[k]);
        proof {
            assert(pm.recycled@ =~= old(pm).recycled@ + frames@.subrange(0, k + 1));
        }
        k = k + 1;
    }
    assert(frames@.subrange(0, frames@.len() as int) =~= frames@);
}

impl MemorySet {
    /// Releases the frames that the areas keep and drops the areas; the page
    /// table stays as it is.
    pub fn recycle_data_pages(&mut self, pm: &mut PhysMemory)
        requires
            old(self).wf(),
            old(pm).wf(),
            releasable(*old(pm), area_frames(old(self).areas@, old(self).areas@.len() as int)),
        ensures
            final(self).wf(),
            final(self).page_table == old(self).page_table,
            final(self).areas@ == Seq::<MapArea>::empty(),
            released(*old(pm), *final(pm), area_frames(old(self).areas@, old(self).areas@.len() as int)),
    {
        let ghost all = area_frames(old(self).areas@, old(self).areas@.len() as int);
        let ghost areas0 = old(self).areas@;
        let mut i: usize = 0;
        proof {
            assert(pm.recycled@ =~= old(pm).recycled@ + area_frames(areas0, 0));
        }
        while i < self.areas.len()
            invariant
                self.wf(),
                *self == *old(self),
                areas0 == self.areas@,
                pm.wf(),
                old(pm).wf(),
                all == area_frames(areas0, areas0.len() as int),
                releasable(*old(pm), all),
                i <= areas0.len(),
                pm.recycled@ == old(pm).recycled@ + area_frames(areas0, i as int),
                pm.start == old(pm).start,
                pm.current == old(pm).current,
                pm.end == old(pm).end,
                pm.frames@ == old(pm).frames@,
            decreases areas0.len() - i,
        {
            let s = self.areas[i].start_vpn;
            let e = self.areas[i].end_vpn;
            let ghost a = areas0[i as int];
            let mut v = s;
            proof {
                lemma_area_frames_prefix(areas0, i + 1, areas0.len() as int);
                assert(frames_in(a, s as int, s as int) =~= Seq::<u64>::empty());
                assert(pm.recycled@ =~= old(pm).recycled@ + (area_frames(areas0, i as int) + frames_in(a, s as int, s as int)));
            }
            while v < e
                invariant
                    self.wf(),
                    *self == *old(self),
                    areas0 == self.areas@,
                    a == areas0[i as int],
                    i < areas0.len(),
                    s == a.start_vpn,
                    e == a.end_vpn,
                    s <= v,
                    s <= e ==> v <= e,
                    e < s ==> v == s,
                    pm.wf(),
                    old(pm).wf(),
                    all == area_frames(areas0, areas0.len() as int),
                    releasable(*old(pm), all),
                    area_frames(areas0, i + 1).len() <= all.len(),
                    all.subrange(0, area_frames(areas0, i + 1).len() as int) == area_frames(areas0, i + 1),
                    pm.recycled@ == old(pm).recycled@ + (area_frames(areas0, i as int) + frames_in(a, s as int, v as int)),
                    pm.start == old(pm).start,
                    pm.current == old(pm).current,
                    pm.end == old(pm).end,
                    pm.frames@ == old(pm).frames@,
                decreases e - v,
            {
                let f = self.areas[i].data_frames.get(&v);
                match f {
                    Some(p) => {
                        let p = *p;
                        proof {
                            lemma_frames_in_prefix(a, s as int, v + 1, e as int);
                            let pre = area_frames(areas0, i as int) + frames_in(a, s as int, v as int);
                            let pre1 = area_frames(areas0, i as int) + frames_in(a, s as int, v + 1);
                            assert(frames_in(a, s as int, v + 1) == frames_in(a, s as int, v as int) + seq![p]);
                            assert(pre1 =~= pre + seq![p]);
                            assert(area_frames(areas0, i + 1) == area_frames(areas0, i as int) + frames_in(a, s as int, e as int));
                            assert(area_frames(areas0, i + 1).subrange(0, pre1.len() as int) =~= pre1);
                            assert(all.subrange(0, pre1.len() as int) =~= pre1);
                            assert(all.subrange(0, pre.len() as int) =~= pre);
                            assert(pre1[pre.len() as int] == p);
                            assert(pre1.len() <= all.len());
                            assert(all.subrange(0, pre1.len() as int)[pre.len() as int] == all[pre.len() as int]);
                            assert(all[pre.len() as int] == p);
                            lemma_release_next(*old(pm), *pm, all, pre.len() as int);
                        }
                        pm.frame_dealloc(p);
                        proof {
                            assert(pm.recycled@ =~= old(pm).recycled@ + (area_frames(areas0, i as int) + frames_in(a, s as int, v + 1)));
                        }
                    },
                    None => {
                        proof {
                            assert(frames_in(a, s as int, v + 1) =~= frames_in(a, s as int, v as int));
                        }
                    },
                }
                v = v + 1;
            }
            proof {
                if e < s {
                    assert(frames_in(a, s as int, e as int) =~= Seq::<u64>::empty());
                }
                assert(area_frames(areas0, i + 1) == area_frames(areas0, i as int) + frames_in(a, s as int, e as int));
            }
            i = i + 1;
        }
        self.areas = Vec::new();
    }

    /// Releases every frame the address space owns: the table frames, root
    /// first, then the frames of the areas.
    pub fn release(self, pm: &mut PhysMemory)
        requires
            self.wf(),
            old(pm).wf(),
            releasable(*old(pm), self.owned_frames()),
        ensures
            released(*old(pm), *final(pm), self.owned_frames()),
    {
        let ghost own = self.owned_frames();
        let mut ms = self;
        let ghost pm0 = *pm;
        proof {
            assert(own.subrange(0, ms.page_table.frames@.len() as int) =~= ms.page_table.frames@);
            assert(releasable(pm0, ms.page_table.frames@)) by {
                assert forall|x: int| 0 <= x < ms.page_table.frames@.len() implies pm0.is_allocated(#[trigger] ms.page_table.frames@[x]) by {
                    assert(own[x] == ms.page_table.frames@[x]);
                }
                assert forall|x: int, y: int| 0 <= x < y < ms.page_table.frames@.len() implies ms.page_table.frames@[x] != ms.page_table.frames@[y] by {
                    assert(own[x] == ms.page_table.frames@[x]);
                    assert(own[y] == ms.page_table.frames@[y]);
                }
            }
        }
        release_all(pm, &ms.page_table.frames);
        let ghost pm1 = *pm;
        let ghost rest = area_frames(ms.areas@, ms.areas@.len() as int);
        proof {
            assert(own == ms.page_table.frames@ + rest);
            assert forall|x: int| 0 <= x < rest.len() implies pm1.is_allocated(#[trigger] rest[x]) by {
                let y = ms.page_table.frames@.len() + x;
                assert(own[y] == rest[x]);
                assert(pm0.is_allocated(rest[x]));
                if pm1.recycled@.contains(rest[x]) {
                    let z = choose|z: int| 0 <= z < pm1.recycled@.len() && pm1.recycled@[z] == rest[x];
                    if z < pm0.recycled@.len() {
                        assert(pm0.recycled@.contains(rest[x]));
                    } else {
                        let w = z - pm0.recycled@.len();
                        assert(own[w] == ms.page_table.frames@[w]);
                    }
                }
            }
            assert forall|x: int, y: int| 0 <= x < y < rest.len() implies rest[x] != rest[y] by {
                assert(own[ms.page_table.frames@.len() + x] == rest[x]);
                assert(own[ms.page_table.frames@.len() + y] == rest[y]);
            }
        }
        ms.recycle_data_pages(pm);
        proof {
            assert(pm.recycled@ =~= pm0.recycled@ + own);
        }
    }

    /// Every frame the address space owns, in the order dropping it releases
    /// them: the table frames, root first, then the frames of the areas.
    pub open spec fn owned_frames(&self) -> Seq<u64> {
        self.page_table.frames@ + area_frames(self.areas@, self.areas@.len() as int)
    }
}

proof fn lemma_frames_in_prefix(a: MapArea, s: int, v: int, e: int)
    requires
        s <= v <= e,
    ensures
        frames_in(a, s, v).len() <= frames_in(a, s, e).len(),
        frames_in(a, s, e).subrange(0, frames_in(a, s, v).len() as int) == frames_in(a, s, v),
    decreases e - v,
{
    if v < e {
        lemma_frames_in_prefix(a, s, v, e - 1);
        assert(frames_in(a, s, e).subrange(0, frames_in(a, s, v).len() as int) =~= frames_in(a, s, e - 1).subrange(
            0,
            frames_in(a, s, v).len() as int,
        ));
    } else {
        assert(frames_in(a, s, e).subrange(0, frames_in(a, s, v).len() as int) =~= frames_in(a, s, v));
    }
}

proof fn lemma_area_frames_prefix(areas: Seq<MapArea>, i: int, n: int)
    requires
        0 <= i <= n,
    ensures
        area_frames(areas, i).len() <= area_frames(areas, n).len(),
        area_frames(areas, n).subrange(0, area_frames(areas, i).len() as int) == area_frames(areas, i),
    decreases n - i,
{
    if i < n {
        lemma_area_frames_prefix(areas, i, n - 1);
        assert(area_frames(areas, n).subrange(0, area_frames(areas, i).len() as int) =~= area_frames(areas, n - 1).subrange(
            0,
            area_frames(areas, i).len() as int,
        ));
    } else {
        assert(area_frames(areas, n).subrange(0, area_frames(areas, i).len() as int) =~= area_frames(areas, i));
    }
}

/// First page of the user stack of a freshly loaded program.
pub const USER_STACK_VPN: u64 = 1;
/// One past the last page of that user stack, where the program break starts.
pub const USER_STACK_TOP_VPN: u64 = 3;
/// Page of the trap context.
pub const TRAP_CONTEXT_VPN: u64 = 0x7ff_fffe;
/// Permission of the user stack and the heap: R, W and U.
pub const PERM_RWU: u8 = 22;
/// Permission of the trap context: R and W.
pub const PERM_RW: u8 = 6;

/// Whether `ms`, with memory `pm1` made from `pm0`, is the address space of a
/// freshly loaded program: a two-page user stack above a guard page, an
/// empty heap area right above it, and the trap-context page, each page on
/// a fresh zeroed frame.
pub open spec fn user_space_post(pm0: PhysMemory, ms: MemorySet, pm1: PhysMemory) -> bool {
    &&& ms.wf()
    &&& pm1.wf()
    &&& ms.areas@.len() == 3
    &&& ms.areas@[0].start_vpn == USER_STACK_VPN && ms.areas@[0].end_vpn == USER_STACK_TOP_VPN && ms.areas@[0].map_perm == PERM_RWU
    &&& ms.areas@[1].start_vpn == USER_STACK_TOP_VPN && ms.areas@[1].end_vpn == USER_STACK_TOP_VPN && ms.areas@[1].map_perm == PERM_RWU
    &&& ms.areas@[2].start_vpn == TRAP_CONTEXT_VPN && ms.areas@[2].end_vpn == TRAP_CONTEXT_VPN + 1 && ms.areas@[2].map_perm == PERM_RW
    &&& forall|j: int| 0 <= j < 3 ==> (#[trigger] ms.areas@[j]).data_frames@.dom() == Set::new(|v: u64| ms.areas@[j].contains(v))
    &&& forall|v: u64| #[trigger] ms.page_table.entries@.contains_key(v) ==> exists|j: int| 0 <= j < 3 && #[trigger] ms.areas@[j].contains(v)
    &&& forall|j: int, v: u64| 0 <= j < 3 && #[trigger] ms.areas@[j].contains(v) ==> {
        let f = ms.areas@[j].data_frames@[v];
        &&& ms.page_table.entry(v) == PageTableEntry { ppn: f, flags: ms.areas@[j].map_perm | PTE_V }
        &&& !pm0.is_allocated(f)
        &&& pm1.is_allocated(f)
        &&& pm1.frames@.contains_key(f)
        &&& pm1.page(f) == zero_page()
    }
    &&& !pm0.is_allocated(ms.page_table.root_ppn)
    &&& pm1.start == pm0.start
    &&& pm1.end == pm0.end
    &&& forall|q: u64| #[trigger] pm0.is_allocated(q) ==> pm1.is_allocated(q) && pm1.page(q) == pm0.page(q)
    &&& forall|q: u64| #[trigger] pm0.frames@.contains_key(q) ==> pm1.frames@.contains_key(q)
}

impl MemorySet {
    /// Builds the address space of a freshly loaded program; the layout
    /// starts right above page 0, where the program's own segments would end
    /// (they are not mapped here). Returns it with the program break.
    pub fn new_user_space(pm: &mut PhysMemory) -> (r: (MemorySet, u64))
        requires
            old(pm).wf(),
            old(pm).free_count() >= 8,
        ensures
            user_space_post(*old(pm), r.0, *final(pm)),
            fresh_space(r.0, *old(pm), *final(pm)),
            r.1 == USER_STACK_TOP_VPN * 4096,
    {
        proof {
            lemma_empty_invalid();
        }
        let ghost pm0 = *old(pm);
        let mut ms = MemorySet::new_bare_alloc(pm);
        let ghost pm1 = *pm;
        let ghost ms1 = ms;
        assert(ms.page_table.entries@ =~= Map::<u64, PageTableEntry>::empty());
        proof {
            lemma_fresh_tables(ms.page_table);
        }
        ms.push_framed(pm, USER_STACK_VPN, USER_STACK_TOP_VPN, PERM_RWU);
        let ghost pm2 = *pm;
        let ghost ms2 = ms;
        ms.push_framed(pm, USER_STACK_TOP_VPN, USER_STACK_TOP_VPN, PERM_RWU);
        proof {
            lemma_fresh_tables(ms1.page_table);
        }
        let ghost pm3 = *pm;
        let ghost ms3 = ms;
        assert forall|v: u64| TRAP_CONTEXT_VPN <= v < TRAP_CONTEXT_VPN + 1 implies !(#[trigger] ms.page_table.entry(v)).valid() by {
            assert(!ms.page_table.entries@.contains_key(v));
        }
        ms.push_framed(pm, TRAP_CONTEXT_VPN, TRAP_CONTEXT_VPN + 1, PERM_RW);
        proof {
            lemma_fresh_step(ms1, pm0, pm1, ms2, pm2);
            lemma_fresh_step(ms2, pm0, pm2, ms3, pm3);
            lemma_fresh_step(ms3, pm0, pm3, ms, *pm);
            let a0 = ms2.areas@.last();
            let a1 = ms3.areas@.last();
            let a2 = ms.areas@.last();
            assert(ms.areas@ =~= seq![a0, a1, a2]);
            assert(a0.data_frames@.dom() =~= Set::new(|v: u64| a0.contains(v)));
            assert(a1.data_frames@.dom() =~= Set::new(|v: u64| a1.contains(v)));
            assert(a2.data_frames@.dom() =~= Set::new(|v: u64| a2.contains(v)));
            assert forall|v: u64| #[trigger] ms.page_table.entries@.contains_key(v) implies exists|j: int| 0 <= j < 3 && #[trigger] ms.areas@[j].contains(v) by {
                if a2.contains(v) {
                    assert(ms.areas@[2].contains(v));
                } else {
                    assert(ms.areas@[0].contains(v));
                }
            }
            assert forall|j: int, v: u64| 0 <= j < 3 && #[trigger] ms.areas@[j].contains(v) implies {
                let f = ms.areas@[j].data_frames@[v];
                &&& ms.page_table.entry(v) == PageTableEntry { ppn: f, flags: ms.areas@[j].map_perm | PTE_V }
                &&& !pm0.is_allocated(f)
                &&& pm.is_allocated(f)
                &&& pm.frames@.contains_key(f)
                &&& pm.page(f) == zero_page()
            } by {
                if j == 0 {
                    let f = a0.data_frames@[v];
                    assert(pm2.is_allocated(f));
                    assert(pm3.is_allocated(f));
                    assert(!pm1.is_allocated(f));
                } else if j == 2 {
                    assert(ms.areas@[2] == a2);
                }
            }
        }
        (ms, USER_STACK_TOP_VPN * 4096)
    }
}

/// Whether area `j` is the first of `areas` that starts at page `vpn`.
pub open spec fn is_first_area_at(areas: Seq<MapArea>, vpn: u64, j: int) -> bool {
    &&& 0 <= j < areas.len()
    &&& areas[j].start_vpn == vpn
    &&& forall|i: int| 0 <= i < j ==> (#[trigger] areas[i]).start_vpn != vpn
}

/// Whether some area starts at page `vpn`.
pub open spec fn has_area_at(areas: Seq<MapArea>, vpn: u64) -> bool {
    exists|j: int| 0 <= j < areas.len() && (#[trigger] areas[j]).start_vpn == vpn
}

/// The first area that starts at page `vpn`.
pub open spec fn area_at(areas: Seq<MapArea>, vpn: u64) -> int {
    choose|j: int| is_first_area_at(areas, vpn, j)
}

pub proof fn lemma_area_at(areas: Seq<MapArea>, vpn: u64, j: int)
    requires
        is_first_area_at(areas, vpn, j),
    ensures
        has_area_at(areas, vpn),
        area_at(areas, vpn) == j,
{
    let i = area_at(areas, vpn);
    assert(is_first_area_at(areas, vpn, i));
    if i < j {
        assert(areas[i].start_vpn != vpn);
    }
    if j < i {
        assert(areas[j].start_vpn != vpn);
    }
}

/// Whether `a` is area `o` with its range ending at `end` and frames `df`.
pub open spec fn area_resized(a: MapArea, o: MapArea, end: u64, df: Map<u64, u64>) -> bool {
    &&& a.start_vpn == o.start_vpn
    &&& a.end_vpn == end
    &&& a.map_perm == o.map_perm
    &&& a.data_frames@ == df
}

/// `entries` with every page of `[s, e)` set to the empty entry.
pub open spec fn cleared_range(entries: Map<u64, PageTableEntry>, s: u64, e: u64) -> Map<u64, PageTableEntry> {
    Map::new(
        |v: u64| entries.contains_key(v) || (s <= v < e),
        |v: u64| if s <= v < e { crate::page_table::empty_pte() } else { entries[v] },
    )
}

/// What `area_shrink` does, giving `ms1` and `pm1` from `ms0` and `pm0`.
pub open spec fn shrink_post(ms0: MemorySet, pm0: PhysMemory, ms1: MemorySet, pm1: PhysMemory, j: int, new_end: u64) -> bool {
    &&& ms1.wf()
    &&& ({
        let o = ms0.areas@[j as int];
        &&& ms1.areas@ == ms0.areas@.update(j as int, ms1.areas@[j as int])
        &&& area_resized(ms1.areas@[j as int], o, new_end, o.data_frames@.remove_keys(Set::new(|v: u64| new_end <= v < o.end_vpn)))
        &&& ms1.page_table.entries@ == cleared_range(ms0.page_table.entries@, new_end, o.end_vpn)
        &&& ms1.page_table.dirs@ == ms0.page_table.dirs@
        &&& ms1.page_table.leaves@ == ms0.page_table.leaves@
        &&& ms1.page_table.root_ppn == ms0.page_table.root_ppn
        &&& ms1.page_table.frames@ == ms0.page_table.frames@
        &&& released(pm0, pm1, frames_in(o, new_end as int, o.end_vpn as int))
    })
}

/// What `area_append` does, giving `ms1` and `pm1` from `ms0` and `pm0`.
pub open spec fn append_post(ms0: MemorySet, pm0: PhysMemory, ms1: MemorySet, pm1: PhysMemory, j: int, new_end: u64) -> bool {
    &&& ms1.wf()
    &&& pm1.wf()
    &&& ({
        let o = ms0.areas@[j as int];
        let a = ms1.areas@[j as int];
        &&& ms1.areas@ == ms0.areas@.update(j as int, a)
        &&& a.start_vpn == o.start_vpn
        &&& a.end_vpn == new_end
        &&& a.map_perm == o.map_perm
        &&& a.data_frames@.dom() == o.data_frames@.dom().union(Set::new(|v: u64| o.end_vpn <= v < new_end))
        &&& forall|v: u64| #[trigger] o.data_frames@.contains_key(v) ==> a.data_frames@[v] == o.data_frames@[v]
        &&& ms1.page_table.entries@ == map_range(ms0.page_table.entries@, o.end_vpn, new_end, a.data_frames@, o.map_perm | PTE_V)
        &&& forall|v: u64|
            #![trigger a.data_frames@[v]]
            o.end_vpn <= v < new_end ==> {
                &&& !pm0.is_allocated(a.data_frames@[v])
                &&& pm1.is_allocated(a.data_frames@[v])
                &&& pm1.frames@.contains_key(a.data_frames@[v])
                &&& pm1.page(a.data_frames@[v]) == zero_page()
            }
        &&& forall|q: u64| #[trigger] pm0.is_allocated(q) ==> pm1.is_allocated(q) && pm1.page(q) == pm0.page(q)
        &&& pm1.start == pm0.start
        &&& pm1.end == pm0.end
    })
}

impl MemorySet {
    /// The first area that starts at page `vpn`, if any.
    pub fn find_area(&self, vpn: u64) -> (r: Option<usize>)
        ensures
            match r {
                Some(j) => is_first_area_at(self.areas@, vpn, j as int),
                None => !has_area_at(self.areas@, vpn),
            },
    {
        let mut i: usize = 0;
        while i < self.areas.len()
            invariant
                i <= self.areas@.len(),
                forall|x: int| 0 <= x < i ==> (#[trigger] self.areas@[x]).start_vpn != vpn,
            decreases self.areas@.len() - i,
        {
            if self.areas[i].start_vpn == vpn {
                return Some(i);
            }
            i = i + 1;
        }
        None
    }

    /// Shrinks area `j` to end at page `new_end`: each page from `new_end` to
    /// the old end is dropped from the area, its frame released and its
    /// entry cleared.
    pub fn area_shrink(&mut self, pm: &mut PhysMemory, j: usize, new_end: u64)
        requires
            old(self).wf(),
            old(pm).wf(),
            j < old(self).areas@.len(),
            new_end <= VPN_LIMIT,
            old(self).areas@[j as int].start_vpn <= new_end,
            forall|v: u64| new_end <= v < old(self).areas@[j as int].end_vpn ==> #[trigger] old(self).page_table.is_mapped(v),
            releasable(*old(pm), frames_in(old(self).areas@[j as int], new_end as int, old(self).areas@[j as int].end_vpn as int)),
        ensures
            shrink_post(*old(self), *old(pm), *final(self), *final(pm), j as int, new_end),
            old(self).frames_held(*old(pm)) ==> frames_step(*old(self), *old(pm), *final(self), *final(pm)),
{
        let ghost o = old(self).areas@[j as int];
        let ghost all = frames_in(o, new_end as int, o.end_vpn as int);
        let mut area = self.areas.remove(j);
        let end = area.end_vpn;
        let mut v = new_end;
        proof {
            lemma_empty_invalid();
            assert(frames_in(o, new_end as int, new_end as int) =~= Seq::<u64>::empty());
            assert(pm.recycled@ =~= old(pm).recycled@ + frames_in(o, new_end as int, new_end as int));
            assert(area.data_frames@ =~= o.data_frames@.remove_keys(Set::new(|w: u64| new_end <= w < new_end)));
            assert(self.page_table.entries@ =~= cleared_range(old(self).page_table.entries@, new_end, new_end));
        }
        while v < end
            invariant
                self.page_table.wf(),
                pm.wf(),
                old(pm).wf(),
                end == o.end_vpn,
                end <= VPN_LIMIT,
                new_end <= v,
                v <= end || v == new_end,
                o == old(self).areas@[j as int],
                self.areas@ == old(self).areas@.remove(j as int),
                area.start_vpn == o.start_vpn,
                area.end_vpn == o.end_vpn,
                area.map_perm == o.map_perm,
                area.data_frames@ == o.data_frames@.remove_keys(Set::new(|w: u64| new_end <= w < v)),
                self.page_table.entries@ == cleared_range(old(self).page_table.entries@, new_end, v),
                self.page_table.dirs@ == old(self).page_table.dirs@,
                self.page_table.leaves@ == old(self).page_table.leaves@,
                self.page_table.root_ppn == old(self).page_table.root_ppn,
                self.page_table.frames@ == old(self).page_table.frames@,
                forall|w: u64| new_end <= w < end ==> #[trigger] old(self).page_table.is_mapped(w),
                all == frames_in(o, new_end as int, end as int),
                releasable(*old(pm), all),
                pm.recycled@ == old(pm).recycled@ + frames_in(o, new_end as int, v as int),
                pm.start == old(pm).start,
                pm.current == old(pm).current,
                pm.end == old(pm).end,
                pm.frames@ == old(pm).frames@,
            decreases end - v,
        {
            let f = area.data_frames.remove(&v);
            match f {
                Some(p) => {
                    proof {
                        lemma_frames_in_prefix(o, new_end as int, v + 1, end as int);
                        lemma_frames_in_prefix(o, new_end as int, v as int, end as int);
                        let pre = frames_in(o, new_end as int, v as int);
                        assert(all.subrange(0, pre.len() as int) == pre);
                        assert(o.data_frames@.contains_key(v));
                        assert(frames_in(o, new_end as int, v + 1) == pre + seq![p]);
                        assert(all.subrange(0, pre.len() + 1 as int)[pre.len() as int] == p);
                        lemma_release_next(*old(pm), *pm, all, pre.len() as int);
                    }
                    pm.frame_dealloc(p);
                },
                None => {
                    proof {
                        assert(!o.data_frames@.contains_key(v));
                    }
                },
            }
            proof {
                assert(old(self).page_table.is_mapped(v));
                assert(self.page_table.has_leaf(v));
            }
            let pte = self.page_table.find_pte(v).unwrap();
            assert(pte.valid());
            self.page_table.set_entry(v, PageTableEntry::empty());
            proof {
                assert(pm.recycled@ =~= old(pm).recycled@ + frames_in(o, new_end as int, v + 1));
                assert(area.data_frames@ =~= o.data_frames@.remove_keys(Set::new(|w: u64| new_end <= w < v + 1)));
                assert(self.page_table.entries@ =~= cleared_range(old(self).page_table.entries@, new_end, (v + 1) as u64));
            }
            v = v + 1;
        }
        proof {
            if end < new_end {
                assert(frames_in(o, new_end as int, end as int) =~= Seq::<u64>::empty());
                assert(cleared_range(old(self).page_table.entries@, new_end, end) =~= cleared_range(old(self).page_table.entries@, new_end, new_end));
                assert(Set::new(|w: u64| new_end <= w < end) =~= Set::new(|w: u64| new_end <= w < new_end));
            }
        }
        area.end_vpn = new_end;
        self.areas.insert(j, area);
        proof {
            assert(self.areas@ =~= old(self).areas@.update(j as int, area));
            assert(old(self).wf());
            assert(o.start_vpn <= VPN_LIMIT && o.end_vpn <= VPN_LIMIT);
            assert(area.start_vpn == o.start_vpn && area.end_vpn == new_end);
            assert forall|w: u64| #[trigger] area.data_frames@.contains_key(w) implies o.data_frames@.contains_key(w)
                && w < new_end by {
                assert(o.data_frames@.contains_key(w));
                assert(o.contains(w));
                assert(!(new_end <= w < o.end_vpn));
            }
            lemma_shrunk_areas(old(self).areas@, j as int, area, new_end);
            if old(self).frames_held(*old(pm)) {
                let m0 = *old(self);
                let m1 = *self;
                assert forall|i: int, w: u64| #[trigger] m1.backs(i, w) implies m0.backs(i, w) && m1.data_frame(i, w) == m0.data_frame(i, w) by {
                    if i != j {
                        assert(m1.areas@[i] == m0.areas@[i]);
                    } else {
                        assert(m1.areas@[i] == area);
                    }
                }
                crate::ownership::lemma_frames_in(m0, j as int, new_end as int, o.end_vpn as int);
                assert forall|x: int| 0 <= x < all.len() implies #[trigger] dropped(m0, m1, all[x]) by {
                    assert(m0.backs_in(j as int, new_end as int, o.end_vpn as int, all[x]));
                    let w = choose|w: u64| new_end <= w < o.end_vpn && #[trigger] m0.backs(j as int, w) && m0.data_frame(j as int, w) == all[x];
                    assert(m1.areas@[j as int] == area);
                    assert(!m1.backs(j as int, w));
                }
                lemma_frames_dropped(m0, *old(pm), m1, *pm, all);
            }
        }
    }

    /// Extends area `j` to end at page `new_end`, mapping each new page, in
    /// order, to a fresh zeroed frame with the area's permission.
    pub fn area_append(&mut self, pm: &mut PhysMemory, j: usize, new_end: u64)
        requires
            old(self).wf(),
            old(pm).wf(),
            j < old(self).areas@.len(),
            new_end <= VPN_LIMIT,
            old(self).areas@[j as int].start_vpn <= old(self).areas@[j as int].end_vpn,
            old(self).areas@[j as int].end_vpn <= new_end,
            forall|v: u64| old(self).areas@[j as int].end_vpn <= v < new_end ==> !(#[trigger] old(self).page_table.entry(v)).valid(),
            old(pm).free_count() >= range_frames(old(self).page_table, old(self).areas@[j as int].end_vpn, new_end),
        ensures
            append_post(*old(self), *old(pm), *final(self), *final(pm), j as int, new_end),
            old(self).frames_held(*old(pm)) ==> frames_step(*old(self), *old(pm), *final(self), *final(pm)),
{
        let ghost o = old(self).areas@[j as int];
        let mut area = self.areas.remove(j);
        let ghost ms1 = *self;
        let old_end = area.end_vpn;
        let mut frames: HashMapWithView<u64, u64> = HashMapWithView::new();
        let perm = area.map_perm;
        proof {
            assert forall|v: u64| old_end <= v < new_end implies !(#[trigger] self.page_table.entry(v)).valid() by {
                assert(!old(self).page_table.entry(v).valid());
            }
        }
        self.push_framed(pm, old_end, new_end, perm);
        let ghost ms2 = *self;
        let mut na = self.areas.pop().unwrap();
        proof {
            assert(self.areas@ =~= ms1.areas@);
        }
        let mut v = old_end;
        let ghost fresh = na.data_frames@;
        while v < new_end
            invariant
                o == old(self).areas@[j as int],
                old_end == o.end_vpn,
                o.start_vpn <= old_end,
                old_end <= new_end,
                old_end <= v <= new_end,
                new_end <= VPN_LIMIT,
                area.start_vpn == o.start_vpn,
                area.end_vpn == o.end_vpn,
                area.map_perm == o.map_perm,
                forall|w: u64| #[trigger] o.data_frames@.contains_key(w) ==> o.start_vpn <= w < o.end_vpn,
                fresh.dom() == Set::new(|w: u64| old_end <= w < new_end),
                na.data_frames@ == fresh,
                area.data_frames@.dom() == o.data_frames@.dom().union(Set::new(|w: u64| old_end <= w < v)),
                forall|w: u64| #[trigger] o.data_frames@.contains_key(w) ==> area.data_frames@[w] == o.data_frames@[w],
                forall|w: u64| old_end <= w < v ==> #[trigger] area.data_frames@[w] == fresh[w],
            decreases new_end - v,
        {
            let p = *na.data_frames.get(&v).unwrap();
            area.data_frames.insert(v, p);
            proof {
                assert(area.data_frames@.dom() =~= o.data_frames@.dom().union(Set::new(|w: u64| old_end <= w < v + 1)));
                assert(!o.data_frames@.contains_key(v));
            }
            v = v + 1;
        }
        area.end_vpn = new_end;
        self.areas.insert(j, area);
        proof {
            if new_end < old_end {
                assert(Set::new(|w: u64| old_end <= w < v) =~= Set::new(|w: u64| old_end <= w < new_end));
            }
            assert(self.areas@ =~= old(self).areas@.update(j as int, area));
            assert(area.data_frames@.dom() =~= o.data_frames@.dom().union(Set::new(|w: u64| old_end <= w < new_end)));
            assert forall|w: u64| old_end <= w < new_end implies #[trigger] area.data_frames@[w] == fresh[w] by {}
            assert(self.page_table.entries@ =~= map_range(old(self).page_table.entries@, old_end, new_end, area.data_frames@, perm | PTE_V));
            if old(self).frames_held(*old(pm)) {
                assert(ms1.areas@ =~= old(self).areas@.remove(j as int));
                crate::ownership::lemma_area_removed(*old(self), *old(pm), ms1, j as int);
                assert(self.areas@[j as int] == area);
                assert(ms2.areas@.last() == na);
                lemma_area_extended(*old(self), *old(pm), ms1, ms2, *pm, *self, j as int);
            }
            assert forall|i: int| 0 <= i < self.areas@.len() implies {
                &&& #[trigger] self.areas@[i].start_vpn <= VPN_LIMIT && self.areas@[i].end_vpn <= VPN_LIMIT
                &&& forall|w: u64| #[trigger] self.areas@[i].data_frames@.contains_key(w) ==> self.areas@[i].contains(w)
            } by {
                if i == j {
                    assert(self.areas@[i] == area);
                    assert forall|w: u64| #[trigger] self.areas@[i].data_frames@.contains_key(w) implies self.areas@[i].contains(w) by {
                        if o.data_frames@.contains_key(w) {
                            assert(o.start_vpn <= w < o.end_vpn);
                        }
                    }
                } else {
                    assert(self.areas@[i] == old(self).areas@[i]);
                }
            }
        }
    }
}

} // verus!
