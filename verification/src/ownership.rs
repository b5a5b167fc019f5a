//! Which physical frames an address space owns (its table frames and the
//! frames that back its pages), that it never uses one twice, and how the
//! operations on address spaces change what they own.
use vstd::prelude::*;
use crate::frame::PhysMemory;
use crate::memory_set::{MemorySet, frames_in, area_frames, releasable, released};

verus! {

impl MemorySet {
    /// Whether page `v` of area `j` is backed by a frame.
    pub open spec fn backs(&self, j: int, v: u64) -> bool {
        0 <= j < self.areas@.len() && self.areas@[j].data_frames@.contains_key(v)
    }

    /// The frame that backs page `v` of area `j`.
    pub open spec fn data_frame(&self, j: int, v: u64) -> u64 {
        self.areas@[j].data_frames@[v]
    }

    /// Whether frame `f` backs some page of some area.
    pub open spec fn holds_data(&self, f: u64) -> bool {
        exists|j: int, v: u64| #[trigger] self.backs(j, v) && self.data_frame(j, v) == f
    }

    /// Whether frame `f` backs a page of area `j` in `[s, e)`.
    pub open spec fn backs_in(&self, j: int, s: int, e: int, f: u64) -> bool {
        exists|v: u64| s <= v < e && #[trigger] self.backs(j, v) && self.data_frame(j, v) == f
    }

    /// Whether frame `f` backs a page of one of the first `n` areas.
    pub open spec fn backs_below(&self, n: int, f: u64) -> bool {
        exists|j: int, v: u64| 0 <= j < n && #[trigger] self.backs(j, v) && self.data_frame(j, v) == f
    }

    /// Whether the address space owns frame `f`: one of its tables, or a
    /// frame that backs one of its pages.
    pub open spec fn owns(&self, f: u64) -> bool {
        self.page_table.frames@.contains(f) || self.holds_data(f)
    }

    /// Whether no frame serves the address space twice: the table frames
    /// are distinct, no two backed pages share a frame, and no page is
    /// backed by a table frame.
    pub open spec fn frames_distinct(&self) -> bool {
        &&& self.page_table.frames@.no_duplicates()
        &&& forall|j1: int, v1: u64, j2: int, v2: u64|
            #[trigger] self.backs(j1, v1) && #[trigger] self.backs(j2, v2) && (j1 != j2 || v1 != v2) ==> self.data_frame(j1, v1)
                != self.data_frame(j2, v2)
        &&& forall|j: int, v: u64| #[trigger] self.backs(j, v) ==> !self.page_table.frames@.contains(self.data_frame(j, v))
    }

    /// Whether the frames of the address space are distinct and all handed
    /// out in `pm`.
    pub open spec fn frames_held(&self, pm: PhysMemory) -> bool {
        &&& self.frames_distinct()
        &&& forall|f: u64| #[trigger] self.owns(f) ==> pm.is_allocated(f)
    }
}

/// Whether address space `ms1` with memory `pm1` comes from `ms0` with `pm0`
/// without touching anything it did not own: its frames are distinct and
/// handed out, each was owned before or was free, and every frame handed out
/// before that it did not own is still handed out.
pub open spec fn frames_step(ms0: MemorySet, pm0: PhysMemory, ms1: MemorySet, pm1: PhysMemory) -> bool {
    &&& ms1.frames_held(pm1)
    &&& forall|f: u64| #[trigger] ms1.owns(f) ==> ms0.owns(f) || !pm0.is_allocated(f)
    &&& forall|q: u64| #[trigger] pm0.is_allocated(q) ==> ms0.owns(q) || pm1.is_allocated(q)
}

/// Whether the new address space `ms`, made while memory went from `pm0` to
/// `pm1`, owns only frames that were free, distinct and now handed out, and
/// every frame handed out before still is.
pub open spec fn fresh_space(ms: MemorySet, pm0: PhysMemory, pm1: PhysMemory) -> bool {
    &&& ms.frames_held(pm1)
    &&& forall|f: u64| #[trigger] ms.owns(f) ==> !pm0.is_allocated(f)
    &&& forall|q: u64| #[trigger] pm0.is_allocated(q) ==> pm1.is_allocated(q)
}

/// Two steps make one.
pub proof fn lemma_step_trans(
    ms0: MemorySet,
    pm0: PhysMemory,
    ms1: MemorySet,
    pm1: PhysMemory,
    ms2: MemorySet,
    pm2: PhysMemory,
)
    requires
        frames_step(ms0, pm0, ms1, pm1),
        frames_step(ms1, pm1, ms2, pm2),
    ensures
        frames_step(ms0, pm0, ms2, pm2),
{
    assert forall|f: u64| #[trigger] ms2.owns(f) implies ms0.owns(f) || !pm0.is_allocated(f) by {
        if !ms1.owns(f) && pm0.is_allocated(f) {
            assert(ms0.owns(f) || pm1.is_allocated(f));
        }
    }
    assert forall|q: u64| #[trigger] pm0.is_allocated(q) implies ms0.owns(q) || pm2.is_allocated(q) by {
        if !ms0.owns(q) {
            assert(pm1.is_allocated(q));
            if ms1.owns(q) {
                assert(ms0.owns(q) || !pm0.is_allocated(q));
            }
        }
    }
}

/// A step from a fresh address space gives a fresh one.
pub proof fn lemma_fresh_step(ms0: MemorySet, pm0: PhysMemory, pm1: PhysMemory, ms1: MemorySet, pm2: PhysMemory)
    requires
        fresh_space(ms0, pm0, pm1),
        frames_step(ms0, pm1, ms1, pm2),
    ensures
        fresh_space(ms1, pm0, pm2),
{
    assert forall|f: u64| #[trigger] ms1.owns(f) implies !pm0.is_allocated(f) by {
        if pm0.is_allocated(f) {
            assert(pm1.is_allocated(f));
            assert(ms0.owns(f) || !pm1.is_allocated(f));
            assert(!pm0.is_allocated(f));
        }
    }
    assert forall|q: u64| #[trigger] pm0.is_allocated(q) implies pm2.is_allocated(q) by {
        assert(pm1.is_allocated(q));
        if ms0.owns(q) {
            assert(!pm0.is_allocated(q));
        }
    }
}

/// Every frame that `frames_in` lists for area `j` backs one of its pages
/// in the range; without shared frames, none is listed twice.
pub proof fn lemma_frames_in(ms: MemorySet, j: int, s: int, e: int)
    requires
        0 <= j < ms.areas@.len(),
        0 <= s,
        e <= u64::MAX,
    ensures
        forall|x: int| 0 <= x < frames_in(ms.areas@[j], s, e).len() ==> #[trigger] ms.backs_in(j, s, e, frames_in(ms.areas@[j], s, e)[x]),
        ms.frames_distinct() ==> frames_in(ms.areas@[j], s, e).no_duplicates(),
    decreases e - s,
{
    let a = ms.areas@[j];
    if e > s {
        lemma_frames_in(ms, j, s, e - 1);
        let prev = frames_in(a, s, e - 1);
        let fi = frames_in(a, s, e);
        let w = (e - 1) as u64;
        assert forall|x: int| 0 <= x < fi.len() implies #[trigger] ms.backs_in(j, s, e, fi[x]) by {
            if x < prev.len() {
                assert(fi[x] == prev[x]);
                assert(ms.backs_in(j, s, e - 1, prev[x]));
                let v = choose|v: u64| s <= v < e - 1 && #[trigger] ms.backs(j, v) && ms.data_frame(j, v) == prev[x];
                assert(s <= v < e && ms.backs(j, v) && ms.data_frame(j, v) == fi[x]);
            } else {
                assert(a.data_frames@.contains_key(w));
                assert(fi[x] == a.data_frames@[w]);
                assert(ms.backs(j, w));
            }
        }
        if ms.frames_distinct() {
            assert forall|x: int, y: int| 0 <= x < y < fi.len() implies fi[x] != fi[y] by {
                if y < prev.len() {
                    assert(fi[x] == prev[x]);
                    assert(fi[y] == prev[y]);
                } else {
                    assert(fi[x] == prev[x]);
                    assert(ms.backs_in(j, s, e - 1, prev[x]));
                    let v = choose|v: u64| s <= v < e - 1 && #[trigger] ms.backs(j, v) && ms.data_frame(j, v) == prev[x];
                    assert(fi[y] == a.data_frames@[w]);
                    assert(ms.backs(j, w));
                    assert(v != w);
                }
            }
        }
    } else {
        assert(frames_in(a, s, e).len() == 0);
    }
}

/// Every frame that `area_frames` lists for the first `n` areas backs one
/// of their pages; without shared frames, none is listed twice.
pub proof fn lemma_area_frames(ms: MemorySet, n: int)
    requires
        0 <= n <= ms.areas@.len(),
    ensures
        forall|x: int| 0 <= x < area_frames(ms.areas@, n).len() ==> #[trigger] ms.backs_below(n, area_frames(ms.areas@, n)[x]),
        ms.frames_distinct() ==> area_frames(ms.areas@, n).no_duplicates(),
    decreases n,
{
    if n > 0 {
        lemma_area_frames(ms, n - 1);
        let a = ms.areas@[n - 1];
        lemma_frames_in(ms, n - 1, a.start_vpn as int, a.end_vpn as int);
        let prev = area_frames(ms.areas@, n - 1);
        let fi = frames_in(a, a.start_vpn as int, a.end_vpn as int);
        let af = area_frames(ms.areas@, n);
        assert(af == prev + fi);
        assert forall|x: int| 0 <= x < af.len() implies #[trigger] ms.backs_below(n, af[x]) by {
            if x < prev.len() {
                assert(af[x] == prev[x]);
                assert(ms.backs_below(n - 1, prev[x]));
                let (j, v) = choose|j: int, v: u64| 0 <= j < n - 1 && #[trigger] ms.backs(j, v) && ms.data_frame(j, v) == prev[x];
                assert(ms.backs(j, v) && ms.data_frame(j, v) == af[x]);
            } else {
                assert(af[x] == fi[x - prev.len()]);
                assert(ms.backs_in(n - 1, a.start_vpn as int, a.end_vpn as int, fi[x - prev.len()]));
                let v = choose|v: u64| a.start_vpn <= v < a.end_vpn && #[trigger] ms.backs(n - 1, v) && ms.data_frame(n - 1, v) == fi[x - prev.len()];
                assert(ms.backs(n - 1, v));
            }
        }
        if ms.frames_distinct() {
            assert forall|x: int, y: int| 0 <= x < y < af.len() implies af[x] != af[y] by {
                if y < prev.len() {
                    assert(af[x] == prev[x]);
                    assert(af[y] == prev[y]);
                } else if x >= prev.len() {
                    assert(af[x] == fi[x - prev.len()]);
                    assert(af[y] == fi[y - prev.len()]);
                } else {
                    assert(af[x] == prev[x]);
                    assert(af[y] == fi[y - prev.len()]);
                    assert(ms.backs_below(n - 1, prev[x]));
                    assert(ms.backs_in(n - 1, a.start_vpn as int, a.end_vpn as int, fi[y - prev.len()]));
                    let (j1, v1) = choose|j: int, v: u64| 0 <= j < n - 1 && #[trigger] ms.backs(j, v) && ms.data_frame(j, v) == prev[x];
                    let v2 = choose|v: u64| a.start_vpn <= v < a.end_vpn && #[trigger] ms.backs(n - 1, v) && ms.data_frame(n - 1, v) == fi[y - prev.len()];
                    assert(ms.backs(j1, v1));
                    assert(ms.backs(n - 1, v2));
                }
            }
        }
    }
}

/// Every frame the address space lists as owned it owns; without shared
/// frames none is listed twice.
pub proof fn lemma_owned_frames(ms: MemorySet)
    ensures
        forall|x: int| 0 <= x < ms.owned_frames().len() ==> #[trigger] ms.owns(ms.owned_frames()[x]),
        forall|x: int| 0 <= x < area_frames(ms.areas@, ms.areas@.len() as int).len() ==> #[trigger] ms.holds_data(
            area_frames(ms.areas@, ms.areas@.len() as int)[x],
        ),
        ms.frames_distinct() ==> ms.owned_frames().no_duplicates(),
        ms.frames_distinct() ==> area_frames(ms.areas@, ms.areas@.len() as int).no_duplicates(),
{
    let n = ms.areas@.len() as int;
    lemma_area_frames(ms, n);
    let pt = ms.page_table.frames@;
    let af = area_frames(ms.areas@, n);
    let own = ms.owned_frames();
    assert(own == pt + af);
    assert forall|x: int| 0 <= x < af.len() implies #[trigger] ms.holds_data(af[x]) by {
        assert(ms.backs_below(n, af[x]));
        let (j, v) = choose|j: int, v: u64| 0 <= j < n && #[trigger] ms.backs(j, v) && ms.data_frame(j, v) == af[x];
        assert(ms.backs(j, v));
    }
    assert forall|x: int| 0 <= x < own.len() implies #[trigger] ms.owns(own[x]) by {
        if x < pt.len() {
            assert(own[x] == pt[x]);
            assert(pt.contains(own[x]));
        } else {
            assert(own[x] == af[x - pt.len()]);
            assert(ms.holds_data(af[x - pt.len()]));
        }
    }
    if ms.frames_distinct() {
        assert forall|x: int, y: int| 0 <= x < y < own.len() implies own[x] != own[y] by {
            if y < pt.len() {
                assert(own[x] == pt[x]);
                assert(own[y] == pt[y]);
            } else if x >= pt.len() {
                assert(own[x] == af[x - pt.len()]);
                assert(own[y] == af[y - pt.len()]);
            } else {
                assert(own[x] == pt[x]);
                assert(own[y] == af[y - pt.len()]);
                assert(ms.backs_below(n, af[y - pt.len()]));
                let (j, v) = choose|j: int, v: u64| 0 <= j < n && #[trigger] ms.backs(j, v) && ms.data_frame(j, v) == af[y - pt.len()];
                assert(ms.backs(j, v));
                assert(pt.contains(own[x]));
            }
        }
    }
}

impl MemorySet {
    /// An address space whose frames are distinct and handed out can
    /// release all of them.
    pub proof fn lemma_held_releasable(&self, pm: PhysMemory)
        requires
            self.frames_held(pm),
        ensures
            releasable(pm, self.owned_frames()),
            releasable(pm, area_frames(self.areas@, self.areas@.len() as int)),
    {
        lemma_owned_frames(*self);
        let af = area_frames(self.areas@, self.areas@.len() as int);
        assert forall|x: int| 0 <= x < af.len() implies pm.is_allocated(#[trigger] af[x]) by {
            assert(self.holds_data(af[x]));
            assert(self.owns(af[x]));
        }
        assert forall|x: int| 0 <= x < self.owned_frames().len() implies pm.is_allocated(#[trigger] self.owned_frames()[x]) by {
            assert(self.owns(self.owned_frames()[x]));
        }
    }

    /// Likewise for the frames of pages `[s, e)` of area `j`.
    pub proof fn lemma_held_releasable_range(&self, pm: PhysMemory, j: int, s: int, e: int)
        requires
            self.frames_held(pm),
            0 <= j < self.areas@.len(),
            0 <= s,
            e <= u64::MAX,
        ensures
            releasable(pm, frames_in(self.areas@[j], s, e)),
    {
        lemma_frames_in(*self, j, s, e);
        let fi = frames_in(self.areas@[j], s, e);
        assert forall|x: int| 0 <= x < fi.len() implies pm.is_allocated(#[trigger] fi[x]) by {
            assert(self.backs_in(j, s, e, fi[x]));
            let v = choose|v: u64| s <= v < e && #[trigger] self.backs(j, v) && self.data_frame(j, v) == fi[x];
            assert(self.holds_data(fi[x]));
            assert(self.owns(fi[x]));
        }
    }
}

/// Releasing the frames of `seq` keeps every other frame that was handed out
/// handed out, and frees those of `seq`.
pub proof fn lemma_released(pm0: PhysMemory, pm1: PhysMemory, seq: Seq<u64>)
    requires
        released(pm0, pm1, seq),
    ensures
        forall|q: u64| #[trigger] pm0.is_allocated(q) && !seq.contains(q) ==> pm1.is_allocated(q),
        forall|q: u64| #[trigger] pm1.is_allocated(q) ==> pm0.is_allocated(q) && !seq.contains(q),
{
    assert forall|q: u64| #[trigger] pm0.is_allocated(q) && !seq.contains(q) implies pm1.is_allocated(q) by {
        if pm1.recycled@.contains(q) {
            let z = choose|z: int| 0 <= z < pm1.recycled@.len() && pm1.recycled@[z] == q;
            if z < pm0.recycled@.len() {
                assert(pm0.recycled@[z] == q);
            } else {
                assert(seq[z - pm0.recycled@.len()] == q);
            }
        }
    }
    assert forall|q: u64| #[trigger] pm1.is_allocated(q) implies pm0.is_allocated(q) && !seq.contains(q) by {
        if pm0.recycled@.contains(q) {
            let z = choose|z: int| 0 <= z < pm0.recycled@.len() && pm0.recycled@[z] == q;
            assert(pm1.recycled@[z] == q);
        }
        if seq.contains(q) {
            let z = choose|z: int| 0 <= z < seq.len() && seq[z] == q;
            assert(pm1.recycled@[pm0.recycled@.len() + z] == q);
        }
    }
}

/// Doing nothing is a step.
pub proof fn lemma_step_refl(ms: MemorySet, pm: PhysMemory)
    requires
        ms.frames_held(pm),
    ensures
        frames_step(ms, pm, ms, pm),
{
}

/// A step stays one when more frames get handed out afterwards.
pub proof fn lemma_step_mono(ms0: MemorySet, pm0: PhysMemory, ms1: MemorySet, pm1: PhysMemory, pm2: PhysMemory)
    requires
        frames_step(ms0, pm0, ms1, pm1),
        forall|q: u64| #[trigger] pm1.is_allocated(q) ==> pm2.is_allocated(q),
    ensures
        frames_step(ms0, pm0, ms1, pm2),
{
    assert forall|q: u64| #[trigger] pm0.is_allocated(q) implies ms0.owns(q) || pm2.is_allocated(q) by {
        if !ms0.owns(q) {
            assert(pm1.is_allocated(q));
        }
    }
    assert forall|f: u64| #[trigger] ms1.owns(f) implies pm2.is_allocated(f) by {
        assert(pm1.is_allocated(f));
    }
}

/// Growing the page table by frames that were free gives a step.
pub proof fn lemma_tables_grown(ms0: MemorySet, pm0: PhysMemory, ms1: MemorySet, pm1: PhysMemory)
    requires
        ms0.frames_held(pm0),
        ms1.areas@ == ms0.areas@,
        ms1.page_table.frames@.len() >= ms0.page_table.frames@.len(),
        ms1.page_table.frames@.subrange(0, ms0.page_table.frames@.len() as int) == ms0.page_table.frames@,
        forall|x: int|
            ms0.page_table.frames@.len() <= x < ms1.page_table.frames@.len() ==> !pm0.is_allocated(
                #[trigger] ms1.page_table.frames@[x],
            ) && pm1.is_allocated(ms1.page_table.frames@[x]),
        forall|x: int, y: int|
            ms0.page_table.frames@.len() <= x < y < ms1.page_table.frames@.len() ==> #[trigger] ms1.page_table.frames@[x]
                != #[trigger] ms1.page_table.frames@[y],
        forall|q: u64| #[trigger] pm0.is_allocated(q) ==> pm1.is_allocated(q),
    ensures
        frames_step(ms0, pm0, ms1, pm1),
{
    let t0 = ms0.page_table.frames@;
    let t1 = ms1.page_table.frames@;
    let n0 = t0.len() as int;
    assert forall|x: int| 0 <= x < n0 implies #[trigger] t1[x] == t0[x] by {
        assert(t1.subrange(0, n0)[x] == t1[x]);
    }
    assert forall|f: u64| t1.contains(f) implies ms0.owns(f) || !pm0.is_allocated(f) by {
        let x = choose|x: int| 0 <= x < t1.len() && t1[x] == f;
        if x < n0 {
            assert(t0[x] == f);
            assert(t0.contains(f));
        }
    }
    assert forall|j: int, v: u64| #[trigger] ms1.backs(j, v) implies ms0.backs(j, v) && ms1.data_frame(j, v) == ms0.data_frame(j, v) by {}
    assert forall|f: u64| #[trigger] ms1.holds_data(f) == ms0.holds_data(f) by {
        if ms1.holds_data(f) {
            let (j, v) = choose|j: int, v: u64| #[trigger] ms1.backs(j, v) && ms1.data_frame(j, v) == f;
            assert(ms0.backs(j, v));
        }
        if ms0.holds_data(f) {
            let (j, v) = choose|j: int, v: u64| #[trigger] ms0.backs(j, v) && ms0.data_frame(j, v) == f;
            assert(ms1.backs(j, v));
        }
    }
    assert(t1.no_duplicates()) by {
        assert forall|x: int, y: int| 0 <= x < y < t1.len() implies t1[x] != t1[y] by {
            if y < n0 {
                assert(t1[x] == t0[x]);
                assert(t1[y] == t0[y]);
            } else if x < n0 {
                assert(t1[x] == t0[x]);
                assert(t0.contains(t0[x]));
                assert(ms0.owns(t0[x]));
            }
        }
    }
    assert forall|j: int, v: u64| #[trigger] ms1.backs(j, v) implies !t1.contains(ms1.data_frame(j, v)) by {
        let f = ms1.data_frame(j, v);
        assert(ms0.backs(j, v));
        assert(!t0.contains(f));
        assert(ms0.holds_data(f));
        if t1.contains(f) {
            let x = choose|x: int| 0 <= x < t1.len() && t1[x] == f;
            if x < n0 {
                assert(t0[x] == f);
            } else {
                assert(ms0.owns(f));
            }
        }
    }
    assert forall|f: u64| #[trigger] ms1.owns(f) implies pm1.is_allocated(f) by {
        if t1.contains(f) {
            let x = choose|x: int| 0 <= x < t1.len() && t1[x] == f;
            if x < n0 {
                assert(t0[x] == f);
                assert(t0.contains(f));
                assert(ms0.owns(f));
            }
        } else {
            assert(ms0.holds_data(f));
            assert(ms0.owns(f));
        }
    }
    assert forall|f: u64| #[trigger] ms1.owns(f) implies ms0.owns(f) || !pm0.is_allocated(f) by {
        if !t1.contains(f) {
            assert(ms0.holds_data(f));
        }
    }
}

/// Adding an area whose pages are backed by distinct frames that were free
/// before, are handed out now and were not owned yet gives a step.
pub proof fn lemma_area_added(ms0: MemorySet, pm0: PhysMemory, ms1: MemorySet, pm1: PhysMemory, ms2: MemorySet)
    requires
        frames_step(ms0, pm0, ms1, pm1),
        ms2.page_table == ms1.page_table,
        ms2.areas@ == ms1.areas@.push(ms2.areas@.last()),
        forall|v: u64|
            #[trigger] ms2.areas@.last().data_frames@.contains_key(v) ==> {
                let f = ms2.areas@.last().data_frames@[v];
                &&& !pm0.is_allocated(f)
                &&& pm1.is_allocated(f)
                &&& !ms1.owns(f)
            },
        forall|v1: u64, v2: u64|
            ms2.areas@.last().data_frames@.contains_key(v1) && ms2.areas@.last().data_frames@.contains_key(v2) && v1 != v2
                ==> #[trigger] ms2.areas@.last().data_frames@[v1] != #[trigger] ms2.areas@.last().data_frames@[v2],
    ensures
        frames_step(ms0, pm0, ms2, pm1),
{
    let n = ms1.areas@.len() as int;
    let a = ms2.areas@.last();
    assert forall|j: int, v: u64| 0 <= j < n implies #[trigger] ms2.backs(j, v) == ms1.backs(j, v) && ms2.data_frame(j, v) == ms1.data_frame(j, v) by {
        if 0 <= j {
            assert(ms2.areas@[j] == ms1.areas@[j]);
        }
    }
    assert(ms2.frames_distinct()) by {
        assert forall|j1: int, v1: u64, j2: int, v2: u64|
            #[trigger] ms2.backs(j1, v1) && #[trigger] ms2.backs(j2, v2) && (j1 != j2 || v1 != v2) implies ms2.data_frame(j1, v1)
                != ms2.data_frame(j2, v2) by {
            if j1 < n && j2 < n {
                assert(ms1.backs(j1, v1) && ms1.backs(j2, v2));
            } else if j1 < n {
                assert(ms1.backs(j1, v1));
                assert(ms1.holds_data(ms1.data_frame(j1, v1)));
                assert(ms2.areas@[j2] == a);
                assert(!ms1.owns(a.data_frames@[v2]));
            } else if j2 < n {
                assert(ms1.backs(j2, v2));
                assert(ms1.holds_data(ms1.data_frame(j2, v2)));
                assert(ms2.areas@[j1] == a);
                assert(!ms1.owns(a.data_frames@[v1]));
            } else {
                assert(ms2.areas@[j1] == a);
                assert(ms2.areas@[j2] == a);
            }
        }
        assert forall|j: int, v: u64| #[trigger] ms2.backs(j, v) implies !ms2.page_table.frames@.contains(ms2.data_frame(j, v)) by {
            if j < n {
                assert(ms1.backs(j, v));
            } else {
                assert(ms2.areas@[j] == a);
            }
        }
    }
    assert forall|f: u64| #[trigger] ms2.owns(f) implies pm1.is_allocated(f) && (ms0.owns(f) || !pm0.is_allocated(f)) by {
        if !ms2.page_table.frames@.contains(f) {
            let (j, v) = choose|j: int, v: u64| #[trigger] ms2.backs(j, v) && ms2.data_frame(j, v) == f;
            if j < n {
                assert(ms1.backs(j, v));
                assert(ms1.holds_data(f));
                assert(ms1.owns(f));
            } else {
                assert(ms2.areas@[j] == a);
            }
        } else {
            assert(ms1.owns(f));
        }
    }
}

/// The index, before area `j` was taken out, of the area now at index `i`.
pub open spec fn skip(i: int, j: int) -> int {
    if i < j { i } else { i + 1 }
}

/// The index that area `i` of `m0`, other than area `j`, has once area `j`
/// is taken out.
pub open spec fn unskip(i: int, j: int) -> int {
    if i < j { i } else { i - 1 }
}

/// Taking area `j` out keeps the frames distinct and handed out; what is
/// left owns what the area did not back.
pub proof fn lemma_area_removed(m0: MemorySet, pm: PhysMemory, ms1: MemorySet, j: int)
    requires
        m0.frames_held(pm),
        0 <= j < m0.areas@.len(),
        ms1.areas@ == m0.areas@.remove(j),
        ms1.page_table == m0.page_table,
    ensures
        ms1.frames_held(pm),
        forall|f: u64| #[trigger] ms1.owns(f) ==> m0.owns(f),
        forall|f: u64| #[trigger] m0.owns(f) ==> ms1.owns(f) || m0.backs_in(j, 0, u64::MAX + 1, f),
        forall|i: int, v: u64| 0 <= i < ms1.areas@.len() ==> #[trigger] ms1.backs(i, v) == m0.backs(skip(i, j), v)
            && ms1.data_frame(i, v) == m0.data_frame(skip(i, j), v),
{
    let n1 = ms1.areas@.len() as int;
    assert forall|i: int, v: u64| 0 <= i < n1 implies #[trigger] ms1.backs(i, v) == m0.backs(skip(i, j), v)
        && ms1.data_frame(i, v) == m0.data_frame(skip(i, j), v) by {
        assert(ms1.areas@[i] == m0.areas@[skip(i, j)]);
    }
    assert forall|f: u64| #[trigger] ms1.holds_data(f) implies m0.holds_data(f) by {
        let (i, v) = choose|i: int, v: u64| #[trigger] ms1.backs(i, v) && ms1.data_frame(i, v) == f;
        assert(m0.backs(skip(i, j), v));
    }
    assert forall|f: u64| #[trigger] m0.owns(f) implies ms1.owns(f) || m0.backs_in(j, 0, u64::MAX + 1, f) by {
        if !m0.page_table.frames@.contains(f) {
            let (i, v) = choose|i: int, v: u64| #[trigger] m0.backs(i, v) && m0.data_frame(i, v) == f;
            if i < j {
                assert(ms1.backs(i, v));
                assert(ms1.holds_data(f));
            } else if i > j {
                assert(skip(i - 1, j) == i);
                assert(ms1.backs(i - 1, v));
                assert(ms1.holds_data(f));
            } else {
                assert(m0.backs(j, v));
            }
        }
    }
    assert forall|f: u64| #[trigger] ms1.owns(f) implies m0.owns(f) by {
        if !ms1.page_table.frames@.contains(f) {
            assert(ms1.holds_data(f));
        }
    }
    assert forall|i1: int, v1: u64, i2: int, v2: u64|
        #[trigger] ms1.backs(i1, v1) && #[trigger] ms1.backs(i2, v2) && (i1 != i2 || v1 != v2) implies ms1.data_frame(i1, v1)
            != ms1.data_frame(i2, v2) by {
        assert(m0.backs(skip(i1, j), v1));
        assert(m0.backs(skip(i2, j), v2));
    }
    assert forall|i: int, v: u64| #[trigger] ms1.backs(i, v) implies !ms1.page_table.frames@.contains(ms1.data_frame(i, v)) by {
        assert(m0.backs(skip(i, j), v));
    }
}

/// Extending area `j` by the pages of an area that a step added after area
/// `j` was taken out gives a step from the address space before.
pub proof fn lemma_area_extended(
    m0: MemorySet,
    pm0: PhysMemory,
    ms1: MemorySet,
    ms2: MemorySet,
    pm2: PhysMemory,
    fin: MemorySet,
    j: int,
)
    requires
        m0.frames_held(pm0),
        0 <= j < m0.areas@.len(),
        ms1.areas@ == m0.areas@.remove(j),
        ms1.page_table == m0.page_table,
        frames_step(ms1, pm0, ms2, pm2),
        ms2.areas@ == ms1.areas@.push(ms2.areas@.last()),
        fin.page_table == ms2.page_table,
        fin.areas@ == m0.areas@.update(j, fin.areas@[j]),
        ({
            let o = m0.areas@[j];
            let na = ms2.areas@.last();
            let a = fin.areas@[j];
            &&& forall|v: u64| #[trigger] a.data_frames@.contains_key(v) <==> o.data_frames@.contains_key(v) || na.data_frames@.contains_key(v)
            &&& forall|v: u64| #[trigger] o.data_frames@.contains_key(v) ==> !na.data_frames@.contains_key(v) && a.data_frames@[v] == o.data_frames@[v]
            &&& forall|v: u64| #[trigger] na.data_frames@.contains_key(v) ==> a.data_frames@[v] == na.data_frames@[v]
        }),
    ensures
        frames_step(m0, pm0, fin, pm2),
{
    lemma_area_removed(m0, pm0, ms1, j);
    let o = m0.areas@[j];
    let na = ms2.areas@.last();
    let a = fin.areas@[j];
    let n = m0.areas@.len() as int;
    let n1 = ms1.areas@.len() as int;
    // Where a backed page of `fin` comes from.
    assert forall|i: int, v: u64| 0 <= i < n && i != j implies #[trigger] fin.backs(i, v) == ms2.backs(unskip(i, j), v)
        && fin.data_frame(i, v) == ms2.data_frame(unskip(i, j), v) by {
        let i1 = unskip(i, j);
        assert(ms2.areas@[i1] == ms1.areas@[i1]);
        assert(skip(i1, j) == i);
        assert(ms1.backs(i1, v) == m0.backs(i, v));
        assert(fin.areas@[i] == m0.areas@[i]);
    }
    // Frames of the old area `j` were owned before, by area `j` alone.
    assert forall|v: u64| #[trigger] o.data_frames@.contains_key(v) implies {
        let f = o.data_frames@[v];
        &&& m0.owns(f)
        &&& pm0.is_allocated(f)
        &&& !ms2.owns(f)
        &&& pm2.is_allocated(f)
    } by {
        let f = o.data_frames@[v];
        assert(m0.backs(j, v));
        assert(m0.holds_data(f));
        assert(m0.owns(f));
        assert(pm0.is_allocated(f));
        assert(!ms1.owns(f)) by {
            if ms1.page_table.frames@.contains(f) {
            } else if ms1.holds_data(f) {
                let (i, w) = choose|i: int, w: u64| #[trigger] ms1.backs(i, w) && ms1.data_frame(i, w) == f;
                assert(m0.backs(skip(i, j), w));
            }
        }
        if ms2.owns(f) {
            assert(ms1.owns(f) || !pm0.is_allocated(f));
        }
        assert(ms1.owns(f) || pm2.is_allocated(f));
        assert(pm2.is_allocated(f));
    }
    // Frames of the added pages were owned by the step's result.
    assert forall|v: u64| #[trigger] na.data_frames@.contains_key(v) implies ms2.owns(na.data_frames@[v])
        && ms2.backs(n1, v) && ms2.data_frame(n1, v) == na.data_frames@[v] by {
        assert(ms2.areas@[n1] == na);
        assert(ms2.backs(n1, v));
        assert(ms2.holds_data(na.data_frames@[v]));
    }
    assert(fin.frames_distinct()) by {
        assert forall|i1: int, v1: u64, i2: int, v2: u64|
            #[trigger] fin.backs(i1, v1) && #[trigger] fin.backs(i2, v2) && (i1 != i2 || v1 != v2) implies fin.data_frame(i1, v1)
                != fin.data_frame(i2, v2) by {
            let k1 = if i1 < j { i1 } else if i1 > j { i1 - 1 } else { n1 };
            let k2 = if i2 < j { i2 } else if i2 > j { i2 - 1 } else { n1 };
            let o1 = i1 == j && o.data_frames@.contains_key(v1);
            let o2 = i2 == j && o.data_frames@.contains_key(v2);
            if !o1 {
                if i1 != j {
                    assert(unskip(i1, j) == k1);
                    assert(fin.backs(i1, v1) == ms2.backs(k1, v1));
                } else {
                    assert(na.data_frames@.contains_key(v1));
                }
                assert(ms2.backs(k1, v1));
                assert(fin.data_frame(i1, v1) == ms2.data_frame(k1, v1));
            }
            if !o2 {
                if i2 != j {
                    assert(unskip(i2, j) == k2);
                    assert(fin.backs(i2, v2) == ms2.backs(k2, v2));
                } else {
                    assert(na.data_frames@.contains_key(v2));
                }
                assert(ms2.backs(k2, v2));
                assert(fin.data_frame(i2, v2) == ms2.data_frame(k2, v2));
            }
            if o1 && o2 {
                assert(m0.backs(j, v1) && m0.backs(j, v2));
            } else if o1 {
                assert(ms2.holds_data(ms2.data_frame(k2, v2)));
            } else if o2 {
                assert(ms2.holds_data(ms2.data_frame(k1, v1)));
            } else {
                assert(k1 != k2 || v1 != v2);
            }
        }
        assert forall|i: int, v: u64| #[trigger] fin.backs(i, v) implies !fin.page_table.frames@.contains(fin.data_frame(i, v)) by {
            if i == j && o.data_frames@.contains_key(v) {
                assert(!ms2.owns(o.data_frames@[v]));
            } else {
                let k = if i < j { i } else if i > j { i - 1 } else { n1 };
                if i != j {
                    assert(unskip(i, j) == k);
                    assert(fin.backs(i, v) == ms2.backs(k, v));
                }
                assert(ms2.backs(k, v));
            }
        }
    }
    assert forall|f: u64| #[trigger] fin.owns(f) implies pm2.is_allocated(f) && (m0.owns(f) || !pm0.is_allocated(f)) by {
        if fin.page_table.frames@.contains(f) {
            assert(ms2.owns(f));
        } else {
            let (i, v) = choose|i: int, v: u64| #[trigger] fin.backs(i, v) && fin.data_frame(i, v) == f;
            if i == j && o.data_frames@.contains_key(v) {
            } else {
                let k = if i < j { i } else if i > j { i - 1 } else { n1 };
                if i != j {
                    assert(unskip(i, j) == k);
                    assert(fin.backs(i, v) == ms2.backs(k, v));
                }
                assert(ms2.backs(k, v));
                assert(ms2.holds_data(f));
                assert(ms2.owns(f));
            }
        }
    }
    assert forall|q: u64| #[trigger] pm0.is_allocated(q) implies m0.owns(q) || pm2.is_allocated(q) by {
        if !m0.owns(q) {
            assert(!ms1.owns(q));
        }
    }
}

/// Which frames are handed out is all that `fresh_space` looks at in the
/// memory after.
pub proof fn lemma_fresh_same_alloc(ms: MemorySet, pm0: PhysMemory, pm1: PhysMemory, pm2: PhysMemory)
    requires
        fresh_space(ms, pm0, pm1),
        pm2.start == pm1.start,
        pm2.current == pm1.current,
        pm2.recycled@ == pm1.recycled@,
    ensures
        fresh_space(ms, pm0, pm2),
{
    assert forall|q: u64| #[trigger] pm2.is_allocated(q) == pm1.is_allocated(q) by {}
    assert forall|f: u64| #[trigger] ms.owns(f) implies pm2.is_allocated(f) by {
        assert(pm1.is_allocated(f));
    }
    assert forall|q: u64| #[trigger] pm0.is_allocated(q) implies pm2.is_allocated(q) by {
        assert(pm1.is_allocated(q));
    }
}

/// Whether frame `f` backed a page of `m0` that `m1` no longer backs.
pub open spec fn dropped(m0: MemorySet, m1: MemorySet, f: u64) -> bool {
    exists|i: int, v: u64| #[trigger] m0.backs(i, v) && !m1.backs(i, v) && m0.data_frame(i, v) == f
}

/// Dropping pages from areas and releasing the frames that backed them
/// gives a step.
pub proof fn lemma_frames_dropped(m0: MemorySet, pm0: PhysMemory, m1: MemorySet, pm1: PhysMemory, rel: Seq<u64>)
    requires
        m0.frames_held(pm0),
        m1.page_table.frames@ == m0.page_table.frames@,
        m1.areas@.len() == m0.areas@.len(),
        forall|i: int, v: u64| #[trigger] m1.backs(i, v) ==> m0.backs(i, v) && m1.data_frame(i, v) == m0.data_frame(i, v),
        released(pm0, pm1, rel),
        forall|x: int| 0 <= x < rel.len() ==> #[trigger] dropped(m0, m1, rel[x]),
    ensures
        frames_step(m0, pm0, m1, pm1),
{
    lemma_released(pm0, pm1, rel);
    assert forall|f: u64| #[trigger] m1.owns(f) implies m0.owns(f) && !rel.contains(f) by {
        if !m1.page_table.frames@.contains(f) {
            let (i, v) = choose|i: int, v: u64| #[trigger] m1.backs(i, v) && m1.data_frame(i, v) == f;
            assert(m0.backs(i, v));
            assert(m0.holds_data(f));
        }
        if rel.contains(f) {
            let x = choose|x: int| 0 <= x < rel.len() && rel[x] == f;
            assert(dropped(m0, m1, rel[x]));
            let (i2, v2) = choose|i: int, v: u64| #[trigger] m0.backs(i, v) && !m1.backs(i, v) && m0.data_frame(i, v) == f;
            if m1.page_table.frames@.contains(f) {
                assert(!m0.page_table.frames@.contains(m0.data_frame(i2, v2)));
            } else {
                let (i, v) = choose|i: int, v: u64| #[trigger] m1.backs(i, v) && m1.data_frame(i, v) == f;
                assert(m0.backs(i, v));
                assert(i != i2 || v != v2);
            }
        }
    }
    assert forall|q: u64| #[trigger] pm0.is_allocated(q) implies m0.owns(q) || pm1.is_allocated(q) by {
        if rel.contains(q) {
            let x = choose|x: int| 0 <= x < rel.len() && rel[x] == q;
            assert(dropped(m0, m1, rel[x]));
            let (i2, v2) = choose|i: int, v: u64| #[trigger] m0.backs(i, v) && !m1.backs(i, v) && m0.data_frame(i, v) == q;
            assert(m0.holds_data(q));
        }
    }
    assert forall|i1: int, v1: u64, i2: int, v2: u64|
        #[trigger] m1.backs(i1, v1) && #[trigger] m1.backs(i2, v2) && (i1 != i2 || v1 != v2) implies m1.data_frame(i1, v1)
            != m1.data_frame(i2, v2) by {
        assert(m0.backs(i1, v1) && m0.backs(i2, v2));
    }
    assert forall|i: int, v: u64| #[trigger] m1.backs(i, v) implies !m1.page_table.frames@.contains(m1.data_frame(i, v)) by {
        assert(m0.backs(i, v));
    }
    assert forall|f: u64| #[trigger] m1.owns(f) implies pm1.is_allocated(f) by {
        assert(m0.owns(f));
    }
}

/// Two address spaces with the same table frames and areas own the same
/// frames in the same way, whatever their entries.
pub proof fn lemma_owns_same(m0: MemorySet, m1: MemorySet)
    requires
        m1.page_table.frames@ == m0.page_table.frames@,
        m1.areas@ == m0.areas@,
    ensures
        forall|f: u64| #[trigger] m1.owns(f) == m0.owns(f),
        m0.frames_distinct() ==> m1.frames_distinct(),
        forall|pm: PhysMemory| m0.frames_held(pm) ==> #[trigger] m1.frames_held(pm),
{
    assert forall|j: int, v: u64| #[trigger] m1.backs(j, v) == m0.backs(j, v) && m1.data_frame(j, v) == m0.data_frame(j, v) by {}
    assert forall|f: u64| #[trigger] m1.holds_data(f) == m0.holds_data(f) by {
        if m1.holds_data(f) {
            let (j, v) = choose|j: int, v: u64| #[trigger] m1.backs(j, v) && m1.data_frame(j, v) == f;
            assert(m0.backs(j, v));
        }
        if m0.holds_data(f) {
            let (j, v) = choose|j: int, v: u64| #[trigger] m0.backs(j, v) && m0.data_frame(j, v) == f;
            assert(m1.backs(j, v));
        }
    }
    if m0.frames_distinct() {
        assert forall|j1: int, v1: u64, j2: int, v2: u64|
            #[trigger] m1.backs(j1, v1) && #[trigger] m1.backs(j2, v2) && (j1 != j2 || v1 != v2) implies m1.data_frame(j1, v1)
                != m1.data_frame(j2, v2) by {
            assert(m0.backs(j1, v1) && m0.backs(j2, v2));
        }
        assert forall|j: int, v: u64| #[trigger] m1.backs(j, v) implies !m1.page_table.frames@.contains(m1.data_frame(j, v)) by {
            assert(m0.backs(j, v));
        }
    }
    assert forall|pm: PhysMemory| m0.frames_held(pm) implies #[trigger] m1.frames_held(pm) by {
        assert forall|f: u64| #[trigger] m1.owns(f) implies pm.is_allocated(f) by {
            assert(m0.owns(f));
        }
    }
}

/// Replacing an address space by a fresh one and releasing every frame the
/// old one owned gives a step.
pub proof fn lemma_replaced(m0: MemorySet, pm0: PhysMemory, m1: MemorySet, mid: PhysMemory, pm2: PhysMemory)
    requires
        m0.frames_held(pm0),
        fresh_space(m1, pm0, mid),
        released(mid, pm2, m0.owned_frames()),
    ensures
        frames_step(m0, pm0, m1, pm2),
{
    let own = m0.owned_frames();
    lemma_owned_frames(m0);
    lemma_released(mid, pm2, own);
    assert forall|f: u64| #[trigger] m1.owns(f) implies pm2.is_allocated(f) by {
        assert(mid.is_allocated(f));
        if own.contains(f) {
            let x = choose|x: int| 0 <= x < own.len() && own[x] == f;
            assert(m0.owns(own[x]));
            assert(pm0.is_allocated(f));
        }
    }
    assert forall|q: u64| #[trigger] pm0.is_allocated(q) implies m0.owns(q) || pm2.is_allocated(q) by {
        assert(mid.is_allocated(q));
        if own.contains(q) {
            let x = choose|x: int| 0 <= x < own.len() && own[x] == q;
            assert(m0.owns(own[x]));
        }
    }
}

/// Releasing the frames of all areas and dropping the areas, the tables
/// kept, gives a step.
pub proof fn lemma_areas_recycled(m0: MemorySet, pm0: PhysMemory, m1: MemorySet, pm1: PhysMemory)
    requires
        m0.frames_held(pm0),
        m1.page_table == m0.page_table,
        m1.areas@ == Seq::<crate::memory_set::MapArea>::empty(),
        released(pm0, pm1, area_frames(m0.areas@, m0.areas@.len() as int)),
    ensures
        frames_step(m0, pm0, m1, pm1),
{
    let af = area_frames(m0.areas@, m0.areas@.len() as int);
    lemma_owned_frames(m0);
    lemma_released(pm0, pm1, af);
    assert forall|j: int, v: u64| !(#[trigger] m1.backs(j, v)) by {}
    assert forall|f: u64| #[trigger] m1.owns(f) implies m1.page_table.frames@.contains(f) by {
        if !m1.page_table.frames@.contains(f) {
            let (j, v) = choose|j: int, v: u64| #[trigger] m1.backs(j, v) && m1.data_frame(j, v) == f;
        }
    }
    assert forall|f: u64| #[trigger] m1.owns(f) implies pm1.is_allocated(f) && m0.owns(f) by {
        assert(m0.owns(f));
        assert(pm0.is_allocated(f));
        if af.contains(f) {
            let x = choose|x: int| 0 <= x < af.len() && af[x] == f;
            assert(m0.holds_data(af[x]));
            let (j, v) = choose|j: int, v: u64| #[trigger] m0.backs(j, v) && m0.data_frame(j, v) == f;
            assert(!m0.page_table.frames@.contains(m0.data_frame(j, v)));
        }
    }
    assert forall|q: u64| #[trigger] pm0.is_allocated(q) implies m0.owns(q) || pm1.is_allocated(q) by {
        if af.contains(q) {
            let x = choose|x: int| 0 <= x < af.len() && af[x] == q;
            assert(m0.holds_data(af[x]));
        }
    }
}

} // verus!
