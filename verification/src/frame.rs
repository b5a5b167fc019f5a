//! Physical frames: a stack allocator that hands out frame numbers from a
//! contiguous range and reuses released ones last-in first-out, and the bytes
//! that each frame holds.
use vstd::prelude::*;
use vstd::hash_map::HashMapWithView;
use crate::config::PAGE_SIZE;

verus! {

broadcast use vstd::std_specs::hash::axiom_u64_obeys_hash_table_key_model;

/// The frame allocator together with the contents of every frame it has ever
/// handed out.
pub struct PhysMemory {
    /// First frame number of the managed range.
    pub start: u64,
    /// Next never-used frame number.
    pub current: u64,
    /// One past the last frame number of the managed range.
    pub end: u64,
    /// Released frames, reused from the back.
    pub recycled: Vec<u64>,
    /// The bytes of each frame that was ever handed out.
    pub frames: HashMapWithView<u64, Vec<u8>>,
}

/// A page of zero bytes.
pub open spec fn zero_page() -> Seq<u8> {
    Seq::new(PAGE_SIZE as nat, |i: int| 0u8)
}

impl PhysMemory {
    /// Whether frame `ppn` is currently handed out.
    pub open spec fn is_allocated(&self, ppn: u64) -> bool {
        self.start <= ppn < self.current && !self.recycled@.contains(ppn)
    }

    /// How many allocations can still succeed.
    pub open spec fn free_count(&self) -> int {
        self.recycled@.len() + (self.end - self.current)
    }

    /// Whether an allocation can succeed.
    pub open spec fn can_alloc(&self) -> bool {
        self.recycled@.len() > 0 || self.current < self.end
    }

    /// The frame that the next allocation returns.
    pub open spec fn next_frame(&self) -> u64 {
        if self.recycled@.len() > 0 {
            self.recycled@.last()
        } else {
            self.current
        }
    }

    /// The bytes of frame `ppn`.
    pub open spec fn page(&self, ppn: u64) -> Seq<u8> {
        self.frames@[ppn]@
    }

    /// The frame contents as a map from frame number to bytes.
    pub open spec fn contents(&self) -> Map<u64, Seq<u8>> {
        Map::new(|p: u64| self.frames@.contains_key(p), |p: u64| self.frames@[p]@)
    }

    pub open spec fn wf(&self) -> bool {
        &&& self.start <= self.current <= self.end
        &&& self.recycled@.no_duplicates()
        &&& forall|i: int| 0 <= i < self.recycled@.len() ==> self.start <= #[trigger] self.recycled@[i] < self.current
        &&& forall|p: u64| self.start <= p < self.current ==> #[trigger] self.frames@.contains_key(p)
        &&& forall|p: u64| #[trigger] self.frames@.contains_key(p) ==> self.frames@[p]@.len() == PAGE_SIZE
    }

    /// An allocator for the frames `start..end`, none of them handed out yet.
    pub fn new(start: u64, end: u64) -> (r: Self)
        requires
            start <= end,
        ensures
            r.wf(),
            r.start == start,
            r.current == start,
            r.end == end,
            r.recycled@ == Seq::<u64>::empty(),
            r.frames@ == Map::<u64, Vec<u8>>::empty(),
    {
        PhysMemory { start, current: start, end, recycled: Vec::new(), frames: HashMapWithView::new() }
    }

    /// Hands out a frame and fills it with zeros; `None` when every frame is
    /// in use.
    pub fn frame_alloc(&mut self) -> (r: Option<u64>)
        requires
            old(self).wf(),
        ensures
            final(self).wf(),
            final(self).start == old(self).start,
            final(self).end == old(self).end,
            old(self).can_alloc() ==> r == Some(old(self).next_frame()),
            old(self).can_alloc() ==> final(self).free_count() == old(self).free_count() - 1,
            !old(self).can_alloc() ==> r is None && *final(self) == *old(self),
            r matches Some(p) ==> {
                &&& !old(self).is_allocated(p)
                &&& final(self).is_allocated(p)
                &&& final(self).contents() == old(self).contents().insert(p, zero_page())
                &&& final(self).frames@.dom() == old(self).frames@.dom().insert(p)
                &&& final(self).page(p) == zero_page()
                &&& forall|q: u64| q != p && #[trigger] old(self).frames@.contains_key(q) ==> final(self).page(q) == old(self).page(q)
                &&& forall|q: u64| q != p ==> final(self).is_allocated(q) == old(self).is_allocated(q)
            },
    {
        let r = if self.recycled.len() > 0 {
            self.recycled.pop()
        } else if self.current == self.end {
            None
        } else {
            self.current = self.current + 1;
            Some(self.current - 1)
        };
        match r {
            Some(p) => {
                proof {
                    if old(self).recycled@.len() > 0 {
                        assert(self.recycled@ == old(self).recycled@.drop_last());
                        assert(old(self).recycled@ == self.recycled@.push(p));
                        assert(!self.recycled@.contains(p));
                    }
                }
                self.frames.insert(p, zeroed_page());
                proof {
                    assert(self.contents() =~= old(self).contents().insert(p, zero_page()));
                    assert(self.frames@.dom() =~= old(self).frames@.dom().insert(p));
                }
                Some(p)
            },
            None => None,
        }
    }

    /// Returns frame `ppn` to the allocator.
    pub fn frame_dealloc(&mut self, ppn: u64)
        requires
            old(self).wf(),
            old(self).is_allocated(ppn),
        ensures
            final(self).wf(),
            final(self).start == old(self).start,
            final(self).current == old(self).current,
            final(self).end == old(self).end,
            final(self).recycled@ == old(self).recycled@.push(ppn),
            final(self).frames@ == old(self).frames@,
            final(self).free_count() == old(self).free_count() + 1,
    {
        self.recycled.push(ppn);
    }

    /// Reads byte `off` of frame `ppn`.
    pub fn read_byte(&self, ppn: u64, off: u64) -> (b: u8)
        requires
            self.wf(),
            self.frames@.contains_key(ppn),
            off < PAGE_SIZE,
        ensures
            b == self.page(ppn)[off as int],
    {
        let page = self.frames.get(&ppn).unwrap();
        page[off as usize]
    }

    /// Writes byte `off` of frame `ppn`.
    pub fn write_byte(&mut self, ppn: u64, off: u64, b: u8)
        requires
            old(self).wf(),
            old(self).frames@.contains_key(ppn),
            off < PAGE_SIZE,
        ensures
            final(self).wf(),
            final(self).start == old(self).start,
            final(self).current == old(self).current,
            final(self).end == old(self).end,
            final(self).recycled@ == old(self).recycled@,
            final(self).frames@.dom() == old(self).frames@.dom(),
            final(self).contents() == old(self).contents().insert(
                ppn,
                old(self).page(ppn).update(off as int, b),
            ),
    {
        let mut page = self.frames.remove(&ppn).unwrap();
        page.set(off as usize, b);
        self.frames.insert(ppn, page);
        proof {
            assert(self.frames@.dom() =~= old(self).frames@.dom());
            assert(self.contents() =~= old(self).contents().insert(
                ppn,
                old(self).page(ppn).update(off as int, b),
            ));
        }
    }

    /// Copies every byte of frame `src` into frame `dst`.
    pub fn copy_frame(&mut self, src: u64, dst: u64)
        requires
            old(self).wf(),
            old(self).frames@.contains_key(src),
            old(self).frames@.contains_key(dst),
        ensures
            final(self).wf(),
            final(self).start == old(self).start,
            final(self).current == old(self).current,
            final(self).end == old(self).end,
            final(self).recycled@ == old(self).recycled@,
            final(self).frames@.dom() == old(self).frames@.dom(),
            final(self).contents() == old(self).contents().insert(dst, old(self).page(src)),
    {
        let copy = self.frames.get(&src).unwrap().clone();
        self.frames.insert(dst, copy);
        proof {
            assert(self.frames@.dom() =~= old(self).frames@.dom());
            assert(self.contents() =~= old(self).contents().insert(dst, old(self).page(src)));
        }
    }
}

/// A fresh page of zero bytes.
pub fn zeroed_page() -> (r: Vec<u8>)
    ensures
        r@ == zero_page(),
{
    let mut v: Vec<u8> = Vec::new();
    let mut i: u64 = 0;
    while i < PAGE_SIZE
        invariant
            i <= PAGE_SIZE,
            v@.len() == i,
            forall|j: int| 0 <= j < i ==> v@[j] == 0u8,
        decreases PAGE_SIZE - i,
    {
        v.push(0u8);
        i = i + 1;
    }
    assert(v@ =~= zero_page());
    v
}

} // verus!
