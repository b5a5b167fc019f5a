//! The SV39 three-level page table of one address space. The model keeps the
//! second-level and leaf tables that exist (indexed by the high bits of the
//! page number they cover) and every leaf entry that was ever written.
use vstd::prelude::*;
use vstd::hash_map::HashMapWithView;
use crate::config::VPN_LIMIT;
use crate::frame::PhysMemory;

verus! {

broadcast use vstd::std_specs::hash::axiom_u64_obeys_hash_table_key_model;

/// Entry flag: the entry is valid.
pub const PTE_V: u8 = 1;
/// Entry flag: readable.
pub const PTE_R: u8 = 2;
/// Entry flag: writable.
pub const PTE_W: u8 = 4;
/// Entry flag: executable.
pub const PTE_X: u8 = 8;
/// Entry flag: reachable from user mode.
pub const PTE_U: u8 = 16;

/// A leaf page-table entry: a physical frame number and eight flag bits.
#[derive(Clone, Copy, PartialEq, Eq, Structural)]
pub struct PageTableEntry {
    pub ppn: u64,
    pub flags: u8,
}

/// The entry of a leaf slot that was never written: all bits zero.
pub open spec fn empty_pte() -> PageTableEntry {
    PageTableEntry { ppn: 0, flags: 0 }
}

impl PageTableEntry {
    pub open spec fn valid(self) -> bool {
        self.flags & PTE_V != 0
    }

    /// Whether the valid bit is set.
    pub fn is_valid(&self) -> (r: bool)
        ensures
            r == self.valid(),
    {
        self.flags & PTE_V != 0
    }

    /// The all-zero entry.
    pub fn empty() -> (r: Self)
        ensures
            r == empty_pte(),
    {
        PageTableEntry { ppn: 0, flags: 0 }
    }
}

pub proof fn lemma_empty_invalid()
    ensures
        !empty_pte().valid(),
{
    assert(0u8 & 1u8 == 0u8) by (bit_vector);
}

/// Index of the root slot that covers page `vpn`.
pub open spec fn dir_index(vpn: u64) -> u64 {
    vpn / 0x4_0000
}

/// Index of the leaf table that covers page `vpn`.
pub open spec fn leaf_index(vpn: u64) -> u64 {
    vpn / 0x200
}

/// Frames that creating the missing tables for page `v` takes, with
/// second-level tables `dirs` and leaf tables `leaves` present.
pub open spec fn tables_to_add(dirs: Set<u64>, leaves: Set<u64>, v: u64) -> nat {
    (if dirs.contains(dir_index(v)) { 0nat } else { 1nat }) + (if leaves.contains(leaf_index(v)) {
        0nat
    } else {
        1nat
    })
}

/// Frames that creating the missing tables for the pages `[v, stop)`, one
/// after the other, takes.
pub open spec fn tables_for_range(dirs: Set<u64>, leaves: Set<u64>, v: u64, stop: u64) -> nat
    decreases stop - v,
{
    if v >= stop {
        0
    } else {
        tables_to_add(dirs, leaves, v) + tables_for_range(
            dirs.insert(dir_index(v)),
            leaves.insert(leaf_index(v)),
            (v + 1) as u64,
            stop,
        )
    }
}

/// The second-level tables present after the missing ones for the pages
/// `[v, stop)` have been created, one page after the other.
pub open spec fn added_dirs(dirs: Set<u64>, v: u64, stop: u64) -> Set<u64>
    decreases stop - v,
{
    if v >= stop {
        dirs
    } else {
        added_dirs(dirs.insert(dir_index(v)), (v + 1) as u64, stop)
    }
}

/// The leaf tables present after the missing ones for the pages
/// `[v, stop)` have been created, one page after the other.
pub open spec fn added_leaves(leaves: Set<u64>, v: u64, stop: u64) -> Set<u64>
    decreases stop - v,
{
    if v >= stop {
        leaves
    } else {
        added_leaves(leaves.insert(leaf_index(v)), (v + 1) as u64, stop)
    }
}

pub struct PageTable {
    /// Frame of the root table.
    pub root_ppn: u64,
    /// Second-level tables: root slot index to frame.
    pub dirs: HashMapWithView<u64, u64>,
    /// Leaf tables: `vpn / 512` to frame.
    pub leaves: HashMapWithView<u64, u64>,
    /// Leaf entries ever written, by page number.
    pub entries: HashMapWithView<u64, PageTableEntry>,
    /// Frames of all tables, root first, in the order they were allocated.
    pub frames: Vec<u64>,
}

impl PageTable {
    pub open spec fn wf(&self) -> bool {
        &&& forall|k: u64| #[trigger] self.leaves@.contains_key(k) ==> self.dirs@.contains_key(k / 0x200)
        &&& forall|v: u64| #[trigger] self.entries@.contains_key(v) ==> v < VPN_LIMIT && self.leaves@.contains_key(leaf_index(v))
    }

    /// Whether the leaf table that holds the slot of page `vpn` exists.
    pub open spec fn has_leaf(&self, vpn: u64) -> bool {
        self.leaves@.contains_key(leaf_index(vpn))
    }

    /// The leaf entry of page `vpn` (`vpn` below `VPN_LIMIT`).
    pub open spec fn entry(&self, vpn: u64) -> PageTableEntry {
        if self.entries@.contains_key(vpn) {
            self.entries@[vpn]
        } else {
            empty_pte()
        }
    }

    /// Whether page `vpn` is mapped by a valid entry.
    pub open spec fn is_mapped(&self, vpn: u64) -> bool {
        self.has_leaf(vpn) && self.entry(vpn).valid()
    }

    /// What a walk of the table for page `vpn` finds: the leaf slot, if its
    /// leaf table exists.
    pub open spec fn walk(&self, vpn: u64) -> Option<PageTableEntry> {
        if self.has_leaf(vpn) {
            Some(self.entry(vpn))
        } else {
            None
        }
    }

    /// How many frames a walk that creates missing tables allocates for `vpn`.
    pub open spec fn tables_missing(&self, vpn: u64) -> nat {
        (if self.dirs@.contains_key(dir_index(vpn)) { 0nat } else { 1nat }) + (if self.has_leaf(vpn) {
            0nat
        } else {
            1nat
        })
    }

    /// An empty table whose root lives in frame `root_ppn`.
    pub fn new(root_ppn: u64) -> (r: Self)
        ensures
            r.wf(),
            r.root_ppn == root_ppn,
            r.dirs@ == Map::<u64, u64>::empty(),
            r.leaves@ == Map::<u64, u64>::empty(),
            r.entries@ == Map::<u64, PageTableEntry>::empty(),
            r.frames@ == seq![root_ppn],
    {
        let mut frames: Vec<u64> = Vec::new();
        frames.push(root_ppn);
        PageTable {
            root_ppn,
            dirs: HashMapWithView::new(),
            leaves: HashMapWithView::new(),
            entries: HashMapWithView::new(),
            frames,
        }
    }

    /// Walks the table for page `vpn` without creating anything.
    pub fn find_pte(&self, vpn: u64) -> (r: Option<PageTableEntry>)
        requires
            self.wf(),
            vpn < VPN_LIMIT,
        ensures
            r == self.walk(vpn),
    {
        if self.leaves.contains_key(&(vpn / 0x200)) {
            match self.entries.get(&vpn) {
                Some(e) => Some(*e),
                None => Some(PageTableEntry::empty()),
            }
        } else {
            None
        }
    }

    /// Walks the table for page `vpn`, allocating a zeroed frame for each
    /// table on the way that does not exist yet.
    pub fn find_pte_create(&mut self, pm: &mut PhysMemory, vpn: u64)
        requires
            old(self).wf(),
            old(pm).wf(),
            vpn < VPN_LIMIT,
            old(pm).free_count() >= old(self).tables_missing(vpn),
        ensures
            final(self).wf(),
            final(pm).wf(),
            final(self).root_ppn == old(self).root_ppn,
            final(self).has_leaf(vpn),
            final(self).entries@ == old(self).entries@,
            final(self).dirs@.dom() == old(self).dirs@.dom().insert(dir_index(vpn)),
            final(self).leaves@.dom() == old(self).leaves@.dom().insert(leaf_index(vpn)),
            forall|k: u64| #[trigger] old(self).dirs@.contains_key(k) ==> final(self).dirs@[k] == old(self).dirs@[k],
            forall|k: u64| #[trigger] old(self).leaves@.contains_key(k) ==> final(self).leaves@[k] == old(self).leaves@[k],
            final(pm).start == old(pm).start,
            final(pm).end == old(pm).end,
            final(pm).free_count() == old(pm).free_count() - old(self).tables_missing(vpn),
            final(self).frames@.len() == old(self).frames@.len() + old(self).tables_missing(vpn),
            final(self).frames@.subrange(0, old(self).frames@.len() as int) == old(self).frames@,
            forall|x: int| old(self).frames@.len() <= x < final(self).frames@.len() ==> !old(pm).is_allocated(#[trigger] final(self).frames@[x])
                && final(pm).is_allocated(final(self).frames@[x]),
            forall|x: int, y: int| old(self).frames@.len() <= x < y < final(self).frames@.len() ==> #[trigger] final(self).frames@[x] != #[trigger] final(self).frames@[y],
            forall|q: u64| #[trigger] old(pm).is_allocated(q) ==> final(pm).is_allocated(q),
            forall|q: u64| #[trigger] old(pm).frames@.contains_key(q) ==> final(pm).frames@.contains_key(q),
            forall|q: u64| #[trigger] old(pm).is_allocated(q) ==> final(pm).page(q) == old(pm).page(q),
    {
        let d = vpn / 0x4_0000;
        if !self.dirs.contains_key(&d) {
            let ghost pm0 = *pm;
            let f = pm.frame_alloc();
            let ppn = f.unwrap();
            self.dirs.insert(d, ppn);
            self.frames.push(ppn);
            assert forall|q: u64| #[trigger] pm0.is_allocated(q) implies pm.is_allocated(q) && pm.page(q) == pm0.page(q) by {
                assert(pm0.frames@.contains_key(q));
            }
        }
        let ghost pm1 = *pm;
        let l = vpn / 0x200;
        if !self.leaves.contains_key(&l) {
            let f = pm.frame_alloc();
            let ppn = f.unwrap();
            self.leaves.insert(l, ppn);
            self.frames.push(ppn);
            assert forall|q: u64| #[trigger] pm1.is_allocated(q) implies pm.is_allocated(q) && pm.page(q) == pm1.page(q) by {
                assert(pm1.frames@.contains_key(q));
            }
        }
        proof {
            assert(self.frames@.subrange(0, old(self).frames@.len() as int) =~= old(self).frames@);
            assert forall|x: int| old(self).frames@.len() <= x < self.frames@.len() implies !old(pm).is_allocated(#[trigger] self.frames@[x])
                && pm.is_allocated(self.frames@[x]) by {
                if x > old(self).frames@.len() {
                    assert(pm1.is_allocated(self.frames@[x - 1]));
                }
            }
            assert(self.dirs@.dom() =~= old(self).dirs@.dom().insert(dir_index(vpn)));
            assert(self.leaves@.dom() =~= old(self).leaves@.dom().insert(leaf_index(vpn)));
        }
    }

    /// Overwrites the leaf entry of page `vpn`, whose leaf table exists.
    pub fn set_entry(&mut self, vpn: u64, pte: PageTableEntry)
        requires
            old(self).wf(),
            old(self).has_leaf(vpn),
            vpn < VPN_LIMIT,
        ensures
            final(self).wf(),
            final(self).root_ppn == old(self).root_ppn,
            final(self).dirs@ == old(self).dirs@,
            final(self).leaves@ == old(self).leaves@,
            final(self).entries@ == old(self).entries@.insert(vpn, pte),
            final(self).frames@ == old(self).frames@,
    {
        self.entries.insert(vpn, pte);
    }
}

} // verus!
