//! The on-disk file system as the kernel sees it: one root directory holding
//! fixed-size entries (a name of at most 27 bytes and an inode number), and a
//! table of inodes, each a file or a directory with its bytes and its link
//! count, plus the bitmap of inodes in use.
use vstd::prelude::*;
use crate::config::NAME_LENGTH_LIMIT;

verus! {

/// One entry of the root directory.
pub struct DirEntry {
    /// The name as stored: UTF-8 bytes, no NUL.
    pub name: Vec<u8>,
    pub inode_id: u32,
}

/// One inode.
pub struct DiskInode {
    pub is_dir: bool,
    /// The bytes of the file.
    pub data: Vec<u8>,
    /// Number of directory entries that refer to the inode.
    pub nlink: u32,
}

pub struct EasyFileSystem {
    /// Inode table; an inode's number is its index.
    pub inodes: Vec<DiskInode>,
    /// Inode bitmap.
    pub used: Vec<bool>,
    /// Entries of the root directory (inode 0), in order.
    pub root: Vec<DirEntry>,
}

/// Whether `name` fits in a directory entry.
pub open spec fn valid_name(name: Seq<u8>) -> bool {
    name.len() <= NAME_LENGTH_LIMIT && forall|i: int| 0 <= i < name.len() ==> #[trigger] name[i] != 0u8
}

/// Whether entry `i` is the first entry of `root` named `name`.
pub open spec fn is_first_match(root: Seq<DirEntry>, name: Seq<u8>, i: int) -> bool {
    &&& 0 <= i < root.len()
    &&& root[i].name@ == name
    &&& forall|j: int| 0 <= j < i ==> (#[trigger] root[j]).name@ != name
}

/// Whether some entry of `root` is named `name`.
pub open spec fn has_name(root: Seq<DirEntry>, name: Seq<u8>) -> bool {
    exists|i: int| 0 <= i < root.len() && (#[trigger] root[i]).name@ == name
}

/// Index of the first entry of `root` named `name`.
pub open spec fn first_match(root: Seq<DirEntry>, name: Seq<u8>) -> int {
    choose|i: int| is_first_match(root, name, i)
}

/// The inode that `name` refers to in `root`, found by the first entry with
/// that name.
pub open spec fn lookup(root: Seq<DirEntry>, name: Seq<u8>) -> Option<u32> {
    if has_name(root, name) {
        Some(root[first_match(root, name)].inode_id)
    } else {
        None
    }
}

/// Whether inode `id` is free.
pub open spec fn is_free(used: Seq<bool>, id: int) -> bool {
    0 <= id < used.len() && !used[id]
}

/// Whether `id` is the lowest free inode.
pub open spec fn is_lowest_free(used: Seq<bool>, id: int) -> bool {
    &&& is_free(used, id)
    &&& forall|j: int| 0 <= j < id ==> #[trigger] used[j]
}

/// The lowest free inode.
pub open spec fn lowest_free(used: Seq<bool>) -> int {
    choose|id: int| is_lowest_free(used, id)
}

/// Number of entries of `root` that refer to inode `id`.
pub open spec fn link_count(root: Seq<DirEntry>, id: int) -> nat
    decreases root.len(),
{
    if root.len() == 0 {
        0
    } else {
        link_count(root.drop_last(), id) + (if root.last().inode_id as int == id { 1nat } else { 0nat })
    }
}

pub proof fn lemma_count_push(root: Seq<DirEntry>, e: DirEntry, id: int)
    ensures
        link_count(root.push(e), id) == link_count(root, id) + (if e.inode_id as int == id { 1nat } else { 0nat }),
{
    assert(root.push(e).drop_last() =~= root);
}

/// An entry that refers to `id` counts.
pub proof fn lemma_count_pos(root: Seq<DirEntry>, j: int, id: int)
    requires
        0 <= j < root.len(),
        root[j].inode_id as int == id,
    ensures
        link_count(root, id) >= 1,
    decreases root.len(),
{
    if j < root.len() - 1 {
        lemma_count_pos(root.drop_last(), j, id);
    }
}

/// A positive count has an entry that refers to the inode.
pub proof fn lemma_count_witness(root: Seq<DirEntry>, id: int)
    requires
        link_count(root, id) > 0,
    ensures
        exists|j: int| 0 <= j < root.len() && (#[trigger] root[j]).inode_id as int == id,
    decreases root.len(),
{
    if root.last().inode_id as int != id {
        lemma_count_witness(root.drop_last(), id);
        let j = choose|j: int| 0 <= j < root.drop_last().len() && (#[trigger] root.drop_last()[j]).inode_id as int == id;
        assert(root[j] == root.drop_last()[j]);
    } else {
        assert(root[root.len() - 1].inode_id as int == id);
    }
}

/// Removing entry `i` drops its inode's count by one and keeps the others.
pub proof fn lemma_count_remove(root: Seq<DirEntry>, i: int, id: int)
    requires
        0 <= i < root.len(),
    ensures
        link_count(root.remove(i), id) + (if root[i].inode_id as int == id { 1nat } else { 0nat }) == link_count(root, id),
    decreases root.len(),
{
    if i == root.len() - 1 {
        assert(root.remove(i) =~= root.drop_last());
    } else {
        let pre = root.drop_last();
        lemma_count_remove(pre, i, id);
        assert(root.remove(i) =~= pre.remove(i).push(root.last()));
        lemma_count_push(pre.remove(i), root.last(), id);
    }
}

pub proof fn lemma_first_match_unique(root: Seq<DirEntry>, name: Seq<u8>, i: int)
    requires
        is_first_match(root, name, i),
    ensures
        has_name(root, name),
        first_match(root, name) == i,
        lookup(root, name) == Some(root[i].inode_id),
{
    assert(0 <= i < root.len() && root[i].name@ == name);
    let k = first_match(root, name);
    assert(is_first_match(root, name, k));
    if k < i {
        assert(root[k].name@ != name);
    }
    if i < k {
        assert(root[i].name@ != name);
    }
}

/// Where some entry has a name, a first such entry exists.
pub proof fn lemma_first_match_exists(root: Seq<DirEntry>, name: Seq<u8>)
    requires
        has_name(root, name),
    ensures
        is_first_match(root, name, first_match(root, name)),
    decreases root.len(),
{
    let pre = root.drop_last();
    if has_name(pre, name) {
        lemma_first_match_exists(pre, name);
        let k = first_match(pre, name);
        assert forall|j: int| 0 <= j < k implies (#[trigger] root[j]).name@ != name by {
            assert(root[j] == pre[j]);
        }
        assert(is_first_match(root, name, k));
    } else {
        let n = root.len() - 1;
        let w = choose|i: int| 0 <= i < root.len() && (#[trigger] root[i]).name@ == name;
        if w < n {
            assert(pre[w] == root[w]);
        }
        assert forall|j: int| 0 <= j < n implies (#[trigger] root[j]).name@ != name by {
            assert(root[j] == pre[j]);
        }
        assert(is_first_match(root, name, n));
    }
}

/// After a link under a name that no entry had, the new name finds the file
/// of the old name, and the old name still does.
pub proof fn law_link_then_lookup(old: EasyFileSystem, new: EasyFileSystem, old_name: Seq<u8>, new_name: Seq<u8>)
    requires
        link_effect(old, new, old_name, new_name),
        lookup(old.root@, old_name) is Some,
        !has_name(old.root@, new_name),
    ensures
        lookup(new.root@, new_name) == lookup(old.root@, old_name),
        lookup(new.root@, old_name) == lookup(old.root@, old_name),
{
    let r0 = old.root@;
    let r1 = new.root@;
    let n = r0.len() as int;
    assert forall|j: int| 0 <= j < n implies #[trigger] r1[j] == r0[j] by {
        assert(r1.subrange(0, n)[j] == r1[j]);
    }
    assert forall|j: int| 0 <= j < n implies (#[trigger] r1[j]).name@ != new_name by {
        assert(r1[j] == r0[j]);
    }
    assert(is_first_match(r1, new_name, n));
    lemma_first_match_unique(r1, new_name, n);
    lemma_first_match_exists(r0, old_name);
    let i = first_match(r0, old_name);
    assert(r1[i] == r0[i]);
    assert forall|j: int| 0 <= j < i implies (#[trigger] r1[j]).name@ != old_name by {
        assert(r1[j] == r0[j]);
    }
    assert(is_first_match(r1, old_name, i));
    lemma_first_match_unique(r1, old_name, i);
}

/// After unlinking a name that one entry alone had, the name finds nothing.
pub proof fn law_unlink_then_lookup(old: EasyFileSystem, new: EasyFileSystem, name: Seq<u8>)
    requires
        unlink_effect(old, new, name),
        has_name(old.root@, name),
        forall|i: int, j: int|
            0 <= i < old.root@.len() && 0 <= j < old.root@.len() && (#[trigger] old.root@[i]).name@ == name && (#[trigger] old.root@[j]).name@
                == name ==> i == j,
    ensures
        lookup(new.root@, name) is None,
{
    lemma_first_match_exists(old.root@, name);
    let i = first_match(old.root@, name);
    let r0 = old.root@;
    let r1 = new.root@;
    assert(r1 == r0.remove(i));
    if has_name(r1, name) {
        let k = choose|k: int| 0 <= k < r1.len() && (#[trigger] r1[k]).name@ == name;
        let b = if k < i { k } else { k + 1 };
        assert(r1[k] == r0[b]);
        assert(r0[i].name@ == name);
    }
}

/// Linking a file under a name that no entry had and then unlinking that
/// name gives back the directory and the inodes as they were: the link
/// count and the bytes of the file, the bitmap and every other inode.
pub proof fn lemma_link_then_unlink(
    a: EasyFileSystem,
    b: EasyFileSystem,
    c: EasyFileSystem,
    old_name: Seq<u8>,
    new_name: Seq<u8>,
)
    requires
        link_effect(a, b, old_name, new_name),
        lookup(a.root@, old_name) is Some,
        a.wf(),
        !has_name(a.root@, new_name),
        unlink_effect(b, c, new_name),
    ensures
        c.root@ == a.root@,
        c.used@ == a.used@,
        c.inodes@.len() == a.inodes@.len(),
        forall|j: int|
            0 <= j < a.inodes@.len() ==> {
                &&& (#[trigger] c.inodes@[j]).nlink == a.inodes@[j].nlink
                &&& c.inodes@[j].is_dir == a.inodes@[j].is_dir
                &&& c.inodes@[j].data@ == a.inodes@[j].data@
            },
        lookup(c.root@, new_name) is None,
        lookup(c.root@, old_name) == lookup(a.root@, old_name),
{
    let r0 = a.root@;
    let r1 = b.root@;
    let n = r0.len() as int;
    let id = lookup(r0, old_name)->0 as int;
    lemma_first_match_exists(r0, old_name);
    lemma_count_pos(r0, first_match(r0, old_name), id);
    assert forall|j: int| 0 <= j < n implies #[trigger] r1[j] == r0[j] by {
        assert(r1.subrange(0, n)[j] == r1[j]);
    }
    assert forall|j: int| 0 <= j < n implies (#[trigger] r1[j]).name@ != new_name by {
        assert(r1[j] == r0[j]);
    }
    assert(is_first_match(r1, new_name, n));
    lemma_first_match_unique(r1, new_name, n);
    assert(c.root@ =~= r0) by {
        assert(r1.remove(n) =~= r1.subrange(0, n));
    }
    assert(b.root@[n].inode_id as int == id);
    assert forall|j: int| 0 <= j < a.inodes@.len() implies {
        &&& (#[trigger] c.inodes@[j]).nlink == a.inodes@[j].nlink
        &&& c.inodes@[j].is_dir == a.inodes@[j].is_dir
        &&& c.inodes@[j].data@ == a.inodes@[j].data@
    } by {
        if j != id {
            assert(b.inodes@[j] == a.inodes@[j]);
        }
    }
}

pub proof fn lemma_lowest_free_unique(used: Seq<bool>, id: int)
    requires
        is_lowest_free(used, id),
    ensures
        lowest_free(used) == id,
{
    let k = lowest_free(used);
    assert(is_lowest_free(used, k));
    if k < id {
        assert(used[k]);
    }
    if id < k {
        assert(used[id]);
    }
}

/// What linking `new_name` to the file `old_name` does to `old`, giving `new`.
pub open spec fn link_effect(old: EasyFileSystem, new: EasyFileSystem, old_name: Seq<u8>, new_name: Seq<u8>) -> bool {
    match lookup(old.root@, old_name) {
        None => new == old,
        Some(id) => {
            &&& new.root@.len() == old.root@.len() + 1
            &&& new.root@.subrange(0, old.root@.len() as int) == old.root@
            &&& new.root@.last().name@ == new_name
            &&& new.root@.last().inode_id == id
            &&& new.used@ == old.used@
            &&& new.inodes@.len() == old.inodes@.len()
            &&& new.inodes@[id as int].nlink == old.inodes@[id as int].nlink + 1
            &&& new.inodes@[id as int].is_dir == old.inodes@[id as int].is_dir
            &&& new.inodes@[id as int].data@ == old.inodes@[id as int].data@
            &&& forall|j: int| 0 <= j < old.inodes@.len() && j != id ==> #[trigger] new.inodes@[j] == old.inodes@[j]
        },
    }
}

/// What unlinking `name` does to `old`, giving `new`.
pub open spec fn unlink_effect(old: EasyFileSystem, new: EasyFileSystem, name: Seq<u8>) -> bool {
    let i = first_match(old.root@, name);
    let id = old.root@[i].inode_id as int;
    let node = old.inodes@[id];
    &&& new.root@ == old.root@.remove(i)
    &&& new.inodes@.len() == old.inodes@.len()
    &&& forall|j: int| 0 <= j < old.inodes@.len() && j != id ==> #[trigger] new.inodes@[j] == old.inodes@[j]
    &&& new.inodes@[id].nlink == node.nlink - 1
    &&& new.inodes@[id].is_dir == node.is_dir
    &&& node.nlink > 1 ==> new.inodes@[id].data@ == node.data@ && new.used@ == old.used@
    &&& node.nlink <= 1 ==> new.inodes@[id].data@ == Seq::<u8>::empty() && new.used@ == old.used@.update(id, false)
}

/// Whether two byte strings are equal.
pub fn bytes_eq(a: &Vec<u8>, b: &Vec<u8>) -> (r: bool)
    ensures
        r == (a@ == b@),
{
    if a.len() != b.len() {
        return false;
    }
    let mut i: usize = 0;
    while i < a.len()
        invariant
            a@.len() == b@.len(),
            i <= a@.len(),
            forall|j: int| 0 <= j < i ==> a@[j] == b@[j],
        decreases a@.len() - i,
    {
        if a[i] != b[i] {
            return false;
        }
        i = i + 1;
    }
    assert(a@ =~= b@);
    true
}

/// A copy of a byte string.
pub fn copy_bytes(a: &Vec<u8>) -> (r: Vec<u8>)
    ensures
        r@ == a@,
{
    let mut r: Vec<u8> = Vec::new();
    let mut i: usize = 0;
    while i < a.len()
        invariant
            i <= a@.len(),
            r@ == a@.subrange(0, i as int),
        decreases a@.len() - i,
    {
        r.push(a[i]);
        i = i + 1;
        assert(r@ =~= a@.subrange(0, i as int));
    }
    assert(a@.subrange(0, a@.len() as int) =~= a@);
    r
}

impl EasyFileSystem {
    /// The inode table and the bitmap agree in length; the root directory
    /// (inode 0) is in use; every entry refers to an inode in use other than
    /// the root; and the link count of every other inode in use is the
    /// number of entries that refer to it.
    pub open spec fn wf(&self) -> bool {
        &&& self.inodes@.len() == self.used@.len()
        &&& self.inodes@.len() <= u32::MAX
        &&& 0 < self.used@.len() && self.used@[0]
        &&& forall|i: int| 0 <= i < self.root@.len() ==> (#[trigger] self.root@[i]).inode_id < self.inodes@.len()
        &&& forall|i: int|
            0 <= i < self.root@.len() ==> (#[trigger] self.root@[i]).inode_id != 0 && self.used@[self.root@[i].inode_id as int]
        &&& forall|id: int|
            0 < id < self.inodes@.len() && self.used@[id] ==> (#[trigger] self.inodes@[id]).nlink == link_count(self.root@, id)
    }

    /// The inode that `name` refers to.
    pub open spec fn lookup(&self, name: Seq<u8>) -> Option<u32> {
        lookup(self.root@, name)
    }

    /// Finds the first root entry named `name`: its index.
    pub fn find_entry(&self, name: &Vec<u8>) -> (r: Option<usize>)
        ensures
            match r {
                Some(i) => is_first_match(self.root@, name@, i as int),
                None => !has_name(self.root@, name@),
            },
    {
        let mut i: usize = 0;
        while i < self.root.len()
            invariant
                i <= self.root@.len(),
                forall|j: int| 0 <= j < i ==> (#[trigger] self.root@[j]).name@ != name@,
            decreases self.root@.len() - i,
        {
            if bytes_eq(&self.root[i].name, name) {
                return Some(i);
            }
            i = i + 1;
        }
        None
    }

    /// The inode that `name` refers to, if any.
    pub fn find(&self, name: &Vec<u8>) -> (r: Option<u32>)
        ensures
            r == self.lookup(name@),
    {
        match self.find_entry(name) {
            Some(i) => {
                proof {
                    lemma_first_match_unique(self.root@, name@, i as int);
                }
                Some(self.root[i].inode_id)
            },
            None => None,
        }
    }

    /// The lowest free inode, if any.
    pub fn free_inode(&self) -> (r: Option<usize>)
        requires
            self.wf(),
        ensures
            match r {
                Some(id) => is_lowest_free(self.used@, id as int),
                None => forall|j: int| 0 <= j < self.used@.len() ==> #[trigger] self.used@[j],
            },
    {
        let mut i: usize = 0;
        while i < self.used.len()
            invariant
                i <= self.used@.len(),
                forall|j: int| 0 <= j < i ==> #[trigger] self.used@[j],
            decreases self.used@.len() - i,
        {
            if !self.used[i] {
                return Some(i);
            }
            i = i + 1;
        }
        None
    }

    /// Creates an empty file named `name` in the root directory on the lowest
    /// free inode, with one link; `None`, changing nothing, when the name is
    /// taken.
    pub fn create(&mut self, name: &Vec<u8>) -> (r: Option<u32>)
        requires
            old(self).wf(),
            valid_name(name@),
            has_name(old(self).root@, name@) || exists|j: int| is_free(old(self).used@, j),
        ensures
            final(self).wf(),
            has_name(old(self).root@, name@) ==> r is None && *final(self) == *old(self),
            !has_name(old(self).root@, name@) ==> {
                let id = lowest_free(old(self).used@);
                &&& r == Some(id as u32)
                &&& final(self).used@ == old(self).used@.update(id, true)
                &&& final(self).inodes@.len() == old(self).inodes@.len()
                &&& final(self).inodes@[id].is_dir == false
                &&& final(self).inodes@[id].data@ == Seq::<u8>::empty()
                &&& final(self).inodes@[id].nlink == 1
                &&& forall|j: int| 0 <= j < old(self).inodes@.len() && j != id ==> #[trigger] final(self).inodes@[j] == old(self).inodes@[j]
                &&& final(self).root@.len() == old(self).root@.len() + 1
                &&& final(self).root@.subrange(0, old(self).root@.len() as int) == old(self).root@
                &&& final(self).root@.last().name@ == name@
                &&& final(self).root@.last().inode_id == id as u32
            },
    {
        if self.find_entry(name).is_some() {
            return None;
        }
        let id = match self.free_inode() {
            Some(id) => id,
            None => {
                proof {
                    let j = choose|j: int| is_free(old(self).used@, j);
                    assert(self.used@[j]);
                }
                return None;
            },
        };
        proof {
            lemma_lowest_free_unique(self.used@, id as int);
        }
        self.used.set(id, true);
        self.inodes.set(id, DiskInode { is_dir: false, data: Vec::new(), nlink: 1 });
        let ghost root0 = self.root@;
        self.root.push(DirEntry { name: copy_bytes(name), inode_id: id as u32 });
        proof {
            assert(self.root@.subrange(0, root0.len() as int) =~= root0);
            assert(forall|j: int| 0 <= j < root0.len() ==> self.root@[j] == root0[j]);
            assert(id != 0);
            assert forall|i: int| 0 <= i < self.root@.len() implies (#[trigger] self.root@[i]).inode_id != 0
                && self.used@[self.root@[i].inode_id as int] by {
                if i < root0.len() {
                    assert(self.root@[i] == root0[i]);
                    assert(old(self).used@[root0[i].inode_id as int]);
                }
            }
            assert forall|j: int| 0 < j < self.inodes@.len() && self.used@[j] implies (#[trigger] self.inodes@[j]).nlink
                == link_count(self.root@, j) by {
                assert(self.root@ == root0.push(self.root@.last()));
                lemma_count_push(root0, self.root@.last(), j);
                if j == id {
                    if link_count(root0, j) > 0 {
                        lemma_count_witness(root0, j);
                    }
                } else {
                    assert(old(self).inodes@[j].nlink == link_count(root0, j));
                }
            }
        }
        Some(id as u32)
    }

    /// Adds a root entry named `new_name` for the inode that `old_name`
    /// refers to and counts the new link: `Some(inode)`, or `None`, changing
    /// nothing, when no entry is named `old_name`.
    pub fn link(&mut self, old_name: &Vec<u8>, new_name: &Vec<u8>) -> (r: Option<u32>)
        requires
            old(self).wf(),
            old(self).lookup(old_name@) is Some ==> valid_name(new_name@)
                && old(self).inodes@[old(self).lookup(old_name@)->0 as int].nlink < u32::MAX,
        ensures
            final(self).wf(),
            r == old(self).lookup(old_name@),
            link_effect(*old(self), *final(self), old_name@, new_name@),
    {
        match self.find(old_name) {
            Some(id) => {
                proof {
                    lemma_first_match_exists(old(self).root@, old_name@);
                }
                let ghost root0 = self.root@;
                self.root.push(DirEntry { name: copy_bytes(new_name), inode_id: id });
                proof {
                    assert(self.root@.subrange(0, root0.len() as int) =~= root0);
                }
                let ghost inodes0 = self.inodes@;
                let mut node = self.inodes.remove(id as usize);
                node.nlink = node.nlink + 1;
                self.inodes.insert(id as usize, node);
                proof {
                    assert forall|j: int| 0 <= j < inodes0.len() && j != id implies #[trigger] self.inodes@[j] == inodes0[j] by {
                        if j < id {
                            assert(self.inodes@[j] == inodes0[j]);
                        } else {
                            assert(self.inodes@[j] == inodes0[j]);
                        }
                    }
                    assert forall|i: int| 0 <= i < self.root@.len() implies (#[trigger] self.root@[i]).inode_id < self.inodes@.len() by {
                        if i < root0.len() {
                            assert(self.root@[i] == root0[i]);
                        }
                    }
                }
                Some(id)
            },
            None => None,
        }
    }

    /// Removes the first root entry named `name` (later entries move up one
    /// place) and drops one link of its inode; when that was the last link,
    /// the inode's bytes are released and the inode is freed.
    pub fn unlink(&mut self, name: &Vec<u8>)
        requires
            old(self).wf(),
            has_name(old(self).root@, name@),
        ensures
            final(self).wf(),
            unlink_effect(*old(self), *final(self), name@),
    {
        let i = self.find_entry(name).unwrap();
        proof {
            lemma_first_match_unique(self.root@, name@, i as int);
            lemma_count_pos(self.root@, i as int, self.root@[i as int].inode_id as int);
        }
        let id = self.root[i].inode_id as usize;
        let ghost root0 = self.root@;
        self.root.remove(i);
        let ghost inodes0 = self.inodes@;
        let mut node = self.inodes.remove(id);
        if node.nlink > 1 {
            node.nlink = node.nlink - 1;
        } else {
            node.nlink = node.nlink - 1;
            node.data = Vec::new();
            self.used.set(id, false);
        }
        self.inodes.insert(id, node);
        proof {
            assert forall|j: int| 0 <= j < inodes0.len() && j != id implies #[trigger] self.inodes@[j] == inodes0[j] by {
                assert(self.inodes@[j] == inodes0[j]);
            }
            assert forall|k: int| 0 <= k < self.root@.len() implies (#[trigger] self.root@[k]).inode_id < self.inodes@.len() by {
                if k < i {
                    assert(self.root@[k] == root0[k]);
                } else {
                    assert(self.root@[k] == root0[k + 1]);
                }
            }
            lemma_count_remove(root0, i as int, id as int);
            assert forall|k: int| 0 <= k < self.root@.len() implies (#[trigger] self.root@[k]).inode_id != 0
                && self.used@[self.root@[k].inode_id as int] by {
                let b = if k < i { k } else { k + 1 };
                assert(self.root@[k] == root0[b]);
                assert(old(self).used@[root0[b].inode_id as int]);
                if root0[b].inode_id as int == id && !self.used@[id as int] {
                    lemma_count_pos(self.root@, k, id as int);
                }
            }
            assert forall|j: int| 0 < j < self.inodes@.len() && self.used@[j] implies (#[trigger] self.inodes@[j]).nlink
                == link_count(self.root@, j) by {
                lemma_count_remove(root0, i as int, j);
                if j != id {
                    assert(old(self).inodes@[j].nlink == link_count(root0, j));
                }
            }
        }
    }
}

} // verus!
