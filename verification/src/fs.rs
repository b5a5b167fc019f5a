//! The kernel's file layer: open-file objects (console input, console
//! output, and inode handles with their own offset), the open flags, and
//! opening, reading and writing files of the file system.
use vstd::prelude::*;
use crate::efs::{EasyFileSystem, has_name, valid_name, is_free, lowest_free, lookup,
    lemma_first_match_exists};

verus! {

/// Open for writing only.
pub const O_WRONLY: u32 = 1;
/// Open for reading and writing.
pub const O_RDWR: u32 = 2;
/// Create the file when it does not exist (and empty it when it does).
pub const O_CREATE: u32 = 0x200;
/// Empty the file when it exists.
pub const O_TRUNC: u32 = 0x400;

/// An open file, shared by every descriptor that refers to it.
#[derive(PartialEq, Eq, Structural, Clone, Copy)]
pub enum FileObject {
    Stdin,
    Stdout,
    Inode { readable: bool, writable: bool, offset: u64, inode_id: u32 },
}

impl FileObject {
    pub open spec fn can_read(self) -> bool {
        match self {
            FileObject::Stdin => true,
            FileObject::Stdout => false,
            FileObject::Inode { readable, .. } => readable,
        }
    }

    pub open spec fn can_write(self) -> bool {
        match self {
            FileObject::Stdin => false,
            FileObject::Stdout => true,
            FileObject::Inode { writable, .. } => writable,
        }
    }

    /// Whether the file can be read.
    pub fn readable(&self) -> (r: bool)
        ensures
            r == self.can_read(),
    {
        match self {
            FileObject::Stdin => true,
            FileObject::Stdout => false,
            FileObject::Inode { readable, .. } => *readable,
        }
    }

    /// Whether the file can be written.
    pub fn writable(&self) -> (r: bool)
        ensures
            r == self.can_write(),
    {
        match self {
            FileObject::Stdin => false,
            FileObject::Stdout => true,
            FileObject::Inode { writable, .. } => *writable,
        }
    }
}

/// Whether `flags` holds only known open flags.
pub open spec fn flags_known(flags: u32) -> bool {
    flags & !0x603u32 == 0
}

/// Whether a file opened with `flags` can be read: `RDONLY` (no flag at all)
/// or anything without `WRONLY`.
pub open spec fn flags_readable(flags: u32) -> bool {
    flags & O_WRONLY == 0
}

/// Whether a file opened with `flags` can be written: any flag at all.
pub open spec fn flags_writable(flags: u32) -> bool {
    flags != 0
}

pub open spec fn flags_create(flags: u32) -> bool {
    flags & O_CREATE != 0
}

pub open spec fn flags_trunc(flags: u32) -> bool {
    flags & O_TRUNC != 0
}

/// The handle that opening inode `id` with `flags` gives.
pub open spec fn handle(flags: u32, id: u32) -> FileObject {
    FileObject::Inode { readable: flags_readable(flags), writable: flags_writable(flags), offset: 0, inode_id: id }
}

/// `n` zero bytes.
pub open spec fn zeros(n: nat) -> Seq<u8> {
    Seq::new(n, |i: int| 0u8)
}

/// File bytes after writing `bytes` at `off`: a gap before `off` reads as
/// zeros.
pub open spec fn write_at(data: Seq<u8>, off: int, bytes: Seq<u8>) -> Seq<u8> {
    let end = off + bytes.len();
    let base = if off > data.len() { data + zeros((off - data.len()) as nat) } else { data };
    if end >= base.len() {
        base.subrange(0, off) + bytes
    } else {
        base.subrange(0, off) + bytes + base.subrange(end, base.len() as int)
    }
}

/// File bytes that a read of `len` bytes at `off` gives.
pub open spec fn read_at(data: Seq<u8>, off: int, len: int) -> Seq<u8> {
    if off >= data.len() {
        Seq::empty()
    } else if off + len >= data.len() {
        data.subrange(off, data.len() as int)
    } else {
        data.subrange(off, off + len)
    }
}

/// A read at the offset where bytes were written gives those bytes back.
pub proof fn law_write_then_read(data: Seq<u8>, off: int, bytes: Seq<u8>)
    requires
        0 <= off,
    ensures
        read_at(write_at(data, off, bytes), off, bytes.len() as int) == bytes,
{
    let end = off + bytes.len();
    let base = if off > data.len() { data + zeros((off - data.len()) as nat) } else { data };
    let w = write_at(data, off, bytes);
    assert(base.len() >= off);
    if end >= base.len() {
        assert(w == base.subrange(0, off) + bytes);
    } else {
        assert(w == base.subrange(0, off) + bytes + base.subrange(end, base.len() as int));
    }
    assert(w.len() >= end);
    if bytes.len() == 0 {
        assert(read_at(w, off, 0) =~= bytes);
    } else if end >= w.len() {
        assert(w.subrange(off, w.len() as int) =~= bytes);
    } else {
        assert(w.subrange(off, end) =~= bytes);
    }
}

proof fn lemma_flags(flags: u32)
    ensures
        (flags & !0x603u32 == 0) == flags_known(flags),
        (flags & 1u32 == 0) == flags_readable(flags),
        (flags & 0x200u32 != 0) == flags_create(flags),
        (flags & 0x400u32 != 0) == flags_trunc(flags),
{
}

/// Opening with no flag at all (read only) creates and empties nothing.
pub proof fn lemma_rdonly()
    ensures
        flags_known(0),
        !flags_create(0),
        !flags_trunc(0),
        flags_readable(0),
        !flags_writable(0),
{
    assert(0u32 & !0x603u32 == 0) by (bit_vector);
    assert(0u32 & 0x200u32 == 0) by (bit_vector);
    assert(0u32 & 0x400u32 == 0) by (bit_vector);
    assert(0u32 & 1u32 == 0) by (bit_vector);
}

impl EasyFileSystem {
    /// Drops the bytes of inode `id`.
    pub fn clear(&mut self, id: u32)
        requires
            old(self).wf(),
            id < old(self).inodes@.len(),
        ensures
            final(self).wf(),
            final(self).root@ == old(self).root@,
            final(self).used@ == old(self).used@,
            final(self).inodes@.len() == old(self).inodes@.len(),
            final(self).inodes@[id as int].data@ == Seq::<u8>::empty(),
            final(self).inodes@[id as int].nlink == old(self).inodes@[id as int].nlink,
            final(self).inodes@[id as int].is_dir == old(self).inodes@[id as int].is_dir,
            forall|j: int| 0 <= j < old(self).inodes@.len() && j != id ==> #[trigger] final(self).inodes@[j] == old(self).inodes@[j],
    {
        let mut node = self.inodes.remove(id as usize);
        node.data = Vec::new();
        self.inodes.insert(id as usize, node);
        assert forall|j: int| 0 <= j < old(self).inodes@.len() && j != id implies #[trigger] self.inodes@[j] == old(self).inodes@[j] by {
            assert(self.inodes@[j] == old(self).inodes@[j]);
        }
    }

    /// Reads up to `len` bytes of inode `id` from `off`.
    pub fn read_inode(&self, id: u32, off: u64, len: u64) -> (r: Vec<u8>)
        requires
            self.wf(),
            id < self.inodes@.len(),
        ensures
            r@ == read_at(self.inodes@[id as int].data@, off as int, len as int),
    {
        let data = &self.inodes[id as usize].data;
        let mut r: Vec<u8> = Vec::new();
        if off as usize >= data.len() || off > usize::MAX as u64 {
            return r;
        }
        let mut i: usize = off as usize;
        let mut k: u64 = 0;
        while i < data.len() && k < len
            invariant
                off <= i <= data@.len(),
                i == off + k,
                k <= len,
                r@ == data@.subrange(off as int, i as int),
                data@ == self.inodes@[id as int].data@,
            decreases data@.len() - i,
        {
            r.push(data[i]);
            i = i + 1;
            k = k + 1;
            assert(r@ =~= data@.subrange(off as int, i as int));
        }
        r
    }

    /// Writes `bytes` into inode `id` at `off`.
    pub fn write_inode(&mut self, id: u32, off: u64, bytes: &Vec<u8>)
        requires
            old(self).wf(),
            id < old(self).inodes@.len(),
            off + bytes@.len() <= usize::MAX,
        ensures
            final(self).wf(),
            final(self).root@ == old(self).root@,
            final(self).used@ == old(self).used@,
            final(self).inodes@.len() == old(self).inodes@.len(),
            final(self).inodes@[id as int].data@ == write_at(old(self).inodes@[id as int].data@, off as int, bytes@),
            final(self).inodes@[id as int].nlink == old(self).inodes@[id as int].nlink,
            final(self).inodes@[id as int].is_dir == old(self).inodes@[id as int].is_dir,
            forall|j: int| 0 <= j < old(self).inodes@.len() && j != id ==> #[trigger] final(self).inodes@[j] == old(self).inodes@[j],
    {
        let mut node = self.inodes.remove(id as usize);
        let ghost data0 = node.data@;
        let off = off as usize;
        let mut out: Vec<u8> = Vec::new();
        let mut i: usize = 0;
        let ghost base = if off > data0.len() { data0 + zeros((off - data0.len()) as nat) } else { data0 };
        while i < off
            invariant
                i <= off,
                node.data@ == data0,
                base == (if off > data0.len() { data0 + zeros((off - data0.len()) as nat) } else { data0 }),
                out@ == base.subrange(0, i as int),
            decreases off - i,
        {
            if i < node.data.len() {
                out.push(node.data[i]);
            } else {
                out.push(0u8);
            }
            i = i + 1;
            assert(out@ =~= base.subrange(0, i as int));
        }
        let mut k: usize = 0;
        while k < bytes.len()
            invariant
                k <= bytes@.len(),
                out@ == base.subrange(0, off as int) + bytes@.subrange(0, k as int),
            decreases bytes@.len() - k,
        {
            out.push(bytes[k]);
            k = k + 1;
            assert(out@ =~= base.subrange(0, off as int) + bytes@.subrange(0, k as int));
        }
        assert(bytes@.subrange(0, bytes@.len() as int) =~= bytes@);
        let end = off + bytes.len();
        let mut j: usize = end;
        let ghost mid = out@;
        while j < node.data.len()
            invariant
                end <= j,
                end == off + bytes@.len(),
                node.data@ == data0,
                base == (if off > data0.len() { data0 + zeros((off - data0.len()) as nat) } else { data0 }),
                mid == base.subrange(0, off as int) + bytes@,
                end < data0.len() ==> j <= data0.len() && out@ == mid + base.subrange(end as int, j as int),
                end >= data0.len() ==> out@ == mid,
                base.len() == (if off > data0.len() { off as int } else { data0.len() as int }),
            decreases data0.len() - j,
        {
            out.push(node.data[j]);
            j = j + 1;
            proof {
                assert(base[j - 1] == data0[j - 1]);
                assert(out@ =~= mid + base.subrange(end as int, j as int));
            }
        }
        node.data = out;
        self.inodes.insert(id as usize, node);
        assert forall|q: int| 0 <= q < old(self).inodes@.len() && q != id implies #[trigger] self.inodes@[q] == old(self).inodes@[q] by {
            assert(self.inodes@[q] == old(self).inodes@[q]);
        }
        assert(self.inodes@[id as int].data@ =~= write_at(data0, off as int, bytes@));
    }
}

/// What opening `name` with `flags` gives.
pub open spec fn opened(fs: EasyFileSystem, name: Seq<u8>, flags: u32) -> Option<FileObject> {
    match lookup(fs.root@, name) {
        Some(id) => Some(handle(flags, id)),
        None => if flags_create(flags) {
            Some(handle(flags, lowest_free(fs.used@) as u32))
        } else {
            None
        },
    }
}

/// What opening `name` with `flags` does to the file system `old`, giving
/// `new`.
pub open spec fn open_effect(old: EasyFileSystem, new: EasyFileSystem, name: Seq<u8>, flags: u32) -> bool {
    &&& new.inodes@.len() == old.inodes@.len()
    &&& match lookup(old.root@, name) {
        Some(id) => {
            &&& new.root@ == old.root@
            &&& new.used@ == old.used@
            &&& forall|j: int| 0 <= j < old.inodes@.len() && j != id ==> #[trigger] new.inodes@[j] == old.inodes@[j]
            &&& new.inodes@[id as int].nlink == old.inodes@[id as int].nlink
            &&& new.inodes@[id as int].is_dir == old.inodes@[id as int].is_dir
            &&& new.inodes@[id as int].data@ == if flags_create(flags) || flags_trunc(flags) {
                Seq::<u8>::empty()
            } else {
                old.inodes@[id as int].data@
            }
        },
        None => if flags_create(flags) {
            let id = lowest_free(old.used@);
            &&& new.used@ == old.used@.update(id, true)
            &&& new.inodes@[id].is_dir == false
            &&& new.inodes@[id].data@ == Seq::<u8>::empty()
            &&& new.inodes@[id].nlink == 1
            &&& forall|j: int| 0 <= j < old.inodes@.len() && j != id ==> #[trigger] new.inodes@[j] == old.inodes@[j]
            &&& new.root@ == old.root@.push(new.root@.last())
            &&& new.root@.last().name@ == name
            &&& new.root@.last().inode_id == id as u32
        } else {
            new == old
        },
    }
}

/// Opens the root-directory file `name` with `flags`: with `CREATE`, an
/// existing file is emptied and a missing one created; without it, a missing
/// file gives `None` and `TRUNC` empties an existing one.
pub fn open_file(fs: &mut EasyFileSystem, name: &Vec<u8>, flags: u32) -> (r: Option<FileObject>)
    requires
        old(fs).wf(),
        flags_known(flags),
        flags_create(flags) && !has_name(old(fs).root@, name@) ==> valid_name(name@) && exists|j: int|
            is_free(old(fs).used@, j),
    ensures
        final(fs).wf(),
        r == opened(*old(fs), name@, flags),
        open_effect(*old(fs), *final(fs), name@, flags),
        !flags_create(flags) && !flags_trunc(flags) ==> *final(fs) == *old(fs),
{
    proof {
        lemma_flags(flags);
        if has_name(old(fs).root@, name@) {
            lemma_first_match_exists(old(fs).root@, name@);
        }
    }
    let readable = flags & O_WRONLY == 0;
    let writable = flags != 0;
    if flags & O_CREATE != 0 {
        match fs.find(name) {
            Some(id) => {
                fs.clear(id);
                Some(FileObject::Inode { readable, writable, offset: 0, inode_id: id })
            },
            None => {
                let ghost root0 = fs.root@;
                let id = fs.create(name).unwrap();
                proof {
                    assert(fs.root@ =~= root0.push(fs.root@.last()));
                }
                Some(FileObject::Inode { readable, writable, offset: 0, inode_id: id })
            },
        }
    } else {
        match fs.find(name) {
            Some(id) => {
                if flags & O_TRUNC != 0 {
                    fs.clear(id);
                }
                Some(FileObject::Inode { readable, writable, offset: 0, inode_id: id })
            },
            None => None,
        }
    }
}

} // verus!
