//! File and file-system system calls.
use vstd::prelude::*;
use crate::config::{PAGE_SIZE, VA_LIMIT};
use crate::bytes::{le_bytes, push_le, push_zeros};
use crate::frame::PhysMemory;
use crate::memory_set::{MemorySet, law_user_write_reads_back};
use crate::mapping::lemma_range_distinct;
use crate::efs::{valid_name, has_name, lookup, is_free, link_effect, unlink_effect, lemma_first_match_exists,
    law_link_then_lookup};
use crate::fs::{FileObject, flags_known, flags_create, opened, open_effect, open_file, write_at, read_at, lemma_rdonly};
use crate::task::{Kernel, lemma_tree_same, lemma_frames_same, alloc_fd, latin1_utf8, encode_latin1, lemma_lowest_empty_unique, is_lowest_empty};

verus! {

/// File-type bits of a directory in `Stat::mode`.
pub const S_IFDIR: u32 = 0o040000;
/// File-type bits of a regular file in `Stat::mode`.
pub const S_IFREG: u32 = 0o100000;

/// Size in bytes of the `Stat` structure that `sys_fstat` fills in.
pub const STAT_SIZE: u64 = 80;

/// The console output as byte strings.
pub open spec fn out_view(out: Seq<Vec<u8>>) -> Seq<Seq<u8>> {
    out.map_values(|v: Vec<u8>| v@)
}

/// Start of the page after the one that holds `a`.
pub open spec fn next_page(a: int) -> int {
    a - a % (PAGE_SIZE as int) + PAGE_SIZE as int
}

/// The pieces in which the bytes from `a` to `end` reach the console: one
/// per page they touch.
pub open spec fn stdout_chunks(ms: MemorySet, pm: PhysMemory, a: int, end: int) -> Seq<Seq<u8>>
    decreases end - a,
{
    if a >= end {
        Seq::empty()
    } else {
        let next = if next_page(a) < end { next_page(a) } else { end };
        seq![ms.user_bytes(pm, a, (next - a) as nat)] + stdout_chunks(ms, pm, next, end)
    }
}

/// Mode of the inode: directory or regular file.
pub open spec fn inode_mode(is_dir: bool) -> u32 {
    if is_dir { S_IFDIR } else { S_IFREG }
}

/// The in-memory image of the `Stat` structure: device, inode number, mode,
/// link count, and seven words of padding.
pub open spec fn stat_bytes(ino: nat, mode: nat, nlink: nat) -> Seq<u8> {
    le_bytes(0, 8) + le_bytes(ino, 8) + le_bytes(mode, 4) + le_bytes(nlink, 4) + Seq::new(56, |i: int| 0u8)
}

/// Bytes stored into the running task's memory, at addresses that are all
/// mapped, read back as stored.
pub proof fn lemma_user_sees(k: Kernel, pm1: PhysMemory, a: int, data: Seq<u8>)
    requires
        k.wf(),
        pm1.wf(),
        0 <= a,
        a + data.len() <= u64::MAX,
        data.len() < VA_LIMIT,
        k.current.memory_set.range_mapped(k.phys, a, data.len() as int),
        pm1.frames@.dom() == k.phys.frames@.dom(),
        pm1.contents() == k.current.memory_set.store_bytes(k.phys.contents(), a, data),
    ensures
        k.current.memory_set.user_bytes(pm1, a, data.len()) == data,
{
    let ms = k.current.memory_set;
    assert(k.is_proc(k.current.pid));
    assert(k.space_of(k.current.pid).frames_held(k.phys));
    lemma_range_distinct(ms, k.phys, a, data.len() as int);
    law_user_write_reads_back(ms, k.phys, pm1, a as u64, data);
}

/// Writes `len` bytes from user address `buf` to file descriptor `fd`.
/// Returns -1 when `fd` is not open or not writable; else the bytes go to
/// the console (one piece per page) or into the file at its offset, which
/// moves past them, and the result is `len`.
pub fn sys_write(k: &mut Kernel, fd: usize, buf: usize, len: usize) -> (r: isize)
    requires
        old(k).wf(),
        match old(k).fd_file(fd as int) {
            Some(f) => f.can_write() ==> {
                &&& buf + len < VA_LIMIT
                &&& old(k).current.memory_set.range_mapped(old(k).phys, buf as int, len as int)
                &&& match f {
                    FileObject::Inode { offset, .. } => offset + len <= usize::MAX,
                    _ => true,
                }
            },
            None => true,
        },
    ensures
        final(k).wf(),
        final(k).procs_same(*old(k)),
        final(k).current.fd_table == old(k).current.fd_table,
        final(k).console_in == old(k).console_in,
        final(k).phys == old(k).phys,
        match old(k).fd_file(fd as int) {
            Some(f) if f.can_write() => {
                let data = old(k).current.memory_set.user_bytes(old(k).phys, buf as int, len as nat);
                let fi = old(k).current.fd_table@[fd as int]->0 as int;
                &&& r == len as isize
                &&& match f {
                    FileObject::Inode { readable, writable, offset, inode_id } => {
                        &&& final(k).console_out == old(k).console_out
                        &&& final(k).files@ == old(k).files@.update(
                            fi,
                            FileObject::Inode { readable, writable, offset: (offset + len) as u64, inode_id },
                        )
                        &&& final(k).fs.root@ == old(k).fs.root@
                        &&& final(k).fs.used@ == old(k).fs.used@
                        &&& final(k).fs.inodes@.len() == old(k).fs.inodes@.len()
                        &&& final(k).fs.inodes@[inode_id as int].data@ == write_at(
                            old(k).fs.inodes@[inode_id as int].data@,
                            offset as int,
                            data,
                        )
                        &&& final(k).fs.inodes@[inode_id as int].nlink == old(k).fs.inodes@[inode_id as int].nlink
                        &&& final(k).fs.inodes@[inode_id as int].is_dir == old(k).fs.inodes@[inode_id as int].is_dir
                        &&& forall|j: int| 0 <= j < old(k).fs.inodes@.len() && j != inode_id ==> #[trigger] final(k).fs.inodes@[j] == old(k).fs.inodes@[j]
                    },
                    _ => {
                        &&& final(k).files == old(k).files
                        &&& final(k).fs == old(k).fs
                        &&& out_view(final(k).console_out@) == out_view(old(k).console_out@) + stdout_chunks(
                            old(k).current.memory_set,
                            old(k).phys,
                            buf as int,
                            buf + len,
                        )
                    },
                }
            },
            _ => r == -1 && *final(k) == *old(k),
        },
{
    if fd >= k.current.fd_table.len() {
        return -1;
    }
    let fi = match k.current.fd_table[fd] {
        Some(fi) => fi,
        None => return -1,
    };
    let file = k.files[fi];
    if !file.writable() {
        return -1;
    }
    match file {
        FileObject::Inode { readable, writable, offset, inode_id } => {
            let data = k.current.memory_set.read_user_bytes(&k.phys, buf as u64, len as u64);
            k.fs.write_inode(inode_id, offset, &data);
            k.files.set(fi, FileObject::Inode { readable, writable, offset: offset + len as u64, inode_id });
            proof {
                assert forall|i: int| 0 <= i < k.files@.len() implies crate::task::file_ok(#[trigger] k.files@[i], k.fs.inodes@.len()) by {
                    assert(crate::task::file_ok(old(k).files@[i], old(k).fs.inodes@.len()));
                }
            }
            proof {
                lemma_tree_same(*old(k), *k);
        lemma_frames_same(*old(k), *k);
            }
            len as isize
        },
        _ => {
            let ghost ms = k.current.memory_set;
            let ghost pm = k.phys;
            let end = buf as u64 + len as u64;
            let mut start = buf as u64;
            assert(out_view(k.console_out@) + stdout_chunks(ms, pm, start as int, end as int) == out_view(
                old(k).console_out@,
            ) + stdout_chunks(ms, pm, buf as int, end as int));
            while start < end
                invariant
                    buf <= start,
                    end == buf + len,
                    end < VA_LIMIT,
                    ms == k.current.memory_set,
                    pm == k.phys,
                    ms.wf(),
                    pm.wf(),
                    ms.range_mapped(pm, buf as int, len as int),
                    buf < end ==> start <= end,
                    end <= buf ==> start == buf,
                    out_view(k.console_out@) + stdout_chunks(ms, pm, start as int, end as int) == out_view(
                        old(k).console_out@,
                    ) + stdout_chunks(ms, pm, buf as int, end as int),
                    k.current == old(k).current,
                    k.tasks == old(k).tasks,
                    k.ready == old(k).ready,
                    k.pid_next == old(k).pid_next,
                    k.pid_recycled == old(k).pid_recycled,
                    k.shutdown == old(k).shutdown,
                    k.fs == old(k).fs,
                    k.files == old(k).files,
                    k.console_in == old(k).console_in,
                    k.phys == old(k).phys,
                decreases end - start,
            {
                let next0 = start - start % PAGE_SIZE + PAGE_SIZE;
                let next = if next0 < end { next0 } else { end };
                assert forall|q: int| 0 <= q < next - start implies #[trigger] ms.byte_mapped(pm, start + q) by {
                    assert(ms.byte_mapped(pm, buf + (start - buf + q)));
                }
                let chunk = k.current.memory_set.read_user_bytes(&k.phys, start, next - start);
                let ghost before = k.console_out@;
                k.console_out.push(chunk);
                proof {
                    assert(out_view(k.console_out@) =~= out_view(before).push(chunk@));
                    let rest = stdout_chunks(ms, pm, next as int, end as int);
                    assert(stdout_chunks(ms, pm, start as int, end as int) == seq![chunk@] + rest);
                    assert(out_view(before).push(chunk@) + rest =~= out_view(before) + (seq![chunk@] + rest));
                }
                start = next;
            }
            assert(stdout_chunks(ms, pm, start as int, end as int) =~= Seq::<Seq<u8>>::empty());
            assert(out_view(k.console_out@) + Seq::<Seq<u8>>::empty() =~= out_view(k.console_out@));
            proof {
                lemma_tree_same(*old(k), *k);
        lemma_frames_same(*old(k), *k);
            }
            len as isize
        },
    }
}

/// Reads up to `len` bytes from file descriptor `fd` into user address
/// `buf`. Returns -1 when `fd` is not open or not readable. Console input
/// gives its next byte (the buffer must be one byte long); a file gives the
/// bytes from its offset on, at most `len`, and its offset moves past them.
/// The result is the number of bytes read. When the console has no input
/// yet, the result is `None` and nothing changes: the task waits, and the
/// call is made again once input has arrived.
pub fn sys_read(k: &mut Kernel, fd: usize, buf: usize, len: usize) -> (r: Option<isize>)
    requires
        old(k).wf(),
        match old(k).fd_file(fd as int) {
            Some(f) => f.can_read() ==> {
                &&& buf + len < VA_LIMIT
                &&& old(k).current.memory_set.range_mapped(old(k).phys, buf as int, len as int)
                &&& (f is Stdin ==> len == 1)
            },
            None => true,
        },
    ensures
        final(k).wf(),
        final(k).procs_same(*old(k)),
        final(k).current.fd_table == old(k).current.fd_table,
        final(k).fs == old(k).fs,
        final(k).console_out == old(k).console_out,
        final(k).phys.start == old(k).phys.start,
        final(k).phys.current == old(k).phys.current,
        final(k).phys.end == old(k).phys.end,
        final(k).phys.recycled@ == old(k).phys.recycled@,
        final(k).phys.frames@.dom() == old(k).phys.frames@.dom(),
        match old(k).fd_file(fd as int) {
            Some(f) if f.can_read() => {
                let fi = old(k).current.fd_table@[fd as int]->0 as int;
                let ms = old(k).current.memory_set;
                match f {
                    FileObject::Inode { readable, writable, offset, inode_id } => {
                        let data = read_at(old(k).fs.inodes@[inode_id as int].data@, offset as int, len as int);
                        &&& r == Some(data.len() as isize)
                        &&& final(k).console_in == old(k).console_in
                        &&& final(k).files@ == old(k).files@.update(
                            fi,
                            FileObject::Inode { readable, writable, offset: (offset + data.len()) as u64, inode_id },
                        )
                        &&& final(k).phys.contents() == ms.store_bytes(old(k).phys.contents(), buf as int, data)
                        &&& final(k).current.memory_set.user_bytes(final(k).phys, buf as int, data.len()) == data
                    },
                    _ => if old(k).console_in@.len() == 0 {
                        r is None && *final(k) == *old(k)
                    } else {
                        &&& r == Some(1isize)
                        &&& final(k).console_in@ == old(k).console_in@.drop_first()
                        &&& final(k).files == old(k).files
                        &&& final(k).phys.contents() == ms.store_bytes(
                            old(k).phys.contents(),
                            buf as int,
                            seq![old(k).console_in@[0]],
                        )
                        &&& final(k).current.memory_set.user_bytes(final(k).phys, buf as int, 1) == seq![old(k).console_in@[0]]
                    },
                }
            },
            _ => r == Some(-1isize) && *final(k) == *old(k),
        },
{
    if fd >= k.current.fd_table.len() {
        return Some(-1);
    }
    let fi = match k.current.fd_table[fd] {
        Some(fi) => fi,
        None => return Some(-1),
    };
    let file = k.files[fi];
    if !file.readable() {
        return Some(-1);
    }
    match file {
        FileObject::Inode { readable, writable, offset, inode_id } => {
            let size = k.fs.inodes[inode_id as usize].data.len();
            let data = k.fs.read_inode(inode_id, offset, len as u64);
            assert forall|q: int| 0 <= q < data@.len() implies #[trigger] k.current.memory_set.byte_mapped(k.phys, buf + q) by {
                assert(k.current.memory_set.byte_mapped(k.phys, buf + q));
            }
            k.current.memory_set.write_user_bytes(&mut k.phys, buf as u64, &data);
            let n = data.len();
            assert(n == 0 || offset + n <= size);
            k.files.set(fi, FileObject::Inode { readable, writable, offset: offset + n as u64, inode_id });
            proof {
                assert forall|i: int| 0 <= i < k.files@.len() implies crate::task::file_ok(#[trigger] k.files@[i], k.fs.inodes@.len()) by {
                    assert(crate::task::file_ok(old(k).files@[i], old(k).fs.inodes@.len()));
                }
            }
            proof {
                lemma_tree_same(*old(k), *k);
        lemma_frames_same(*old(k), *k);
                lemma_user_sees(*old(k), k.phys, buf as int, data@);
            }
            Some(n as isize)
        },
        _ => {
            if k.console_in.len() == 0 {
                return None;
            }
            let c = k.console_in.remove(0);
            let mut one: Vec<u8> = Vec::new();
            one.push(c);
            assert(one@ =~= seq![old(k).console_in@[0]]);
            k.current.memory_set.write_user_bytes(&mut k.phys, buf as u64, &one);
            assert(k.console_in@ =~= old(k).console_in@.drop_first());
            proof {
                lemma_tree_same(*old(k), *k);
        lemma_frames_same(*old(k), *k);
                lemma_user_sees(*old(k), k.phys, buf as int, one@);
            }
            Some(1)
        },
    }
}

/// What `sys_open(path, flags)` does to kernel `k0`, giving `k1` and result `r`.
pub open spec fn open_call(k0: Kernel, k1: Kernel, path: usize, flags: u32, r: isize) -> bool {
    &&& k1.wf()
    &&& k1.procs_same(k0)
    &&& k1.phys == k0.phys
    &&& k1.console_in == k0.console_in
    &&& k1.console_out == k0.console_out
    &&& ({
        let name = latin1_utf8(k0.current.memory_set.cstr(k0.phys, path as int));
        match opened(k0.fs, name, flags) {
            None => r == -1 && k1 == k0,
            Some(f) => {
                let fd = k0.next_fd();
                let table = if fd < k0.current.fd_table@.len() {
                    k0.current.fd_table@
                } else {
                    k0.current.fd_table@.push(None)
                };
                &&& r == fd as isize
                &&& open_effect(k0.fs, k1.fs, name, flags)
                &&& k1.files@ == k0.files@.push(f)
                &&& k1.current.fd_table@ == table.update(fd, Some(k0.files@.len() as usize))
            },
        }
    })
}

/// Opens the file named by the NUL-terminated path at user address `path`
/// with `flags`; returns the new descriptor (the lowest free one) or -1 when
/// the file does not exist and `CREATE` is not given.
pub fn sys_open(k: &mut Kernel, path: usize, flags: u32) -> (r: isize)
    requires
        old(k).wf(),
        old(k).current.memory_set.has_cstr(old(k).phys, path as int),
        flags_known(flags),
        ({
            let name = latin1_utf8(old(k).current.memory_set.cstr(old(k).phys, path as int));
            flags_create(flags) && !has_name(old(k).fs.root@, name) ==> valid_name(name) && exists|j: int|
                is_free(old(k).fs.used@, j)
        }),
    ensures
        open_call(*old(k), *final(k), path, flags, r),
{
    let raw = k.current.memory_set.translated_str(&k.phys, path as u64);
    let name = encode_latin1(&raw);
    let ghost fs0 = k.fs;
    match open_file(&mut k.fs, &name, flags) {
        Some(f) => {
            proof {
                if let Some(id) = lookup(fs0.root@, name@) {
                    lemma_first_match_exists(fs0.root@, name@);
                } else if flags_create(flags) {
                    let j = crate::efs::lowest_free(fs0.used@);
                    let w = choose|j: int| is_free(fs0.used@, j);
                    assert(is_free(fs0.used@, w));
                }
            }
            let fd = alloc_fd(&mut k.current.fd_table);
            proof {
                if exists|i: int| 0 <= i < old(k).current.fd_table@.len() && #[trigger] old(k).current.fd_table@[i] is None {
                    lemma_lowest_empty_unique(old(k).current.fd_table@, fd as int);
                }
            }
            let idx = k.files.len();
            k.files.push(f);
            k.current.fd_table.set(fd, Some(idx));
            proof {
                assert forall|i: int| 0 <= i < k.files@.len() implies crate::task::file_ok(#[trigger] k.files@[i], k.fs.inodes@.len()) by {
                    if i < old(k).files@.len() {
                        assert(crate::task::file_ok(old(k).files@[i], old(k).fs.inodes@.len()));
                    }
                }
                assert forall|i: int| 0 <= i < k.tasks@.len() implies (#[trigger] k.tasks@[i]).memory_set.wf() && k.tasks@[i].fds_below(k.files@.len()) by {
                    assert(old(k).tasks@[i].fds_below(old(k).files@.len()));
                }
            }
            proof {
                lemma_tree_same(*old(k), *k);
        lemma_frames_same(*old(k), *k);
            }
            fd as isize
        },
        None => -1,
    }
}

/// What `sys_close(fd)` does to kernel `k0`, giving `k1` and result `r`.
pub open spec fn close_call(k0: Kernel, k1: Kernel, fd: usize, r: isize) -> bool {
    &&& k1.wf()
    &&& k0.fd_file(fd as int) is None ==> r == -1 && k1 == k0
    &&& (k0.fd_file(fd as int) is Some ==> {
            &&& r == 0
            &&& k1.procs_same(k0)
            &&& k1.current.fd_table@ == k0.current.fd_table@.update(fd as int, None)
            &&& k1.files == k0.files
            &&& k1.fs == k0.fs
            &&& k1.phys == k0.phys
            &&& k1.console_in == k0.console_in
            &&& k1.console_out == k0.console_out
        })
}

/// Closes file descriptor `fd`: -1 when it is not open, else 0.
pub fn sys_close(k: &mut Kernel, fd: usize) -> (r: isize)
    requires
        old(k).wf(),
    ensures
        close_call(*old(k), *final(k), fd, r),
{
    if fd >= k.current.fd_table.len() {
        return -1;
    }
    if k.current.fd_table[fd].is_none() {
        return -1;
    }
    k.current.fd_table.set(fd, None);
    proof {
        lemma_tree_same(*old(k), *k);
        lemma_frames_same(*old(k), *k);
    }
    0
}

/// The image of the status structure of inode `ino`.
fn stat_image(ino: u32, mode: u32, nlink: u32) -> (r: Vec<u8>)
    ensures
        r@ == stat_bytes(ino as nat, mode as nat, nlink as nat),
        r@.len() == STAT_SIZE,
{
    let mut r: Vec<u8> = Vec::new();
    push_le(&mut r, 0, 8);
    push_le(&mut r, ino as u64, 8);
    push_le(&mut r, mode as u64, 4);
    push_le(&mut r, nlink as u64, 4);
    push_zeros(&mut r, 56);
    proof {
        reveal_with_fuel(le_bytes, 9);
        assert(r@ =~= stat_bytes(ino as nat, mode as nat, nlink as nat));
    }
    r
}

/// What `sys_fstat(fd, st)` does to kernel `k0`, giving `k1` and result `r`.
pub open spec fn fstat_call(k0: Kernel, k1: Kernel, fd: usize, st: usize, r: isize) -> bool {
    &&& k1.wf()
    &&& k1.procs_same(k0)
    &&& k1.current.fd_table == k0.current.fd_table
    &&& k1.files == k0.files
    &&& k1.fs == k0.fs
    &&& k1.console_in == k0.console_in
    &&& k1.console_out == k0.console_out
    &&& (match k0.fd_file(fd as int) {
        Some(FileObject::Inode { inode_id, .. }) => {
            let node = k0.fs.inodes@[inode_id as int];
            &&& r == 0
            &&& k1.phys.start == k0.phys.start
            &&& k1.phys.current == k0.phys.current
            &&& k1.phys.end == k0.phys.end
            &&& k1.phys.recycled@ == k0.phys.recycled@
            &&& k1.phys.frames@.dom() == k0.phys.frames@.dom()
            &&& k1.phys.contents() == k0.current.memory_set.store_bytes(
                k0.phys.contents(),
                st as int,
                stat_bytes(inode_id as nat, inode_mode(node.is_dir) as nat, node.nlink as nat),
            )
            &&& k1.current.memory_set.user_bytes(k1.phys, st as int, STAT_SIZE as nat)
                == stat_bytes(inode_id as nat, inode_mode(node.is_dir) as nat, node.nlink as nat)
        },
        _ => r == -1 && k1 == k0,
    })
}

/// Fills in the status structure at user address `st` for the file behind
/// descriptor `fd`: device 0, inode number, file type and link count, within
/// one page or across two. Returns -1, writing nothing, when `fd` is not open
/// or not a file of the file system; else 0.
pub fn sys_fstat(k: &mut Kernel, fd: usize, st: usize) -> (r: isize)
    requires
        old(k).wf(),
        old(k).fd_file(fd as int) matches Some(FileObject::Inode { .. }) ==> {
            &&& st + STAT_SIZE <= u64::MAX
            &&& old(k).current.memory_set.range_mapped(old(k).phys, st as int, STAT_SIZE as int)
        },
    ensures
        fstat_call(*old(k), *final(k), fd, st, r),
{
    if fd >= k.current.fd_table.len() {
        return -1;
    }
    let fi = match k.current.fd_table[fd] {
        Some(fi) => fi,
        None => return -1,
    };
    match k.files[fi] {
        FileObject::Inode { inode_id, .. } => {
            let node = &k.fs.inodes[inode_id as usize];
            let mode = if node.is_dir { S_IFDIR } else { S_IFREG };
            let image = stat_image(inode_id, mode, node.nlink);
            k.current.memory_set.write_user_bytes(&mut k.phys, st as u64, &image);
            proof {
                lemma_tree_same(*old(k), *k);
        lemma_frames_same(*old(k), *k);
                lemma_user_sees(*old(k), k.phys, st as int, image@);
            }
            0
        },
        _ => -1,
    }
}

/// What `sys_linkat(old_name, new_name)` does to kernel `k0`, giving `k1` and result `r`.
pub open spec fn link_call(k0: Kernel, k1: Kernel, old_name: usize, new_name: usize, r: isize) -> bool {
    &&& k1.wf()
    &&& k1.procs_same(k0)
    &&& k1.current.fd_table == k0.current.fd_table
    &&& k1.files == k0.files
    &&& k1.phys == k0.phys
    &&& k1.console_in == k0.console_in
    &&& k1.console_out == k0.console_out
    &&& ({
        let o = latin1_utf8(k0.current.memory_set.cstr(k0.phys, old_name as int));
        let n = latin1_utf8(k0.current.memory_set.cstr(k0.phys, new_name as int));
        &&& r == if lookup(k0.fs.root@, o) is Some { 0isize } else { -1isize }
        &&& link_effect(k0.fs, k1.fs, o, n)
    })
}

/// Adds the name at user address `new_name` to the root directory for the
/// file named at `old_name`, counting one more link; 0, or -1 when no file
/// has the old name.
pub fn sys_linkat(k: &mut Kernel, old_name: usize, new_name: usize) -> (r: isize)
    requires
        old(k).wf(),
        old(k).current.memory_set.has_cstr(old(k).phys, old_name as int),
        old(k).current.memory_set.has_cstr(old(k).phys, new_name as int),
        ({
            let o = latin1_utf8(old(k).current.memory_set.cstr(old(k).phys, old_name as int));
            let n = latin1_utf8(old(k).current.memory_set.cstr(old(k).phys, new_name as int));
            lookup(old(k).fs.root@, o) matches Some(id) ==> valid_name(n) && old(k).fs.inodes@[id as int].nlink < u32::MAX
        }),
    ensures
        link_call(*old(k), *final(k), old_name, new_name, r),
{
    let o = k.current.memory_set.translated_str(&k.phys, old_name as u64);
    let o = encode_latin1(&o);
    let n = k.current.memory_set.translated_str(&k.phys, new_name as u64);
    let n = encode_latin1(&n);
    let r = k.fs.link(&o, &n);
    proof {
        lemma_tree_same(*old(k), *k);
        lemma_frames_same(*old(k), *k);
    }
    match r {
        Some(_) => 0,
        None => -1,
    }
}

/// What `sys_unlinkat(name)` does to kernel `k0`, giving `k1` and result `r`.
pub open spec fn unlink_call(k0: Kernel, k1: Kernel, name: usize, r: isize) -> bool {
    &&& k1.wf()
    &&& k1.procs_same(k0)
    &&& k1.current.fd_table == k0.current.fd_table
    &&& k1.files == k0.files
    &&& k1.phys == k0.phys
    &&& k1.console_in == k0.console_in
    &&& k1.console_out == k0.console_out
    &&& r == 0
    &&& unlink_effect(k0.fs, k1.fs, latin1_utf8(k0.current.memory_set.cstr(k0.phys, name as int)))
}

/// Removes the root-directory entry named at user address `name`, dropping
/// one link of its file and freeing the file with its last link; returns 0.
pub fn sys_unlinkat(k: &mut Kernel, name: usize) -> (r: isize)
    requires
        old(k).wf(),
        old(k).current.memory_set.has_cstr(old(k).phys, name as int),
        has_name(old(k).fs.root@, latin1_utf8(old(k).current.memory_set.cstr(old(k).phys, name as int))),
    ensures
        unlink_call(*old(k), *final(k), name, r),
{
    let nm = k.current.memory_set.translated_str(&k.phys, name as u64);
    let nm = encode_latin1(&nm);
    k.fs.unlink(&nm);
    proof {
        lemma_tree_same(*old(k), *k);
        lemma_frames_same(*old(k), *k);
    }
    0
}


/// Where slot `i` of `t` is empty, a lowest empty slot exists.
proof fn lemma_some_lowest_empty(t: Seq<Option<usize>>, i: int)
    requires
        0 <= i < t.len(),
        t[i] is None,
    ensures
        exists|k: int| is_lowest_empty(t, k),
    decreases i,
{
    if exists|j: int| 0 <= j < i && (#[trigger] t[j]) is None {
        let j = choose|j: int| 0 <= j < i && (#[trigger] t[j]) is None;
        lemma_some_lowest_empty(t, j);
    } else {
        assert(is_lowest_empty(t, i));
    }
}

/// The descriptor that the next allocation gives is a slot of the table or
/// the one just past it.
proof fn lemma_next_fd(k: Kernel)
    ensures
        0 <= k.next_fd() <= k.current.fd_table@.len(),
        k.next_fd() < k.current.fd_table@.len() ==> k.current.fd_table@[k.next_fd()] is None,
{
    let t = k.current.fd_table@;
    if exists|i: int| 0 <= i < t.len() && #[trigger] t[i] is None {
        let i = choose|i: int| 0 <= i < t.len() && #[trigger] t[i] is None;
        lemma_some_lowest_empty(t, i);
    }
}

/// A descriptor that `open` returns refers to the file it opened, and every
/// other descriptor keeps its file.
proof fn lemma_open_fd(k0: Kernel, k1: Kernel, path: usize, flags: u32, fd: isize)
    requires
        k0.wf(),
        open_call(k0, k1, path, flags, fd),
        opened(k0.fs, latin1_utf8(k0.current.memory_set.cstr(k0.phys, path as int)), flags) is Some,
        k0.current.fd_table@.len() < isize::MAX,
    ensures
        fd >= 0,
        fd == k0.next_fd(),
        k1.current.fd_table@.len() <= k0.current.fd_table@.len() + 1,
        k1.fd_file(fd as int) == opened(k0.fs, latin1_utf8(k0.current.memory_set.cstr(k0.phys, path as int)), flags),
        forall|j: int| j != fd ==> #[trigger] k1.fd_file(j) == k0.fd_file(j),
{
    let name = latin1_utf8(k0.current.memory_set.cstr(k0.phys, path as int));
    let f = opened(k0.fs, name, flags)->0;
    let t = k0.current.fd_table@;
    lemma_next_fd(k0);
    let n = k0.next_fd();
    let table = if n < t.len() { t } else { t.push(None) };
    assert(k1.current.fd_table@ == table.update(n, Some(k0.files@.len() as usize)));
    assert(k1.files@ == k0.files@.push(f));
    assert(k1.files@[k0.files@.len() as int] == f);
    assert(n < table.len());
    assert(k0.files.len() == k0.files@.len());
    assert(k1.current.fd_table@[n] == Some(k0.files@.len() as usize));
    assert(k1.fd_file(n) == Some(f));
    assert forall|j: int| j != fd implies #[trigger] k1.fd_file(j) == k0.fd_file(j) by {
        if 0 <= j < t.len() {
            assert(k1.current.fd_table@[j] == t[j]);
            if t[j] is Some {
                assert(t[j]->0 < k0.files@.len());
                assert(k1.files@[t[j]->0 as int] == k0.files@[t[j]->0 as int]);
            }
        }
    }
}

/// A descriptor that `open` hands out can be closed, and a second close of
/// it is refused and changes nothing.
pub proof fn law_open_close_close(
    k0: Kernel,
    k1: Kernel,
    k2: Kernel,
    k3: Kernel,
    path: usize,
    flags: u32,
    fd: isize,
    r2: isize,
    r3: isize,
)
    requires
        k0.wf(),
        k0.current.fd_table@.len() < isize::MAX,
        open_call(k0, k1, path, flags, fd),
        fd >= 0,
        close_call(k1, k2, fd as usize, r2),
        close_call(k2, k3, fd as usize, r3),
    ensures
        r2 == 0,
        r3 == -1,
        k3 == k2,
{
    lemma_open_fd(k0, k1, path, flags, fd);
    assert(k1.fd_file(fd as int) is Some);
}

/// Linking a file under a name that no entry has and then unlinking that
/// name gives back the directory and the inodes as they were: the link
/// count and the bytes of the file, the bitmap and every other inode.
pub proof fn law_link_then_unlink(
    k0: Kernel,
    k1: Kernel,
    k2: Kernel,
    old_name: usize,
    new_name: usize,
    r1: isize,
    r2: isize,
)
    requires
        k0.wf(),
        lookup(k0.fs.root@, latin1_utf8(k0.current.memory_set.cstr(k0.phys, old_name as int))) is Some,
        !has_name(k0.fs.root@, latin1_utf8(k0.current.memory_set.cstr(k0.phys, new_name as int))),
        link_call(k0, k1, old_name, new_name, r1),
        unlink_call(k1, k2, new_name, r2),
    ensures
        r1 == 0,
        r2 == 0,
        k2.fs.root@ == k0.fs.root@,
        k2.fs.used@ == k0.fs.used@,
        k2.fs.inodes@.len() == k0.fs.inodes@.len(),
        forall|j: int|
            0 <= j < k0.fs.inodes@.len() ==> {
                &&& (#[trigger] k2.fs.inodes@[j]).nlink == k0.fs.inodes@[j].nlink
                &&& k2.fs.inodes@[j].is_dir == k0.fs.inodes@[j].is_dir
                &&& k2.fs.inodes@[j].data@ == k0.fs.inodes@[j].data@
            },
{
    let o = latin1_utf8(k0.current.memory_set.cstr(k0.phys, old_name as int));
    let n = latin1_utf8(k0.current.memory_set.cstr(k0.phys, new_name as int));
    assert(k1.current.memory_set.cstr(k1.phys, new_name as int) == k0.current.memory_set.cstr(k0.phys, new_name as int));
    crate::efs::lemma_link_then_unlink(k0.fs, k1.fs, k2.fs, o, n);
}

/// After a link, a file opened for reading under the old name and one opened
/// under the new name show the same `Stat`: one inode, and a link count of
/// at least 2.
pub proof fn law_linked_names_share_stat(
    k0: Kernel,
    k1: Kernel,
    k2: Kernel,
    k3: Kernel,
    k4: Kernel,
    k5: Kernel,
    old_name: usize,
    new_name: usize,
    r: isize,
    fd1: isize,
    fd2: isize,
    st1: usize,
    st2: usize,
    s1: isize,
    s2: isize,
)
    requires
        k0.wf(),
        k0.current.fd_table@.len() + 1 < isize::MAX,
        lookup(k0.fs.root@, latin1_utf8(k0.current.memory_set.cstr(k0.phys, old_name as int))) is Some,
        !has_name(k0.fs.root@, latin1_utf8(k0.current.memory_set.cstr(k0.phys, new_name as int))),
        link_call(k0, k1, old_name, new_name, r),
        open_call(k1, k2, old_name, 0, fd1),
        open_call(k2, k3, new_name, 0, fd2),
        fstat_call(k3, k4, fd1 as usize, st1, s1),
        fstat_call(k4, k5, fd2 as usize, st2, s2),
    ensures
        r == 0,
        fd1 >= 0,
        fd2 >= 0,
        s1 == 0,
        s2 == 0,
        k4.current.memory_set.user_bytes(k4.phys, st1 as int, STAT_SIZE as nat) == k5.current.memory_set.user_bytes(
            k5.phys,
            st2 as int,
            STAT_SIZE as nat,
        ),
        ({
            let id = lookup(k0.fs.root@, latin1_utf8(k0.current.memory_set.cstr(k0.phys, old_name as int)))->0;
            &&& k3.fs.inodes@[id as int].nlink >= 2
            &&& k4.current.memory_set.user_bytes(k4.phys, st1 as int, STAT_SIZE as nat) == stat_bytes(
                id as nat,
                inode_mode(k3.fs.inodes@[id as int].is_dir) as nat,
                k3.fs.inodes@[id as int].nlink as nat,
            )
        }),
{
    let o = latin1_utf8(k0.current.memory_set.cstr(k0.phys, old_name as int));
    let n = latin1_utf8(k0.current.memory_set.cstr(k0.phys, new_name as int));
    let id = lookup(k0.fs.root@, o)->0;
    lemma_rdonly();
    law_link_then_lookup(k0.fs, k1.fs, o, n);
    lemma_first_match_exists(k0.fs.root@, o);
    crate::efs::lemma_count_pos(k0.fs.root@, crate::efs::first_match(k0.fs.root@, o), id as int);
    assert(k1.current.memory_set.cstr(k1.phys, old_name as int) == k0.current.memory_set.cstr(k0.phys, old_name as int));
    assert(k2.current.memory_set.cstr(k2.phys, new_name as int) == k0.current.memory_set.cstr(k0.phys, new_name as int));
    assert(lookup(k1.fs.root@, o) == Some(id));
    lemma_open_fd(k1, k2, old_name, 0, fd1);
    assert(k2.fs.root@ == k1.fs.root@);
    assert(lookup(k2.fs.root@, n) == Some(id));
    lemma_open_fd(k2, k3, new_name, 0, fd2);
    assert(k3.fd_file(fd1 as int) == k2.fd_file(fd1 as int));
    assert(k4.fd_file(fd2 as int) == k3.fd_file(fd2 as int));
}


/// A path of ASCII bytes is opened by exactly its own bytes: the file (or
/// the new entry, with `CREATE`) is the one whose name equals the path byte
/// for byte, and where none has that name and nothing is created the call
/// gives -1 and changes nothing.
pub proof fn law_open_exact_name(k0: Kernel, k1: Kernel, path: usize, flags: u32, r: isize)
    requires
        open_call(k0, k1, path, flags, r),
        forall|i: int|
            0 <= i < k0.current.memory_set.cstr(k0.phys, path as int).len() ==> #[trigger] k0.current.memory_set.cstr(
                k0.phys,
                path as int,
            )[i] < 0x80,
    ensures
        ({
            let p = k0.current.memory_set.cstr(k0.phys, path as int);
            match opened(k0.fs, p, flags) {
                None => r == -1 && k1 == k0,
                Some(f) => open_effect(k0.fs, k1.fs, p, flags) && k1.files@ == k0.files@.push(f),
            }
        }),
{
    crate::task::law_latin1_ascii_unchanged(k0.current.memory_set.cstr(k0.phys, path as int));
}


/// An ASCII name is unlinked by exactly its own bytes: the entry removed is
/// the first whose name equals the name byte for byte.
pub proof fn law_unlink_exact_name(k0: Kernel, k1: Kernel, name: usize, r: isize)
    requires
        unlink_call(k0, k1, name, r),
        forall|i: int|
            0 <= i < k0.current.memory_set.cstr(k0.phys, name as int).len() ==> #[trigger] k0.current.memory_set.cstr(
                k0.phys,
                name as int,
            )[i] < 0x80,
    ensures
        r == 0,
        unlink_effect(k0.fs, k1.fs, k0.current.memory_set.cstr(k0.phys, name as int)),
{
    crate::task::law_latin1_ascii_unchanged(k0.current.memory_set.cstr(k0.phys, name as int));
}

} // verus!
