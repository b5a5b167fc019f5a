//! Process-management system calls.
use vstd::prelude::*;
use crate::bytes::{le_bytes, push_le};
use crate::config::VA_LIMIT;
use crate::address::{ceil, vpn_of};
use crate::frame::PhysMemory;
use crate::memory_set::{MemorySet, MapArea, law_user_write_reads_back, vpn_at, area_frames, has_area_at, area_at, lemma_area_at,
    shrink_post, append_post, areas_disjoint, copy_frames, range_frames, fork_post, releasable, released, user_space_post,
    USER_STACK_TOP_VPN};
use crate::efs::copy_bytes;
use crate::syscall::mm::{covers, mmap_in, munmap_in, mmap_post, munmap_post, mmap_frames_needed, mmap_pages, mmap_first,
    mmap_end, lemma_mmap_twice, lemma_mmap_then_munmap, lemma_munmap_twice, lemma_munmap_admitted, lemma_same_range, munmap_ok, munmap_lo, munmap_hi};
use crate::ownership::{lemma_step_refl, fresh_space};
use crate::mapping::{lemma_mmap_maps, lemma_munmap_maps, lemma_shrink_maps, lemma_append_maps, lemma_user_space_maps,
    lemma_fork_maps, lemma_mapped_distinct, lemma_word_offsets, law_fork_copies};
use crate::syscall::fs::lemma_user_sees;
use crate::task::{Kernel, lemma_tree_same, lemma_listed_kept, lemma_task_index, lemma_frames_same, lemma_frames_current, lemma_frames_one_step,
    lemma_frames_added, lemma_frames_removed, lemma_maps_current, TaskControlBlock, TaskStatus, INITPROC_PID, DEFAULT_PRIORITY, init_regs, fresh_regs, child_regs, pid_live, copy_fds, latin1_utf8, encode_latin1};
use crate::efs::lookup;
use crate::fs::{FileObject, open_file};

verus! {

/// A point in time: whole seconds and microseconds, as the user library
/// reads it.
pub struct TimeVal {
    pub sec: usize,
    pub usec: usize,
}

/// Size in bytes of `TimeVal` on the kernel's 64-bit target.
pub const TIMEVAL_SIZE: u64 = 16;

/// The in-memory image of a `TimeVal`: two little-endian 64-bit words.
pub open spec fn timeval_bytes(sec: nat, usec: nat) -> Seq<u8> {
    le_bytes(sec, 8) + le_bytes(usec, 8)
}

impl TimeVal {
    /// The in-memory image of the structure.
    pub fn to_bytes(&self) -> (r: Vec<u8>)
        ensures
            r@ == timeval_bytes(self.sec as nat, self.usec as nat),
            r@.len() == TIMEVAL_SIZE,
    {
        let mut r: Vec<u8> = Vec::new();
        push_le(&mut r, self.sec as u64, 8);
        push_le(&mut r, self.usec as u64, 8);
        proof {
            reveal_with_fuel(le_bytes, 9);
        }
        r
    }
}

/// Whether `new` differs from `old` at most in the running task's address
/// space and in physical memory.
pub open spec fn only_memory_changed(new: Kernel, old: Kernel) -> bool {
    &&& new.current.same_but_memory(old.current)
    &&& new.tasks == old.tasks
    &&& new.ready == old.ready
    &&& new.pid_next == old.pid_next
    &&& new.pid_recycled == old.pid_recycled
    &&& new.fs == old.fs
    &&& new.files == old.files
    &&& new.console_in == old.console_in
    &&& new.console_out == old.console_out
    &&& new.shutdown == old.shutdown
}

impl TaskControlBlock {
    /// Whether `self` and `o` differ at most in the address space.
    pub open spec fn same_but_memory(&self, o: TaskControlBlock) -> bool {
        &&& self.pid == o.pid
        &&& self.status == o.status
        &&& self.exit_code == o.exit_code
        &&& self.parent == o.parent
        &&& self.children == o.children
        &&& self.fd_table == o.fd_table
        &&& self.regs == o.regs
        &&& self.heap_bottom == o.heap_bottom
        &&& self.program_brk == o.program_brk
        &&& self.program == o.program
        &&& self.priority == o.priority
    }

    /// Whether `self` and `o` differ at most in priority.
    pub open spec fn same_but_priority(&self, o: TaskControlBlock) -> bool {
        &&& self.pid == o.pid
        &&& self.status == o.status
        &&& self.exit_code == o.exit_code
        &&& self.parent == o.parent
        &&& self.children == o.children
        &&& self.fd_table == o.fd_table
        &&& self.memory_set == o.memory_set
        &&& self.regs == o.regs
        &&& self.heap_bottom == o.heap_bottom
        &&& self.program_brk == o.program_brk
        &&& self.program == o.program
    }
}

/// Stores the current time, read from the clock as `time_us` microseconds,
/// in the `TimeVal` at user address `ts` as whole seconds and the
/// microseconds past them, within one page or across two; returns 0.
pub fn sys_get_time(k: &mut Kernel, ts: usize, _tz: usize, time_us: usize) -> (r: isize)
    requires
        old(k).wf(),
        ts + TIMEVAL_SIZE <= u64::MAX,
        old(k).current.memory_set.range_mapped(old(k).phys, ts as int, TIMEVAL_SIZE as int),
    ensures
        final(k).wf(),
        r == 0,
        only_memory_changed(*final(k), *old(k)),
        final(k).current.memory_set == old(k).current.memory_set,
        final(k).phys.start == old(k).phys.start,
        final(k).phys.current == old(k).phys.current,
        final(k).phys.end == old(k).phys.end,
        final(k).phys.recycled@ == old(k).phys.recycled@,
        final(k).phys.frames@.dom() == old(k).phys.frames@.dom(),
        final(k).phys.contents() == old(k).current.memory_set.store_bytes(
            old(k).phys.contents(),
            ts as int,
            timeval_bytes((time_us / 1_000_000) as nat, (time_us % 1_000_000) as nat),
        ),
        final(k).current.memory_set.user_bytes(final(k).phys, ts as int, TIMEVAL_SIZE as nat)
            == timeval_bytes((time_us / 1_000_000) as nat, (time_us % 1_000_000) as nat),
{
    let time = TimeVal { sec: time_us / 1_000_000, usec: time_us % 1_000_000 };
    let bytes = time.to_bytes();
    k.current.memory_set.write_user_bytes(&mut k.phys, ts as u64, &bytes);
    proof {
        lemma_tree_same(*old(k), *k);
        lemma_frames_same(*old(k), *k);
        lemma_user_sees(*old(k), k.phys, ts as int, bytes@);
    }
    0
}

/// What `sys_mmap(start, len, prot)` does to kernel `k0`, giving `k1` and result `r`.
pub open spec fn mmap_call(k0: Kernel, k1: Kernel, start: usize, len: usize, prot: usize, r: isize) -> bool {
    &&& k1.wf()
    &&& only_memory_changed(k1, k0)
    &&& r == 0 || r == -1
    &&& (mmap_post(
        k0.current.memory_set,
        k0.phys,
        k1.current.memory_set,
        k1.phys,
        start as u64,
        len as u64,
        prot as u64,
        r as i64,
    ))
}

/// Maps `len` bytes from `start` with protection `prot` into the running
/// task's address space (see `mmap_in`): 0, or -1 when refused.
pub fn sys_mmap(k: &mut Kernel, start: usize, len: usize, prot: usize) -> (r: isize)
    requires
        old(k).wf(),
        start + len <= usize::MAX,
        old(k).phys.free_count() >= mmap_frames_needed(old(k).current.memory_set, start as int, len as int, prot as int),
    ensures
        mmap_call(*old(k), *final(k), start, len, prot, r),
{
    let r = mmap_in(&mut k.current.memory_set, &mut k.phys, start as u64, len as u64, prot as u64);
    proof {
        lemma_tree_same(*old(k), *k);
        assert(old(k).is_proc(old(k).current.pid));
        assert(old(k).space_of(old(k).current.pid).frames_held(old(k).phys));
        lemma_frames_current(*old(k), *k);
        lemma_mmap_maps(old(k).current.memory_set, old(k).phys, k.current.memory_set, k.phys, start as u64, len as u64,
            prot as u64, r);
        lemma_maps_current(*old(k), *k);
    }
    r as isize
}

/// What `sys_munmap(start, len)` does to kernel `k0`, giving `k1` and result `r`.
pub open spec fn munmap_call(k0: Kernel, k1: Kernel, start: usize, len: usize, r: isize) -> bool {
    &&& k1.wf()
    &&& only_memory_changed(k1, k0)
    &&& r == 0 || r == -1
    &&& (munmap_post(
        k0.current.memory_set,
        k0.phys,
        k1.current.memory_set,
        k1.phys,
        start as u64,
        len as u64,
        r as i64,
    ))
}

/// Unmaps the pages of `len` bytes from `start` in the running task's
/// address space (see `munmap_in`): 0, or -1 when refused.
pub fn sys_munmap(k: &mut Kernel, start: usize, len: usize) -> (r: isize)
    requires
        old(k).wf(),
        1 <= start + len <= usize::MAX,
        start as u64 % 4096 == 0 ==> munmap_ok(
            old(k).current.memory_set,
            munmap_lo(start as int),
            munmap_hi(start as int, len as int),
        ),
    ensures
        munmap_call(*old(k), *final(k), start, len, r),
{
    proof {
        assert(k.is_proc(k.current.pid));
        assert(k.space_of(k.current.pid).frames_held(k.phys));
    }
    let r = munmap_in(&mut k.current.memory_set, &mut k.phys, start as u64, len as u64);
    proof {
        lemma_tree_same(*old(k), *k);
        lemma_frames_current(*old(k), *k);
        lemma_munmap_maps(old(k).current.memory_set, old(k).phys, k.current.memory_set, k.phys, start as u64, len as u64, r);
        lemma_maps_current(*old(k), *k);
    }
    r as isize
}

/// The process id of the running task.
pub fn sys_getpid(k: &Kernel) -> (r: isize)
    ensures
        r == k.current.pid as isize,
{
    k.current.pid as isize
}

/// Sets the priority of the running task to `prio` and returns it; a
/// priority below 2 is refused with -1 and nothing changes.
pub fn sys_set_priority(k: &mut Kernel, prio: isize) -> (r: isize)
    requires
        old(k).wf(),
    ensures
        final(k).wf(),
        prio >= 2 ==> {
            &&& r == prio
            &&& final(k).current.priority == prio
            &&& final(k).current.same_but_priority(old(k).current)
            &&& final(k).tasks == old(k).tasks
            &&& final(k).ready == old(k).ready
            &&& final(k).pid_next == old(k).pid_next
            &&& final(k).pid_recycled == old(k).pid_recycled
            &&& final(k).phys == old(k).phys
            &&& final(k).fs == old(k).fs
            &&& final(k).files == old(k).files
            &&& final(k).console_in == old(k).console_in
            &&& final(k).console_out == old(k).console_out
            &&& final(k).shutdown == old(k).shutdown
        },
        prio < 2 ==> r == -1 && *final(k) == *old(k),
{
    if prio < 2 {
        return -1;
    }
    k.current.priority = prio;
    proof {
        lemma_tree_same(*old(k), *k);
        lemma_frames_same(*old(k), *k);
    }
    prio
}

/// Gives up the processor: the running task goes to the back of the ready
/// queue and the task at its front runs (the same task again when the queue
/// was empty). Returns 0 to the caller when it runs again.
pub fn sys_yield(k: &mut Kernel) -> (r: isize)
    requires
        old(k).wf(),
    ensures
        final(k).wf(),
        r == 0,
        final(k).pid_next == old(k).pid_next,
        final(k).pid_recycled == old(k).pid_recycled,
        final(k).phys == old(k).phys,
        final(k).fs == old(k).fs,
        final(k).files == old(k).files,
        final(k).console_in == old(k).console_in,
        final(k).console_out == old(k).console_out,
        final(k).shutdown == old(k).shutdown,
        final(k).current.status == TaskStatus::Running,
        old(k).ready@.len() == 0 ==> {
            &&& final(k).current.same_but_status(old(k).current)
            &&& final(k).tasks == old(k).tasks
            &&& final(k).ready@ == old(k).ready@
        },
        old(k).ready@.len() > 0 ==> {
            let i = old(k).task_index(old(k).ready@[0]);
            &&& final(k).current.same_but_status(old(k).tasks@[i])
            &&& final(k).tasks@ == old(k).tasks@.remove(i).push(final(k).tasks@.last())
            &&& final(k).tasks@.last().same_but_status(old(k).current)
            &&& final(k).tasks@.last().status == TaskStatus::Ready
            &&& final(k).ready@ == old(k).ready@.drop_first().push(old(k).current.pid)
        },
{
    let pid = k.current.pid;
    proof {
        if old(k).ready@.len() > 0 {
            assert(old(k).ready_ok(old(k).ready@[0]));
        }
    }
    k.ready.push(pid);
    let next = k.ready.remove(0);
    if next == pid {
        proof {
            if old(k).ready@.len() > 0 {
                let j = choose|j: int| 0 <= j < old(k).tasks@.len() && (#[trigger] old(k).tasks@[j]).pid == old(k).ready@[0];
                assert(old(k).tasks@[j].pid != old(k).current.pid);
            }
            assert(k.ready@ =~= old(k).ready@);
        }
        k.current.status = TaskStatus::Running;
        proof {
            lemma_tree_same(*old(k), *k);
            lemma_frames_same(*old(k), *k);
        }
        return 0;
    }
    proof {
        assert(old(k).ready@.len() > 0);
        assert(next == old(k).ready@[0]);
    }
    let i = k.find_task(next).unwrap();
    let mut t = k.tasks.remove(i);
    t.status = TaskStatus::Running;
    std::mem::swap(&mut k.current, &mut t);
    t.status = TaskStatus::Ready;
    let ghost tasks1 = k.tasks@;
    k.tasks.push(t);
    proof {
        assert(k.ready@ =~= old(k).ready@.drop_first().push(old(k).current.pid));
        let ot = old(k).tasks@;
        assert(tasks1 == ot.remove(i as int));
        assert forall|a: int| 0 <= a < k.tasks@.len() implies (#[trigger] k.tasks@[a]).memory_set.wf() && k.tasks@[a].fds_below(k.files@.len()) by {
            if a < i {
                assert(k.tasks@[a] == ot[a]);
            } else if a < tasks1.len() {
                assert(k.tasks@[a] == ot[a + 1]);
            }
        }
        assert forall|a: int| 0 <= a < k.tasks@.len() implies crate::task::pid_live((#[trigger] k.tasks@[a]).pid, k.pid_next, k.pid_recycled@) by {
            if a < i {
                assert(k.tasks@[a] == ot[a]);
            } else if a < tasks1.len() {
                assert(k.tasks@[a] == ot[a + 1]);
            }
        }
        assert forall|a: int| 0 <= a < k.tasks@.len() implies (#[trigger] k.tasks@[a]).pid != k.current.pid by {
            if a < i {
                assert(k.tasks@[a] == ot[a]);
            } else if a < tasks1.len() {
                assert(k.tasks@[a] == ot[a + 1]);
            }
        }
        assert forall|a: int, b: int| 0 <= a < b < k.tasks@.len() implies (#[trigger] k.tasks@[a]).pid != (#[trigger] k.tasks@[b]).pid by {
            let ia = if a < i { a } else { a + 1 };
            let ib = if b < i { b } else { b + 1 };
            if b < tasks1.len() {
                assert(k.tasks@[a] == ot[ia]);
                assert(k.tasks@[b] == ot[ib]);
            } else {
                assert(k.tasks@[a] == ot[ia]);
            }
        }
        lemma_yield_tree(*old(k), *k, i as int);
    }
    0
}

/// Switching from the running task to ready task `i`, which was at the front
/// of the ready queue, keeps the process tree consistent.
proof fn lemma_yield_tree(k0: Kernel, k1: Kernel, i: int)
    requires
        k0.wf(),
        k1.pids_ok(),
        0 <= i < k0.tasks@.len(),
        k0.ready@.len() > 0,
        k0.tasks@[i].pid == k0.ready@[0],
        k1.current.same_but_status(k0.tasks@[i]),
        k1.tasks@ == k0.tasks@.remove(i).push(k1.tasks@.last()),
        k1.tasks@.last().same_but_status(k0.current),
        k1.tasks@.last().status == TaskStatus::Ready,
        k1.ready@ == k0.ready@.drop_first().push(k0.current.pid),
    ensures
        k1.tree_ok(),
        k1.phys == k0.phys ==> k1.frames_ok(),
{
    let n = k0.tasks@.len();
    let t = k1.tasks@.last();
    let nx = k0.tasks@[i];
    lemma_task_index(k0, i);
    lemma_task_index(k1, n - 1);
    assert forall|p: u64| k0.is_proc(p) implies #[trigger] k1.is_proc(p) && k1.parent_of(p) == k0.parent_of(p)
        && k1.space_of(p) == k0.space_of(p) by {
        if p != k0.current.pid && p != nx.pid {
            let j = k0.task_index(p);
            let j1 = if j < i { j } else { j - 1 };
            assert(j != i);
            lemma_task_index(k1, j1);
            assert(k1.tasks@[j1] == k0.tasks@[j]);
        }
    }
    assert forall|p: u64| #[trigger] k1.is_proc(p) implies k0.is_proc(p) by {
        if p != k1.current.pid && p != k0.current.pid {
            let a = k1.task_index(p);
            if a < n - 1 {
                let j = if a < i { a } else { a + 1 };
                assert(k1.tasks@[a] == k0.tasks@[j]);
                assert(0 <= j < n && k0.tasks@[j].pid == p);
            }
        }
    }
    assert forall|p: u64, c: u64| #[trigger] k1.child_ok(p, c) == k0.child_ok(p, c) by {
        if k0.is_proc(c) {
            assert(k1.is_proc(c));
        }
        if k1.is_proc(c) {
            assert(k0.is_proc(c));
        }
    }
    assert forall|x: TaskControlBlock| #[trigger] k0.children_ok(x) implies k1.children_ok(x) by {
        assert forall|j: int| 0 <= j < x.children@.len() implies #[trigger] k1.child_ok(x.pid, x.children@[j]) by {
            assert(k0.child_ok(x.pid, x.children@[j]));
        }
    }
    assert(k1.children_ok(k1.current)) by {
        assert(k0.children_ok(nx));
        assert(k1.children_ok(nx));
    }
    assert forall|p: u64| k0.is_proc(p) implies #[trigger] k1.is_proc(p) && k1.children_of(p) == k0.children_of(p) by {
        if p != k0.current.pid && p != nx.pid {
            let j = k0.task_index(p);
            let j1 = if j < i { j } else { j - 1 };
            lemma_task_index(k1, j1);
            assert(k1.tasks@[j1] == k0.tasks@[j]);
        }
    }
    lemma_listed_kept(k0, k1);
    assert(k0.listed_ok(nx));
    assert(k0.listed_ok(k0.current));
    assert forall|a: int| 0 <= a < k1.tasks@.len() implies #[trigger] k1.listed_ok(k1.tasks@[a]) by {
        if a < n - 1 {
            let j = if a < i { a } else { a + 1 };
            assert(k1.tasks@[a] == k0.tasks@[j]);
            assert(k0.listed_ok(k0.tasks@[j]));
        }
    }
    assert forall|a: int| 0 <= a < k1.tasks@.len() implies #[trigger] k1.children_ok(k1.tasks@[a]) by {
        if a < n - 1 {
            let j = if a < i { a } else { a + 1 };
            assert(k1.tasks@[a] == k0.tasks@[j]);
            assert(k0.children_ok(k0.tasks@[j]));
        } else {
            assert(k0.children_ok(k0.current));
            assert(k1.children_ok(k0.current));
        }
    }
    let r0 = k0.ready@;
    assert(!r0.contains(k0.current.pid)) by {
        if r0.contains(k0.current.pid) {
            let z = choose|z: int| 0 <= z < r0.len() && r0[z] == k0.current.pid;
            assert(k0.ready_ok(r0[z]));
            let j = k0.task_index(r0[z]);
            assert(k0.tasks@[j].pid != k0.current.pid);
        }
    }
    assert(k1.ready@.no_duplicates()) by {
        assert forall|a: int, b: int| 0 <= a < b < k1.ready@.len() implies k1.ready@[a] != k1.ready@[b] by {
            if b < k1.ready@.len() - 1 {
                assert(k1.ready@[a] == r0[a + 1]);
                assert(k1.ready@[b] == r0[b + 1]);
            } else {
                assert(k1.ready@[a] == r0[a + 1]);
            }
        }
    }
    assert forall|a: int| 0 <= a < k1.ready@.len() implies #[trigger] k1.ready_ok(k1.ready@[a]) by {
        if a < k1.ready@.len() - 1 {
            let p = r0[a + 1];
            assert(k1.ready@[a] == p);
            assert(k0.ready_ok(p));
            assert(p != r0[0]);
            let j = k0.task_index(p);
            assert(j != i);
            let j1 = if j < i { j } else { j - 1 };
            lemma_task_index(k1, j1);
            assert(k1.tasks@[j1] == k0.tasks@[j]);
        }
    }
    assert(k0.is_proc(INITPROC_PID));
    assert(k1.is_proc(INITPROC_PID));
    assert(k1.parent_of(INITPROC_PID) is None);
    assert(k1.children_ok(k1.current));
    assert(forall|a: int| 0 <= a < k1.tasks@.len() ==> #[trigger] k1.children_ok(k1.tasks@[a]));
    assert(forall|a: int| 0 <= a < k1.ready@.len() ==> #[trigger] k1.ready_ok(k1.ready@[a]));
    if k1.phys == k0.phys {
        let x = k0.current.pid;
        assert(k0.is_proc(x));
        assert(k0.space_of(x).frames_held(k0.phys));
        lemma_step_refl(k0.space_of(x), k0.phys);
        assert forall|p: u64| #[trigger] k1.is_proc(p) == k0.is_proc(p) by {
            if k0.is_proc(p) {
                assert(k1.is_proc(p));
            }
        }
        assert forall|p: u64| p != x && k0.is_proc(p) implies #[trigger] k1.space_of(p) == k0.space_of(p) by {
            assert(k1.is_proc(p));
        }
        assert(k1.space_of(x) == k0.space_of(x)) by {
            assert(k1.is_proc(x));
        }
        lemma_frames_one_step(k0, k1, x);
    }
}

/// Whether `waitpid(pid, ..)` waits for child `c`: any child for -1, else
/// the one with that process id.
pub open spec fn pid_matches(pid: isize, c: u64) -> bool {
    pid == -1 || pid as usize as u64 == c
}

impl Kernel {
    /// Whether some child of the running task is one that `waitpid(pid, ..)`
    /// waits for.
    pub open spec fn has_matching_child(&self, pid: isize) -> bool {
        exists|i: int| 0 <= i < self.current.children@.len() && pid_matches(pid, #[trigger] self.current.children@[i])
    }

    /// Whether child `i` of the running task is a zombie that
    /// `waitpid(pid, ..)` waits for.
    pub open spec fn reapable(&self, pid: isize, i: int) -> bool {
        let c = self.current.children@[i];
        pid_matches(pid, c) && self.task(c).status == TaskStatus::Zombie
    }

    /// Whether child `i` is the first that `waitpid(pid, ..)` can reap.
    pub open spec fn first_reapable(&self, pid: isize, i: int) -> bool {
        &&& 0 <= i < self.current.children@.len()
        &&& self.reapable(pid, i)
        &&& forall|j: int| 0 <= j < i ==> !#[trigger] self.reapable(pid, j)
    }

    /// Whether some child can be reaped by `waitpid(pid, ..)`.
    pub open spec fn can_reap(&self, pid: isize) -> bool {
        exists|i: int| 0 <= i < self.current.children@.len() && #[trigger] self.reapable(pid, i)
    }

    /// The child that `waitpid(pid, ..)` reaps.
    pub open spec fn reaped(&self, pid: isize) -> int {
        choose|i: int| self.first_reapable(pid, i)
    }
}

proof fn lemma_first_reapable_unique(k: Kernel, pid: isize, i: int)
    requires
        k.first_reapable(pid, i),
    ensures
        k.can_reap(pid),
        k.reaped(pid) == i,
{
    let j = k.reaped(pid);
    assert(k.first_reapable(pid, j));
    if j < i {
        assert(!k.reapable(pid, j));
    }
    if i < j {
        assert(!k.reapable(pid, i));
    }
}

/// Waiting for a given process id that names a child which has exited reaps
/// that very child.
pub proof fn law_waitpid_reaps_pid(k: Kernel, i: int)
    requires
        0 <= i < k.current.children@.len(),
        k.current.children@[i] <= isize::MAX,
        k.task(k.current.children@[i]).status == TaskStatus::Zombie,
    ensures
        k.can_reap(k.current.children@[i] as isize),
        k.current.children@[k.reaped(k.current.children@[i] as isize)] == k.current.children@[i],
{
    let c = k.current.children@[i];
    let pid = c as isize;
    assert(pid as usize as u64 == c);
    assert(k.reapable(pid, i));
    let w = k.reaped(pid);
    assert(exists|m: int| k.first_reapable(pid, m)) by {
        lemma_first_reapable_exists(k, pid, i);
    }
    assert(k.first_reapable(pid, w));
    assert(pid_matches(pid, k.current.children@[w]));
}

/// Among the children `0..=i`, where child `i` can be reaped, a first one
/// that can be reaped exists.
proof fn lemma_first_reapable_exists(k: Kernel, pid: isize, i: int)
    requires
        0 <= i < k.current.children@.len(),
        k.reapable(pid, i),
    ensures
        exists|m: int| k.first_reapable(pid, m),
    decreases i,
{
    if exists|j: int| 0 <= j < i && #[trigger] k.reapable(pid, j) {
        let j = choose|j: int| 0 <= j < i && #[trigger] k.reapable(pid, j);
        lemma_first_reapable_exists(k, pid, j);
    } else {
        assert(k.first_reapable(pid, i));
    }
}

/// What `sys_waitpid(pid, exit_code_ptr)` does to kernel `k0`, giving `k1` and result `r`.
pub open spec fn waitpid_call(k0: Kernel, k1: Kernel, pid: isize, exit_code_ptr: usize, r: isize) -> bool {
    &&& k1.wf()
    &&& !k0.has_matching_child(pid) ==> r == -1 && k1 == k0
    &&& k0.has_matching_child(pid) && !k0.can_reap(pid) ==> r == -2 && k1 == k0
    &&& (k0.can_reap(pid) ==> {
        let i = k0.reaped(pid);
        let c = k0.current.children@[i];
        let child = k0.task(c);
        let mid = PhysMemory { recycled: k1.phys.recycled, ..k0.phys };
        &&& r == c as isize
        &&& k1.current.children@ == k0.current.children@.remove(i)
        &&& k1.current.pid == k0.current.pid
        &&& k1.current.status == k0.current.status
        &&& k1.current.exit_code == k0.current.exit_code
        &&& k1.current.parent == k0.current.parent
        &&& k1.current.fd_table == k0.current.fd_table
        &&& k1.current.memory_set == k0.current.memory_set
        &&& k1.current.regs == k0.current.regs
        &&& k1.current.heap_bottom == k0.current.heap_bottom
        &&& k1.current.program_brk == k0.current.program_brk
        &&& k1.current.program == k0.current.program
        &&& k1.current.priority == k0.current.priority
        &&& k1.tasks@ == k0.tasks@.remove(k0.task_index(c))
        &&& k1.pid_recycled@ == k0.pid_recycled@.push(c)
        &&& k1.pid_next == k0.pid_next
        &&& k1.ready == k0.ready
        &&& k1.fs == k0.fs
        &&& k1.files == k0.files
        &&& k1.console_in == k0.console_in
        &&& k1.console_out == k0.console_out
        &&& k1.shutdown == k0.shutdown
        &&& k1.phys.recycled@ == k0.phys.recycled@ + child.memory_set.owned_frames()
        &&& k1.phys.start == k0.phys.start
        &&& k1.phys.current == k0.phys.current
        &&& k1.phys.end == k0.phys.end
        &&& k1.phys.frames@.dom() == k0.phys.frames@.dom()
        &&& k1.phys.contents() == k0.current.memory_set.store_bytes(
            k0.phys.contents(),
            exit_code_ptr as int,
            le_bytes(child.exit_code as u32 as nat, 4),
        )
        &&& k1.current.memory_set.user_bytes(k1.phys, exit_code_ptr as int, 4)
            == le_bytes(child.exit_code as u32 as nat, 4)
    })
}

/// Waits for a child of the running task: -1 when no child is `pid` (any
/// child for -1); -2 when such a child exists but none has exited; else the
/// first such child that has exited is reaped (its process id and its frames
/// are released), its exit code is stored at user address `exit_code_ptr`,
/// and its process id is returned.
pub fn sys_waitpid(k: &mut Kernel, pid: isize, exit_code_ptr: usize) -> (r: isize)
    requires
        old(k).wf(),
        old(k).can_reap(pid) ==> {
            &&& exit_code_ptr % 4 == 0
            &&& exit_code_ptr + 4 <= u64::MAX
            &&& old(k).current.memory_set.range_mapped(old(k).phys, exit_code_ptr as int, 4)
        },
    ensures
        waitpid_call(*old(k), *final(k), pid, exit_code_ptr, r),
{
    let n = k.current.children.len();
    let mut i: usize = 0;
    let mut any = false;
    while i < n
        invariant
            n == k.current.children@.len(),
            i <= n,
            *k == *old(k),
            any == exists|j: int| 0 <= j < i && pid_matches(pid, #[trigger] k.current.children@[j]),
        decreases n - i,
    {
        let c = k.current.children[i];
        if pid == -1 || pid as usize as u64 == c {
            any = true;
        }
        proof {
            if any && !(pid == -1 || pid as usize as u64 == c) {
                let j = choose|j: int| 0 <= j < i && pid_matches(pid, #[trigger] k.current.children@[j]);
                assert(0 <= j < i + 1 && pid_matches(pid, k.current.children@[j]));
            }
        }
        i = i + 1;
    }
    if !any {
        return -1;
    }
    let mut found: Option<usize> = None;
    i = 0;
    while i < n
        invariant_except_break
            found is None,
            forall|j: int| 0 <= j < i ==> !#[trigger] k.reapable(pid, j),
        invariant
            old(k).wf(),
            n == k.current.children@.len(),
            i <= n,
            *k == *old(k),
        ensures
            found is None ==> forall|j: int| 0 <= j < n ==> !#[trigger] k.reapable(pid, j),
            found matches Some(x) ==> k.first_reapable(pid, x as int),
        decreases n - i,
    {
        let c = k.current.children[i];
        assert(k.child_ok(k.current.pid, k.current.children@[i as int]));
        let ti = k.find_task(c).unwrap();
        if k.tasks[ti].status == TaskStatus::Zombie && (pid == -1 || pid as usize as u64 == c) {
            proof {
                assert(k.pids_ok());
                assert(ti as int == k.task_index(c));
                assert(k.reapable(pid, i as int));
                assert(forall|j: int| 0 <= j < i ==> !#[trigger] k.reapable(pid, j));
                assert(k.first_reapable(pid, i as int));
            }
            found = Some(i);
            break;
        }
        proof {
            assert(k.pids_ok());
            assert(ti as int == k.task_index(c));
            assert(!k.reapable(pid, i as int));
        }
        i = i + 1;
    }
    match found {
        None => {
            proof {
                if old(k).can_reap(pid) {
                    let j = choose|j: int| 0 <= j < old(k).current.children@.len() && #[trigger] old(k).reapable(pid, j);
                    assert(!k.reapable(pid, j));
                }
            }
            -2
        },
        Some(idx) => {
            proof {
                lemma_first_reapable_unique(*old(k), pid, idx as int);
                assert(k.children_ok(k.current));
                assert(k.child_ok(k.current.pid, k.current.children@[idx as int]));
            }
            let c = k.current.children.remove(idx);
            let ti = k.find_task(c).unwrap();
            let child = k.tasks.remove(ti);
            let found_pid = child.pid;
            let exit_code = child.exit_code;
            let mut bytes: Vec<u8> = Vec::new();
            push_le(&mut bytes, exit_code as u32 as u64, 4);
            proof {
                assert(bytes@.len() == 4) by {
                    reveal_with_fuel(le_bytes, 5);
                }
            }
            k.current.memory_set.write_user_bytes(&mut k.phys, exit_code_ptr as u64, &bytes);
            let ghost pm1 = k.phys;
            proof {
                lemma_word_offsets(exit_code_ptr as u64);
                law_user_write_reads_back(k.current.memory_set, old(k).phys, pm1, exit_code_ptr as u64, bytes@);
            }
            k.pid_recycled.push(found_pid);
            let TaskControlBlock { memory_set, .. } = child;
            proof {
                lemma_task_index(*old(k), ti as int);
                assert(old(k).is_proc(c));
                assert(old(k).space_of(c) == memory_set);
                assert(memory_set.frames_held(old(k).phys));
                memory_set.lemma_held_releasable(old(k).phys);
                assert(releasable(k.phys, memory_set.owned_frames())) by {
                    assert forall|x: int| 0 <= x < memory_set.owned_frames().len() implies k.phys.is_allocated(#[trigger] memory_set.owned_frames()[x]) by {
                        assert(old(k).phys.is_allocated(memory_set.owned_frames()[x]));
                    }
                }
            }
            memory_set.release(&mut k.phys);
            proof {
                let ot = old(k).tasks@;
                assert(ti as int == old(k).task_index(c));
                assert forall|a: int| 0 <= a < k.tasks@.len() implies (#[trigger] k.tasks@[a]).memory_set.wf() && k.tasks@[a].fds_below(k.files@.len()) by {
                    if a < ti { assert(k.tasks@[a] == ot[a]); } else { assert(k.tasks@[a] == ot[a + 1]); }
                }
                assert forall|a: int| 0 <= a < k.tasks@.len() implies pid_live((#[trigger] k.tasks@[a]).pid, k.pid_next, k.pid_recycled@) by {
                    let b = if a < ti { a } else { a + 1 };
                    assert(k.tasks@[a] == ot[b]);
                    assert(ot[b].pid != ot[ti as int].pid);
                    assert(pid_live(ot[b].pid, old(k).pid_next, old(k).pid_recycled@));
                }
                assert forall|a: int| 0 <= a < k.tasks@.len() implies (#[trigger] k.tasks@[a]).pid != k.current.pid by {
                    if a < ti { assert(k.tasks@[a] == ot[a]); } else { assert(k.tasks@[a] == ot[a + 1]); }
                }
                assert forall|a: int, b: int| 0 <= a < b < k.tasks@.len() implies (#[trigger] k.tasks@[a]).pid != (#[trigger] k.tasks@[b]).pid by {
                    let ia = if a < ti { a } else { a + 1 };
                    let ib = if b < ti { b } else { b + 1 };
                    assert(k.tasks@[a] == ot[ia]);
                    assert(k.tasks@[b] == ot[ib]);
                }
                assert(pid_live(found_pid, old(k).pid_next, old(k).pid_recycled@));
                assert forall|x: int| 0 <= x < k.pid_recycled@.len() implies #[trigger] k.pid_recycled@[x] < k.pid_next by {
                    if x < old(k).pid_recycled@.len() {
                        assert(old(k).pid_recycled@[x] < old(k).pid_next);
                    }
                }
                assert(!k.pid_recycled@.contains(k.current.pid));
                assert(k.pid_recycled@.no_duplicates());
                assert(k.pids_ok());
                lemma_reap_tree(*old(k), *k, idx as int, ti as int);
                lemma_frames_removed(*old(k), *k, c, pm1);
                assert(k.current.memory_set.user_bytes(k.phys, exit_code_ptr as int, 4) =~= k.current.memory_set.user_bytes(
                    pm1,
                    exit_code_ptr as int,
                    4,
                ));
            }
            found_pid as isize
        },
    }
}

/// Reaping zombie child `idx` of the running task, task `ti`, keeps the
/// process tree consistent.
proof fn lemma_reap_tree(k0: Kernel, k1: Kernel, idx: int, ti: int)
    requires
        k0.pids_ok(),
        k0.tree_ok(),
        k1.pids_ok(),
        0 <= idx < k0.current.children@.len(),
        0 <= ti < k0.tasks@.len(),
        k0.tasks@[ti].pid == k0.current.children@[idx],
        k0.tasks@[ti].status == TaskStatus::Zombie,
        k1.tasks@ == k0.tasks@.remove(ti),
        k1.current.children@ == k0.current.children@.remove(idx),
        k1.current.pid == k0.current.pid,
        k1.current.parent == k0.current.parent,
        k1.current.memory_set == k0.current.memory_set,
        k1.ready@ == k0.ready@,
    ensures
        k1.tree_ok(),
        forall|p: u64| #[trigger] k1.is_proc(p) == (k0.is_proc(p) && p != k0.current.children@[idx]),
        forall|p: u64| k1.is_proc(p) ==> #[trigger] k1.space_of(p) == k0.space_of(p),
{
    let c = k0.current.children@[idx];
    let cur = k0.current.pid;
    lemma_task_index(k0, ti);
    assert(k0.children_ok(k0.current));
    assert(k0.child_ok(cur, c));
    assert forall|p: u64| k0.is_proc(p) && p != c implies #[trigger] k1.is_proc(p) && k1.parent_of(p) == k0.parent_of(p)
        && k1.space_of(p) == k0.space_of(p) by {
        if p != cur {
            let j = k0.task_index(p);
            assert(j != ti);
            let j1 = if j < ti { j } else { j - 1 };
            lemma_task_index(k1, j1);
            assert(k1.tasks@[j1] == k0.tasks@[j]);
        }
    }
    assert forall|p: u64, x: u64| k0.child_ok(p, x) && x != c implies #[trigger] k1.child_ok(p, x) by {}
    assert forall|a: int| 0 <= a < k1.tasks@.len() implies #[trigger] k1.children_ok(k1.tasks@[a]) by {
        let b = if a < ti { a } else { a + 1 };
        let t = k0.tasks@[b];
        assert(k1.tasks@[a] == t);
        assert(k0.children_ok(t));
        assert(t.pid != cur);
        assert forall|j: int| 0 <= j < t.children@.len() implies #[trigger] k1.child_ok(t.pid, t.children@[j]) by {
            assert(k0.child_ok(t.pid, t.children@[j]));
        }
    }
    let cs = k0.current.children@;
    assert(k1.children_ok(k1.current)) by {
        assert forall|j: int| 0 <= j < k1.current.children@.len() implies #[trigger] k1.child_ok(cur, k1.current.children@[j]) by {
            let b = if j < idx { j } else { j + 1 };
            assert(k1.current.children@[j] == cs[b]);
            assert(k0.child_ok(cur, cs[b]));
        }
    }
    assert forall|a: int| 0 <= a < k1.ready@.len() implies #[trigger] k1.ready_ok(k1.ready@[a]) by {
        let p = k0.ready@[a];
        assert(k0.ready_ok(p));
        let j = k0.task_index(p);
        assert(j != ti);
        let j1 = if j < ti { j } else { j - 1 };
        lemma_task_index(k1, j1);
        assert(k1.tasks@[j1] == k0.tasks@[j]);
    }
    assert(k0.is_proc(INITPROC_PID));
    assert(k1.is_proc(INITPROC_PID));
    assert(k1.parent_of(INITPROC_PID) is None);
    assert forall|p: u64| #[trigger] k1.is_proc(p) implies k0.is_proc(p) && p != c by {
        if p != cur {
            let a = k1.task_index(p);
            let b = if a < ti { a } else { a + 1 };
            assert(k1.tasks@[a] == k0.tasks@[b]);
            assert(0 <= b < k0.tasks@.len() && k0.tasks@[b].pid == p);
            assert(b != ti);
            assert(k0.tasks@[b].pid != k0.tasks@[ti].pid);
        }
    }
    assert forall|p: u64| #[trigger] k1.is_proc(p) == (k0.is_proc(p) && p != c) by {
        if k0.is_proc(p) && p != c {
            assert(k1.is_proc(p));
        }
    }
    assert forall|p: u64| k1.is_proc(p) implies #[trigger] k1.space_of(p) == k0.space_of(p) by {
        assert(k0.is_proc(p) && p != c);
    }
    assert(c != INITPROC_PID) by {
        assert(k0.parent_of(c) == Some(cur));
    }
    assert(k0.tasks@[ti].children@.len() == 0);
    assert forall|t: TaskControlBlock| t.pid != c && #[trigger] k0.listed_ok(t) implies k1.listed_ok(t) by {
        if let Some(q) = t.parent {
            if q == c {
                assert(k0.children_of(c) == k0.tasks@[ti].children@);
                assert(k0.children_of(c).contains(t.pid));
            }
            assert(k1.is_proc(q));
            if q == cur {
                let b = choose|b: int| 0 <= b < cs.len() && cs[b] == t.pid;
                assert(b != idx);
                let j = if b < idx { b } else { b - 1 };
                assert(k1.current.children@[j] == t.pid);
            } else {
                let j = k0.task_index(q);
                assert(j != ti);
                let j1 = if j < ti { j } else { j - 1 };
                lemma_task_index(k1, j1);
                assert(k1.tasks@[j1] == k0.tasks@[j]);
            }
        }
    }
    assert(k0.listed_ok(k0.current));
    assert forall|a: int| 0 <= a < k1.tasks@.len() implies #[trigger] k1.listed_ok(k1.tasks@[a]) && (k1.tasks@[a].status
        == TaskStatus::Zombie && k1.tasks@[a].pid != INITPROC_PID ==> k1.tasks@[a].children@.len() == 0) by {
        let b = if a < ti { a } else { a + 1 };
        assert(k1.tasks@[a] == k0.tasks@[b]);
        assert(k0.listed_ok(k0.tasks@[b]));
        assert(k0.tasks@[b].pid != k0.tasks@[ti].pid);
    }
}

/// A new process id is handed out, and no process has it.
proof fn lemma_pid_fresh(k0: Kernel, k1: Kernel, p: u64)
    requires
        k0.pids_ok(),
        p == k0.next_pid(),
        k0.pid_recycled@.len() > 0 ==> k1.pid_recycled@ == k0.pid_recycled@.drop_last() && k1.pid_next == k0.pid_next,
        k0.pid_recycled@.len() == 0 ==> k1.pid_recycled@ == k0.pid_recycled@ && k1.pid_next == k0.pid_next + 1,
    ensures
        pid_live(p, k1.pid_next, k1.pid_recycled@),
        p != k0.current.pid,
        forall|i: int| 0 <= i < k0.tasks@.len() ==> (#[trigger] k0.tasks@[i]).pid != p,
        forall|q: u64| pid_live(q, k0.pid_next, k0.pid_recycled@) ==> pid_live(q, k1.pid_next, k1.pid_recycled@),
        k1.pid_recycled@.no_duplicates(),
        forall|i: int| 0 <= i < k1.pid_recycled@.len() ==> #[trigger] k1.pid_recycled@[i] < k1.pid_next,
{
    let r0 = k0.pid_recycled@;
    if r0.len() > 0 {
        assert(r0 == k1.pid_recycled@.push(p));
        assert(r0.contains(p));
        assert(!k1.pid_recycled@.contains(p)) by {
            if k1.pid_recycled@.contains(p) {
                let z = choose|z: int| 0 <= z < k1.pid_recycled@.len() && k1.pid_recycled@[z] == p;
                assert(r0[z] == r0[r0.len() - 1]);
            }
        }
        assert(r0[r0.len() - 1] < k0.pid_next);
        assert forall|q: u64| pid_live(q, k0.pid_next, r0) implies pid_live(q, k1.pid_next, k1.pid_recycled@) by {
            if k1.pid_recycled@.contains(q) {
                let z = choose|z: int| 0 <= z < k1.pid_recycled@.len() && k1.pid_recycled@[z] == q;
                assert(r0[z] == q);
            }
        }
        assert forall|i: int| 0 <= i < k1.pid_recycled@.len() implies #[trigger] k1.pid_recycled@[i] < k1.pid_next by {
            assert(r0[i] < k0.pid_next);
        }
    } else {
        assert forall|i: int| 0 <= i < k1.pid_recycled@.len() implies #[trigger] k1.pid_recycled@[i] < k1.pid_next by {
            assert(r0[i] < k0.pid_next);
        }
    }
}

/// The process table after adding task `child` (whose process id is fresh)
/// keeps the kernel's invariant.
proof fn lemma_add_task(k0: Kernel, k1: Kernel, child: TaskControlBlock)
    requires
        k0.wf(),
        k1.phys.wf(),
        k1.fs == k0.fs,
        k1.files@.len() >= k0.files@.len(),
        forall|i: int| 0 <= i < k1.files@.len() ==> crate::task::file_ok(#[trigger] k1.files@[i], k1.fs.inodes@.len()),
        k1.current.pid == k0.current.pid,
        k1.current.memory_set.wf(),
        k1.current.fds_below(k1.files@.len()),
        k1.tasks@ == k0.tasks@.push(child),
        child.memory_set.wf(),
        child.fds_below(k1.files@.len()),
        child.regs@.len() == 32,
        k1.current.regs@.len() == 32,
        child.pid == k0.next_pid(),
        k0.pid_recycled@.len() > 0 ==> k1.pid_recycled@ == k0.pid_recycled@.drop_last() && k1.pid_next == k0.pid_next,
        k0.pid_recycled@.len() == 0 ==> k1.pid_recycled@ == k0.pid_recycled@ && k1.pid_next == k0.pid_next + 1,
        k1.ready@ == k0.ready@.push(child.pid),
        k1.current.parent == k0.current.parent,
        k1.current.children@ == k0.current.children@.push(child.pid),
        child.parent == Some(k0.current.pid),
        child.children@ == Seq::<u64>::empty(),
        child.status == TaskStatus::Ready,
        k1.current.memory_set == k0.current.memory_set,
        fresh_space(child.memory_set, k0.phys, k1.phys),
        child.memory_set.maps_ok(),
    ensures
        k1.wf(),
{
    lemma_pid_fresh(k0, k1, child.pid);
    lemma_add_task_pids(k0, k1, child);
    let n = k0.tasks@.len();
    let c = child.pid;
    lemma_task_index(k1, n as int);
    assert(!k0.is_proc(c));
    assert forall|p: u64| k0.is_proc(p) implies #[trigger] k1.is_proc(p) && k1.parent_of(p) == k0.parent_of(p)
        && k1.space_of(p) == k0.space_of(p) by {
        if p != k0.current.pid {
            let i = k0.task_index(p);
            lemma_task_index(k1, i);
            assert(k1.tasks@[i] == k0.tasks@[i]);
        }
    }
    assert forall|p: u64| k0.ready_ok(p) implies #[trigger] k1.ready_ok(p) by {
        let i = k0.task_index(p);
        lemma_task_index(k1, i);
        assert(k1.tasks@[i] == k0.tasks@[i]);
    }
    assert forall|t: TaskControlBlock| #[trigger] k0.children_ok(t) implies k1.children_ok(t) by {
        assert forall|j: int| 0 <= j < t.children@.len() implies #[trigger] k1.child_ok(t.pid, t.children@[j]) by {
            assert(k0.child_ok(t.pid, t.children@[j]));
        }
    }
    assert(k1.ready@.no_duplicates()) by {
        if k0.ready@.contains(c) {
            let z = choose|z: int| 0 <= z < k0.ready@.len() && k0.ready@[z] == c;
            assert(k0.ready_ok(k0.ready@[z]));
        }
    }
    assert forall|i: int| 0 <= i < k1.ready@.len() implies #[trigger] k1.ready_ok(k1.ready@[i]) by {
        if i < k0.ready@.len() {
            assert(k0.ready_ok(k0.ready@[i]));
        }
    }
    assert(k1.children_ok(k1.current)) by {
        assert(k0.children_ok(k0.current));
        let cs = k0.current.children@;
        assert(!cs.contains(c)) by {
            if cs.contains(c) {
                let z = choose|z: int| 0 <= z < cs.len() && cs[z] == c;
                assert(k0.child_ok(k0.current.pid, cs[z]));
            }
        }
        assert forall|j: int| 0 <= j < k1.current.children@.len() implies #[trigger] k1.child_ok(k1.current.pid, k1.current.children@[j]) by {
            if j < cs.len() {
                assert(k0.child_ok(k0.current.pid, cs[j]));
            }
        }
    }
    assert forall|i: int| 0 <= i < k1.tasks@.len() implies #[trigger] k1.children_ok(k1.tasks@[i]) by {
        if i < n {
            assert(k1.tasks@[i] == k0.tasks@[i]);
            assert(k0.children_ok(k0.tasks@[i]));
        } else {
            assert(k1.tasks@[i] == child);
        }
    }
    assert(k1.is_proc(INITPROC_PID) && k1.parent_of(INITPROC_PID) is None) by {
        assert(k0.is_proc(INITPROC_PID));
    }
    assert forall|t: TaskControlBlock| #[trigger] k0.listed_ok(t) implies k1.listed_ok(t) by {
        if let Some(q) = t.parent {
            assert(k1.is_proc(q));
            if q == k0.current.pid {
                let cs = k0.current.children@;
                let b = choose|b: int| 0 <= b < cs.len() && cs[b] == t.pid;
                assert(k1.current.children@[b] == t.pid);
            } else {
                let j = k0.task_index(q);
                lemma_task_index(k1, j);
                assert(k1.tasks@[j] == k0.tasks@[j]);
            }
        }
    }
    assert(k0.listed_ok(k0.current));
    assert(k1.current.children@[k1.current.children@.len() - 1] == c);
    assert(k1.listed_ok(child));
    assert forall|i: int| 0 <= i < k1.tasks@.len() implies #[trigger] k1.listed_ok(k1.tasks@[i]) && (k1.tasks@[i].status
        == TaskStatus::Zombie && k1.tasks@[i].pid != INITPROC_PID ==> k1.tasks@[i].children@.len() == 0) by {
        if i < n {
            assert(k1.tasks@[i] == k0.tasks@[i]);
            assert(k0.listed_ok(k0.tasks@[i]));
        } else {
            assert(k1.tasks@[i] == child);
        }
    }
    assert(k1.tree_ok());
    assert(k1.pids_ok());
    assert forall|p: u64| #[trigger] k1.is_proc(p) == (k0.is_proc(p) || p == c) by {
        if k1.is_proc(p) && p != k1.current.pid {
            let a = k1.task_index(p);
            if a < n {
                assert(k1.tasks@[a] == k0.tasks@[a]);
                assert(0 <= a < k0.tasks@.len() && k0.tasks@[a].pid == p);
            } else {
                assert(k1.tasks@[a] == child);
            }
        }
        if k0.is_proc(p) {
            assert(k1.is_proc(p));
        }
    }
    assert forall|p: u64| k0.is_proc(p) implies #[trigger] k1.space_of(p) == k0.space_of(p) by {
        assert(k1.is_proc(p));
    }
    assert(k1.space_of(c) == child.memory_set);
    lemma_frames_added(k0, k1, c);
}

/// Adding a task with a fresh process id keeps the process ids consistent.
proof fn lemma_add_task_pids(k0: Kernel, k1: Kernel, child: TaskControlBlock)
    requires
        k0.wf(),
        k1.phys.wf(),
        k1.fs == k0.fs,
        k1.files@.len() >= k0.files@.len(),
        forall|i: int| 0 <= i < k1.files@.len() ==> crate::task::file_ok(#[trigger] k1.files@[i], k1.fs.inodes@.len()),
        k1.current.pid == k0.current.pid,
        k1.current.memory_set.wf(),
        k1.current.fds_below(k1.files@.len()),
        k1.tasks@ == k0.tasks@.push(child),
        child.memory_set.wf(),
        child.fds_below(k1.files@.len()),
        child.pid == k0.next_pid(),
        k0.pid_recycled@.len() > 0 ==> k1.pid_recycled@ == k0.pid_recycled@.drop_last() && k1.pid_next == k0.pid_next,
        k0.pid_recycled@.len() == 0 ==> k1.pid_recycled@ == k0.pid_recycled@ && k1.pid_next == k0.pid_next + 1,
    ensures
        k1.pids_ok(),
        forall|i: int| 0 <= i < k1.tasks@.len() ==> (#[trigger] k1.tasks@[i]).memory_set.wf() && k1.tasks@[i].fds_below(k1.files@.len()),
{
    lemma_pid_fresh(k0, k1, child.pid);
    let n = k0.tasks@.len();
    assert forall|i: int| 0 <= i < k1.tasks@.len() implies (#[trigger] k1.tasks@[i]).memory_set.wf() && k1.tasks@[i].fds_below(k1.files@.len()) by {
        if i < n {
            assert(k1.tasks@[i] == k0.tasks@[i]);
            assert(k0.tasks@[i].fds_below(k0.files@.len()));
        }
    }
    assert forall|i: int| 0 <= i < k1.tasks@.len() implies pid_live((#[trigger] k1.tasks@[i]).pid, k1.pid_next, k1.pid_recycled@) by {
        if i < n {
            assert(k1.tasks@[i] == k0.tasks@[i]);
            assert(pid_live(k0.tasks@[i].pid, k0.pid_next, k0.pid_recycled@));
        }
    }
    assert forall|i: int| 0 <= i < k1.tasks@.len() implies (#[trigger] k1.tasks@[i]).pid != k1.current.pid by {
        if i < n {
            assert(k1.tasks@[i] == k0.tasks@[i]);
        }
    }
    assert forall|a: int, b: int| 0 <= a < b < k1.tasks@.len() implies (#[trigger] k1.tasks@[a]).pid != (#[trigger] k1.tasks@[b]).pid by {
        assert(k1.tasks@[a] == k0.tasks@[a]);
        if b < n {
            assert(k1.tasks@[b] == k0.tasks@[b]);
        }
    }
    assert(pid_live(k0.current.pid, k0.pid_next, k0.pid_recycled@));
}

/// Whether the running task `new` is `old` with child `pid` added.
pub open spec fn child_added(new: TaskControlBlock, old: TaskControlBlock, pid: u64) -> bool {
    &&& new.pid == old.pid
    &&& new.status == old.status
    &&& new.exit_code == old.exit_code
    &&& new.parent == old.parent
    &&& new.children@ == old.children@.push(pid)
    &&& new.fd_table == old.fd_table
    &&& new.memory_set == old.memory_set
    &&& new.regs == old.regs
    &&& new.heap_bottom == old.heap_bottom
    &&& new.program_brk == old.program_brk
    &&& new.program == old.program
    &&& new.priority == old.priority
}

/// Creates a child of the running task: a copy of its address space (each
/// page on a fresh frame holding the same bytes), its descriptor table (the
/// same open files) and its heap bounds, with a new process id; the child
/// sees 0 returned and is queued to run. Returns the child's process id.
pub fn sys_fork(k: &mut Kernel) -> (r: isize)
    requires
        old(k).wf(),
        areas_disjoint(old(k).current.memory_set.areas@),
        forall|j: int, v: u64|
            0 <= j < old(k).current.memory_set.areas@.len() && #[trigger] old(k).current.memory_set.areas@[j].contains(v)
                ==> old(k).current.memory_set.page_table.is_mapped(v),
        old(k).phys.free_count() >= 1 + copy_frames(Set::empty(), Set::empty(), old(k).current.memory_set.areas@, 0),
        old(k).pid_recycled@.len() > 0 || old(k).pid_next < u64::MAX,
    ensures
        final(k).wf(),
        ({
            let p = old(k).next_pid();
            let child = final(k).tasks@.last();
            &&& r == p as isize
            &&& final(k).tasks@ == old(k).tasks@.push(child)
            &&& child.pid == p
            &&& child.status == TaskStatus::Ready
            &&& child.exit_code == 0
            &&& child.parent == Some(old(k).current.pid)
            &&& child.children@ == Seq::<u64>::empty()
            &&& child.fd_table@ == old(k).current.fd_table@
            &&& child.regs@ == old(k).current.regs@.update(10, 0)
            &&& child.heap_bottom == old(k).current.heap_bottom
            &&& child.program_brk == old(k).current.program_brk
            &&& child.program@ == old(k).current.program@
            &&& child.priority == old(k).current.priority
            &&& fork_post(old(k).current.memory_set, old(k).phys, child.memory_set, final(k).phys)
            &&& forall|a: int| #[trigger] covers(old(k).current.memory_set.areas@, vpn_at(a)) ==> child.memory_set.user_byte(
                final(k).phys,
                a,
            ) == old(k).current.memory_set.user_byte(old(k).phys, a)
            &&& child_added(final(k).current, old(k).current, p)
            &&& final(k).ready@ == old(k).ready@.push(p)
            &&& old(k).pid_recycled@.len() > 0 ==> final(k).pid_recycled@ == old(k).pid_recycled@.drop_last()
                && final(k).pid_next == old(k).pid_next
            &&& old(k).pid_recycled@.len() == 0 ==> final(k).pid_recycled@ == old(k).pid_recycled@
                && final(k).pid_next == old(k).pid_next + 1
            &&& final(k).fs == old(k).fs
            &&& final(k).files == old(k).files
            &&& final(k).console_in == old(k).console_in
            &&& final(k).console_out == old(k).console_out
            &&& final(k).shutdown == old(k).shutdown
        }),
{
    let ghost pm_f = k.phys;
    proof {
        let m = k.current.memory_set;
        assert(k.is_proc(k.current.pid));
        assert(k.space_of(k.current.pid).frames_held(k.phys));
        assert(m.frames_held(k.phys));
        assert forall|j: int, v: u64| 0 <= j < m.areas@.len() && #[trigger] m.areas@[j].contains(v) implies m.page_table.is_mapped(v)
            && k.phys.is_allocated(m.page_table.entry(v).ppn) by {
            assert(m.page_table.is_mapped(v));
            lemma_mapped_distinct(m, v, v);
        }
    }
    let ms = MemorySet::from_existed_user(&k.current.memory_set, &mut k.phys);
    proof {
        lemma_fork_maps(k.current.memory_set, pm_f, ms, k.phys);
    }
    let ghost k1 = *k;
    let pid = k.pid_alloc();
    let fds = copy_fds(&k.current.fd_table);
    let prog = copy_bytes(&k.current.program);
    let child = TaskControlBlock {
        pid,
        status: TaskStatus::Ready,
        exit_code: 0,
        parent: Some(k.current.pid),
        children: Vec::new(),
        fd_table: fds,
        memory_set: ms,
        regs: child_regs(&k.current.regs),
        heap_bottom: k.current.heap_bottom,
        program_brk: k.current.program_brk,
        program: prog,
        priority: k.current.priority,
    };
    k.current.children.push(pid);
    k.tasks.push(child);
    k.ready.push(pid);
    proof {
        assert(child.fds_below(k.files@.len())) by {
            assert(old(k).current.fds_below(old(k).files@.len()));
        }
        lemma_add_task(*old(k), *k, child);
        assert forall|a: int| #[trigger] covers(old(k).current.memory_set.areas@, vpn_at(a)) implies child.memory_set.user_byte(
            k.phys,
            a,
        ) == old(k).current.memory_set.user_byte(old(k).phys, a) by {
            law_fork_copies(old(k).current.memory_set, old(k).phys, child.memory_set, k.phys, a);
        }
    }
    pid as isize
}

/// What loading program `prog` does to the running task `new`, given the
/// task `old` before: its address space is that of a freshly loaded program,
/// its heap starts empty above the user stack, and its registers are those
/// of a program about to start: all 0 but the stack pointer, at the top of
/// the user stack.
pub open spec fn loaded(new: TaskControlBlock, old: TaskControlBlock, prog: Seq<u8>) -> bool {
    &&& new.pid == old.pid
    &&& new.status == old.status
    &&& new.exit_code == old.exit_code
    &&& new.parent == old.parent
    &&& new.children == old.children
    &&& new.fd_table == old.fd_table
    &&& new.regs@ == init_regs((USER_STACK_TOP_VPN * 4096) as u64)
    &&& new.heap_bottom == USER_STACK_TOP_VPN * 4096
    &&& new.program_brk == USER_STACK_TOP_VPN * 4096
    &&& new.program@ == prog
    &&& new.priority == old.priority
}

/// Replaces the program of the running task with the file named by the
/// path at user address `path`: -1 when no such file exists; else the task
/// gets a fresh address space for the file's bytes (its old frames are
/// released) and 0 is returned.
pub fn sys_exec(k: &mut Kernel, path: usize) -> (r: isize)
    requires
        old(k).wf(),
        old(k).current.memory_set.has_cstr(old(k).phys, path as int),
        lookup(old(k).fs.root@, latin1_utf8(old(k).current.memory_set.cstr(old(k).phys, path as int))) is Some
            ==> old(k).phys.free_count() >= 8,
    ensures
        final(k).wf(),
        ({
            let name = latin1_utf8(old(k).current.memory_set.cstr(old(k).phys, path as int));
            match lookup(old(k).fs.root@, name) {
                None => r == -1 && *final(k) == *old(k),
                Some(id) => {
                    &&& r == 0
                    &&& loaded(final(k).current, old(k).current, old(k).fs.inodes@[id as int].data@)
                    &&& exists|mid: PhysMemory| user_space_post(old(k).phys, final(k).current.memory_set, mid) && released(
                        mid,
                        final(k).phys,
                        old(k).current.memory_set.owned_frames(),
                    )
                    &&& final(k).tasks == old(k).tasks
                    &&& final(k).ready == old(k).ready
                    &&& final(k).pid_next == old(k).pid_next
                    &&& final(k).pid_recycled == old(k).pid_recycled
                    &&& final(k).fs == old(k).fs
                    &&& final(k).files == old(k).files
                    &&& final(k).console_in == old(k).console_in
                    &&& final(k).console_out == old(k).console_out
                    &&& final(k).shutdown == old(k).shutdown
                },
            }
        }),
{
    let raw = k.current.memory_set.translated_str(&k.phys, path as u64);
    let name = encode_latin1(&raw);
    proof {
        crate::fs::lemma_rdonly();
    }
    match open_file(&mut k.fs, &name, 0) {
        Some(FileObject::Inode { inode_id, .. }) => {
            proof {
                crate::efs::lemma_first_match_exists(k.fs.root@, name@);
                let fm = crate::efs::first_match(k.fs.root@, name@);
                assert(k.fs.root@[fm].inode_id < k.fs.inodes@.len());
            }
            let size = k.fs.inodes[inode_id as usize].data.len();
            let data = k.fs.read_inode(inode_id, 0, size as u64);
            proof {
                let d = k.fs.inodes@[inode_id as int].data@;
                assert(data@ == crate::fs::read_at(d, 0, size as int));
                if d.len() == 0 {
                    assert(data@ =~= d);
                } else {
                    assert(d.subrange(0, d.len() as int) =~= d);
                }
                assert(data@ =~= d);
            }
            let ghost pm0 = k.phys;
            let (ms, brk) = MemorySet::new_user_space(&mut k.phys);
            let ghost mid = k.phys;
            let mut old_ms = ms;
            std::mem::swap(&mut k.current.memory_set, &mut old_ms);
            proof {
                assert(old(k).is_proc(old(k).current.pid));
                assert(old(k).space_of(old(k).current.pid).frames_held(old(k).phys));
                assert(old_ms == old(k).current.memory_set);
                assert(pm0 == old(k).phys);
                assert(old_ms.frames_held(pm0));
                old_ms.lemma_held_releasable(pm0);
                assert forall|x: int| 0 <= x < old_ms.owned_frames().len() implies mid.is_allocated(#[trigger] old_ms.owned_frames()[x]) by {
                    assert(pm0.is_allocated(old_ms.owned_frames()[x]));
                }
            }
            old_ms.release(&mut k.phys);
            k.current.heap_bottom = brk;
            k.current.program_brk = brk;
            k.current.regs = fresh_regs(brk);
            k.current.program = data;
            proof {
                lemma_tree_same(*old(k), *k);
                assert(user_space_post(old(k).phys, k.current.memory_set, mid));
                assert(released(mid, k.phys, old(k).current.memory_set.owned_frames()));
                crate::ownership::lemma_replaced(old_ms, pm0, k.current.memory_set, mid, k.phys);
                lemma_frames_current(*old(k), *k);
                lemma_user_space_maps(pm0, k.current.memory_set, mid);
                lemma_maps_current(*old(k), *k);
            }
            0
        },
        _ => -1,
    }
}

/// Starts the file named by the path at user address `path` as a new child
/// of the running task: -1 when no such file exists; else a new task with a
/// fresh address space, a new process id and the standard descriptors
/// (console input, console output twice), queued to run, and its process id
/// is returned.
pub fn sys_spawn(k: &mut Kernel, path: usize) -> (r: isize)
    requires
        old(k).wf(),
        old(k).current.memory_set.has_cstr(old(k).phys, path as int),
        lookup(old(k).fs.root@, latin1_utf8(old(k).current.memory_set.cstr(old(k).phys, path as int))) is Some ==> {
            &&& old(k).phys.free_count() >= 8
            &&& old(k).pid_recycled@.len() > 0 || old(k).pid_next < u64::MAX
        },
    ensures
        final(k).wf(),
        ({
            let name = latin1_utf8(old(k).current.memory_set.cstr(old(k).phys, path as int));
            match lookup(old(k).fs.root@, name) {
                None => r == -1 && *final(k) == *old(k),
                Some(id) => {
                    let p = old(k).next_pid();
                    let child = final(k).tasks@.last();
                    let b = old(k).files@.len();
                    &&& r == p as isize
                    &&& final(k).tasks@ == old(k).tasks@.push(child)
                    &&& child.pid == p
                    &&& child.status == TaskStatus::Ready
                    &&& child.exit_code == 0
                    &&& child.parent == Some(old(k).current.pid)
                    &&& child.children@ == Seq::<u64>::empty()
                    &&& child.fd_table@ == seq![Some(b as usize), Some((b + 1) as usize), Some((b + 2) as usize)]
                    &&& final(k).files@ == old(k).files@ + seq![FileObject::Stdin, FileObject::Stdout, FileObject::Stdout]
                    &&& child.regs@ == init_regs((USER_STACK_TOP_VPN * 4096) as u64)
                    &&& child.heap_bottom == USER_STACK_TOP_VPN * 4096
                    &&& child.program_brk == USER_STACK_TOP_VPN * 4096
                    &&& child.program@ == old(k).fs.inodes@[id as int].data@
                    &&& child.priority == DEFAULT_PRIORITY
                    &&& user_space_post(old(k).phys, child.memory_set, final(k).phys)
                    &&& child_added(final(k).current, old(k).current, p)
                    &&& final(k).ready@ == old(k).ready@.push(p)
                    &&& old(k).pid_recycled@.len() > 0 ==> final(k).pid_recycled@ == old(k).pid_recycled@.drop_last()
                        && final(k).pid_next == old(k).pid_next
                    &&& old(k).pid_recycled@.len() == 0 ==> final(k).pid_recycled@ == old(k).pid_recycled@
                        && final(k).pid_next == old(k).pid_next + 1
                    &&& final(k).fs == old(k).fs
                    &&& final(k).console_in == old(k).console_in
                    &&& final(k).console_out == old(k).console_out
                    &&& final(k).shutdown == old(k).shutdown
                },
            }
        }),
{
    let raw = k.current.memory_set.translated_str(&k.phys, path as u64);
    let name = encode_latin1(&raw);
    proof {
        crate::fs::lemma_rdonly();
    }
    match open_file(&mut k.fs, &name, 0) {
        Some(f) => {
            if !f.readable() {
                return -1;
            }
            let inode_id = match f {
                FileObject::Inode { inode_id, .. } => inode_id,
                _ => return -1,
            };
            proof {
                crate::efs::lemma_first_match_exists(k.fs.root@, name@);
                let fm = crate::efs::first_match(k.fs.root@, name@);
                assert(k.fs.root@[fm].inode_id < k.fs.inodes@.len());
            }
            let size = k.fs.inodes[inode_id as usize].data.len();
            let data = k.fs.read_inode(inode_id, 0, size as u64);
            proof {
                let d = k.fs.inodes@[inode_id as int].data@;
                assert(data@ == crate::fs::read_at(d, 0, size as int));
                if d.len() == 0 {
                    assert(data@ =~= d);
                } else {
                    assert(d.subrange(0, d.len() as int) =~= d);
                }
                assert(data@ =~= d);
            }
            let ghost pm_s = k.phys;
            let (ms, brk) = MemorySet::new_user_space(&mut k.phys);
            proof {
                lemma_user_space_maps(pm_s, ms, k.phys);
            }
            let pid = k.pid_alloc();
            let ghost b = k.files@.len();
            k.files.push(FileObject::Stdin);
            k.files.push(FileObject::Stdout);
            k.files.push(FileObject::Stdout);
            let n = k.files.len();
            let mut fds: Vec<Option<usize>> = Vec::new();
            fds.push(Some(n - 3));
            fds.push(Some(n - 2));
            fds.push(Some(n - 1));
            let child = TaskControlBlock {
                pid,
                status: TaskStatus::Ready,
                exit_code: 0,
                parent: Some(k.current.pid),
                children: Vec::new(),
                fd_table: fds,
                memory_set: ms,
                regs: fresh_regs(brk),
                heap_bottom: brk,
                program_brk: brk,
                program: data,
                priority: DEFAULT_PRIORITY,
            };
            k.current.children.push(pid);
            k.tasks.push(child);
            k.ready.push(pid);
            proof {
                assert(k.files@ =~= old(k).files@ + seq![FileObject::Stdin, FileObject::Stdout, FileObject::Stdout]);
                assert(fds@ =~= seq![Some(b as usize), Some((b + 1) as usize), Some((b + 2) as usize)]);
                assert forall|i: int| 0 <= i < k.files@.len() implies crate::task::file_ok(#[trigger] k.files@[i], k.fs.inodes@.len()) by {
                    if i < old(k).files@.len() {
                        assert(crate::task::file_ok(old(k).files@[i], old(k).fs.inodes@.len()));
                    }
                }
                assert(k.current.fds_below(k.files@.len())) by {
                    assert(old(k).current.fds_below(old(k).files@.len()));
                }
                lemma_add_task(*old(k), *k, child);
            }
            pid as isize
        },
        None => -1,
    }
}

/// Whether task `new` is task `old` after the exit of a task with children
/// `cs`, status aside: those children now have the first process as parent,
/// and the first process has them as children after its own.
pub open spec fn reparented(new: TaskControlBlock, old: TaskControlBlock, cs: Seq<u64>) -> bool {
    &&& new.pid == old.pid
    &&& new.exit_code == old.exit_code
    &&& new.fd_table == old.fd_table
    &&& new.memory_set == old.memory_set
    &&& new.regs == old.regs
    &&& new.heap_bottom == old.heap_bottom
    &&& new.program_brk == old.program_brk
    &&& new.program == old.program
    &&& new.priority == old.priority
    &&& new.parent == if cs.contains(old.pid) { Some(INITPROC_PID) } else { old.parent }
    &&& new.children@ == if old.pid == INITPROC_PID { old.children@ + cs } else { old.children@ }
}

/// What `sys_exit(exit_code)` does to kernel `k0`, giving `k1`.
pub open spec fn exit_call(k0: Kernel, k1: Kernel, exit_code: i32) -> bool {
    &&& k1.wf()
    &&& (k0.current.pid == INITPROC_PID ==> k1.shutdown == Some(exit_code) && k1.current == k0.current
        && k1.tasks == k0.tasks && k1.ready == k0.ready && k1.phys == k0.phys)
    &&& (k0.current.pid != INITPROC_PID ==> {
        let cs = k0.current.children@;
        let i = k0.task_index(k0.ready@[0]);
        let n = k0.tasks@.len();
        let z = k1.tasks@.last();
        let ms = k0.current.memory_set;
        &&& k1.shutdown == k0.shutdown
        &&& reparented(k1.current, k0.tasks@[i], cs)
        &&& k1.current.status == TaskStatus::Running
        &&& k1.tasks@.len() == n
        &&& forall|a: int| 0 <= a < n - 1 ==> {
            let b = if a < i { a } else { a + 1 };
            &&& reparented(#[trigger] k1.tasks@[a], k0.tasks@[b], cs)
            &&& k1.tasks@[a].status == k0.tasks@[b].status
        }
        &&& z.pid == k0.current.pid
        &&& z.status == TaskStatus::Zombie
        &&& z.exit_code == exit_code
        &&& z.parent == k0.current.parent
        &&& z.children@ == Seq::<u64>::empty()
        &&& z.fd_table == k0.current.fd_table
        &&& z.memory_set.page_table == ms.page_table
        &&& z.memory_set.areas@ == Seq::<MapArea>::empty()
        &&& z.regs == k0.current.regs
        &&& z.heap_bottom == k0.current.heap_bottom
        &&& z.program_brk == k0.current.program_brk
        &&& z.program == k0.current.program
        &&& z.priority == k0.current.priority
        &&& k1.ready@ == k0.ready@.drop_first()
        &&& released(k0.phys, k1.phys, area_frames(ms.areas@, ms.areas@.len() as int))
    })
    &&& k1.pid_next == k0.pid_next
    &&& k1.pid_recycled == k0.pid_recycled
    &&& k1.fs == k0.fs
    &&& k1.files == k0.files
    &&& k1.console_in == k0.console_in
    &&& k1.console_out == k0.console_out
}

/// Ends the running task with `exit_code`. For the first process this shuts
/// the machine down. Any other task becomes a zombie that keeps its exit
/// code for its parent: its children pass to the first process, the frames
/// of its areas are released, and the task at the front of the ready queue
/// runs next.
pub fn sys_exit(k: &mut Kernel, exit_code: i32)
    requires
        old(k).wf(),
        old(k).current.pid != INITPROC_PID ==> old(k).ready@.len() > 0,
    ensures
        exit_call(*old(k), *final(k), exit_code),
{
    if k.current.pid == INITPROC_PID {
        k.shutdown = Some(exit_code);
        proof {
            lemma_tree_same(*old(k), *k);
            lemma_frames_same(*old(k), *k);
        }
        return;
    }
    proof {
        assert(old(k).is_proc(INITPROC_PID));
        assert(old(k).children_ok(old(k).current));
        assert forall|x: int| 0 <= x < old(k).current.children@.len() implies old(k).has_task(#[trigger] old(k).current.children@[x]) by {
            assert(old(k).child_ok(old(k).current.pid, old(k).current.children@[x]));
        }
        assert(old(k).ready_ok(old(k).ready@[0]));
    }
    k.current.status = TaskStatus::Zombie;
    k.current.exit_code = exit_code;
    let ghost cs = old(k).current.children@;
    let ghost t0 = old(k).tasks@;
    let n = k.current.children.len();
    let mut j: usize = 0;
    proof {
        assert forall|a: int| 0 <= a < t0.len() implies reparented(#[trigger] k.tasks@[a], t0[a], cs.take(0)) by {
            assert(cs.take(0) =~= Seq::<u64>::empty());
            assert(t0[a].children@ + Seq::<u64>::empty() =~= t0[a].children@);
        }
    }
    while j < n
        invariant
            k.base_ok(),
            old(k).wf(),
            t0 == old(k).tasks@,
            cs == old(k).current.children@,
            k.current.children@ == cs,
            n == cs.len(),
            j <= n,
            k.current.pid == old(k).current.pid,
            k.current.pid != INITPROC_PID,
            old(k).has_task(INITPROC_PID),
            forall|x: int| 0 <= x < cs.len() ==> old(k).has_task(#[trigger] cs[x]),
            k.tasks@.len() == t0.len(),
            forall|a: int| 0 <= a < t0.len() ==> reparented(#[trigger] k.tasks@[a], t0[a], cs.take(j as int)) && k.tasks@[a].status == t0[a].status,
            k.ready == old(k).ready,
            k.phys == old(k).phys,
            k.pid_next == old(k).pid_next,
            k.pid_recycled == old(k).pid_recycled,
            k.fs == old(k).fs,
            k.files == old(k).files,
            k.console_in == old(k).console_in,
            k.console_out == old(k).console_out,
            k.shutdown == old(k).shutdown,
            k.current.status == TaskStatus::Zombie,
            k.current.exit_code == exit_code,
            k.current.parent == old(k).current.parent,
            k.current.fd_table == old(k).current.fd_table,
            k.current.memory_set == old(k).current.memory_set,
            k.current.regs == old(k).current.regs,
            k.current.heap_bottom == old(k).current.heap_bottom,
            k.current.program_brk == old(k).current.program_brk,
            k.current.program == old(k).current.program,
            k.current.priority == old(k).current.priority,
        decreases n - j,
    {
        let c = k.current.children[j];
        let ghost tj = k.tasks@;
        proof {
            assert(old(k).has_task(c));
            let w = choose|w: int| 0 <= w < t0.len() && (#[trigger] t0[w]).pid == c;
            assert(k.tasks@[w].pid == c);
            assert(k.has_task(c));
            let w0 = choose|w: int| 0 <= w < t0.len() && (#[trigger] t0[w]).pid == INITPROC_PID;
            assert(k.tasks@[w0].pid == INITPROC_PID);
        }
        let ti = k.find_task(c).unwrap();
        let mut t = k.tasks.remove(ti);
        t.parent = Some(INITPROC_PID);
        k.tasks.insert(ti, t);
        let ghost tk = k.tasks@;
        proof {
            assert(tk =~= tj.update(ti as int, t));
            assert forall|a: int| 0 <= a < tk.len() implies (#[trigger] tk[a]).pid == tj[a].pid by {}
            let w0 = choose|w: int| 0 <= w < t0.len() && (#[trigger] t0[w]).pid == INITPROC_PID;
            assert(tk[w0].pid == INITPROC_PID);
        }
        let ii = k.find_task_at_any(INITPROC_PID);
        let mut t2 = k.tasks.remove(ii);
        t2.children.push(c);
        k.tasks.insert(ii, t2);
        proof {
            let tl = k.tasks@;
            assert(tl =~= tk.update(ii as int, t2));
            let cj = cs.take(j as int);
            let cj1 = cs.take(j + 1);
            assert(cj1 =~= cj.push(c));
            assert forall|a: int| 0 <= a < t0.len() implies reparented(#[trigger] k.tasks@[a], t0[a], cj1) && k.tasks@[a].status == t0[a].status by {
                assert(reparented(tj[a], t0[a], cj));
                assert(cj1.contains(t0[a].pid) == (cj.contains(t0[a].pid) || t0[a].pid == c)) by {
                    if cj1.contains(t0[a].pid) {
                        let z = choose|z: int| 0 <= z < cj1.len() && cj1[z] == t0[a].pid;
                        if z < cj.len() { assert(cj[z] == t0[a].pid); }
                    }
                    if cj.contains(t0[a].pid) {
                        let z = choose|z: int| 0 <= z < cj.len() && cj[z] == t0[a].pid;
                        assert(cj1[z] == t0[a].pid);
                    }
                    if t0[a].pid == c { assert(cj1[cj.len() as int] == c); }
                }
                if a == ti as int && a == ii as int {
                    assert(t0[a].children@ + cj1 =~= t0[a].children@ + cj + seq![c]);
                } else if a == ii as int {
                    assert(t0[a].children@ + cj1 =~= t0[a].children@ + cj + seq![c]);
                } else if a == ti as int {
                } else {
                    assert(k.tasks@[a] == tj[a]);
                    assert(t0[a].pid != c) by {
                        assert(tj[a].pid != tj[ti as int].pid || a == ti as int);
                    }
                    assert(t0[a].pid != INITPROC_PID) by {
                        assert(tk[a].pid != tk[ii as int].pid || a == ii as int);
                    }
                }
            }
            assert forall|a: int| 0 <= a < k.tasks@.len() implies (#[trigger] k.tasks@[a]).memory_set.wf() && k.tasks@[a].fds_below(k.files@.len()) by {
                assert(reparented(k.tasks@[a], t0[a], cj1));
                assert(old(k).tasks@[a].fds_below(old(k).files@.len()));
            }
            assert forall|a: int| 0 <= a < k.tasks@.len() implies #[trigger] k.tasks@[a].pid == t0[a].pid by {
                assert(reparented(k.tasks@[a], t0[a], cj1));
            }
        }
        j = j + 1;
    }
    proof {
        assert(cs.take(n as int) =~= cs);
    }
    k.current.children = Vec::new();
    let ghost pm0 = k.phys;
    proof {
        assert(old(k).is_proc(old(k).current.pid));
        assert(old(k).space_of(old(k).current.pid).frames_held(old(k).phys));
        old(k).current.memory_set.lemma_held_releasable(old(k).phys);
    }
    k.current.memory_set.recycle_data_pages(&mut k.phys);
    proof {
        crate::ownership::lemma_areas_recycled(old(k).current.memory_set, pm0, k.current.memory_set, k.phys);
    }
    let ghost k2 = *k;
    let next = k.ready.remove(0);
    proof {
        let w = choose|w: int| 0 <= w < t0.len() && (#[trigger] t0[w]).pid == next;
        assert(k.tasks@[w].pid == next);
    }
    let i = k.find_task(next).unwrap();
    let mut t = k.tasks.remove(i);
    t.status = TaskStatus::Running;
    std::mem::swap(&mut k.current, &mut t);
    k.tasks.push(t);
    proof {
        let t2 = k2.tasks@;
        assert(i as int == old(k).task_index(next)) by {
            let w = old(k).task_index(next);
            assert(0 <= w < t0.len() && t0[w].pid == next);
            assert(t2[w].pid == next);
            assert(k2.task_index(next) == i as int);
            if w != i as int {
                assert(t0[w].pid != t0[i as int].pid);
            }
        }
        assert(k.ready@ =~= old(k).ready@.drop_first());
        let m = t0.len();
        assert forall|a: int| 0 <= a < m - 1 implies {
            let b = if a < i { a } else { a + 1 };
            &&& reparented(#[trigger] k.tasks@[a], t0[b], cs)
            &&& k.tasks@[a].status == t0[b].status
        } by {
            let b = if a < i { a } else { a + 1 };
            assert(k.tasks@[a] == t2[b]);
        }
        assert forall|a: int| 0 <= a < k.tasks@.len() implies (#[trigger] k.tasks@[a]).memory_set.wf() && k.tasks@[a].fds_below(k.files@.len()) by {
            if a < m - 1 {
                let b = if a < i { a } else { a + 1 };
                assert(k.tasks@[a] == t2[b]);
            }
        }
        assert forall|a: int| 0 <= a < k.tasks@.len() implies pid_live((#[trigger] k.tasks@[a]).pid, k.pid_next, k.pid_recycled@) by {
            if a < m - 1 {
                let b = if a < i { a } else { a + 1 };
                assert(k.tasks@[a] == t2[b]);
            }
        }
        assert forall|a: int| 0 <= a < k.tasks@.len() implies (#[trigger] k.tasks@[a]).pid != k.current.pid by {
            if a < m - 1 {
                let b = if a < i { a } else { a + 1 };
                assert(k.tasks@[a] == t2[b]);
            }
        }
        assert forall|a: int, c: int| 0 <= a < c < k.tasks@.len() implies (#[trigger] k.tasks@[a]).pid != (#[trigger] k.tasks@[c]).pid by {
            let ba = if a < i { a } else { a + 1 };
            let bc = if c < i { c } else { c + 1 };
            assert(k.tasks@[a] == t2[ba]);
            if c < m - 1 {
                assert(k.tasks@[c] == t2[bc]);
            }
        }
        assert(k.pids_ok());
        lemma_exit_tree(*old(k), *k, i as int);
        lemma_frames_one_step(*old(k), *k, old(k).current.pid);
    }
}

/// The parent that process `p` has once the running task of `k0` has
/// exited: the first process for its children, else as before.
pub open spec fn parent_after_exit(k0: Kernel, p: u64) -> Option<u64> {
    if k0.current.children@.contains(p) {
        Some(INITPROC_PID)
    } else {
        k0.parent_of(p)
    }
}

/// The exit of the running task, which passes its children to the first
/// process and hands the processor to ready task `i`, keeps the process tree
/// consistent.
proof fn lemma_exit_tree(k0: Kernel, k1: Kernel, i: int)
    requires
        k0.wf(),
        k1.pids_ok(),
        k0.current.pid != INITPROC_PID,
        k0.ready@.len() > 0,
        0 <= i < k0.tasks@.len(),
        k0.tasks@[i].pid == k0.ready@[0],
        reparented(k1.current, k0.tasks@[i], k0.current.children@),
        k1.tasks@.len() == k0.tasks@.len(),
        forall|a: int| 0 <= a < k0.tasks@.len() - 1 ==> {
            let b = if a < i { a } else { a + 1 };
            &&& reparented(#[trigger] k1.tasks@[a], k0.tasks@[b], k0.current.children@)
            &&& k1.tasks@[a].status == k0.tasks@[b].status
        },
        k1.tasks@.last().pid == k0.current.pid,
        k1.tasks@.last().parent == k0.current.parent,
        k1.tasks@.last().children@ == Seq::<u64>::empty(),
        k1.ready@ == k0.ready@.drop_first(),
    ensures
        k1.tree_ok(),
        forall|p: u64| #[trigger] k1.is_proc(p) == k0.is_proc(p),
        forall|p: u64| p != k0.current.pid && k0.is_proc(p) ==> #[trigger] k1.space_of(p) == k0.space_of(p),
        k1.space_of(k0.current.pid) == k1.tasks@.last().memory_set,
{
    let cs = k0.current.children@;
    let x = k0.current.pid;
    let n = k0.tasks@.len();
    let z = k1.tasks@.last();
    lemma_task_index(k0, i);
    lemma_task_index(k1, n - 1);
    assert(k0.children_ok(k0.current));
    assert(k0.is_proc(INITPROC_PID));
    assert(!cs.contains(x)) by {
        if cs.contains(x) {
            let w = choose|w: int| 0 <= w < cs.len() && cs[w] == x;
            assert(k0.child_ok(x, cs[w]));
        }
    }
    assert(!cs.contains(INITPROC_PID)) by {
        if cs.contains(INITPROC_PID) {
            let w = choose|w: int| 0 <= w < cs.len() && cs[w] == INITPROC_PID;
            assert(k0.child_ok(x, cs[w]));
        }
    }
    assert forall|p: u64| k0.is_proc(p) implies #[trigger] k1.is_proc(p) && k1.parent_of(p) == parent_after_exit(k0, p)
        && (p != x ==> k1.space_of(p) == k0.space_of(p)) by {
        if p == x {
        } else if p == k0.tasks@[i].pid {
        } else {
            let j = k0.task_index(p);
            assert(j != i);
            let a = if j < i { j } else { j - 1 };
            lemma_task_index(k1, a);
            assert(reparented(k1.tasks@[a], k0.tasks@[j], cs));
        }
    }
    assert forall|p: u64| #[trigger] k1.is_proc(p) implies k0.is_proc(p) by {
        if p != k1.current.pid && p != x {
            let a = k1.task_index(p);
            if a < n - 1 {
                let b = if a < i { a } else { a + 1 };
                assert(reparented(k1.tasks@[a], k0.tasks@[b], cs));
                assert(0 <= b < n && k0.tasks@[b].pid == p);
            }
        }
    }
    // A child listed by a process other than the exiting one is not one of
    // the exiting task's children, and keeps its parent.
    assert forall|t: TaskControlBlock| t.pid != x && #[trigger] k0.children_ok(t) implies {
        &&& forall|j: int| 0 <= j < t.children@.len() ==> !cs.contains(#[trigger] t.children@[j])
        &&& forall|j: int| 0 <= j < t.children@.len() ==> #[trigger] k1.child_ok(t.pid, t.children@[j])
    } by {
        assert forall|j: int| 0 <= j < t.children@.len() implies !cs.contains(#[trigger] t.children@[j]) by {
            let c = t.children@[j];
            assert(k0.child_ok(t.pid, c));
            if cs.contains(c) {
                let w = choose|w: int| 0 <= w < cs.len() && cs[w] == c;
                assert(k0.child_ok(x, cs[w]));
            }
        }
        assert forall|j: int| 0 <= j < t.children@.len() implies #[trigger] k1.child_ok(t.pid, t.children@[j]) by {
            let c = t.children@[j];
            assert(k0.child_ok(t.pid, c));
            assert(!cs.contains(c));
        }
    }
    assert forall|j: int| 0 <= j < cs.len() implies #[trigger] k1.child_ok(INITPROC_PID, cs[j]) by {
        assert(k0.child_ok(x, cs[j]));
        assert(cs.contains(cs[j]));
    }
    // The new children list of a process, given its old record `o`.
    assert forall|o: TaskControlBlock, t: TaskControlBlock| o.pid != x && #[trigger] k0.children_ok(o) && #[trigger] reparented(t, o, cs) implies k1.children_ok(t) by {
        assert(forall|j: int| 0 <= j < o.children@.len() ==> #[trigger] k1.child_ok(o.pid, o.children@[j]));
        assert(forall|j: int| 0 <= j < o.children@.len() ==> !cs.contains(#[trigger] o.children@[j]));
        if o.pid == INITPROC_PID {
            let oc = o.children@;
            assert(t.children@ == oc + cs);
            assert forall|j: int| 0 <= j < t.children@.len() implies #[trigger] k1.child_ok(t.pid, t.children@[j]) by {
                if j < oc.len() {
                    assert(t.children@[j] == oc[j]);
                } else {
                    assert(t.children@[j] == cs[j - oc.len()]);
                }
            }
            assert(t.children@.no_duplicates()) by {
                assert forall|a: int, b: int| 0 <= a < b < t.children@.len() implies t.children@[a] != t.children@[b] by {
                    if b < oc.len() {
                    } else if a < oc.len() {
                        assert(!cs.contains(oc[a]));
                        assert(cs[b - oc.len()] == t.children@[b]);
                    } else {
                    }
                }
            }
        } else {
            assert(t.children@ == o.children@);
        }
    }
    assert(k1.children_ok(k1.current)) by {
        assert(k0.children_ok(k0.tasks@[i]));
    }
    assert forall|a: int| 0 <= a < k1.tasks@.len() implies #[trigger] k1.children_ok(k1.tasks@[a]) by {
        if a < n - 1 {
            let b = if a < i { a } else { a + 1 };
            assert(k0.children_ok(k0.tasks@[b]));
            assert(reparented(k1.tasks@[a], k0.tasks@[b], cs));
        } else {
            assert(k1.tasks@[a] == z);
        }
    }
    let r0 = k0.ready@;
    assert forall|a: int| 0 <= a < k1.ready@.len() implies #[trigger] k1.ready_ok(k1.ready@[a]) by {
        let p = r0[a + 1];
        assert(k1.ready@[a] == p);
        assert(k0.ready_ok(p));
        assert(p != r0[0]);
        let j = k0.task_index(p);
        assert(j != i);
        let b = if j < i { j } else { j - 1 };
        lemma_task_index(k1, b);
        assert(reparented(k1.tasks@[b], k0.tasks@[j], cs));
    }
    assert(k1.ready@.no_duplicates()) by {
        assert forall|a: int, b: int| 0 <= a < b < k1.ready@.len() implies k1.ready@[a] != k1.ready@[b] by {
            assert(k1.ready@[a] == r0[a + 1]);
            assert(k1.ready@[b] == r0[b + 1]);
        }
    }
    assert(k1.is_proc(INITPROC_PID));
    assert(k1.parent_of(INITPROC_PID) is None);
    assert forall|p: u64| #[trigger] k1.is_proc(p) == k0.is_proc(p) by {
        if k0.is_proc(p) {
            assert(k1.is_proc(p));
        }
    }
    assert forall|p: u64| p != x && k0.is_proc(p) implies #[trigger] k1.space_of(p) == k0.space_of(p) by {
        assert(k1.is_proc(p));
    }
    // Every process but the exiting one keeps its children; the first
    // process gains the exiting task's.
    assert forall|q: u64| q != x && k0.is_proc(q) implies #[trigger] k1.children_of(q) == if q == INITPROC_PID {
        k0.children_of(q) + cs
    } else {
        k0.children_of(q)
    } by {
        if q == k0.tasks@[i].pid {
            assert(reparented(k1.current, k0.tasks@[i], cs));
        } else {
            let j = k0.task_index(q);
            assert(j != i);
            let a = if j < i { j } else { j - 1 };
            lemma_task_index(k1, a);
            assert(reparented(k1.tasks@[a], k0.tasks@[j], cs));
        }
    }
    assert forall|q: u64, c: u64| q != x && k0.is_proc(q) && #[trigger] k0.children_of(q).contains(c) implies k1.children_of(
        q,
    ).contains(c) by {
        let b = choose|b: int| 0 <= b < k0.children_of(q).len() && k0.children_of(q)[b] == c;
        assert(k1.children_of(q)[b] == c);
    }
    assert(k1.children_of(INITPROC_PID) == k0.children_of(INITPROC_PID) + cs);
    assert forall|o: TaskControlBlock, t: TaskControlBlock| o.pid != x && #[trigger] k0.listed_ok(o) && #[trigger] reparented(
        t,
        o,
        cs,
    ) implies k1.listed_ok(t) by {
        if cs.contains(o.pid) {
            let b = choose|b: int| 0 <= b < cs.len() && cs[b] == o.pid;
            assert(k1.children_of(INITPROC_PID)[k0.children_of(INITPROC_PID).len() + b] == o.pid);
        } else if let Some(q) = o.parent {
            assert(k0.children_of(q).contains(o.pid));
            if q == x {
                assert(k0.children_of(x) == cs);
            }
        }
    }
    assert(k1.listed_ok(k1.current)) by {
        assert(k0.listed_ok(k0.tasks@[i]));
        assert(k0.tasks@[i].pid != x);
    }
    assert(k1.listed_ok(z)) by {
        assert(k0.listed_ok(k0.current));
        if let Some(q) = k0.current.parent {
            assert(k0.children_of(q).contains(x));
            assert(q != x) by {
                assert(k0.parent_of(x) == Some(q));
                if q == x {
                    assert(k0.children_of(x) == cs);
                }
            }
        }
    }
    assert forall|a: int| 0 <= a < k1.tasks@.len() implies #[trigger] k1.listed_ok(k1.tasks@[a]) && (k1.tasks@[a].status
        == TaskStatus::Zombie && k1.tasks@[a].pid != INITPROC_PID ==> k1.tasks@[a].children@.len() == 0) by {
        if a < n - 1 {
            let b = if a < i { a } else { a + 1 };
            assert(reparented(k1.tasks@[a], k0.tasks@[b], cs));
            assert(k0.listed_ok(k0.tasks@[b]));
            assert(k0.tasks@[b].pid != x);
        } else {
            assert(k1.tasks@[a] == z);
        }
    }
}

/// The program break that `sbrk(size)` asks for.
pub open spec fn sbrk_target(t: TaskControlBlock, size: i32) -> int {
    t.program_brk + size
}

/// Whether `new` differs from `old` at most in the address space and the
/// program break.
pub open spec fn only_heap_changed(new: TaskControlBlock, old: TaskControlBlock) -> bool {
    &&& new.pid == old.pid
    &&& new.status == old.status
    &&& new.exit_code == old.exit_code
    &&& new.parent == old.parent
    &&& new.children == old.children
    &&& new.fd_table == old.fd_table
    &&& new.regs == old.regs
    &&& new.heap_bottom == old.heap_bottom
    &&& new.program == old.program
    &&& new.priority == old.priority
}

proof fn lemma_ceil_above(hb: int, nb: int)
    requires
        0 <= hb <= nb,
    ensures
        hb / 4096 <= ceil(nb),
        nb / 4096 <= ceil(nb),
{
    assert(hb / 4096 <= nb / 4096) by (nonlinear_arith)
        requires
            0 <= hb <= nb,
    ;
    if nb > 0 {
        assert(nb / 4096 <= (nb - 1 + 4096) / 4096) by (nonlinear_arith)
            requires
                nb > 0,
        ;
    }
}

/// Moves the program break of the running task by `size` bytes: -1 when the
/// break would fall below the start of the heap or no area starts at the
/// heap's page; else the heap area is shrunk (pages unmapped, frames
/// released) or grown (pages mapped to fresh frames) to end at the page that
/// the new break rounds up to, and the old break is returned.
pub fn sys_sbrk(k: &mut Kernel, size: i32) -> (r: isize)
    requires
        old(k).wf(),
        old(k).current.program_brk + 0x8000_0000 <= i64::MAX,
        old(k).current.heap_bottom <= i64::MAX,
        ({
            let t = old(k).current;
            let nb = sbrk_target(t, size);
            let areas = t.memory_set.areas@;
            let hv = (t.heap_bottom / 4096) as u64;
            nb >= t.heap_bottom && has_area_at(areas, hv) ==> {
                let a = areas[area_at(areas, hv)];
                let ne = ceil(nb) as u64;
                &&& nb < VA_LIMIT
                &&& size < 0 ==> forall|v: u64| ne <= v < a.end_vpn ==> #[trigger] t.memory_set.page_table.is_mapped(v)
                &&& size >= 0 ==> {
                    &&& a.start_vpn <= a.end_vpn <= ne
                    &&& forall|v: u64| a.end_vpn <= v < ne ==> !(#[trigger] t.memory_set.page_table.entry(v)).valid()
                    &&& old(k).phys.free_count() >= range_frames(t.memory_set.page_table, a.end_vpn, ne)
                }
            }
        }),
    ensures
        final(k).wf(),
        ({
            let t = old(k).current;
            let nb = sbrk_target(t, size);
            let areas = t.memory_set.areas@;
            let hv = (t.heap_bottom / 4096) as u64;
            if nb < t.heap_bottom || !has_area_at(areas, hv) {
                r == -1 && *final(k) == *old(k)
            } else {
                let j = area_at(areas, hv);
                let ne = ceil(nb) as u64;
                &&& r == t.program_brk as isize
                &&& final(k).current.program_brk == nb
                &&& only_heap_changed(final(k).current, t)
                &&& size < 0 ==> shrink_post(t.memory_set, old(k).phys, final(k).current.memory_set, final(k).phys, j, ne)
                &&& size >= 0 ==> append_post(t.memory_set, old(k).phys, final(k).current.memory_set, final(k).phys, j, ne)
                &&& final(k).tasks == old(k).tasks
                &&& final(k).ready == old(k).ready
                &&& final(k).pid_next == old(k).pid_next
                &&& final(k).pid_recycled == old(k).pid_recycled
                &&& final(k).fs == old(k).fs
                &&& final(k).files == old(k).files
                &&& final(k).console_in == old(k).console_in
                &&& final(k).console_out == old(k).console_out
                &&& final(k).shutdown == old(k).shutdown
            }
        }),
{
    let heap_bottom = k.current.heap_bottom;
    let old_break = k.current.program_brk;
    let new_brk: i64 = old_break as i64 + size as i64;
    if new_brk < heap_bottom as i64 {
        return -1;
    }
    let nb = new_brk as u64;
    let start = heap_bottom / 4096;
    match k.current.memory_set.find_area(start) {
        None => -1,
        Some(j) => {
            proof {
                lemma_area_at(k.current.memory_set.areas@, start, j as int);
                lemma_ceil_above(heap_bottom as int, nb as int);
            }
            let new_end = if nb == 0 { 0 } else { (nb - 1 + 4096) / 4096 };
            proof {
                assert(old(k).is_proc(old(k).current.pid));
                assert(old(k).space_of(old(k).current.pid).frames_held(old(k).phys));
                let a = old(k).current.memory_set.areas@[j as int];
                old(k).current.memory_set.lemma_held_releasable_range(old(k).phys, j as int, new_end as int, a.end_vpn as int);
            }
            if size < 0 {
                k.current.memory_set.area_shrink(&mut k.phys, j, new_end);
            } else {
                k.current.memory_set.area_append(&mut k.phys, j, new_end);
            }
            k.current.program_brk = nb;
            proof {
                lemma_tree_same(*old(k), *k);
                lemma_frames_current(*old(k), *k);
                if size < 0 {
                    lemma_shrink_maps(old(k).current.memory_set, old(k).phys, k.current.memory_set, k.phys, j as int, new_end);
                } else {
                    lemma_append_maps(old(k).current.memory_set, old(k).phys, k.current.memory_set, k.phys, j as int, new_end);
                }
                lemma_maps_current(*old(k), *k);
            }
            old_break as isize
        },
    }
}


/// A range that `mmap` has just mapped, of at least one page, cannot be
/// mapped again: a second `mmap` of it is refused and leaves the mappings
/// and areas as they were.
pub proof fn law_mmap_twice(k0: Kernel, k1: Kernel, k2: Kernel, start: usize, len: usize, prot: usize, r: isize)
    requires
        mmap_pages(start as int, len as int) > 0,
        mmap_call(k0, k1, start, len, prot, 0),
        mmap_call(k1, k2, start, len, prot, r),
    ensures
        r == -1,
        k2.current.memory_set.page_table.entries@ == k1.current.memory_set.page_table.entries@,
        k2.current.memory_set.areas@ == k1.current.memory_set.areas@,
{
    lemma_mmap_twice(
        k0.current.memory_set,
        k0.phys,
        k1.current.memory_set,
        k1.phys,
        k2.current.memory_set,
        k2.phys,
        start as u64,
        len as u64,
        prot as u64,
        r as i64,
    );
}

/// Mapping a range of at least one byte that no area held and unmapping it
/// again: the unmapping is admitted and succeeds, and afterwards every page
/// of the address space is mapped exactly as before.
pub proof fn law_mmap_then_munmap(
    k0: Kernel,
    k1: Kernel,
    k2: Kernel,
    start: usize,
    len: usize,
    prot: usize,
    r: isize,
)
    requires
        1 <= len,
        start + len < VA_LIMIT,
        forall|w: u64|
            mmap_first(start as int) <= w < mmap_end(start as int, len as int) ==> !#[trigger] covers(
                k0.current.memory_set.areas@,
                w,
            ),
        mmap_call(k0, k1, start, len, prot, 0),
        munmap_call(k1, k2, start, len, r),
    ensures
        munmap_ok(k1.current.memory_set, munmap_lo(start as int), munmap_hi(start as int, len as int)),
        r == 0,
        forall|v: u64| #[trigger] k2.current.memory_set.page_table.entry(v).valid() == k0.current.memory_set.page_table.entry(v).valid(),
{
    let (ms0, ms1, ms2) = (k0.current.memory_set, k1.current.memory_set, k2.current.memory_set);
    lemma_munmap_admitted(ms0, k0.phys, ms1, k1.phys, start as u64, len as u64, prot as u64);
    lemma_mmap_then_munmap(ms0, k0.phys, ms1, k1.phys, ms2, k2.phys, start as u64, len as u64, prot as u64);
}

/// After mapping a range of at least one byte that no area held and
/// unmapping it, a second `munmap` of it is refused and changes nothing.
pub proof fn law_munmap_twice(
    k0: Kernel,
    k1: Kernel,
    k2: Kernel,
    k3: Kernel,
    start: usize,
    len: usize,
    prot: usize,
    r2: isize,
    r3: isize,
)
    requires
        1 <= len,
        start + len < VA_LIMIT,
        forall|w: u64|
            mmap_first(start as int) <= w < mmap_end(start as int, len as int) ==> !#[trigger] covers(
                k0.current.memory_set.areas@,
                w,
            ),
        mmap_call(k0, k1, start, len, prot, 0),
        munmap_call(k1, k2, start, len, r2),
        munmap_call(k2, k3, start, len, r3),
    ensures
        r2 == 0,
        r3 == -1,
        k3.current.memory_set == k2.current.memory_set,
        k3.phys == k2.phys,
{
    let (ms0, ms1, ms2) = (k0.current.memory_set, k1.current.memory_set, k2.current.memory_set);
    lemma_munmap_admitted(ms0, k0.phys, ms1, k1.phys, start as u64, len as u64, prot as u64);
    lemma_same_range(start as int, len as int);
    let lo = munmap_lo(start as int);
    assert(vpn_of(lo) == lo);
    assert(ms1.areas@.last().contains(lo as u64));
    assert(covers(ms1.areas@, vpn_of(lo) as u64));
    lemma_munmap_twice(ms1, k1.phys, ms2, k2.phys, k3.current.memory_set, k3.phys, start as u64, len as u64, r3 as i64);
}

/// Once `waitpid` has reaped a child, whichever process id it was asked
/// for (-1 too), the running task has no child with the returned id left:
/// waiting for it again gives -1 and changes nothing.
pub proof fn law_waitpid_twice(
    k0: Kernel,
    k1: Kernel,
    k2: Kernel,
    pid: isize,
    ptr1: usize,
    ptr2: usize,
    r1: isize,
    r2: isize,
)
    requires
        k0.wf(),
        k0.pid_next <= isize::MAX,
        waitpid_call(k0, k1, pid, ptr1, r1),
        r1 >= 0,
        waitpid_call(k1, k2, r1, ptr2, r2),
    ensures
        r2 == -1,
        k2 == k1,
{
    let cs = k0.current.children@;
    let i0 = choose|i: int| 0 <= i < cs.len() && #[trigger] k0.reapable(pid, i);
    lemma_first_reapable_exists(k0, pid, i0);
    let w = k0.reaped(pid);
    assert(k0.first_reapable(pid, w));
    let c = cs[w];
    assert(k0.child_ok(k0.current.pid, c));
    assert(pid_live(c, k0.pid_next, k0.pid_recycled@));
    assert(r1 as usize as u64 == c);
    if k1.has_matching_child(r1) {
        let m = choose|m: int| 0 <= m < k1.current.children@.len() && pid_matches(r1, #[trigger] k1.current.children@[m]);
        let b = if m < w { m } else { m + 1 };
        assert(k1.current.children@[m] == cs[b]);
        assert(cs.no_duplicates());
        assert(cs[b] == c);
    }
}

/// Waiting for a child that has exited, by its process id, reaps it: the
/// call returns that id, stores the child's exit code at the given address
/// (as the running task reads it there), and the child is gone.
pub proof fn law_waitpid_gives_exit_code(k0: Kernel, k1: Kernel, i: int, ptr: usize, r: isize)
    requires
        k0.wf(),
        0 <= i < k0.current.children@.len(),
        k0.current.children@[i] <= isize::MAX,
        k0.task(k0.current.children@[i]).status == TaskStatus::Zombie,
        waitpid_call(k0, k1, k0.current.children@[i] as isize, ptr, r),
    ensures
        r == k0.current.children@[i] as isize,
        k1.current.memory_set.user_bytes(k1.phys, ptr as int, 4) == le_bytes(
            k0.task(k0.current.children@[i]).exit_code as u32 as nat,
            4,
        ),
        !k1.has_matching_child(k0.current.children@[i] as isize),
{
    let c = k0.current.children@[i];
    law_waitpid_reaps_pid(k0, i);
    assert((c as isize) as usize as u64 == c);
    assert(k0.reapable(c as isize, i));
    lemma_first_reapable_exists(k0, c as isize, i);
    let w = k0.reaped(c as isize);
    assert(k0.first_reapable(c as isize, w));
    assert(k0.current.children@[w] == c);
    if k1.has_matching_child(c as isize) {
        let cs = k0.current.children@;
        let m = choose|m: int| 0 <= m < k1.current.children@.len() && pid_matches(c as isize, #[trigger] k1.current.children@[m]);
        let b = if m < w { m } else { m + 1 };
        assert(k1.current.children@[m] == cs[b]);
        assert(cs.no_duplicates());
        assert((c as isize) as usize as u64 == c);
    }
}


/// A task that exits while its parent is next to run: the parent, waiting
/// for it by its process id, reaps it, gets that id back, and finds the
/// exit code stored where it asked.
pub proof fn law_exit_then_waitpid(k0: Kernel, k1: Kernel, k2: Kernel, exit_code: i32, ptr: usize, r: isize)
    requires
        k0.wf(),
        k0.pid_next <= isize::MAX,
        k0.current.pid != INITPROC_PID,
        k0.ready@.len() > 0,
        k0.current.parent == Some(k0.ready@[0]),
        exit_call(k0, k1, exit_code),
        waitpid_call(k1, k2, k0.current.pid as isize, ptr, r),
    ensures
        k1.current.pid == k0.ready@[0],
        r == k0.current.pid as isize,
        k2.current.memory_set.user_bytes(k2.phys, ptr as int, 4) == le_bytes(exit_code as u32 as nat, 4),
{
    let c = k0.current.pid;
    let p = k0.ready@[0];
    assert(k0.ready_ok(p));
    let i = k0.task_index(p);
    let n = k0.tasks@.len();
    let parent0 = k0.tasks@[i];
    assert(parent0.pid == p);
    let cs = k0.current.children@;
    assert(reparented(k1.current, parent0, cs));
    assert(k0.listed_ok(k0.current));
    lemma_task_index(k0, i);
    assert(k0.children_of(p) == parent0.children@);
    let j = choose|j: int| 0 <= j < parent0.children@.len() && parent0.children@[j] == c;
    assert(k1.current.children@[j] == c) by {
        if p == INITPROC_PID {
            assert(k1.current.children@ == parent0.children@ + cs);
        }
    }
    lemma_task_index(k1, n - 1);
    assert(k1.tasks@[n - 1].pid == c);
    assert(pid_live(c, k0.pid_next, k0.pid_recycled@));
    law_waitpid_gives_exit_code(k1, k2, j, ptr, r);
}

} // verus!
