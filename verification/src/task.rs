//! Processes and the kernel state that the system calls work on: the running
//! task, the other tasks not yet reclaimed, the ready queue, the process-id
//! allocator, physical memory, the file system, the table of open files and
//! the console.
use vstd::prelude::*;
use crate::frame::PhysMemory;
use crate::memory_set::MemorySet;
use crate::efs::EasyFileSystem;
use crate::fs::{FileObject, open_file, lemma_rdonly};
use crate::efs::lookup;
use crate::memory_set::{USER_STACK_TOP_VPN, user_space_post};
use crate::ownership::{frames_step, fresh_space, lemma_owned_frames, lemma_released};
use crate::memory_set::released;

verus! {

/// Process id of the first user process; its exit shuts the machine down.
pub const INITPROC_PID: u64 = 0;

/// The saved registers of a program about to start: all 0 but the stack
/// pointer `x2`, which is `sp`.
pub open spec fn init_regs(sp: u64) -> Seq<u64> {
    Seq::new(32, |i: int| if i == 2 { sp } else { 0u64 })
}

/// The saved registers of a program about to start with stack pointer `sp`.
pub fn fresh_regs(sp: u64) -> (r: Vec<u64>)
    ensures
        r@ == init_regs(sp),
{
    let mut r: Vec<u64> = Vec::new();
    let mut i: usize = 0;
    while i < 32
        invariant
            i <= 32,
            r@.len() == i,
            forall|j: int| 0 <= j < i ==> r@[j] == init_regs(sp)[j],
        decreases 32 - i,
    {
        r.push(if i == 2 { sp } else { 0 });
        i = i + 1;
    }
    assert(r@ =~= init_regs(sp));
    r
}

/// A copy of the saved registers `regs` with `x10` (`a0`) cleared: what a
/// forked child starts from.
pub fn child_regs(regs: &Vec<u64>) -> (r: Vec<u64>)
    requires
        regs@.len() == 32,
    ensures
        r@ == regs@.update(10, 0),
{
    let mut r: Vec<u64> = Vec::new();
    let mut i: usize = 0;
    while i < regs.len()
        invariant
            i <= regs@.len(),
            r@ == regs@.subrange(0, i as int),
        decreases regs@.len() - i,
    {
        r.push(regs[i]);
        i = i + 1;
        assert(r@ =~= regs@.subrange(0, i as int));
    }
    assert(r@ =~= regs@);
    r.set(10, 0);
    r
}

/// Priority a task starts with, unless it inherits one.
pub const DEFAULT_PRIORITY: isize = 16;

#[derive(PartialEq, Eq, Structural, Clone, Copy)]
pub enum TaskStatus {
    Ready,
    Running,
    Zombie,
}

/// One process.
pub struct TaskControlBlock {
    pub pid: u64,
    pub status: TaskStatus,
    pub exit_code: i32,
    pub parent: Option<u64>,
    /// Process ids of the children, oldest first.
    pub children: Vec<u64>,
    /// Descriptor table: each slot empty or an index into the kernel's open
    /// files.
    pub fd_table: Vec<Option<usize>>,
    pub memory_set: MemorySet,
    /// The general registers `x0`..`x31` of the saved user context; `x10`
    /// (`a0`) is what the task sees returned when it next runs.
    pub regs: Vec<u64>,
    /// Start of the heap.
    pub heap_bottom: u64,
    /// Current end of the heap.
    pub program_brk: u64,
    /// The program image the task was loaded from.
    pub program: Vec<u8>,
    /// Scheduling priority.
    pub priority: isize,
}

pub struct Kernel {
    /// The task running on the processor.
    pub current: TaskControlBlock,
    /// Every other task not yet reclaimed (ready ones and zombies).
    pub tasks: Vec<TaskControlBlock>,
    /// Process ids of the ready tasks, next to run first.
    pub ready: Vec<u64>,
    /// Next never-used process id.
    pub pid_next: u64,
    /// Released process ids, reused from the back.
    pub pid_recycled: Vec<u64>,
    pub phys: PhysMemory,
    pub fs: EasyFileSystem,
    /// Open files, shared by the descriptors that refer to them.
    pub files: Vec<FileObject>,
    /// Console input not read yet.
    pub console_in: Vec<u8>,
    /// Console output, in the pieces in which it was written.
    pub console_out: Vec<Vec<u8>>,
    /// Exit code of the first process, once it has exited.
    pub shutdown: Option<i32>,
}

impl TaskControlBlock {
    /// Whether the descriptor table refers only to open files below `n`.
    pub open spec fn fds_below(&self, n: nat) -> bool {
        forall|i: int| 0 <= i < self.fd_table@.len() && (#[trigger] self.fd_table@[i]) is Some ==> self.fd_table@[i]->0 < n
    }
}

/// Whether process id `pid` is handed out and not released.
pub open spec fn pid_live(pid: u64, next: u64, recycled: Seq<u64>) -> bool {
    pid < next && !recycled.contains(pid)
}

impl TaskControlBlock {
    /// Whether `self` and `o` differ at most in status.
    pub open spec fn same_but_status(&self, o: TaskControlBlock) -> bool {
        &&& self.pid == o.pid
        &&& self.exit_code == o.exit_code
        &&& self.parent == o.parent
        &&& self.children == o.children
        &&& self.fd_table == o.fd_table
        &&& self.memory_set == o.memory_set
        &&& self.regs == o.regs
        &&& self.heap_bottom == o.heap_bottom
        &&& self.program_brk == o.program_brk
        &&& self.program == o.program
        &&& self.priority == o.priority
    }
}

/// Whether open file `f` refers to an inode below `n`.
pub open spec fn file_ok(f: FileObject, n: nat) -> bool {
    f matches FileObject::Inode { inode_id, .. } ==> inode_id < n
}

impl Kernel {
    pub open spec fn wf(&self) -> bool {
        &&& self.base_ok()
        &&& self.tree_ok()
        &&& self.frames_ok()
        &&& self.maps_all_ok()
    }

    /// Whether the page table of the running task, and of every task that
    /// has not exited, agrees with its areas.
    pub open spec fn maps_all_ok(&self) -> bool {
        &&& self.current.memory_set.maps_ok()
        &&& forall|i: int|
            0 <= i < self.tasks@.len() && (#[trigger] self.tasks@[i]).status != TaskStatus::Zombie
                ==> self.tasks@[i].memory_set.maps_ok()
    }

    /// The address space of process `pid`.
    pub open spec fn space_of(&self, pid: u64) -> MemorySet {
        if self.current.pid == pid {
            self.current.memory_set
        } else {
            self.task(pid).memory_set
        }
    }

    /// Whether every process's frames are distinct and handed out, and no
    /// two processes share a frame.
    pub open spec fn frames_ok(&self) -> bool {
        &&& forall|p: u64| self.is_proc(p) ==> #[trigger] self.space_of(p).frames_held(self.phys)
        &&& forall|p: u64, q: u64, f: u64|
            self.is_proc(p) && self.is_proc(q) && p != q && #[trigger] self.space_of(p).owns(f) ==> !#[trigger] self.space_of(
                q,
            ).owns(f)
    }

    /// Everything the invariant asks but the process tree: memory, file
    /// system, descriptors, open files and process ids.
    pub open spec fn base_ok(&self) -> bool {
        &&& self.phys.wf()
        &&& self.fs.wf()
        &&& self.current.memory_set.wf()
        &&& self.current.fds_below(self.files@.len())
        &&& self.current.regs@.len() == 32
        &&& forall|i: int| 0 <= i < self.tasks@.len() ==> (#[trigger] self.tasks@[i]).memory_set.wf() && self.tasks@[i].fds_below(self.files@.len())
            && self.tasks@[i].regs@.len() == 32
        &&& forall|i: int| 0 <= i < self.files@.len() ==> file_ok(#[trigger] self.files@[i], self.fs.inodes@.len())
        &&& self.pids_ok()
    }

    /// The task with process id `pid` among those not running.
    pub open spec fn task(&self, pid: u64) -> TaskControlBlock {
        self.tasks@[self.task_index(pid)]
    }

    /// Whether `pid` is the running task or one of the others.
    pub open spec fn is_proc(&self, pid: u64) -> bool {
        self.current.pid == pid || self.has_task(pid)
    }

    /// The parent recorded for process `pid`.
    pub open spec fn parent_of(&self, pid: u64) -> Option<u64> {
        if self.current.pid == pid {
            self.current.parent
        } else {
            self.task(pid).parent
        }
    }

    /// Whether `c`, listed as a child of process `p`, is another process
    /// that has `p` as its parent.
    pub open spec fn child_ok(&self, p: u64, c: u64) -> bool {
        &&& c != p
        &&& self.is_proc(c)
        &&& self.parent_of(c) == Some(p)
    }

    /// Whether the children of task `t` are listed once each and are
    /// processes that have `t` as parent.
    pub open spec fn children_ok(&self, t: TaskControlBlock) -> bool {
        &&& t.children@.no_duplicates()
        &&& forall|j: int| 0 <= j < t.children@.len() ==> #[trigger] self.child_ok(t.pid, t.children@[j])
    }

    /// Whether `p`, queued to run, is a ready task.
    pub open spec fn ready_ok(&self, p: u64) -> bool {
        self.has_task(p) && self.task(p).status == TaskStatus::Ready
    }

    /// Whether the process tree is consistent: the ready queue holds ready
    /// tasks, each once; every listed child is a process with that parent,
    /// and every task with a parent is listed by it; the first process
    /// exists and has no parent; and a zombie other than the first process
    /// has no children.
    pub open spec fn tree_ok(&self) -> bool {
        &&& self.ready@.no_duplicates()
        &&& forall|i: int| 0 <= i < self.ready@.len() ==> #[trigger] self.ready_ok(self.ready@[i])
        &&& self.children_ok(self.current)
        &&& forall|i: int| 0 <= i < self.tasks@.len() ==> #[trigger] self.children_ok(self.tasks@[i])
        &&& self.is_proc(INITPROC_PID)
        &&& self.parent_of(INITPROC_PID) is None
        &&& self.listed_ok(self.current)
        &&& forall|i: int| 0 <= i < self.tasks@.len() ==> #[trigger] self.listed_ok(self.tasks@[i])
        &&& forall|i: int|
            0 <= i < self.tasks@.len() && (#[trigger] self.tasks@[i]).status == TaskStatus::Zombie
                && self.tasks@[i].pid != INITPROC_PID ==> self.tasks@[i].children@.len() == 0
    }

    /// The children listed for process `p`.
    pub open spec fn children_of(&self, p: u64) -> Seq<u64> {
        if self.current.pid == p {
            self.current.children@
        } else {
            self.task(p).children@
        }
    }

    /// Whether the parent of task `t`, if it has one, is a process that
    /// lists `t` among its children.
    pub open spec fn listed_ok(&self, t: TaskControlBlock) -> bool {
        t.parent matches Some(p) ==> self.is_proc(p) && self.children_of(p).contains(t.pid)
    }

    /// Whether every process id in use was handed out and not released, and
    /// no two processes share one.
    pub open spec fn pids_ok(&self) -> bool {
        &&& self.pid_recycled@.no_duplicates()
        &&& forall|i: int| 0 <= i < self.pid_recycled@.len() ==> #[trigger] self.pid_recycled@[i] < self.pid_next
        &&& pid_live(self.current.pid, self.pid_next, self.pid_recycled@)
        &&& forall|i: int| 0 <= i < self.tasks@.len() ==> pid_live((#[trigger] self.tasks@[i]).pid, self.pid_next, self.pid_recycled@)
        &&& forall|i: int| 0 <= i < self.tasks@.len() ==> (#[trigger] self.tasks@[i]).pid != self.current.pid
        &&& forall|i: int, j: int| 0 <= i < j < self.tasks@.len() ==> (#[trigger] self.tasks@[i]).pid != (#[trigger] self.tasks@[j]).pid
    }

    /// Whether the process table, the ready queue, the process-id allocator
    /// and the running task, but for its descriptor table, are as in `o`.
    pub open spec fn procs_same(&self, o: Kernel) -> bool {
        &&& self.tasks == o.tasks
        &&& self.ready == o.ready
        &&& self.pid_next == o.pid_next
        &&& self.pid_recycled == o.pid_recycled
        &&& self.shutdown == o.shutdown
        &&& self.current.pid == o.current.pid
        &&& self.current.status == o.current.status
        &&& self.current.exit_code == o.current.exit_code
        &&& self.current.parent == o.current.parent
        &&& self.current.children == o.current.children
        &&& self.current.memory_set == o.current.memory_set
        &&& self.current.regs == o.current.regs
        &&& self.current.heap_bottom == o.current.heap_bottom
        &&& self.current.program_brk == o.current.program_brk
        &&& self.current.program == o.current.program
        &&& self.current.priority == o.current.priority
    }

    /// The open file behind descriptor `fd` of the running task.
    pub open spec fn fd_file(&self, fd: int) -> Option<FileObject> {
        if 0 <= fd < self.current.fd_table@.len() && self.current.fd_table@[fd] is Some {
            Some(self.files@[self.current.fd_table@[fd]->0 as int])
        } else {
            None
        }
    }

    /// The descriptor that the next allocation gives: the lowest empty slot,
    /// else a new slot at the end.
    pub open spec fn next_fd(&self) -> int {
        if exists|i: int| 0 <= i < self.current.fd_table@.len() && #[trigger] self.current.fd_table@[i] is None {
            choose|i: int| is_lowest_empty(self.current.fd_table@, i)
        } else {
            self.current.fd_table@.len() as int
        }
    }

    /// The process id that the next allocation gives.
    pub open spec fn next_pid(&self) -> u64 {
        if self.pid_recycled@.len() > 0 {
            self.pid_recycled@.last()
        } else {
            self.pid_next
        }
    }

    /// Index in `tasks` of the task with process id `pid`.
    pub open spec fn task_index(&self, pid: u64) -> int {
        choose|i: int| 0 <= i < self.tasks@.len() && (#[trigger] self.tasks@[i]).pid == pid
    }

    /// Whether some task in `tasks` has process id `pid`.
    pub open spec fn has_task(&self, pid: u64) -> bool {
        exists|i: int| 0 <= i < self.tasks@.len() && (#[trigger] self.tasks@[i]).pid == pid
    }

    /// Allocates a process id: the most recently released one, else a new one.
    pub fn pid_alloc(&mut self) -> (r: u64)
        requires
            old(self).pid_recycled@.len() > 0 || old(self).pid_next < u64::MAX,
        ensures
            r == old(self).next_pid(),
            old(self).pid_recycled@.len() > 0 ==> final(self).pid_recycled@ == old(self).pid_recycled@.drop_last()
                && final(self).pid_next == old(self).pid_next,
            old(self).pid_recycled@.len() == 0 ==> final(self).pid_recycled@ == old(self).pid_recycled@
                && final(self).pid_next == old(self).pid_next + 1,
            final(self).current == old(self).current,
            final(self).tasks == old(self).tasks,
            final(self).ready == old(self).ready,
            final(self).phys == old(self).phys,
            final(self).fs == old(self).fs,
            final(self).files == old(self).files,
            final(self).console_in == old(self).console_in,
            final(self).console_out == old(self).console_out,
            final(self).shutdown == old(self).shutdown,
    {
        match self.pid_recycled.pop() {
            Some(p) => p,
            None => {
                self.pid_next = self.pid_next + 1;
                self.pid_next - 1
            },
        }
    }

    /// Finds the task with process id `pid` among the tasks that are not
    /// running.
    pub fn find_task(&self, pid: u64) -> (r: Option<usize>)
        ensures
            match r {
                Some(i) => i < self.tasks@.len() && self.tasks@[i as int].pid == pid && (self.pids_ok() ==> self.task_index(pid) == i),
                None => !self.has_task(pid),
            },
    {
        let r = self.find_task_at(pid);
        proof {
            if let Some(i) = r {
                if self.pids_ok() {
                    let j = self.task_index(pid);
                    assert(0 <= j < self.tasks@.len() && self.tasks@[j].pid == pid);
                    if j < i {
                        assert(self.tasks@[j].pid != self.tasks@[i as int].pid);
                    }
                    if i < j {
                        assert(self.tasks@[i as int].pid != self.tasks@[j].pid);
                    }
                }
            }
        }
        r
    }

    /// Index of the task with process id `pid`, which exists.
    pub fn find_task_at_any(&self, pid: u64) -> (r: usize)
        requires
            self.has_task(pid),
        ensures
            r < self.tasks@.len(),
            self.tasks@[r as int].pid == pid,
    {
        self.find_task_at(pid).unwrap()
    }

    fn find_task_at(&self, pid: u64) -> (r: Option<usize>)
        ensures
            match r {
                Some(i) => i < self.tasks@.len() && self.tasks@[i as int].pid == pid,
                None => !self.has_task(pid),
            },
    {
        let mut i: usize = 0;
        while i < self.tasks.len()
            invariant
                i <= self.tasks@.len(),
                forall|j: int| 0 <= j < i ==> (#[trigger] self.tasks@[j]).pid != pid,
            decreases self.tasks@.len() - i,
        {
            if self.tasks[i].pid == pid {
                return Some(i);
            }
            i = i + 1;
        }
        None
    }
}

impl Kernel {
    /// Boots the kernel on the physical frames `start..end`, the file system
    /// `fs` and the console input `console_in`, with the file named `init` as
    /// the first process (process id 0, running, descriptors 0, 1 and 2 on
    /// console input, console output and console output). `None` when no
    /// such file exists.
    pub fn new(start: u64, end: u64, fs: EasyFileSystem, console_in: Vec<u8>, init: &Vec<u8>) -> (r: Option<Kernel>)
        requires
            fs.wf(),
            start + 8 <= end,
        ensures
            match lookup(fs.root@, init@) {
                None => r is None,
                Some(id) => r matches Some(k) && {
                    &&& k.wf()
                    &&& k.current.pid == INITPROC_PID
                    &&& k.current.status == TaskStatus::Running
                    &&& k.current.exit_code == 0
                    &&& k.current.parent is None
                    &&& k.current.children@ == Seq::<u64>::empty()
                    &&& k.current.fd_table@ == seq![Some(0usize), Some(1usize), Some(2usize)]
                    &&& k.files@ == seq![FileObject::Stdin, FileObject::Stdout, FileObject::Stdout]
                    &&& k.current.regs@ == init_regs((USER_STACK_TOP_VPN * 4096) as u64)
                    &&& k.current.heap_bottom == USER_STACK_TOP_VPN * 4096
                    &&& k.current.program_brk == USER_STACK_TOP_VPN * 4096
                    &&& k.current.program@ == fs.inodes@[id as int].data@
                    &&& k.current.priority == DEFAULT_PRIORITY
                    &&& exists|pm0: PhysMemory| {
                        &&& pm0.start == start
                        &&& pm0.current == start
                        &&& pm0.end == end
                        &&& pm0.recycled@ == Seq::<u64>::empty()
                        &&& user_space_post(pm0, k.current.memory_set, k.phys)
                    }
                    &&& k.tasks@ == Seq::<TaskControlBlock>::empty()
                    &&& k.ready@ == Seq::<u64>::empty()
                    &&& k.pid_next == 1
                    &&& k.pid_recycled@ == Seq::<u64>::empty()
                    &&& k.fs == fs
                    &&& k.console_in == console_in
                    &&& k.console_out@ == Seq::<Vec<u8>>::empty()
                    &&& k.shutdown is None
                },
            },
    {
        let mut fs = fs;
        proof {
            lemma_rdonly();
        }
        let ghost fs0 = fs;
        let inode_id = match open_file(&mut fs, init, 0) {
            Some(FileObject::Inode { inode_id, .. }) => inode_id,
            _ => return None,
        };
        proof {
            crate::efs::lemma_first_match_exists(fs.root@, init@);
            let fm = crate::efs::first_match(fs.root@, init@);
            assert(fs.root@[fm].inode_id < fs.inodes@.len());
        }
        let size = fs.inodes[inode_id as usize].data.len();
        let data = fs.read_inode(inode_id, 0, size as u64);
        proof {
            let d = fs.inodes@[inode_id as int].data@;
            if d.len() == 0 {
                assert(data@ =~= d);
            } else {
                assert(d.subrange(0, d.len() as int) =~= d);
            }
            assert(data@ =~= d);
        }
        let mut phys = PhysMemory::new(start, end);
        let ghost pm0 = phys;
        let (ms, brk) = MemorySet::new_user_space(&mut phys);
        let mut files: Vec<FileObject> = Vec::new();
        files.push(FileObject::Stdin);
        files.push(FileObject::Stdout);
        files.push(FileObject::Stdout);
        let mut fds: Vec<Option<usize>> = Vec::new();
        fds.push(Some(0));
        fds.push(Some(1));
        fds.push(Some(2));
        let current = TaskControlBlock {
            pid: INITPROC_PID,
            status: TaskStatus::Running,
            exit_code: 0,
            parent: None,
            children: Vec::new(),
            fd_table: fds,
            memory_set: ms,
            regs: fresh_regs(brk),
            heap_bottom: brk,
            program_brk: brk,
            program: data,
            priority: DEFAULT_PRIORITY,
        };
        let k = Kernel {
            current,
            tasks: Vec::new(),
            ready: Vec::new(),
            pid_next: 1,
            pid_recycled: Vec::new(),
            phys,
            fs,
            files,
            console_in,
            console_out: Vec::new(),
            shutdown: None,
        };
        proof {
            assert(k.files@ =~= seq![FileObject::Stdin, FileObject::Stdout, FileObject::Stdout]);
            assert(k.current.fd_table@ =~= seq![Some(0usize), Some(1usize), Some(2usize)]);
            assert(k.current.fds_below(3));
            assert(user_space_post(pm0, k.current.memory_set, k.phys));
            crate::mapping::lemma_user_space_maps(pm0, k.current.memory_set, k.phys);
        }
        Some(k)
    }
}

/// Task `i` is the one that its process id finds.
pub proof fn lemma_task_index(k: Kernel, i: int)
    requires
        k.pids_ok(),
        0 <= i < k.tasks@.len(),
    ensures
        k.has_task(k.tasks@[i].pid),
        k.task_index(k.tasks@[i].pid) == i,
        k.task(k.tasks@[i].pid) == k.tasks@[i],
{
    let p = k.tasks@[i].pid;
    assert(0 <= i < k.tasks@.len() && k.tasks@[i].pid == p);
    let j = k.task_index(p);
    if j != i {
        if j < i {
            assert(k.tasks@[j].pid != k.tasks@[i].pid);
        } else {
            assert(k.tasks@[i].pid != k.tasks@[j].pid);
        }
    }
}

/// The process tree stays consistent when neither the tasks, the ready
/// queue, nor the running task's process id, parent and children change.
pub proof fn lemma_tree_same(k0: Kernel, k1: Kernel)
    requires
        k0.tree_ok(),
        k1.tasks@ == k0.tasks@,
        k1.ready@ == k0.ready@,
        k1.current.pid == k0.current.pid,
        k1.current.parent == k0.current.parent,
        k1.current.children@ == k0.current.children@,
    ensures
        k1.tree_ok(),
{
    assert forall|p: u64| #[trigger] k1.is_proc(p) == k0.is_proc(p) && k1.parent_of(p) == k0.parent_of(p) by {}
    assert forall|p: u64, c: u64| #[trigger] k1.child_ok(p, c) == k0.child_ok(p, c) by {}
    assert forall|p: u64| #[trigger] k1.ready_ok(p) == k0.ready_ok(p) by {}
    assert forall|i: int| 0 <= i < k1.tasks@.len() implies #[trigger] k1.children_ok(k1.tasks@[i]) by {
        assert(k0.children_ok(k0.tasks@[i]));
    }
    assert(k0.children_ok(k0.current));
    assert forall|p: u64| #[trigger] k1.children_of(p) == k0.children_of(p) by {}
    assert forall|t: TaskControlBlock| #[trigger] k1.listed_ok(t) == k0.listed_ok(t) by {}
    assert(k0.listed_ok(k0.current));
    assert forall|i: int| 0 <= i < k1.tasks@.len() implies #[trigger] k1.listed_ok(k1.tasks@[i]) by {
        assert(k0.listed_ok(k0.tasks@[i]));
    }
    assert forall|i: int| 0 <= i < k1.tasks@.len() && (#[trigger] k1.tasks@[i]).status == TaskStatus::Zombie
        && k1.tasks@[i].pid != INITPROC_PID implies k1.tasks@[i].children@.len() == 0 by {
        assert(k0.tasks@[i] == k1.tasks@[i]);
    }
}

/// Where every process stays one and keeps its list of children, a task's
/// parent that listed it still does.
pub proof fn lemma_listed_kept(k0: Kernel, k1: Kernel)
    requires
        forall|p: u64| k0.is_proc(p) ==> #[trigger] k1.is_proc(p) && k1.children_of(p) == k0.children_of(p),
    ensures
        forall|t: TaskControlBlock| #[trigger] k0.listed_ok(t) ==> k1.listed_ok(t),
{
    assert forall|t: TaskControlBlock| #[trigger] k0.listed_ok(t) implies k1.listed_ok(t) by {
        if let Some(p) = t.parent {
            assert(k1.is_proc(p));
        }
    }
}

/// Frame ownership stays consistent when neither the tasks, the running
/// task's process id and address space, nor which frames are handed out
/// change.
pub proof fn lemma_frames_same(k0: Kernel, k1: Kernel)
    requires
        k0.frames_ok(),
        k1.tasks@ == k0.tasks@,
        k1.current.pid == k0.current.pid,
        k1.current.memory_set == k0.current.memory_set,
        k1.phys.start == k0.phys.start,
        k1.phys.current == k0.phys.current,
        k1.phys.recycled@ == k0.phys.recycled@,
    ensures
        k1.frames_ok(),
        k0.maps_all_ok() ==> k1.maps_all_ok(),
{
    assert forall|p: u64| #[trigger] k1.is_proc(p) == k0.is_proc(p) && k1.space_of(p) == k0.space_of(p) by {}
    assert forall|f: u64| #[trigger] k1.phys.is_allocated(f) == k0.phys.is_allocated(f) by {}
    assert forall|p: u64| k1.is_proc(p) implies #[trigger] k1.space_of(p).frames_held(k1.phys) by {
        let ms = k0.space_of(p);
        assert(ms.frames_held(k0.phys));
        assert forall|f: u64| #[trigger] ms.owns(f) implies k1.phys.is_allocated(f) by {
            assert(k0.phys.is_allocated(f));
        }
    }
    assert forall|p: u64, q: u64, f: u64|
        k1.is_proc(p) && k1.is_proc(q) && p != q && #[trigger] k1.space_of(p).owns(f) implies !#[trigger] k1.space_of(q).owns(f) by {
        assert(k0.space_of(p).owns(f));
    }
}

/// The page tables stay in agreement with the areas when only the running
/// task's address space changes, to one that agrees.
pub proof fn lemma_maps_current(k0: Kernel, k1: Kernel)
    requires
        k0.maps_all_ok(),
        k1.tasks@ == k0.tasks@,
        k1.current.memory_set.maps_ok(),
    ensures
        k1.maps_all_ok(),
{
}

/// Frame ownership stays consistent when only the running task's address
/// space and memory change, by a step that touches nothing it did not own.
pub proof fn lemma_frames_current(k0: Kernel, k1: Kernel)
    requires
        k0.frames_ok(),
        k1.tasks@ == k0.tasks@,
        k1.current.pid == k0.current.pid,
        frames_step(k0.current.memory_set, k0.phys, k1.current.memory_set, k1.phys),
    ensures
        k1.frames_ok(),
{
    let c = k0.current.pid;
    let m0 = k0.current.memory_set;
    let m1 = k1.current.memory_set;
    assert forall|p: u64| #[trigger] k1.is_proc(p) == k0.is_proc(p) by {}
    assert forall|p: u64| p != c implies #[trigger] k1.space_of(p) == k0.space_of(p) by {}
    assert forall|p: u64| k1.is_proc(p) implies #[trigger] k1.space_of(p).frames_held(k1.phys) by {
        if p != c {
            let ms = k0.space_of(p);
            assert(ms.frames_held(k0.phys));
            assert forall|f: u64| #[trigger] ms.owns(f) implies k1.phys.is_allocated(f) by {
                assert(k0.phys.is_allocated(f));
                assert(!k0.space_of(c).owns(f));
            }
        }
    }
    assert forall|p: u64, q: u64, f: u64|
        k1.is_proc(p) && k1.is_proc(q) && p != q && #[trigger] k1.space_of(p).owns(f) implies !#[trigger] k1.space_of(q).owns(f) by {
        if p == c {
            if m0.owns(f) {
                assert(k0.space_of(c).owns(f));
                assert(!k0.space_of(q).owns(f));
            } else {
                assert(!k0.phys.is_allocated(f));
                assert(k0.space_of(q).frames_held(k0.phys));
            }
        } else if q == c {
            if m1.owns(f) {
                if m0.owns(f) {
                    assert(k0.space_of(c).owns(f));
                } else {
                    assert(k0.space_of(p).frames_held(k0.phys));
                }
            }
        } else {
            assert(k0.space_of(p).owns(f));
        }
    }
}

/// Frame ownership stays consistent when the processes stay the same and
/// only process `x`'s address space and memory change, by a step that
/// touches nothing it did not own.
pub proof fn lemma_frames_one_step(k0: Kernel, k1: Kernel, x: u64)
    requires
        k0.frames_ok(),
        k0.is_proc(x),
        forall|p: u64| #[trigger] k1.is_proc(p) == k0.is_proc(p),
        forall|p: u64| p != x && k0.is_proc(p) ==> #[trigger] k1.space_of(p) == k0.space_of(p),
        frames_step(k0.space_of(x), k0.phys, k1.space_of(x), k1.phys),
    ensures
        k1.frames_ok(),
{
    let m0 = k0.space_of(x);
    let m1 = k1.space_of(x);
    assert forall|p: u64| k1.is_proc(p) implies #[trigger] k1.space_of(p).frames_held(k1.phys) by {
        assert(k0.is_proc(p));
        if p != x {
            let ms = k0.space_of(p);
            assert(ms.frames_held(k0.phys));
            assert forall|f: u64| #[trigger] ms.owns(f) implies k1.phys.is_allocated(f) by {
                assert(k0.phys.is_allocated(f));
                assert(!k0.space_of(x).owns(f));
            }
        }
    }
    assert forall|p: u64, q: u64, f: u64|
        k1.is_proc(p) && k1.is_proc(q) && p != q && #[trigger] k1.space_of(p).owns(f) implies !#[trigger] k1.space_of(q).owns(f) by {
        assert(k0.is_proc(p) && k0.is_proc(q));
        if p == x {
            if m0.owns(f) {
                assert(k0.space_of(x).owns(f));
                assert(!k0.space_of(q).owns(f));
            } else {
                assert(!k0.phys.is_allocated(f));
                assert(k0.space_of(q).frames_held(k0.phys));
            }
        } else if q == x {
            if m1.owns(f) {
                if m0.owns(f) {
                    assert(k0.space_of(x).owns(f));
                } else {
                    assert(k0.space_of(p).frames_held(k0.phys));
                }
            }
        } else {
            assert(k0.space_of(p).owns(f));
        }
    }
}

/// Frame ownership stays consistent when a process `n` is added whose
/// address space owns only frames that were free, the others unchanged.
pub proof fn lemma_frames_added(k0: Kernel, k1: Kernel, n: u64)
    requires
        k0.frames_ok(),
        !k0.is_proc(n),
        forall|p: u64| #[trigger] k1.is_proc(p) == (k0.is_proc(p) || p == n),
        forall|p: u64| k0.is_proc(p) ==> #[trigger] k1.space_of(p) == k0.space_of(p),
        fresh_space(k1.space_of(n), k0.phys, k1.phys),
    ensures
        k1.frames_ok(),
{
    assert forall|p: u64| k1.is_proc(p) implies #[trigger] k1.space_of(p).frames_held(k1.phys) by {
        if p != n {
            let ms = k0.space_of(p);
            assert(ms.frames_held(k0.phys));
            assert forall|f: u64| #[trigger] ms.owns(f) implies k1.phys.is_allocated(f) by {
                assert(k0.phys.is_allocated(f));
            }
        }
    }
    assert forall|p: u64, q: u64, f: u64|
        k1.is_proc(p) && k1.is_proc(q) && p != q && #[trigger] k1.space_of(p).owns(f) implies !#[trigger] k1.space_of(q).owns(f) by {
        if p == n {
            assert(!k0.phys.is_allocated(f));
            assert(k0.space_of(q).frames_held(k0.phys));
        } else if q == n {
            assert(k0.space_of(p).frames_held(k0.phys));
            assert(k0.phys.is_allocated(f));
        } else {
            assert(k0.space_of(p).owns(f));
        }
    }
}

/// Frame ownership stays consistent when process `c` goes and the frames
/// its address space owned are released, the others unchanged; `pm` is the
/// memory just before the release, with the same frames handed out as at
/// the start.
pub proof fn lemma_frames_removed(k0: Kernel, k1: Kernel, c: u64, pm: PhysMemory)
    requires
        k0.frames_ok(),
        k0.is_proc(c),
        forall|p: u64| #[trigger] k1.is_proc(p) == (k0.is_proc(p) && p != c),
        forall|p: u64| k1.is_proc(p) ==> #[trigger] k1.space_of(p) == k0.space_of(p),
        pm.start == k0.phys.start,
        pm.current == k0.phys.current,
        pm.recycled@ == k0.phys.recycled@,
        released(pm, k1.phys, k0.space_of(c).owned_frames()),
    ensures
        k1.frames_ok(),
{
    let own = k0.space_of(c).owned_frames();
    lemma_owned_frames(k0.space_of(c));
    lemma_released(pm, k1.phys, own);
    assert forall|q: u64| #[trigger] pm.is_allocated(q) == k0.phys.is_allocated(q) by {}
    assert forall|p: u64| k1.is_proc(p) implies #[trigger] k1.space_of(p).frames_held(k1.phys) by {
        let ms = k0.space_of(p);
        assert(ms.frames_held(k0.phys));
        assert forall|f: u64| #[trigger] ms.owns(f) implies k1.phys.is_allocated(f) by {
            assert(pm.is_allocated(f));
            if own.contains(f) {
                let x = choose|x: int| 0 <= x < own.len() && own[x] == f;
                assert(k0.space_of(c).owns(own[x]));
            }
        }
    }
    assert forall|p: u64, q: u64, f: u64|
        k1.is_proc(p) && k1.is_proc(q) && p != q && #[trigger] k1.space_of(p).owns(f) implies !#[trigger] k1.space_of(q).owns(f) by {
        assert(k0.space_of(p).owns(f));
    }
}

/// No frame serves two processes, and every frame a process owns is handed
/// out.
pub proof fn law_frames_exclusive(k: Kernel, p: u64, q: u64, f: u64)
    requires
        k.wf(),
        k.is_proc(p),
        k.is_proc(q),
        p != q,
        k.space_of(p).owns(f),
    ensures
        !k.space_of(q).owns(f),
        k.phys.is_allocated(f),
{
    assert(k.space_of(p).frames_held(k.phys));
}

/// A copy of descriptor table `t`.
pub fn copy_fds(t: &Vec<Option<usize>>) -> (r: Vec<Option<usize>>)
    ensures
        r@ == t@,
{
    let mut r: Vec<Option<usize>> = Vec::new();
    let mut i: usize = 0;
    while i < t.len()
        invariant
            i <= t@.len(),
            r@ == t@.subrange(0, i as int),
        decreases t@.len() - i,
    {
        r.push(t[i]);
        i = i + 1;
        assert(r@ =~= t@.subrange(0, i as int));
    }
    assert(t@.subrange(0, t@.len() as int) =~= t@);
    r
}

/// Whether slot `i` is the lowest empty slot of `t`.
pub open spec fn is_lowest_empty(t: Seq<Option<usize>>, i: int) -> bool {
    &&& 0 <= i < t.len()
    &&& t[i] is None
    &&& forall|j: int| 0 <= j < i ==> #[trigger] t[j] is Some
}

/// Allocates a descriptor in `t`: the lowest empty slot, else a new empty
/// slot at the end.
pub fn alloc_fd(t: &mut Vec<Option<usize>>) -> (r: usize)
    ensures
        (exists|i: int| 0 <= i < old(t)@.len() && #[trigger] old(t)@[i] is None) ==> is_lowest_empty(old(t)@, r as int)
            && final(t)@ == old(t)@,
        !(exists|i: int| 0 <= i < old(t)@.len() && #[trigger] old(t)@[i] is None) ==> r == old(t)@.len() && final(t)@
            == old(t)@.push(None),
{
    let mut i: usize = 0;
    while i < t.len()
        invariant
            i <= t@.len(),
            t@ == old(t)@,
            forall|j: int| 0 <= j < i ==> #[trigger] t@[j] is Some,
        decreases t@.len() - i,
    {
        if t[i].is_none() {
            return i;
        }
        i = i + 1;
    }
    assert(!(exists|j: int| 0 <= j < old(t)@.len() && #[trigger] old(t)@[j] is None)) by {
        if exists|j: int| 0 <= j < old(t)@.len() && #[trigger] old(t)@[j] is None {
            let j = choose|j: int| 0 <= j < old(t)@.len() && #[trigger] old(t)@[j] is None;
            assert(t@[j] is Some);
        }
    }
    t.push(None);
    t.len() - 1
}

pub proof fn lemma_lowest_empty_unique(t: Seq<Option<usize>>, i: int)
    requires
        is_lowest_empty(t, i),
    ensures
        (choose|k: int| is_lowest_empty(t, k)) == i,
{
    let k = choose|k: int| is_lowest_empty(t, k);
    assert(is_lowest_empty(t, k));
    if k < i {
        assert(t[k] is Some);
    }
    if i < k {
        assert(t[i] is Some);
    }
}

/// UTF-8 encoding of byte `b` read as a Latin-1 character.
pub open spec fn latin1_char(b: u8) -> Seq<u8> {
    if b < 0x80 {
        seq![b]
    } else {
        seq![(0xC0 + b / 64) as u8, (0x80 + b % 64) as u8]
    }
}

/// UTF-8 encoding of the Latin-1 string `s`: how the kernel turns the bytes
/// of a user path into the name it looks up.
pub open spec fn latin1_utf8(s: Seq<u8>) -> Seq<u8>
    decreases s.len(),
{
    if s.len() == 0 {
        Seq::empty()
    } else {
        latin1_utf8(s.drop_last()) + latin1_char(s.last())
    }
}

/// Every byte becomes one or two bytes, never none.
proof fn lemma_latin1_len(s: Seq<u8>)
    ensures
        s.len() <= latin1_utf8(s).len() <= 2 * s.len(),
        s.len() == 0 <==> latin1_utf8(s).len() == 0,
    decreases s.len(),
{
    if s.len() > 0 {
        lemma_latin1_len(s.drop_last());
    }
}

/// A path made of bytes below 0x80 (ASCII) is looked up as exactly those
/// bytes: such a byte is never changed, folded or dropped.
pub proof fn law_latin1_ascii_unchanged(s: Seq<u8>)
    requires
        forall|i: int| 0 <= i < s.len() ==> #[trigger] s[i] < 0x80,
    ensures
        latin1_utf8(s) == s,
    decreases s.len(),
{
    if s.len() > 0 {
        let p = s.drop_last();
        assert forall|i: int| 0 <= i < p.len() implies #[trigger] p[i] < 0x80 by {
            assert(p[i] == s[i]);
        }
        law_latin1_ascii_unchanged(p);
        assert(s[s.len() - 1] < 0x80);
        assert(latin1_utf8(s) =~= s);
    }
}

/// Two paths that differ in any byte are never looked up as the same name:
/// the encoding loses nothing.
pub proof fn law_latin1_injective(a: Seq<u8>, b: Seq<u8>)
    requires
        latin1_utf8(a) == latin1_utf8(b),
    ensures
        a == b,
    decreases a.len() + b.len(),
{
    lemma_latin1_len(a);
    lemma_latin1_len(b);
    if a.len() == 0 || b.len() == 0 {
        assert(a.len() == 0 && b.len() == 0);
        assert(a =~= b);
    } else {
        let (pa, x) = (a.drop_last(), a.last());
        let (pb, y) = (b.drop_last(), b.last());
        let ea = latin1_utf8(pa);
        let eb = latin1_utf8(pb);
        let e = latin1_utf8(a);
        assert(e == ea + latin1_char(x));
        assert(e == eb + latin1_char(y));
        let n = e.len();
        if x < 0x80 {
            assert(e[n - 1] == x);
        } else {
            assert(e[n - 1] == (0x80 + x % 64) as u8);
        }
        if y < 0x80 {
            assert(e[n - 1] == y);
        } else {
            assert(e[n - 1] == (0x80 + y % 64) as u8);
        }
        assert((x < 0x80) == (y < 0x80));
        if x < 0x80 {
            assert(x == y);
            assert(ea =~= e.subrange(0, n - 1));
            assert(eb =~= e.subrange(0, n - 1));
        } else {
            assert(e[n - 2] == (0xC0 + x / 64) as u8);
            assert(e[n - 2] == (0xC0 + y / 64) as u8);
            assert(x == y) by (nonlinear_arith)
                requires
                    x / 64 == y / 64,
                    x % 64 == y % 64,
            ;
            assert(ea =~= e.subrange(0, n - 2));
            assert(eb =~= e.subrange(0, n - 2));
        }
        law_latin1_injective(pa, pb);
        assert(a =~= pa.push(x));
        assert(b =~= pb.push(y));
    }
}

/// A byte of 0x80 or more, read as the character with that code point,
/// becomes a two-byte UTF-8 sequence (`110xxxxx 10xxxxxx`) that decodes
/// back to that code point.
pub proof fn law_latin1_high_byte(b: u8)
    requires
        b >= 0x80,
    ensures
        latin1_utf8(seq![b]).len() == 2,
        0xC0 <= latin1_utf8(seq![b])[0] <= 0xDF,
        0x80 <= latin1_utf8(seq![b])[1] <= 0xBF,
        (latin1_utf8(seq![b])[0] - 0xC0) * 64 + (latin1_utf8(seq![b])[1] - 0x80) == b,
{
    assert(seq![b].drop_last() =~= Seq::<u8>::empty());
    assert(latin1_utf8(Seq::<u8>::empty()) =~= Seq::<u8>::empty());
    assert(seq![b].last() == b);
    assert(latin1_utf8(seq![b]) == latin1_utf8(seq![b].drop_last()) + latin1_char(seq![b].last()));
    assert(latin1_utf8(seq![b]) =~= latin1_char(b));
    assert(b / 64 == 2 || b / 64 == 3);
}

/// The encoding of a path is the encodings of its parts, one after the
/// other: each byte is encoded on its own, whatever stands around it.
pub proof fn law_latin1_concat(a: Seq<u8>, b: Seq<u8>)
    ensures
        latin1_utf8(a + b) == latin1_utf8(a) + latin1_utf8(b),
    decreases b.len(),
{
    if b.len() == 0 {
        assert(a + b =~= a);
        assert(latin1_utf8(a) + latin1_utf8(b) =~= latin1_utf8(a));
    } else {
        let pb = b.drop_last();
        law_latin1_concat(a, pb);
        assert((a + b).drop_last() =~= a + pb);
        assert((a + b).last() == b.last());
        assert(latin1_utf8(a + b) =~= latin1_utf8(a) + latin1_utf8(b));
    }
}

/// Encodes the Latin-1 string `s` as UTF-8.
pub fn encode_latin1(s: &Vec<u8>) -> (r: Vec<u8>)
    ensures
        r@ == latin1_utf8(s@),
        (forall|i: int| 0 <= i < s@.len() ==> #[trigger] s@[i] < 0x80) ==> r@ == s@,
{
    let mut r: Vec<u8> = Vec::new();
    let mut i: usize = 0;
    while i < s.len()
        invariant
            i <= s@.len(),
            r@ == latin1_utf8(s@.take(i as int)),
        decreases s@.len() - i,
    {
        let b = s[i];
        if b < 0x80 {
            r.push(b);
        } else {
            r.push(0xC0 + b / 64);
            r.push(0x80 + b % 64);
        }
        proof {
            assert(s@.take(i + 1).drop_last() =~= s@.take(i as int));
            assert(r@ =~= latin1_utf8(s@.take(i + 1)));
        }
        i = i + 1;
    }
    assert(s@.take(s@.len() as int) =~= s@);
    proof {
        if forall|i: int| 0 <= i < s@.len() ==> #[trigger] s@[i] < 0x80 {
            law_latin1_ascii_unchanged(s@);
        }
    }
    r
}

impl MemorySet {
    /// Whether a NUL-terminated string of `n` bytes (NUL not counted) starts
    /// at raw user address `va`, with every byte of it and the NUL mapped.
    pub open spec fn cstr_at(&self, pm: PhysMemory, va: int, n: nat) -> bool {
        &&& va + n <= u64::MAX
        &&& forall|k: int| 0 <= k <= n ==> #[trigger] self.byte_mapped(pm, va + k)
        &&& forall|k: int| 0 <= k < n ==> #[trigger] self.user_byte(pm, va + k) != 0u8
        &&& self.user_byte(pm, va + n) == 0u8
    }

    /// Whether a NUL-terminated string starts at raw user address `va`.
    pub open spec fn has_cstr(&self, pm: PhysMemory, va: int) -> bool {
        exists|n: nat| self.cstr_at(pm, va, n)
    }

    /// The NUL-terminated string at raw user address `va`, NUL not included.
    pub open spec fn cstr(&self, pm: PhysMemory, va: int) -> Seq<u8> {
        self.user_bytes(pm, va, choose|n: nat| self.cstr_at(pm, va, n))
    }

    pub proof fn lemma_cstr_unique(&self, pm: PhysMemory, va: int, n: nat)
        requires
            self.cstr_at(pm, va, n),
        ensures
            (choose|m: nat| self.cstr_at(pm, va, m)) == n,
    {
        let m = choose|m: nat| self.cstr_at(pm, va, m);
        assert(self.cstr_at(pm, va, m));
        if m < n {
            assert(self.user_byte(pm, va + m) != 0u8);
        }
        if n < m {
            assert(self.user_byte(pm, va + n) != 0u8);
        }
    }

    /// Reads the NUL-terminated string at raw user address `va`, byte by byte.
    pub fn translated_str(&self, pm: &PhysMemory, va: u64) -> (r: Vec<u8>)
        requires
            self.wf(),
            pm.wf(),
            self.has_cstr(*pm, va as int),
        ensures
            r@ == self.cstr(*pm, va as int),
    {
        let ghost n = choose|n: nat| self.cstr_at(*pm, va as int, n);
        let mut r: Vec<u8> = Vec::new();
        let mut p = va;
        loop
            invariant
                self.wf(),
                pm.wf(),
                self.cstr_at(*pm, va as int, n),
                va <= p <= va + n,
                r@ == self.user_bytes(*pm, va as int, (p - va) as nat),
            ensures
                r@ == self.user_bytes(*pm, va as int, n),
            decreases va + n - p,
        {
            assert(self.byte_mapped(*pm, va + (p - va)));
            let b = self.read_user_byte(pm, p);
            if b == 0 {
                assert(p == va + n) by {
                    if p < va + n {
                        assert(self.user_byte(*pm, va + (p - va)) != 0u8);
                    }
                }
                break;
            }
            r.push(b);
            assert(r@ =~= self.user_bytes(*pm, va as int, (p + 1 - va) as nat));
            assert(p < va + n) by {
                if p == va + n {
                    assert(self.user_byte(*pm, va + n) == 0u8);
                }
            }
            p = p + 1;
        }
        proof {
            self.lemma_cstr_unique(*pm, va as int, n);
        }
        r
    }
}

} // verus!
