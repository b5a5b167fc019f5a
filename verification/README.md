# os_syscall

The system-call layer of a small RISC-V teaching kernel, written in Verus
and verified: file descriptors over a flat file system, per-process SV39
address spaces backed by physical frames, and the process table that
`fork`, `exec`, `spawn`, `waitpid`, `exit` and `yield` work on.

Every system call takes the kernel state (`task::Kernel`) explicitly and
states in its contract what it returns and how the state changes; the
calls that laws combine state it as a named predicate (`close_call`,
`mmap_call`, `waitpid_call`, ...). A read from the console with no input
yet answers `None`: the task waits and makes the call again. All of
them keep the kernel invariant `Kernel::wf`: memory, file system and
descriptors are consistent, and every file's link count is the number of
directory entries naming it; the process tree is (the ready queue holds
ready tasks, every child is a process with that parent and every task is
listed by its parent, the first process exists); no physical frame
serves two processes or is owned while free; and the page table of every live process maps each page to the frame that
backs it in one of its areas. What the kernel stores into user memory
(file data, a `Stat`, a `TimeVal`, an exit code) is proved to be seen by
the process as written, wherever it lies across pages. Round trips are
stated as proof functions over the system calls: link then unlink, two
linked names sharing a `Stat`, open then close twice, mmap then munmap
(the unmapping admitted), a second munmap or mmap refused, a reaped child
not waited for again and its exit code delivered.

Frames are counted exactly: `mmap`, `fork`, `sbrk` and loading a program
require as many free frames as they take, tables included.

Each task carries a priority (16 at start, inherited by `fork`) that
`sys_set_priority` sets; the ready queue itself is served first in, first
out.

Layout of `src/`:

- `config`, `bytes`, `address`: constants, little-endian images, SV39
  address arithmetic.
- `frame`: the frame allocator and frame contents.
- `page_table`, `memory_set`: page tables, framed areas, address spaces,
  reading and writing user memory.
- `ownership`: which frames an address space owns, and how each operation
  on address spaces changes that.
- `mapping`: how page tables agree with areas, and what follows from it.
- `efs`, `fs`: the root directory, inodes, open files.
- `task`: processes, the kernel state and its invariant.
- `syscall::fs`, `syscall::process`, `syscall::mm`: the system calls.

`app/` holds what is left outside: printing the console output, feeding
console input and reading the clock.
