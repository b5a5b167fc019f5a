use os_syscall::efs::{DirEntry, DiskInode, EasyFileSystem};
use os_syscall::fs::{FileObject, O_CREATE, O_RDWR, O_TRUNC, O_WRONLY};
use os_syscall::syscall::fs::{
    sys_close, sys_fstat, sys_linkat, sys_open, sys_read, sys_unlinkat, sys_write, S_IFREG,
};
use os_syscall::syscall::process::{
    sys_exec, sys_exit, sys_fork, sys_get_time, sys_getpid, sys_mmap, sys_munmap, sys_sbrk,
    sys_set_priority, sys_spawn, sys_waitpid, sys_yield, TimeVal,
};
use os_syscall::task::{Kernel, TaskStatus, INITPROC_PID};

/// Start of the user stack of a freshly loaded program.
const STACK: u64 = 0x1000;
/// Top of the user stack, where the heap starts.
const STACK_TOP: u64 = 0x3000;

fn inode(data: &[u8]) -> DiskInode {
    DiskInode { is_dir: false, data: data.to_vec(), nlink: 1 }
}

fn entry(name: &str, id: u32) -> DirEntry {
    DirEntry { name: name.as_bytes().to_vec(), inode_id: id }
}

/// A file system with the first program, a second program and free inodes.
fn disk() -> EasyFileSystem {
    EasyFileSystem {
        inodes: vec![
            DiskInode { is_dir: true, data: vec![], nlink: 1 },
            inode(b"\x7fELF-init"),
            inode(b"\x7fELF-hello"),
            inode(b""),
            inode(b""),
            inode(b""),
        ],
        used: vec![true, true, true, false, false, false],
        root: vec![entry("initproc", 1), entry("hello", 2)],
    }
}

fn boot_with_input(input: &[u8]) -> Kernel {
    Kernel::new(100, 400, disk(), input.to_vec(), &b"initproc".to_vec()).unwrap()
}

fn boot() -> Kernel {
    boot_with_input(b"")
}

fn poke(k: &mut Kernel, addr: u64, bytes: &[u8]) {
    k.current.memory_set.write_user_bytes(&mut k.phys, addr, &bytes.to_vec());
}

fn peek(k: &Kernel, addr: u64, len: u64) -> Vec<u8> {
    k.current.memory_set.read_user_bytes(&k.phys, addr, len)
}

/// Puts the NUL-terminated string `s` at user address `addr`.
fn put_str(k: &mut Kernel, addr: u64, s: &str) {
    let mut b = s.as_bytes().to_vec();
    b.push(0);
    poke(k, addr, &b);
}

#[test]
fn boot_runs_the_first_process() {
    let k = boot();
    assert_eq!(k.current.pid, INITPROC_PID);
    assert!(k.current.status == TaskStatus::Running);
    assert_eq!(k.current.program, b"\x7fELF-init".to_vec());
    assert_eq!(k.current.fd_table, vec![Some(0), Some(1), Some(2)]);
    assert!(k.files == vec![FileObject::Stdin, FileObject::Stdout, FileObject::Stdout]);
    assert_eq!(k.current.heap_bottom, STACK_TOP);
    assert_eq!(k.current.program_brk, STACK_TOP);
    assert_eq!(k.pid_next, 1);
    assert!(k.tasks.is_empty());
    assert_eq!(k.shutdown, None);
    assert_eq!(sys_getpid(&k), 0);
    let mut regs = vec![0u64; 32];
    regs[2] = STACK_TOP;
    assert_eq!(k.current.regs, regs);
}

#[test]
fn boot_without_first_program() {
    let r = Kernel::new(100, 400, disk(), vec![], &b"missing".to_vec());
    assert!(r.is_none());
}

#[test]
fn boot_and_fork_use_exactly_the_frames_they_need() {
    let mut k = Kernel::new(100, 116, disk(), vec![], &b"initproc".to_vec()).unwrap();
    assert_eq!(k.phys.current, 108);
    assert_eq!(sys_fork(&mut k), 1);
    assert_eq!(k.phys.current, 116);
    assert!(k.phys.recycled.is_empty());
}

#[test]
fn fresh_stack_is_zeroed() {
    let k = boot();
    assert_eq!(peek(&k, STACK, 16), vec![0u8; 16]);
    assert_eq!(peek(&k, STACK_TOP - 16, 16), vec![0u8; 16]);
}

#[test]
fn set_priority_sets_and_returns() {
    let mut k = boot();
    assert_eq!(k.current.priority, 16);
    assert_eq!(sys_set_priority(&mut k, 2), 2);
    assert_eq!(k.current.priority, 2);
    assert_eq!(sys_set_priority(&mut k, 100), 100);
    assert_eq!(k.current.priority, 100);
}

#[test]
fn set_priority_below_two_is_refused() {
    let mut k = boot();
    assert_eq!(sys_set_priority(&mut k, 1), -1);
    assert_eq!(sys_set_priority(&mut k, 0), -1);
    assert_eq!(sys_set_priority(&mut k, -5), -1);
    assert_eq!(k.current.priority, 16);
}

#[test]
fn time_val_image() {
    let t = TimeVal { sec: 0x0102, usec: 999_999 };
    let b = t.to_bytes();
    assert_eq!(b.len(), 16);
    assert_eq!(&b[0..8], &[2, 1, 0, 0, 0, 0, 0, 0]);
    assert_eq!(&b[8..16], &999_999u64.to_le_bytes());
}

#[test]
fn get_time_writes_time_val() {
    let mut k = boot();
    assert_eq!(sys_get_time(&mut k, 0x1100, 0, 12_345_678), 0);
    let b = peek(&k, 0x1100, 16);
    assert_eq!(&b[0..8], &12u64.to_le_bytes());
    assert_eq!(&b[8..16], &345_678u64.to_le_bytes());
    assert_eq!(peek(&k, 0x1110, 8), vec![0u8; 8]);
}

#[test]
fn get_time_of_whole_seconds() {
    let mut k = boot();
    assert_eq!(sys_get_time(&mut k, 0x1100, 0, 1_000_000), 0);
    let b = peek(&k, 0x1100, 16);
    assert_eq!(&b[0..8], &1u64.to_le_bytes());
    assert_eq!(&b[8..16], &0u64.to_le_bytes());
}

#[test]
fn get_time_across_pages() {
    let mut k = boot();
    assert_eq!(sys_get_time(&mut k, 0x1ff8, 0, 3_000_007), 0);
    let b = peek(&k, 0x1ff8, 16);
    assert_eq!(&b[0..8], &3u64.to_le_bytes());
    assert_eq!(&b[8..16], &7u64.to_le_bytes());
}

#[test]
fn get_time_ending_at_page_end() {
    let mut k = boot();
    assert_eq!(sys_get_time(&mut k, 0x1ff0, 0, 5_000_009), 0);
    let b = peek(&k, 0x1ff0, 16);
    assert_eq!(&b[0..8], &5u64.to_le_bytes());
    assert_eq!(&b[8..16], &9u64.to_le_bytes());
}

#[test]
fn mmap_then_munmap() {
    let mut k = boot();
    let start: usize = 0x1000_0000;
    assert_eq!(sys_mmap(&mut k, start, 0x2000, 3), 0);
    assert_eq!(sys_mmap(&mut k, start + 0x1000, 0x1000, 3), -1);
    poke(&mut k, start as u64 + 0x1ffe, b"ok");
    assert_eq!(peek(&k, start as u64 + 0x1ffe, 2), b"ok".to_vec());
    assert_eq!(sys_munmap(&mut k, start, 0x2000), 0);
    assert_eq!(sys_munmap(&mut k, start, 0x2000), -1);
    assert_eq!(sys_mmap(&mut k, start, 0x1000, 1), 0);
    assert_eq!(peek(&k, start as u64, 4), vec![0u8; 4]);
}

#[test]
fn mmap_twice_is_refused() {
    let mut k = boot();
    assert_eq!(sys_mmap(&mut k, 0x1000_0000, 0x1000, 3), 0);
    assert_eq!(k.current.memory_set.areas.len(), 4);
    assert_eq!(sys_mmap(&mut k, 0x1000_0000, 0x1000, 3), -1);
    assert_eq!(k.current.memory_set.areas.len(), 4);
}

#[test]
fn mmap_then_munmap_leaves_page_unmapped() {
    let mut k = boot();
    assert_eq!(sys_mmap(&mut k, 0x1000_0000, 0x1000, 3), 0);
    assert!(k.current.memory_set.page_table.find_pte(0x10000).unwrap().is_valid());
    assert_eq!(sys_munmap(&mut k, 0x1000_0000, 0x1000), 0);
    assert!(!k.current.memory_set.page_table.find_pte(0x10000).unwrap().is_valid());
    assert_eq!(sys_munmap(&mut k, 0x1000_0000, 0x1000), -1);
}

#[test]
fn mmap_refuses_bad_arguments() {
    let mut k = boot();
    assert_eq!(sys_mmap(&mut k, 0x1000_0001, 0x1000, 3), -1);
    assert_eq!(sys_mmap(&mut k, 0x1000_0000, 0x1000, 0), -1);
    assert_eq!(sys_mmap(&mut k, 0x1000_0000, 0x1000, 8), -1);
    assert_eq!(sys_mmap(&mut k, STACK as usize, 0x1000, 3), -1);
}

#[test]
fn mmap_of_zero_length_maps_nothing() {
    let mut k = boot();
    assert_eq!(sys_mmap(&mut k, 0x1000_0000, 0, 3), 0);
    assert_eq!(k.current.memory_set.areas.len(), 4);
    assert_eq!(k.current.memory_set.areas[3].data_frames.len(), 0);
}

#[test]
fn munmap_refuses_unaligned_and_unmapped() {
    let mut k = boot();
    assert_eq!(sys_mmap(&mut k, 0x1000_0000, 0x1000, 3), 0);
    assert_eq!(sys_munmap(&mut k, 0x1000_0001, 0x1000), -1);
    assert_eq!(sys_munmap(&mut k, 0x1000_0000, 0x2000), -1);
    assert_eq!(sys_munmap(&mut k, 0x1000_0000, 0x1000), 0);
}

#[test]
fn write_to_console() {
    let mut k = boot();
    poke(&mut k, 0x1100, b"hello");
    assert_eq!(sys_write(&mut k, 1, 0x1100, 5), 5);
    assert_eq!(k.console_out, vec![b"hello".to_vec()]);
    assert_eq!(sys_write(&mut k, 2, 0x1100, 2), 2);
    assert_eq!(k.console_out, vec![b"hello".to_vec(), b"he".to_vec()]);
}

#[test]
fn write_to_console_one_piece_per_page() {
    let mut k = boot();
    poke(&mut k, 0x1ffd, b"abcdef");
    assert_eq!(sys_write(&mut k, 1, 0x1ffd, 6), 6);
    assert_eq!(k.console_out, vec![b"abc".to_vec(), b"def".to_vec()]);
}

#[test]
fn write_to_bad_descriptor() {
    let mut k = boot();
    assert_eq!(sys_write(&mut k, 0, 0x1100, 1), -1);
    assert_eq!(sys_write(&mut k, 3, 0x1100, 1), -1);
    assert_eq!(sys_write(&mut k, 99, 0x1100, 1), -1);
    assert!(k.console_out.is_empty());
}

#[test]
fn read_from_console() {
    let mut k = boot_with_input(b"xy");
    assert_eq!(sys_read(&mut k, 0, 0x1200, 1), Some(1));
    assert_eq!(peek(&k, 0x1200, 1), b"x".to_vec());
    assert_eq!(k.console_in, b"y".to_vec());
    assert_eq!(sys_read(&mut k, 0, 0x1201, 1), Some(1));
    assert_eq!(peek(&k, 0x1200, 2), b"xy".to_vec());
    assert!(k.console_in.is_empty());
}

#[test]
fn read_from_console_waits_for_input() {
    let mut k = boot();
    poke(&mut k, 0x1200, b"?");
    assert_eq!(sys_read(&mut k, 0, 0x1200, 1), None);
    assert_eq!(peek(&k, 0x1200, 1), b"?".to_vec());
    k.console_in.push(b'z');
    assert_eq!(sys_read(&mut k, 0, 0x1200, 1), Some(1));
    assert_eq!(peek(&k, 0x1200, 1), b"z".to_vec());
}

#[test]
fn read_from_bad_descriptor() {
    let mut k = boot_with_input(b"x");
    assert_eq!(sys_read(&mut k, 1, 0x1200, 1), Some(-1));
    assert_eq!(sys_read(&mut k, 7, 0x1200, 1), Some(-1));
    assert_eq!(k.console_in, b"x".to_vec());
}

#[test]
fn create_write_reopen_read() {
    let mut k = boot();
    put_str(&mut k, 0x1000, "notes");
    let fd = sys_open(&mut k, 0x1000, O_CREATE | O_WRONLY);
    assert_eq!(fd, 3);
    poke(&mut k, 0x1100, b"abcdef");
    assert_eq!(sys_write(&mut k, 3, 0x1100, 6), 6);
    assert_eq!(sys_write(&mut k, 3, 0x1100, 2), 2);
    assert_eq!(sys_read(&mut k, 3, 0x1200, 4), Some(-1));
    assert_eq!(sys_close(&mut k, 3), 0);
    assert_eq!(sys_close(&mut k, 3), -1);
    let fd = sys_open(&mut k, 0x1000, 0);
    assert_eq!(fd, 3);
    assert_eq!(sys_write(&mut k, 3, 0x1100, 1), -1);
    assert_eq!(sys_read(&mut k, 3, 0x1300, 5), Some(5));
    assert_eq!(peek(&k, 0x1300, 5), b"abcde".to_vec());
    assert_eq!(sys_read(&mut k, 3, 0x1300, 5), Some(3));
    assert_eq!(peek(&k, 0x1300, 5), b"fabde".to_vec());
    assert_eq!(sys_read(&mut k, 3, 0x1300, 5), Some(0));
}

#[test]
fn created_file_takes_lowest_free_inode() {
    let mut k = boot();
    put_str(&mut k, 0x1000, "a");
    put_str(&mut k, 0x1010, "b");
    assert_eq!(sys_open(&mut k, 0x1000, O_CREATE), 3);
    assert_eq!(sys_open(&mut k, 0x1010, O_CREATE | O_RDWR), 4);
    assert_eq!(k.fs.root.len(), 4);
    assert_eq!(k.fs.root[2].name, b"a".to_vec());
    assert_eq!(k.fs.root[2].inode_id, 3);
    assert_eq!(k.fs.root[3].inode_id, 4);
    assert_eq!(k.fs.used, vec![true, true, true, true, true, false]);
}

#[test]
fn open_missing_file() {
    let mut k = boot();
    put_str(&mut k, 0x1000, "nothing");
    assert_eq!(sys_open(&mut k, 0x1000, 0), -1);
    assert_eq!(sys_open(&mut k, 0x1000, O_RDWR), -1);
    assert_eq!(k.current.fd_table.len(), 3);
}

#[test]
fn open_reuses_lowest_free_descriptor() {
    let mut k = boot();
    put_str(&mut k, 0x1000, "hello");
    assert_eq!(sys_open(&mut k, 0x1000, 0), 3);
    assert_eq!(sys_open(&mut k, 0x1000, 0), 4);
    assert_eq!(sys_close(&mut k, 1), 0);
    assert_eq!(sys_open(&mut k, 0x1000, 0), 1);
    assert_eq!(sys_open(&mut k, 0x1000, 0), 5);
}

#[test]
fn open_with_trunc_empties_file() {
    let mut k = boot();
    put_str(&mut k, 0x1000, "hello");
    assert_eq!(sys_open(&mut k, 0x1000, O_TRUNC | O_RDWR), 3);
    assert!(k.fs.inodes[2].data.is_empty());
    assert_eq!(sys_read(&mut k, 3, 0x1100, 4), Some(0));
}

#[test]
fn create_existing_file_empties_it() {
    let mut k = boot();
    put_str(&mut k, 0x1000, "hello");
    assert_eq!(sys_open(&mut k, 0x1000, O_CREATE), 3);
    assert!(k.fs.inodes[2].data.is_empty());
    assert_eq!(k.fs.root.len(), 2);
}

#[test]
fn fstat_of_file() {
    let mut k = boot();
    put_str(&mut k, 0x1000, "hello");
    assert_eq!(sys_open(&mut k, 0x1000, 0), 3);
    assert_eq!(sys_fstat(&mut k, 3, 0x1100), 0);
    let b = peek(&k, 0x1100, 80);
    assert_eq!(&b[0..8], &[0u8; 8]);
    assert_eq!(&b[8..16], &2u64.to_le_bytes());
    assert_eq!(&b[16..20], &S_IFREG.to_le_bytes());
    assert_eq!(&b[20..24], &1u32.to_le_bytes());
    assert_eq!(&b[24..80], &[0u8; 56][..]);
}

#[test]
fn fstat_ending_at_page_end() {
    let mut k = boot();
    put_str(&mut k, 0x1000, "hello");
    assert_eq!(sys_open(&mut k, 0x1000, 0), 3);
    poke(&mut k, 0x1fb0, &[7u8; 80]);
    assert_eq!(sys_fstat(&mut k, 3, 0x1fb0), 0);
    let b = peek(&k, 0x1fb0, 80);
    assert_eq!(&b[0..8], &[0u8; 8]);
    assert_eq!(&b[8..16], &2u64.to_le_bytes());
    assert_eq!(&b[16..20], &S_IFREG.to_le_bytes());
    assert_eq!(&b[20..24], &1u32.to_le_bytes());
    assert_eq!(&b[24..80], &[0u8; 56][..]);
}

#[test]
fn fstat_of_console_or_closed() {
    let mut k = boot();
    poke(&mut k, 0x1100, &[7u8; 80]);
    assert_eq!(sys_fstat(&mut k, 1, 0x1100), -1);
    assert_eq!(sys_fstat(&mut k, 9, 0x1100), -1);
    assert_eq!(peek(&k, 0x1100, 80), vec![7u8; 80]);
}

#[test]
fn link_and_unlink() {
    let mut k = boot();
    put_str(&mut k, 0x1000, "hello");
    put_str(&mut k, 0x1020, "greeting");
    assert_eq!(sys_linkat(&mut k, 0x1000, 0x1020), 0);
    assert_eq!(k.fs.inodes[2].nlink, 2);
    assert_eq!(k.fs.root.len(), 3);
    assert_eq!(k.fs.root[2].inode_id, 2);
    let fd = sys_open(&mut k, 0x1020, 0);
    assert_eq!(fd, 3);
    assert_eq!(sys_fstat(&mut k, 3, 0x1100), 0);
    assert_eq!(peek(&k, 0x1114, 4), 2u32.to_le_bytes().to_vec());
    assert_eq!(sys_read(&mut k, 3, 0x1200, 10), Some(10));
    assert_eq!(peek(&k, 0x1200, 10), b"\x7fELF-hello".to_vec());
    assert_eq!(sys_unlinkat(&mut k, 0x1000), 0);
    assert_eq!(k.fs.inodes[2].nlink, 1);
    assert_eq!(sys_open(&mut k, 0x1000, 0), -1);
    assert_eq!(sys_open(&mut k, 0x1020, 0), 4);
}

#[test]
fn link_then_unlink_new_name_restores_directory() {
    let mut k = boot();
    put_str(&mut k, 0x1000, "hello");
    put_str(&mut k, 0x1020, "greeting");
    assert_eq!(sys_linkat(&mut k, 0x1000, 0x1020), 0);
    assert_eq!(sys_unlinkat(&mut k, 0x1020), 0);
    assert_eq!(k.fs.root.len(), 2);
    assert_eq!(k.fs.root[1].name, b"hello".to_vec());
    assert_eq!(k.fs.inodes[2].nlink, 1);
    assert_eq!(k.fs.inodes[2].data, b"\x7fELF-hello".to_vec());
    assert_eq!(k.fs.used, vec![true, true, true, false, false, false]);
    assert_eq!(sys_open(&mut k, 0x1020, 0), -1);
    assert_eq!(sys_open(&mut k, 0x1000, 0), 3);
}

#[test]
fn linked_names_share_stat() {
    let mut k = boot();
    put_str(&mut k, 0x1000, "hello");
    put_str(&mut k, 0x1020, "greeting");
    assert_eq!(sys_linkat(&mut k, 0x1000, 0x1020), 0);
    assert_eq!(sys_open(&mut k, 0x1000, 0), 3);
    assert_eq!(sys_open(&mut k, 0x1020, 0), 4);
    assert_eq!(sys_fstat(&mut k, 3, 0x1100), 0);
    assert_eq!(sys_fstat(&mut k, 4, 0x1200), 0);
    assert_eq!(peek(&k, 0x1100, 80), peek(&k, 0x1200, 80));
    assert_eq!(peek(&k, 0x1108, 8), 2u64.to_le_bytes().to_vec());
    assert_eq!(peek(&k, 0x1114, 4), 2u32.to_le_bytes().to_vec());
}

#[test]
fn link_to_missing_file() {
    let mut k = boot();
    put_str(&mut k, 0x1000, "hello");
    put_str(&mut k, 0x1020, "absent");
    assert_eq!(sys_linkat(&mut k, 0x1020, 0x1000), -1);
    assert_eq!(k.fs.inodes[2].nlink, 1);
    assert_eq!(k.fs.root.len(), 2);
}

#[test]
fn link_under_same_name() {
    let mut k = boot();
    put_str(&mut k, 0x1000, "hello");
    assert_eq!(sys_linkat(&mut k, 0x1000, 0x1000), 0);
    assert_eq!(k.fs.inodes[2].nlink, 2);
    assert_eq!(k.fs.root.len(), 3);
    assert_eq!(sys_unlinkat(&mut k, 0x1000), 0);
    assert_eq!(k.fs.root.len(), 2);
    assert_eq!(k.fs.root[1].name, b"hello".to_vec());
    assert_eq!(k.fs.inodes[2].nlink, 1);
}

#[test]
fn unlink_last_link_frees_inode() {
    let mut k = boot();
    put_str(&mut k, 0x1000, "hello");
    assert_eq!(sys_unlinkat(&mut k, 0x1000), 0);
    assert_eq!(k.fs.root.len(), 1);
    assert_eq!(k.fs.used, vec![true, true, false, false, false, false]);
    assert!(k.fs.inodes[2].data.is_empty());
    put_str(&mut k, 0x1000, "fresh");
    assert_eq!(sys_open(&mut k, 0x1000, O_CREATE), 3);
    assert_eq!(k.fs.root[1].inode_id, 2);
}

#[test]
fn fork_copies_the_process() {
    let mut k = boot();
    poke(&mut k, 0x1100, b"parent data");
    k.current.regs[10] = 77;
    k.current.regs[5] = 5;
    let child = sys_fork(&mut k);
    assert_eq!(child, 1);
    assert_eq!(k.current.children, vec![1]);
    assert_eq!(k.tasks.len(), 1);
    assert_eq!(k.ready, vec![1]);
    let c = &k.tasks[0];
    assert_eq!(c.pid, 1);
    assert_eq!(c.parent, Some(0));
    assert_eq!(c.regs[10], 0);
    assert_eq!(c.regs[5], 5);
    assert_eq!(c.regs[2], STACK_TOP);
    assert_eq!(k.current.regs[10], 77);
    assert!(c.status == TaskStatus::Ready);
    assert_eq!(c.fd_table, k.current.fd_table);
    assert_eq!(c.memory_set.read_user_bytes(&k.phys, 0x1100, 11), b"parent data".to_vec());
    poke(&mut k, 0x1100, b"P");
    assert_eq!(k.tasks[0].memory_set.read_user_bytes(&k.phys, 0x1100, 1), b"p".to_vec());
}

#[test]
fn yield_switches_tasks() {
    let mut k = boot();
    assert_eq!(sys_yield(&mut k), 0);
    assert_eq!(k.current.pid, 0);
    assert_eq!(sys_fork(&mut k), 1);
    assert_eq!(sys_yield(&mut k), 0);
    assert_eq!(k.current.pid, 1);
    assert!(k.current.status == TaskStatus::Running);
    assert_eq!(k.ready, vec![0]);
    assert_eq!(k.tasks[0].pid, 0);
    assert!(k.tasks[0].status == TaskStatus::Ready);
    assert_eq!(sys_getpid(&k), 1);
}

#[test]
fn wait_exit_and_reap() {
    let mut k = boot();
    assert_eq!(sys_waitpid(&mut k, -1, 0x1100), -1);
    assert_eq!(sys_fork(&mut k), 1);
    assert_eq!(sys_waitpid(&mut k, -1, 0x1100), -2);
    assert_eq!(sys_waitpid(&mut k, 5, 0x1100), -1);
    assert_eq!(sys_yield(&mut k), 0);
    assert_eq!(k.current.pid, 1);
    sys_exit(&mut k, 42);
    assert_eq!(k.current.pid, 0);
    assert_eq!(k.tasks.len(), 1);
    assert!(k.tasks[0].status == TaskStatus::Zombie);
    assert_eq!(k.tasks[0].exit_code, 42);
    assert!(k.tasks[0].memory_set.areas.is_empty());
    assert_eq!(sys_waitpid(&mut k, 1, 0x1100), 1);
    assert_eq!(peek(&k, 0x1100, 4), 42u32.to_le_bytes().to_vec());
    assert!(k.tasks.is_empty());
    assert!(k.current.children.is_empty());
    assert_eq!(k.pid_recycled, vec![1]);
    assert_eq!(sys_fork(&mut k), 1);
}

#[test]
fn wait_twice_for_the_same_child() {
    let mut k = boot();
    assert_eq!(sys_fork(&mut k), 1);
    assert_eq!(sys_yield(&mut k), 0);
    sys_exit(&mut k, 3);
    assert_eq!(sys_waitpid(&mut k, 1, 0x1100), 1);
    assert_eq!(sys_waitpid(&mut k, 1, 0x1100), -1);
}

#[test]
fn wait_for_any_then_for_the_reaped_pid() {
    let mut k = boot();
    assert_eq!(sys_fork(&mut k), 1);
    assert_eq!(sys_yield(&mut k), 0);
    sys_exit(&mut k, 7);
    assert_eq!(sys_waitpid(&mut k, -1, 0x1100), 1);
    assert_eq!(peek(&k, 0x1100, 4), 7u32.to_le_bytes().to_vec());
    poke(&mut k, 0x1104, &[9u8; 4]);
    assert_eq!(sys_waitpid(&mut k, 1, 0x1104), -1);
    assert_eq!(peek(&k, 0x1104, 4), vec![9u8; 4]);
}

#[test]
fn open_close_close() {
    let mut k = boot();
    put_str(&mut k, 0x1000, "hello");
    let fd = sys_open(&mut k, 0x1000, 0);
    assert_eq!(fd, 3);
    assert_eq!(sys_close(&mut k, 3), 0);
    assert_eq!(sys_close(&mut k, 3), -1);
    assert_eq!(k.current.fd_table.len(), 4);
    assert!(k.current.fd_table[3].is_none());
}

#[test]
fn wait_stores_negative_exit_code() {
    let mut k = boot();
    assert_eq!(sys_fork(&mut k), 1);
    assert_eq!(sys_yield(&mut k), 0);
    sys_exit(&mut k, -3);
    assert_eq!(sys_waitpid(&mut k, -1, 0x1104), 1);
    assert_eq!(peek(&k, 0x1104, 4), (-3i32).to_le_bytes().to_vec());
}

#[test]
fn exit_passes_children_to_first_process() {
    let mut k = boot();
    assert_eq!(sys_fork(&mut k), 1);
    assert_eq!(sys_yield(&mut k), 0);
    assert_eq!(k.current.pid, 1);
    assert_eq!(sys_fork(&mut k), 2);
    sys_exit(&mut k, 0);
    assert_eq!(k.current.pid, 0);
    assert_eq!(k.current.children, vec![1, 2]);
    let grandchild = k.tasks.iter().find(|t| t.pid == 2).unwrap();
    assert_eq!(grandchild.parent, Some(0));
}

#[test]
fn exit_of_first_process_shuts_down() {
    let mut k = boot();
    sys_exit(&mut k, 9);
    assert_eq!(k.shutdown, Some(9));
    assert_eq!(k.current.pid, 0);
}

#[test]
fn exec_loads_program() {
    let mut k = boot();
    assert_eq!(sys_sbrk(&mut k, 100), STACK_TOP as isize);
    poke(&mut k, 0x1100, b"old");
    put_str(&mut k, 0x1000, "hello");
    k.current.regs[7] = 7;
    assert_eq!(sys_exec(&mut k, 0x1000), 0);
    assert_eq!(k.current.program, b"\x7fELF-hello".to_vec());
    assert_eq!(k.current.regs[7], 0);
    assert_eq!(k.current.regs[2], STACK_TOP);
    assert_eq!(k.current.program_brk, STACK_TOP);
    assert_eq!(k.current.pid, 0);
    assert_eq!(peek(&k, 0x1100, 3), vec![0u8; 3]);
}

#[test]
fn exec_missing_program() {
    let mut k = boot();
    put_str(&mut k, 0x1000, "nope");
    assert_eq!(sys_exec(&mut k, 0x1000), -1);
    assert_eq!(k.current.program, b"\x7fELF-init".to_vec());
}

#[test]
fn spawn_starts_child() {
    let mut k = boot();
    put_str(&mut k, 0x1000, "hello");
    assert_eq!(sys_spawn(&mut k, 0x1000), 1);
    assert_eq!(k.current.children, vec![1]);
    assert_eq!(k.ready, vec![1]);
    let c = &k.tasks[0];
    assert_eq!(c.program, b"\x7fELF-hello".to_vec());
    assert_eq!(c.regs.len(), 32);
    assert_eq!(c.regs[2], STACK_TOP);
    assert_eq!(c.regs[10], 0);
    assert_eq!(c.parent, Some(0));
    assert_eq!(c.fd_table, vec![Some(3), Some(4), Some(5)]);
    assert!(k.files[3] == FileObject::Stdin);
    assert!(k.files[4] == FileObject::Stdout);
    put_str(&mut k, 0x1000, "nope");
    assert_eq!(sys_spawn(&mut k, 0x1000), -1);
    assert_eq!(k.tasks.len(), 1);
}

#[test]
fn sbrk_grows_and_shrinks_heap() {
    let mut k = boot();
    assert_eq!(sys_sbrk(&mut k, 0), STACK_TOP as isize);
    assert_eq!(sys_sbrk(&mut k, 0x1800), STACK_TOP as isize);
    assert_eq!(k.current.program_brk, STACK_TOP + 0x1800);
    poke(&mut k, STACK_TOP + 0x17ff, b"z");
    assert_eq!(peek(&k, STACK_TOP + 0x17ff, 1), b"z".to_vec());
    assert_eq!(sys_sbrk(&mut k, -0x1000), (STACK_TOP + 0x1800) as isize);
    assert_eq!(k.current.program_brk, STACK_TOP + 0x800);
    assert_eq!(sys_sbrk(&mut k, -0x1000), -1);
    assert_eq!(k.current.program_brk, STACK_TOP + 0x800);
    assert_eq!(sys_sbrk(&mut k, -0x800), (STACK_TOP + 0x800) as isize);
    assert_eq!(k.current.program_brk, STACK_TOP);
}

#[test]
fn fork_gives_child_frames_of_its_own() {
    let mut k = boot();
    assert_eq!(sys_mmap(&mut k, 0x1000_0000, 0x1000, 3), 0);
    assert_eq!(sys_fork(&mut k), 1);
    let parent = &k.current.memory_set;
    let child = &k.tasks[0].memory_set;
    for f in &child.page_table.frames {
        assert!(!parent.page_table.frames.contains(f));
    }
    for a in [0x1000u64, 0x2000, 0x1000_0000] {
        let (pp, _) = parent.translate_addr(&k.phys, a);
        let (cp, _) = child.translate_addr(&k.phys, a);
        assert_ne!(pp, cp);
        assert!(!parent.page_table.frames.contains(&cp));
        assert!(!child.page_table.frames.contains(&pp));
    }
}

#[test]
fn exit_and_reap_return_every_frame() {
    let mut k = boot();
    let free_before = k.phys.recycled.len() as u64 + (k.phys.end - k.phys.current);
    assert_eq!(sys_fork(&mut k), 1);
    assert_eq!(sys_yield(&mut k), 0);
    assert_eq!(sys_sbrk(&mut k, 0x2000), STACK_TOP as isize);
    assert_eq!(sys_mmap(&mut k, 0x2000_0000, 0x3000, 3), 0);
    sys_exit(&mut k, 0);
    assert_eq!(sys_waitpid(&mut k, 1, 0x1100), 1);
    let free_after = k.phys.recycled.len() as u64 + (k.phys.end - k.phys.current);
    assert_eq!(free_after, free_before);
    let mut r = k.phys.recycled.clone();
    r.sort();
    r.dedup();
    assert_eq!(r.len(), k.phys.recycled.len());
}

#[test]
fn read_gives_back_what_write_wrote_at_offset() {
    let mut k = boot();
    put_str(&mut k, 0x1000, "log");
    assert_eq!(sys_open(&mut k, 0x1000, O_CREATE | O_RDWR), 3);
    poke(&mut k, 0x1100, b"0123456789");
    assert_eq!(sys_write(&mut k, 3, 0x1100, 10), 10);
    assert_eq!(sys_close(&mut k, 3), 0);
    assert_eq!(sys_open(&mut k, 0x1000, O_WRONLY), 3);
    poke(&mut k, 0x1200, b"ab");
    assert_eq!(sys_write(&mut k, 3, 0x1200, 2), 2);
    assert_eq!(k.fs.inodes[3].data, b"ab23456789".to_vec());
}
