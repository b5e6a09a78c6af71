use rvos::mm::{PhysMem, KernelPanic};
use rvos::fs::{RamFs, init, lookup};
use rvos::elf::{SegmentKind, STACK_TOP};
use rvos::elf_parse::parse_elf;
use rvos::proc::init_user_proc;
use rvos::syscall::{
    Kernel, Outcome, NetRequest, EAGAIN, FIRST_FAKE_FD, dispatch, sys_getcwd, sys_openat, sys_read, sys_write,
    sys_lseek, sys_fstat, sys_fstatat, sys_pipe2, sys_close, sys_socket, sys_sendto, sys_uname, sys_getrandom,
    sys_clock_gettime, sys_readlinkat, sys_getrlimit, sys_prlimit64, sys_brk, sys_mmap, sys_clone, sys_exit,
    sys_wait4, sys_execve, finish_execve, sys_getpid, sys_getppid, sys_writev, sys_mkdirat, sys_faccessat,
    sys_dup2, sys_pread64, sys_pwrite64, sys_eventfd2, sys_epoll_create1, sys_fcntl, writev_step, WritevStep,
    is_fake_fd, is_inet_socket, pad, sys_recvmsg, sys_ppoll, finish_epoll, sys_sendfile,
    sys_recvfrom, sys_accept4, finish_stdin, finish_accept, finish_sendfile,
};
use rvos::trap::{TrapFrame, TrapResult, rust_trap_handler};

const BUF: usize = 0x11000;

fn ok<T>(r: Result<T, KernelPanic>) -> T {
    match r {
        Ok(v) => v,
        Err(_) => panic!("kernel stopped"),
    }
}

fn ret(o: Outcome) -> isize {
    match o {
        Outcome::Ret(v) => v,
        _ => panic!("the call waits for outside work"),
    }
}

/// A 64-bit ELF file: entry 0x10000, one loadable segment at 0x10000 of
/// 0x3000 bytes in memory, its 0x100 file bytes (all 0x13) at offset 0x100.
fn elf_bytes() -> Vec<u8> {
    let mut d = vec![0u8; 0x200];
    d[0..4].copy_from_slice(&[0x7f, b'E', b'L', b'F']);
    d[4] = 2;
    d[5] = 1;
    d[6] = 1;
    d[16..18].copy_from_slice(&2u16.to_le_bytes());
    d[18..20].copy_from_slice(&0xf3u16.to_le_bytes());
    d[20..24].copy_from_slice(&1u32.to_le_bytes());
    d[24..32].copy_from_slice(&0x10000u64.to_le_bytes());
    d[32..40].copy_from_slice(&64u64.to_le_bytes());
    d[52..54].copy_from_slice(&64u16.to_le_bytes());
    d[54..56].copy_from_slice(&56u16.to_le_bytes());
    d[56..58].copy_from_slice(&1u16.to_le_bytes());
    d[64..68].copy_from_slice(&1u32.to_le_bytes());
    d[68..72].copy_from_slice(&7u32.to_le_bytes());
    d[72..80].copy_from_slice(&0x100u64.to_le_bytes());
    d[80..88].copy_from_slice(&0x10000u64.to_le_bytes());
    d[88..96].copy_from_slice(&0x10000u64.to_le_bytes());
    d[96..104].copy_from_slice(&0x100u64.to_le_bytes());
    d[104..112].copy_from_slice(&0x3000u64.to_le_bytes());
    d[112..120].copy_from_slice(&0x1000u64.to_le_bytes());
    for b in d[0x100..0x200].iter_mut() {
        *b = 0x13;
    }
    d
}

fn boot() -> Kernel {
    let mem = PhysMem::init(0x8040_0000);
    let mut fs = RamFs::empty();
    let program = elf_bytes();
    init(&mut fs, &program, b"M", &program, b"NSS");
    let mut k = Kernel::new(mem, fs);
    let argv = vec![b"/sbin/nginx".to_vec()];
    match init_user_proc(&mut k.procs, &mut k.mem, &program, &argv) {
        Ok(Some(())) => {},
        _ => panic!("no first process"),
    }
    k
}

fn put(k: &mut Kernel, va: usize, bytes: &[u8]) {
    assert!(k.copy_out(va, bytes));
}

fn get(k: &Kernel, va: usize, len: usize) -> Vec<u8> {
    k.copy_in(va, len).unwrap()
}

fn word(k: &Kernel, va: usize) -> u64 {
    let b = get(k, va, 8);
    u64::from_le_bytes([b[0], b[1], b[2], b[3], b[4], b[5], b[6], b[7]])
}

fn half(k: &Kernel, va: usize) -> u32 {
    let b = get(k, va, 4);
    u32::from_le_bytes([b[0], b[1], b[2], b[3]])
}

#[test]
fn first_process_runs_pid_one() {
    let k = boot();
    assert_eq!(sys_getpid(&k), 1);
    assert_eq!(sys_getppid(&k), 0);
    assert_eq!(k.fake_fd_next, FIRST_FAKE_FD);
    // the program's bytes were loaded at its address
    assert_eq!(get(&k, 0x10000, 4), vec![0x13, 0x13, 0x13, 0x13]);
    // argc, argv[0] and its string on the stack
    assert_eq!(word(&k, STACK_TOP), 1);
    assert_eq!(word(&k, STACK_TOP + 8), (STACK_TOP + 0x400) as u64);
    assert_eq!(word(&k, STACK_TOP + 16), 0);
    assert_eq!(get(&k, STACK_TOP + 0x400, 12), b"/sbin/nginx\0".to_vec());
}

#[test]
fn getcwd_writes_tmp() {
    let mut k = boot();
    assert_eq!(ok(sys_getcwd(&mut k, BUF, 64)), BUF as isize);
    assert_eq!(get(&k, BUF, 5), b"/tmp\0".to_vec());
    assert_eq!(ok(sys_getcwd(&mut k, BUF, 4)), -1);
    // an address nothing maps stops the kernel
    assert!(sys_getcwd(&mut k, 0x7000_0000, 64).is_err());
}

#[test]
fn open_read_seek_stat() {
    let mut k = boot();
    put(&mut k, BUF, b"/etc/passwd\0");
    let fd = ok(sys_openat(&mut k, BUF, 0));
    assert_eq!(fd, 3);
    assert_eq!(ret(ok(sys_read(&mut k, 3, BUF + 0x100, 4))), 4);
    assert_eq!(get(&k, BUF + 0x100, 4), b"root".to_vec());
    assert_eq!(sys_lseek(&mut k, 3, 0, 1), 4);
    assert_eq!(sys_lseek(&mut k, 3, 0, 2), 30);
    assert_eq!(sys_lseek(&mut k, 3, (-3isize) as usize, 2), 27);
    assert_eq!(ret(ok(sys_read(&mut k, 3, BUF + 0x100, 10))), 3);
    assert_eq!(get(&k, BUF + 0x100, 3), b"sh\n".to_vec());
    assert_eq!(sys_lseek(&mut k, 3, 0, 7), -1);
    assert_eq!(sys_lseek(&mut k, 9, 0, 0), -1);
    assert_eq!(ok(sys_fstat(&mut k, 3, BUF + 0x200)), 0);
    assert_eq!(half(&k, BUF + 0x200 + 16), 0o100644);
    assert_eq!(half(&k, BUF + 0x200 + 24), 1);
    assert_eq!(word(&k, BUF + 0x200 + 48), 30);
    assert_eq!(half(&k, BUF + 0x200 + 56), 4096);
    assert_eq!(word(&k, BUF + 0x200 + 64), 1);
    assert_eq!(ok(sys_fstat(&mut k, 42, BUF + 0x200)), -1);
    put(&mut k, BUF, b"/tmp\0");
    assert_eq!(ok(sys_fstatat(&mut k, BUF, BUF + 0x300)), 0);
    assert_eq!(half(&k, BUF + 0x300 + 16), 0o40755);
    put(&mut k, BUF, b"/nope\0");
    assert_eq!(ok(sys_openat(&mut k, BUF, 0)), -2);
    assert_eq!(ok(sys_faccessat(&k, BUF)), -2);
    assert_eq!(ok(sys_mkdirat(&mut k, BUF)), 0);
    assert_eq!(ok(sys_faccessat(&k, BUF)), 0);
    assert!(lookup(&k.fs, b"/nope").is_some());
}

#[test]
fn write_to_log_then_pread() {
    let mut k = boot();
    put(&mut k, BUF, b"/var/log/nginx/error.log\0");
    let fd = ok(sys_openat(&mut k, BUF, 2)) as usize;
    put(&mut k, BUF + 0x100, b"oops\n");
    assert_eq!(ret(ok(sys_write(&mut k, fd, BUF + 0x100, 5))), 5);
    assert_eq!(ret(ok(sys_write(&mut k, fd, BUF + 0x100, 2))), 2);
    assert_eq!(ok(sys_pread64(&mut k, fd, BUF + 0x200, 16, 0)), 7);
    assert_eq!(get(&k, BUF + 0x200, 7), b"oops\noo".to_vec());
    assert_eq!(ok(sys_pwrite64(&mut k, fd, BUF + 0x100, 1, 0)), 1);
    assert_eq!(ok(sys_pread64(&mut k, fd, BUF + 0x200, 2, 0)), 2);
    assert_eq!(get(&k, BUF + 0x200, 2), b"oo".to_vec());
    assert_eq!(ok(sys_pread64(&mut k, 77, BUF + 0x200, 2, 0)), -1);
}

#[test]
fn console_writes_reach_the_console() {
    let mut k = boot();
    put(&mut k, BUF, b"hi\n");
    assert_eq!(ret(ok(sys_write(&mut k, 1, BUF, 3))), 3);
    assert_eq!(k.console, b"hi\n".to_vec());
    put(&mut k, BUF, &[0xff, 0xfe]);
    assert_eq!(ret(ok(sys_write(&mut k, 2, BUF, 2))), 2);
    assert_eq!(k.console, b"hi\n<invalid utf8>".to_vec());
    assert_eq!(ret(ok(sys_write(&mut k, 50, BUF, 2))), -1);
}

#[test]
fn writev_gathers_chunks() {
    let mut k = boot();
    put(&mut k, BUF, b"abcdef");
    let mut iov = Vec::new();
    for (base, len) in [(BUF as u64, 2u64), (0, 0), (BUF as u64 + 3, 3)] {
        iov.extend_from_slice(&base.to_le_bytes());
        iov.extend_from_slice(&len.to_le_bytes());
    }
    put(&mut k, BUF + 0x100, &iov);
    assert_eq!(ret(ok(sys_writev(&mut k, 1, BUF + 0x100, 3))), 5);
    assert_eq!(k.console, b"abdef".to_vec());
    assert_eq!(ret(ok(sys_writev(&mut k, 1, BUF + 0x100, 0))), 0);
    assert_eq!(writev_step(0, -1, 4), WritevStep::Done(-1));
    assert_eq!(writev_step(3, -1, 4), WritevStep::Done(3));
    assert_eq!(writev_step(3, 2, 4), WritevStep::Done(5));
    assert_eq!(writev_step(3, 4, 4), WritevStep::Continue(7));
}

#[test]
fn pipe_carries_bytes_between_descriptors() {
    let mut k = boot();
    assert_eq!(ok(sys_pipe2(&mut k, BUF)), 0);
    assert_eq!(half(&k, BUF), 3);
    assert_eq!(half(&k, BUF + 4), 4);
    put(&mut k, BUF + 0x100, b"ping");
    assert_eq!(ret(ok(sys_write(&mut k, 4, BUF + 0x100, 4))), 4);
    assert_eq!(ret(ok(sys_read(&mut k, 3, BUF + 0x200, 16))), 4);
    assert_eq!(get(&k, BUF + 0x200, 4), b"ping".to_vec());
    assert_eq!(ret(ok(sys_read(&mut k, 3, BUF + 0x200, 16))), 0);
    assert_eq!(ok(sys_dup2(&mut k, 4, 9)), 9);
    assert_eq!(ret(ok(sys_write(&mut k, 9, BUF + 0x100, 2))), 2);
    assert_eq!(ret(ok(sys_read(&mut k, 3, BUF + 0x200, 16))), 2);
    assert_eq!(ok(sys_dup2(&mut k, 30, 9)), -1);
    assert_eq!(ret(sys_close(&mut k, 9)), 0);
    assert_eq!(ret(ok(sys_write(&mut k, 9, BUF + 0x100, 2))), -1);
}

#[test]
fn sockets_and_fake_descriptors_count_from_100() {
    let mut k = boot();
    assert_eq!(sys_socket(&mut k, 2), 100);
    assert!(is_inet_socket(&k, 100));
    assert_eq!(sys_socket(&mut k, 1), 101);
    assert!(is_fake_fd(&k, 101) && !is_inet_socket(&k, 101));
    assert_eq!(sys_socket(&mut k, 10), -1);
    assert_eq!(sys_eventfd2(&mut k), 103);
    assert_eq!(sys_epoll_create1(&mut k), 104);
    assert_eq!(sys_fcntl(&k, 100, 3), 0x800);
    assert_eq!(sys_fcntl(&k, 101, 3), 0);
    assert_eq!(sys_fcntl(&k, 101, 1), 101);
    assert_eq!(ret(sys_close(&mut k, 101)), 0);
    assert!(!is_fake_fd(&k, 101));
    match sys_close(&mut k, 100) {
        Outcome::Net(NetRequest::Close { .. }) | Outcome::Ret(0) => {},
        _ => panic!("closing a socket"),
    }
    assert!(!is_fake_fd(&k, 100));
}

#[test]
fn name_service_answers_root() {
    let mut k = boot();
    let fd = sys_socket(&mut k, 1) as usize;
    put(&mut k, BUF, b"request!!!");
    assert_eq!(ret(ok(sys_sendto(&mut k, fd, BUF, 10))), 10);
    assert_eq!(ret(ok(sys_read(&mut k, fd, BUF + 0x100, 8))), 8);
    assert_eq!(half(&k, BUF + 0x100), 2);
    assert_eq!(half(&k, BUF + 0x104), 1);
    assert_eq!(ret(ok(sys_read(&mut k, fd, BUF + 0x100, 100))), 54);
    assert_eq!(half(&k, BUF + 0x100), 5);
    assert_eq!(get(&k, BUF + 0x100 + 28, 5), b"root\0".to_vec());
    assert_eq!(ret(ok(sys_read(&mut k, fd, BUF + 0x100, 100))), 0);
}

#[test]
fn uname_and_constant_answers() {
    let mut k = boot();
    assert_eq!(ok(sys_uname(&mut k, BUF)), 0);
    assert_eq!(get(&k, BUF, 6), b"Linux\0".to_vec());
    assert_eq!(get(&k, BUF + 65, 5), b"rvos\0".to_vec());
    assert_eq!(get(&k, BUF + 130, 7), b"5.15.0\0".to_vec());
    assert_eq!(get(&k, BUF + 195, 3), b"#1\0".to_vec());
    assert_eq!(get(&k, BUF + 260, 8), b"riscv64\0".to_vec());
    assert_eq!(get(&k, BUF + 325, 65), vec![0u8; 65]);
    let p = pad(b"abc");
    assert_eq!(p.len(), 65);
    assert_eq!(&p[..4], b"abc\0");
    assert_eq!(ok(sys_getrandom(&mut k, BUF, 16)), 16);
    assert_eq!(get(&k, BUF, 16), vec![0xab; 16]);
    assert_eq!(ok(sys_clock_gettime(&mut k, BUF, 25_000_001)), 0);
    assert_eq!(word(&k, BUF), 3);
    assert_eq!(word(&k, BUF + 8), 5_000_001);
    assert_eq!(ok(sys_getrlimit(&mut k, 7, BUF)), 0);
    assert_eq!((word(&k, BUF), word(&k, BUF + 8)), (1024, 4096));
    assert_eq!(ok(sys_getrlimit(&mut k, 3, BUF)), 0);
    assert_eq!((word(&k, BUF), word(&k, BUF + 8)), (u64::MAX, u64::MAX));
    assert_eq!(ok(sys_prlimit64(&mut k, 7, BUF)), 0);
    assert_eq!((word(&k, BUF), word(&k, BUF + 8)), (1024, 1024));
    assert_eq!(ok(sys_prlimit64(&mut k, 7, 0)), 0);
    put(&mut k, BUF + 0x100, b"/proc/self/exe\0");
    assert_eq!(ok(sys_readlinkat(&mut k, BUF + 0x100, BUF, 5)), 5);
    assert_eq!(get(&k, BUF, 5), b"/sbin".to_vec());
    assert_eq!(ok(sys_readlinkat(&mut k, BUF + 0x100, BUF, 64)), 11);
    put(&mut k, BUF + 0x100, b"/proc/self/cwd\0");
    assert_eq!(ok(sys_readlinkat(&mut k, BUF + 0x100, BUF, 64)), -1);
}

#[test]
fn dispatch_routes_by_number() {
    let mut k = boot();
    assert_eq!(ret(ok(dispatch(&mut k, 9999, [0; 6], 0))), -1);
    assert_eq!(ret(ok(dispatch(&mut k, 172, [0; 6], 0))), 1);
    assert_eq!(ret(ok(dispatch(&mut k, 166, [0; 6], 0))), 0o22);
    assert_eq!(ret(ok(dispatch(&mut k, 96, [0; 6], 0))), 1);
    assert_eq!(ret(ok(dispatch(&mut k, 204, [0; 6], 0))), -1);
    assert_eq!(ret(ok(dispatch(&mut k, 17, [BUF, 64, 0, 0, 0, 0], 0))), BUF as isize);
    match ok(dispatch(&mut k, 22, [5, BUF, 8, 100, 0, 0], 0)) {
        Outcome::Net(NetRequest::EpollWait { events, maxevents, timeout }) => {
            assert_eq!((events, maxevents, timeout), (BUF, 8, 100));
        },
        _ => panic!("epoll_pwait waits for the network"),
    }
    assert_eq!(ret(ok(dispatch(&mut k, 198, [2, 1, 0, 0, 0, 0], 0))), 100);
    // FIONBIO is the one ioctl request known; a terminal request fails
    assert_eq!(ret(ok(dispatch(&mut k, 29, [100, 0x5421, 0, 0, 0, 0], 0))), 0);
    assert_eq!(ret(ok(dispatch(&mut k, 29, [1, 0x5401, 0, 0, 0, 0], 0))), -1);
}

#[test]
fn standard_descriptors_stay_open_and_are_character_devices() {
    let mut k = boot();
    assert_eq!(ret(sys_close(&mut k, 1)), 0);
    put(&mut k, BUF, b"still here");
    assert_eq!(ret(ok(sys_write(&mut k, 1, BUF, 10))), 10);
    assert_eq!(k.console, b"still here".to_vec());
    assert_eq!(ok(sys_fstat(&mut k, 0, BUF + 0x100)), 0);
    assert_eq!(half(&k, BUF + 0x100 + 16), 0o20620);
    assert_eq!(word(&k, BUF + 0x100 + 48), 0);
    // a file opened in a higher descriptor is closed as before
    put(&mut k, BUF, b"/etc/passwd\0");
    let fd = ok(sys_openat(&mut k, BUF, 0)) as usize;
    assert_eq!(ret(sys_close(&mut k, fd)), 0);
    assert_eq!(ok(sys_fstat(&mut k, fd, BUF + 0x100)), -1);
}

#[test]
fn brk_grows_the_heap() {
    let mut k = boot();
    assert_eq!(ok(sys_brk(&mut k, 0)), 0x13000);
    assert!(k.copy_in(0x14000, 1).is_none());
    assert_eq!(ok(sys_brk(&mut k, 0x15800)), 0x15800);
    assert_eq!(ok(sys_brk(&mut k, 0)), 0x15800);
    assert_eq!(get(&k, 0x14ff0, 16), vec![0u8; 16]);
    put(&mut k, 0x15000, b"heap");
}

#[test]
fn mmap_hands_out_consecutive_regions() {
    let mut k = boot();
    assert_eq!(ok(sys_mmap(&mut k, 0, 0x1800, 3, 0x22, usize::MAX, 0)), 0x5000_0000);
    assert_eq!(ok(sys_mmap(&mut k, 0, 0x1000, 3, 0x22, usize::MAX, 0)), 0x5000_2000);
    assert_eq!(k.mmap_base, 0x5000_3000);
    assert_eq!(get(&k, 0x5000_1ff8, 8), vec![0u8; 8]);
    put(&mut k, 0x5000_2000, b"anon");
    assert_eq!(ok(sys_mmap(&mut k, 0x6000_0000, 0x1000, 3, 0x32, usize::MAX, 0)), 0x6000_0000);
    assert_eq!(k.mmap_base, 0x5000_3000);
}

#[test]
fn fork_exit_wait() {
    let mut k = boot();
    k.trap_frame.sepc = 0x10100;
    let child = ok(sys_clone(&mut k, 0));
    assert_eq!(child, 2);
    assert_eq!(sys_getpid(&k), 1);
    assert_eq!(ret(ok(sys_wait4(&mut k, 0, 0, 1))), 0);
    // waiting for a child that is still there blocks: the child runs
    assert!(matches!(ok(sys_wait4(&mut k, 0, BUF, 0)), Outcome::Switched));
    assert_eq!(sys_getpid(&k), 2);
    assert_eq!(k.trap_frame.sepc, 0x10104);
    assert_eq!(k.trap_frame.regs[10], 0);
    assert_eq!(sys_getppid(&k), 1);
    // its exit wakes the parent, which makes its wait4 again
    assert!(matches!(sys_exit(&mut k, 7), Outcome::Switched));
    assert_eq!(sys_getpid(&k), 1);
    assert_eq!(k.trap_frame.sepc, 0x10100);
    assert_eq!(ret(ok(sys_wait4(&mut k, 3, BUF, 0))), EAGAIN);
    assert_eq!(ret(ok(sys_wait4(&mut k, 0, BUF, 0))), 2);
    assert_eq!(word(&k, BUF), 0x700);
    assert!(k.procs.get(2).is_none());
    // with no child left, waiting does not block
    assert_eq!(ret(ok(sys_wait4(&mut k, 0, BUF, 0))), EAGAIN);
    // the last process has no one to hand over to
    assert_eq!(ret(sys_exit(&mut k, 0)), 0);
    assert_eq!(sys_getpid(&k), 1);
}

#[test]
fn wait4_blocks_until_the_child_exits() {
    let mut k = boot();
    let mut tf = TrapFrame::new();
    tf.sepc = 0x10100;
    tf.regs[17] = 220;
    k.trap_frame = tf;
    match ok(rust_trap_handler(&mut k, &mut tf, 8, 0)) {
        TrapResult::Answered(v) => assert_eq!(v, 2),
        _ => panic!("clone is answered"),
    }
    tf.sepc = 0x10200;
    tf.regs[17] = 260;
    tf.regs[10] = 0;
    tf.regs[11] = 0;
    tf.regs[12] = 0;
    k.trap_frame = tf;
    assert!(matches!(ok(rust_trap_handler(&mut k, &mut tf, 8, 0)), TrapResult::Switched));
    assert_eq!(tf.sepc, 0x10104);
    assert_eq!(tf.regs[10], 0);
    tf.regs[17] = 93;
    tf.regs[10] = 3;
    k.trap_frame = tf;
    assert!(matches!(ok(rust_trap_handler(&mut k, &mut tf, 8, 0)), TrapResult::Switched));
    assert_eq!(tf.sepc, 0x10200);
    assert_eq!(tf.regs[17], 260);
    k.trap_frame = tf;
    match ok(rust_trap_handler(&mut k, &mut tf, 8, 0)) {
        TrapResult::Answered(v) => assert_eq!(v, 2),
        _ => panic!("the second wait4 reaps the child"),
    }
    assert_eq!(tf.sepc, 0x10204);
}

#[test]
fn execve_then_load() {
    let mut k = boot();
    put(&mut k, BUF, b"/bin/ls\0");
    put(&mut k, BUF + 0x10, b"ls\0");
    put(&mut k, BUF + 0x20, b"-l\0");
    let mut argv = Vec::new();
    for p in [(BUF + 0x10) as u64, (BUF + 0x20) as u64, 0] {
        argv.extend_from_slice(&p.to_le_bytes());
    }
    put(&mut k, BUF + 0x100, &argv);
    put(&mut k, BUF + 0x200, &0u64.to_le_bytes());
    let req = match sys_execve(&k, BUF, BUF + 0x100, BUF + 0x200) {
        Outcome::Exec(r) => r,
        _ => panic!("execve asks for the loader"),
    };
    assert_eq!(req.path, b"/bin/ls".to_vec());
    assert_eq!(req.argv, vec![b"ls".to_vec(), b"-l".to_vec()]);
    assert!(req.envp.is_empty());
    assert_eq!(ok(finish_execve(&mut k, &req)), 0);
    assert_eq!(k.trap_frame.sepc, 0x10000);
    assert_eq!(k.trap_frame.regs[10], 2);
    assert_eq!(get(&k, 0x10000, 4), vec![0x13, 0x13, 0x13, 0x13]);
    // a file that holds no executable
    let none = rvos::syscall::ExecRequest { path: b"/test_malloc".to_vec(), argv: Vec::new(), envp: Vec::new() };
    assert_eq!(ok(finish_execve(&mut k, &none)), -2);
    put(&mut k, BUF, b"/nothing\0");
    assert!(matches!(sys_execve(&k, BUF, BUF + 0x100, BUF + 0x200), Outcome::Ret(-2)));
}

#[test]
fn trap_handler_answers_ecalls() {
    let mut k = boot();
    let mut tf = TrapFrame::new();
    tf.sepc = 0x10010;
    tf.regs[17] = 172;
    match ok(rust_trap_handler(&mut k, &mut tf, 8, 0)) {
        TrapResult::Answered(v) => assert_eq!(v, 1),
        _ => panic!("getpid is answered"),
    }
    assert_eq!(tf.sepc, 0x10014);
    assert_eq!(tf.regs[10], 1);
    tf.regs[17] = 12345;
    match ok(rust_trap_handler(&mut k, &mut tf, 8, 0)) {
        TrapResult::Answered(v) => assert_eq!(v, -1),
        _ => panic!("unknown calls get -1"),
    }
    assert_eq!(tf.regs[10], usize::MAX);
    let before = tf.sepc;
    assert!(matches!(ok(rust_trap_handler(&mut k, &mut tf, 2, 0)), TrapResult::Stopped));
    assert_eq!(tf.sepc, before);
}

#[test]
fn recvmsg_delivers_the_name_service_reply() {
    let mut k = boot();
    let fd = sys_socket(&mut k, 1) as usize;
    put(&mut k, BUF, b"req");
    assert_eq!(ret(ok(sys_sendto(&mut k, fd, BUF, 3))), 3);
    // msghdr: msg_iov at +16, msg_iovlen at +24; one iovec of 20 bytes at BUF + 0x200
    let mut hdr = vec![0u8; 56];
    hdr[16..24].copy_from_slice(&((BUF + 0x100) as u64).to_le_bytes());
    hdr[24..32].copy_from_slice(&1u64.to_le_bytes());
    put(&mut k, BUF + 0x80, &hdr);
    let mut iov = Vec::new();
    iov.extend_from_slice(&((BUF + 0x200) as u64).to_le_bytes());
    iov.extend_from_slice(&20u64.to_le_bytes());
    put(&mut k, BUF + 0x100, &iov);
    assert_eq!(ok(sys_recvmsg(&mut k, fd, BUF + 0x80)), 20);
    assert_eq!(half(&k, BUF + 0x200), 2);
    assert_eq!(ok(sys_recvmsg(&mut k, fd, BUF + 0x80)), 20);
    assert_eq!(get(&k, BUF + 0x200 + 16, 4), b"root".to_vec());
    assert_eq!(ok(sys_recvmsg(&mut k, fd, BUF + 0x80)), 20);
    assert_eq!(ok(sys_recvmsg(&mut k, fd, BUF + 0x80)), 2);
    assert_eq!(ok(sys_recvmsg(&mut k, fd, BUF + 0x80)), 0);
    // an empty iovec list, and a descriptor that is no name-service socket
    hdr[24..32].copy_from_slice(&0u64.to_le_bytes());
    put(&mut k, BUF + 0x80, &hdr);
    assert_eq!(ok(sys_recvmsg(&mut k, fd, BUF + 0x80)), -1);
    assert_eq!(ok(sys_recvmsg(&mut k, 1, BUF + 0x80)), -1);
}

#[test]
fn writev_on_a_socket_hands_the_chunks_over() {
    let mut k = boot();
    let fd = sys_socket(&mut k, 2) as usize;
    k.net.add_fd_handle(fd, 7);
    put(&mut k, BUF, b"GET / HTTP");
    let mut iov = Vec::new();
    for (base, len) in [(BUF as u64, 3u64), (0, 0), (BUF as u64 + 4, 6)] {
        iov.extend_from_slice(&base.to_le_bytes());
        iov.extend_from_slice(&len.to_le_bytes());
    }
    put(&mut k, BUF + 0x100, &iov);
    match ok(sys_writev(&mut k, fd, BUF + 0x100, 3)) {
        Outcome::Net(NetRequest::Writev { handle, chunks }) => {
            assert_eq!(handle, 7);
            assert_eq!(chunks, vec![b"GET".to_vec(), b"/ HTTP".to_vec()]);
        },
        _ => panic!("writev on a socket waits for the network"),
    }
    assert_eq!(ret(ok(sys_writev(&mut k, fd, BUF + 0x100, 0))), 0);
    assert!(sys_writev(&mut k, fd, 0x7000_0000, 1).is_err());
}

#[test]
fn the_first_process_has_its_stack_and_program_mapped() {
    let mut k = boot();
    // the lowest of the nine stack pages is mapped and writable
    put(&mut k, STACK_TOP - 8 * 4096, b"deep");
    assert_eq!(get(&k, STACK_TOP - 8 * 4096, 4), b"deep".to_vec());
    assert!(k.copy_in(STACK_TOP - 9 * 4096, 1).is_none());
    // the program's bytes past its file data read zero
    assert_eq!(get(&k, 0x10100, 8), vec![0u8; 8]);
    assert_eq!(get(&k, 0x100ff, 1), vec![0x13]);
}

#[test]
fn a_forked_child_has_its_own_copy() {
    let mut k = boot();
    put(&mut k, 0x12000, b"before");
    assert_eq!(ok(sys_clone(&mut k, 0)), 2);
    put(&mut k, 0x12000, b"parent");
    k.procs.set_current(2);
    assert_eq!(get(&k, 0x12000, 6), b"before".to_vec());
    put(&mut k, 0x12000, b"child!");
    k.procs.set_current(1);
    assert_eq!(get(&k, 0x12000, 6), b"parent".to_vec());
}

#[test]
fn writev_to_a_file_appends_each_chunk() {
    let mut k = boot();
    put(&mut k, BUF, b"/var/log/nginx/error.log\0");
    let fd = ok(sys_openat(&mut k, BUF, 2)) as usize;
    put(&mut k, BUF + 0x100, b"abcdef");
    let mut iov = Vec::new();
    for (base, len) in [(BUF as u64 + 0x100, 3u64), (0, 0), (BUF as u64 + 0x104, 2)] {
        iov.extend_from_slice(&base.to_le_bytes());
        iov.extend_from_slice(&len.to_le_bytes());
    }
    put(&mut k, BUF + 0x200, &iov);
    assert_eq!(ret(ok(sys_writev(&mut k, fd, BUF + 0x200, 3))), 5);
    assert_eq!(ok(sys_pread64(&mut k, fd, BUF + 0x300, 16, 0)), 5);
    assert_eq!(get(&k, BUF + 0x300, 5), b"abcef".to_vec());
    // a descriptor that is not open fails on the first chunk
    assert_eq!(ret(ok(sys_writev(&mut k, 60, BUF + 0x200, 3))), -1);
}

#[test]
fn ppoll_reports_sockets_ready() {
    let mut k = boot();
    let s = sys_socket(&mut k, 2);
    let mut recs = Vec::new();
    for (fd, events) in [(s as i32, 0x7u16), (1, 0x1), (s as i32, 0x4)] {
        recs.extend_from_slice(&fd.to_le_bytes());
        recs.extend_from_slice(&events.to_le_bytes());
        recs.extend_from_slice(&0xffffu16.to_le_bytes());
    }
    put(&mut k, BUF, &recs);
    assert_eq!(ok(sys_ppoll(&mut k, BUF, 3)), 2);
    let out = get(&k, BUF, 24);
    assert_eq!(u16::from_le_bytes([out[6], out[7]]), 0x5);
    assert_eq!(u16::from_le_bytes([out[14], out[15]]), 0);
    assert_eq!(u16::from_le_bytes([out[22], out[23]]), 0x4);
    assert_eq!(&out[0..6], &recs[0..6]);
    assert_eq!(ok(sys_ppoll(&mut k, BUF, 0)), 0);
    assert!(sys_ppoll(&mut k, 0x7000_0000, 1).is_err());
}

#[test]
fn epoll_records_are_written_in_order() {
    let mut k = boot();
    put(&mut k, BUF, &[0xaau8; 32]);
    assert_eq!(ok(finish_epoll(&mut k, BUF, &[(1, 0x1122), (4, 7)])), 2);
    let out = get(&k, BUF, 32);
    assert_eq!(half(&k, BUF), 1);
    assert_eq!(&out[4..8], &[0xaa; 4]);
    assert_eq!(word(&k, BUF + 8), 0x1122);
    assert_eq!(half(&k, BUF + 16), 4);
    assert_eq!(word(&k, BUF + 24), 7);
    assert_eq!(ok(finish_epoll(&mut k, BUF, &[])), 0);
}

#[test]
fn mmap_of_a_file_copies_it_in_after_zeroing() {
    let mut k = boot();
    put(&mut k, BUF, b"/etc/passwd\0");
    let fd = ok(sys_openat(&mut k, BUF, 0)) as usize;
    let at = ok(sys_mmap(&mut k, 0, 0x20, 1, 0x2, fd, 26)) as usize;
    assert_eq!(at, 0x5000_0000);
    assert_eq!(get(&k, at, 6), b"/sh\n\0\0".to_vec());
    assert_eq!(get(&k, at + 0xff8, 8), vec![0u8; 8]);
    // an offset past the end of the file stops the kernel
    assert!(sys_mmap(&mut k, 0, 0x20, 1, 0x2, fd, 31).is_err());
    // a zero-length anonymous mapping maps nothing
    assert_eq!(ok(sys_mmap(&mut k, 0, 0, 3, 0x22, usize::MAX, 0)), 0x5000_2000);
}

#[test]
fn sendfile_moves_file_bytes_to_the_console() {
    let mut k = boot();
    put(&mut k, BUF, b"/etc/passwd\0");
    let fd = ok(sys_openat(&mut k, BUF, 0)) as usize;
    assert_eq!(ret(ok(sys_sendfile(&mut k, 1, fd, 4))), 4);
    assert_eq!(k.console, b"root".to_vec());
    assert_eq!(ret(ok(sys_sendfile(&mut k, 1, 77, 4))), -1);
}

#[test]
fn recvfrom_reads_a_file_like_read() {
    let mut k = boot();
    put(&mut k, BUF, b"/etc/passwd\0");
    let fd = ok(sys_openat(&mut k, BUF, 0)) as usize;
    assert_eq!(ret(ok(sys_recvfrom(&mut k, fd, BUF + 0x100, 5))), 5);
    assert_eq!(get(&k, BUF + 0x100, 5), b"root:".to_vec());
    assert_eq!(sys_lseek(&mut k, fd, 0, 1), 5);
    assert_eq!(ret(ok(sys_recvfrom(&mut k, 88, BUF + 0x100, 5))), -1);
}

#[test]
fn sendto_and_accept4_on_other_descriptors() {
    let mut k = boot();
    let ep = sys_epoll_create1(&mut k) as usize;
    assert_eq!(ret(ok(sys_sendto(&mut k, ep, BUF, 4))), -1);
    // an internet socket with no connection behind it
    let s = sys_socket(&mut k, 2) as usize;
    assert_eq!(ret(ok(sys_sendto(&mut k, s, BUF, 4))), -1);
    // accept4 on an epoll descriptor hands out a new socket descriptor
    let n = ret(sys_accept4(&mut k, ep, 0, 0));
    assert_eq!(n, s as isize + 1);
    assert!(is_inet_socket(&k, n as usize));
    assert_eq!(ret(sys_accept4(&mut k, 5, 0, 0)), -1);
}

#[test]
fn standard_input_reads_the_console() {
    let mut k = boot();
    match ok(sys_read(&mut k, 0, BUF, 16)) {
        Outcome::Stdin { buf, len } => assert_eq!((buf, len), (BUF, 16)),
        _ => panic!("reading standard input waits for the console"),
    }
    assert_eq!(ok(finish_stdin(&mut k, BUF, b"l")), 1);
    assert_eq!(get(&k, BUF, 1), b"l".to_vec());
    assert_eq!(ok(finish_stdin(&mut k, BUF, b"")), 0);
    assert!(finish_stdin(&mut k, 0x7000_0000, b"x").is_err());
    // with a pipe in its place, descriptor 0 reads the pipe
    assert_eq!(ok(sys_pipe2(&mut k, BUF)), 0);
    assert_eq!(ok(sys_dup2(&mut k, 3, 0)), 0);
    put(&mut k, BUF + 0x100, b"ls\n");
    assert_eq!(ret(ok(sys_write(&mut k, 4, BUF + 0x100, 3))), 3);
    assert_eq!(ret(ok(sys_read(&mut k, 0, BUF + 0x200, 16))), 3);
    assert_eq!(get(&k, BUF + 0x200, 3), b"ls\n".to_vec());
}

#[test]
fn writev_stops_at_a_chunk_it_cannot_read() {
    let mut k = boot();
    put(&mut k, BUF, b"/var/log/nginx/error.log\0");
    let fd = ok(sys_openat(&mut k, BUF, 2)) as usize;
    put(&mut k, BUF + 0x100, b"abc");
    let mut iov = Vec::new();
    for (base, len) in [(BUF as u64 + 0x100, 3u64), (0x7000_0000u64, 4)] {
        iov.extend_from_slice(&base.to_le_bytes());
        iov.extend_from_slice(&len.to_le_bytes());
    }
    put(&mut k, BUF + 0x200, &iov);
    // the first chunk goes in, the second faults
    assert!(sys_writev(&mut k, fd, BUF + 0x200, 2).is_err());
    assert_eq!(ok(sys_pread64(&mut k, fd, BUF + 0x300, 16, 0)), 3);
    assert_eq!(get(&k, BUF + 0x300, 3), b"abc".to_vec());
}

#[test]
fn finish_accept_writes_the_peer_address() {
    let mut k = boot();
    let s = sys_socket(&mut k, 2) as usize;
    k.net.bind_listen_fd(s, Some(7));
    let nfd = k.fake_fd_next;
    assert_eq!(ok(finish_accept(&mut k, false, Some(8), BUF, BUF + 0x20)), nfd as isize);
    let mut peer = vec![2u8, 0, 0, 0x50];
    peer.extend_from_slice(&[0u8; 12]);
    assert_eq!(get(&k, BUF, 16), peer);
    assert_eq!(half(&k, BUF + 0x20), 16);
    // while the socket still listens the call would block
    assert_eq!(ok(finish_accept(&mut k, true, Some(9), BUF, BUF + 0x20)), EAGAIN);
    // an address nothing maps stops the kernel
    assert!(finish_accept(&mut k, false, Some(9), 0x7000_0000, 0).is_err());
}

#[test]
fn finish_sendfile_writes_what_arrived() {
    let mut k = boot();
    assert_eq!(ok(sys_pipe2(&mut k, BUF)), 0);
    assert_eq!(ret(ok(finish_sendfile(&mut k, 4, Ok(b"net".to_vec())))), 3);
    assert_eq!(ret(ok(sys_read(&mut k, 3, BUF + 0x200, 16))), 3);
    assert_eq!(get(&k, BUF + 0x200, 3), b"net".to_vec());
    assert_eq!(ret(ok(finish_sendfile(&mut k, 4, Err(-11)))), -11);
    assert_eq!(ret(ok(finish_sendfile(&mut k, 4, Ok(Vec::new())))), 0);
}

#[test]
fn execve_of_a_missing_file_or_bad_image_fails() {
    let mut k = boot();
    put(&mut k, BUF, b"/bin/none\0");
    put(&mut k, BUF + 0x100, &0u64.to_le_bytes());
    let req = rvos::syscall::ExecRequest { path: b"/bin/none".to_vec(), argv: Vec::new(), envp: Vec::new() };
    assert_eq!(ok(finish_execve(&mut k, &req)), -2);
}

#[test]
fn with_current_proc_keeps_the_running_pid() {
    let mut k = boot();
    let r = rvos::proc::with_current_proc(&mut k.procs, |mut p: rvos::proc::Process| {
        p.brk = 0x5000;
        p.pid = 99;
        (p, 7)
    });
    assert_eq!(r, Some(7));
    let p = k.procs.get(1).unwrap();
    assert_eq!(p.brk, 0x5000);
    assert_eq!(p.pid, 1);
    assert!(k.procs.get(99).is_none());
}

#[test]
fn parse_elf_reads_the_headers() {
    let d = elf_bytes();
    let e = ok(parse_elf(&d)).unwrap();
    assert_eq!((e.entry, e.ph_offset, e.ph_entry_size, e.ph_count), (0x10000, 64, 56, 1));
    assert_eq!(e.segments.len(), 1);
    let s = e.segments[0];
    assert!(s.kind == SegmentKind::Load);
    assert_eq!((s.vaddr, s.mem_size, s.file_size, s.offset), (0x10000, 0x3000, 0x100, 0x100));
    assert!(s.readable && s.writable && s.executable);
    // no ELF file at all
    assert!(ok(parse_elf(b"MALLOC")).is_none());
    // a program-header table that reaches past the end of the file stops the kernel
    let mut bad = d.clone();
    bad[56..58].copy_from_slice(&40u16.to_le_bytes());
    assert!(parse_elf(&bad).is_err());
    // a misaligned program-header table stops the kernel too
    let mut odd = d.clone();
    odd[32..40].copy_from_slice(&65u64.to_le_bytes());
    assert!(parse_elf(&odd).is_err());
}

#[test]
fn exec_process_loads_the_file() {
    let mut k = boot();
    let d = elf_bytes();
    let mut p = rvos::proc::Process::new(5, &mut k.mem).unwrap();
    let argv = vec![b"x".to_vec()];
    let envp: Vec<Vec<u8>> = Vec::new();
    assert_eq!(ok(rvos::proc::exec_process(&mut p, &mut k.mem, &d, &argv, &envp)), Some(STACK_TOP));
    assert_eq!(p.trap_frame.sepc, 0x10000);
    // a file that holds no executable leaves the process as it was
    let mut q = rvos::proc::Process::new(6, &mut k.mem).unwrap();
    let before = q.trap_frame.sepc;
    assert_eq!(ok(rvos::proc::exec_process(&mut q, &mut k.mem, b"MALLOC", &argv, &envp)), None);
    assert_eq!(q.trap_frame.sepc, before);
}
