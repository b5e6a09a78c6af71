//! The Linux system-call layer: the kernel's state and the calls that
//! read and change it.
use vstd::prelude::*;
use std::collections::BTreeMap;
use crate::mm::{PhysMem, KernelPanic, PTEFlags, pte_ppn, lemma_shr12};
use crate::pagetable::{PageTable, same_slot, clone_fits, user_pages_from, user_page, page_copied, kernel_lookup, slot_key, leaf_bits, lemma_grows_old_words, lemma_grows_trans,
    KERNEL_REGION_PAGES, lemma_leaf_bits, lemma_not_table_kept, user_perm_bits, lemma_user_leaf_perms};
use crate::elf::{lemma_page_align, ElfImage, strs_view, stack_fits, brk_after, max_end, stack_in_page, stack_mapped, seg_mapped, seg_loaded, SegmentKind,
    fits_user_space, load_pages};
use crate::fs::{RamFs, OpenFile};
use crate::fdtable::{FdTable, stdio_file, law_alloc_lowest_free};
use crate::pipe::PipeInner;
use crate::proc::{ProcTable, Process, ProcState, exit_process, fork_process, exec_image, exec_room, switch_process, parked};
use crate::elf_parse::{parse_elf, elf_no_image, elf_parse_stops, image_parsed};
use crate::net::NetState;
use crate::trap::TrapFrame;
use crate::fs::{get_file_data, lookup, file_size, mkdir, read_inode, write_inode, written_bytes, read_dir, encode_entries};
use crate::path::{path_eq, starts_with};
use crate::uaccess::{read_user_str, read_user_u64, le_u64, user_str_len, latin1_utf8, range_mapped, user_pa, lemma_write_keeps_tables, user_bytes, user_pas, overlay, copy_to_user, copy_from_user,
    read_user_cstr, user_cstr_len};

verus! {

broadcast use vstd::std_specs::btree::group_btree_axioms, vstd::laws_cmp::group_laws_cmp;

/// Where an emulated name-service exchange stands.
pub enum NscdPhase {
    Header,
    Data,
    Done,
}

/// An emulated connection to the name-service cache: the reply waiting to
/// be read, and how much of it was read.
pub struct NscdState {
    pub phase: NscdPhase,
    pub header: [u8; 36],
    pub data: Vec<u8>,
    pub offset: usize,
}

/// What a descriptor from 100 on stands for.
pub enum FakeFdType {
    Nscd(NscdState),
    InetSocket,
    Epoll,
    EventFd,
}

/// The first descriptor handed out for sockets, epoll and eventfd.
pub const FIRST_FAKE_FD: usize = 100;

/// Error: the call would block.
pub const EAGAIN: isize = -11;

/// The kernel: memory, files, descriptors, pipes, processes, sockets, the
/// saved registers of the trap being handled, and the console output not
/// yet printed.
pub struct Kernel {
    pub mem: PhysMem,
    pub fs: RamFs,
    pub fds: FdTable,
    pub procs: ProcTable,
    pub pipes: BTreeMap<usize, PipeInner>,
    pub next_pipe_id: usize,
    pub fake_fds: BTreeMap<usize, FakeFdType>,
    pub fake_fd_next: usize,
    pub net: NetState,
    pub trap_frame: TrapFrame,
    pub mmap_base: usize,
    pub console: Vec<u8>,
}

impl Kernel {
    pub open spec fn wf(self) -> bool {
        &&& self.mem.wf()
        &&& self.fs.wf()
        &&& self.procs.wf()
        &&& self.procs.roots_framed(self.mem)
        &&& forall|id: usize| #[trigger] self.pipes@.contains_key(id) ==> self.pipes@[id].wf()
        &&& self.pipe_ids_below()
    }

    /// Every pipe, and every pipe a descriptor names, has an id below the
    /// next pipe id.
    pub open spec fn pipe_ids_below(self) -> bool {
        &&& forall|id: usize| #[trigger] self.pipes@.contains_key(id) ==> id < self.next_pipe_id
        &&& forall|i: int| 0 <= i < self.fds@.len() && #[trigger] self.fds@[i] is Some && self.fds@[i]->0.pipe_id is Some
            ==> self.fds@[i]->0.pipe_id->0 < self.next_pipe_id
    }

    /// A kernel over memory `mem` and file system `fs`, with no process,
    /// pipe or socket, and the three standard descriptors open.
    pub fn new(mem: PhysMem, fs: RamFs) -> (k: Kernel)
        requires
            mem.wf(),
            fs.wf(),
        ensures
            k.wf(),
            k.mem == mem,
            k.fs == fs,
            k.fds@ == seq![Some(stdio_file()), Some(stdio_file()), Some(stdio_file())],
            k.procs.procs().len() == 0,
            k.procs.next() == 1,
            k.pipes@ == Map::<usize, PipeInner>::empty(),
            k.next_pipe_id == 1,
            k.fake_fds@ == Map::<usize, FakeFdType>::empty(),
            k.fake_fd_next == FIRST_FAKE_FD,
            k.mmap_base == 0,
            k.console@ == Seq::<u8>::empty(),
    {
        Kernel {
            mem,
            fs,
            fds: FdTable::new(),
            procs: ProcTable::new(),
            pipes: BTreeMap::new(),
            next_pipe_id: 1,
            fake_fds: BTreeMap::new(),
            fake_fd_next: FIRST_FAKE_FD,
            net: NetState::new(),
            trap_frame: TrapFrame::new(),
            mmap_base: 0,
            console: Vec::new(),
        }
    }

    /// The page table of the running process, through which user memory is
    /// reached.
    pub open spec fn upt(self) -> Option<PageTable> {
        if self.procs.has(self.procs.current()) {
            Some(self.procs.get_spec(self.procs.current()).page_table)
        } else {
            None
        }
    }

    /// Every byte of user memory `[va, va + len)` is mapped.
    pub open spec fn mapped(self, va: int, len: int) -> bool {
        &&& self.upt() is Some
        &&& va + len <= usize::MAX
        &&& range_mapped(self.upt()->0, self.mem, va, len)
    }

    /// The user bytes at `[va, va + len)`.
    pub open spec fn ubytes(self, va: int, len: nat) -> Seq<u8> {
        user_bytes(self.upt()->0, self.mem, va, len)
    }

    /// `m` is this kernel's memory after writing `data` at user address `va`.
    pub open spec fn wrote(self, m: PhysMem, va: int, data: Seq<u8>) -> bool {
        let ov = overlay(user_pas(self.upt()->0, self.mem, va, data.len()), data, data.len() as int);
        &&& m.wf()
        &&& m.num_frames() == self.mem.num_frames()
        &&& m.first_ppn() == self.mem.first_ppn()
        &&& m.free_pages() == self.mem.free_pages()
        &&& forall|q: int| #[trigger] m.byte(q)
            == if ov.dom().contains(q) && self.mem.is_frame(q / 4096) { ov[q] } else { self.mem.byte(q) }
    }

    /// This kernel with memory `m` in place of its own.
    pub open spec fn with_mem(self, m: PhysMem) -> Kernel {
        Kernel {
            mem: m,
            fs: self.fs,
            fds: self.fds,
            procs: self.procs,
            pipes: self.pipes,
            next_pipe_id: self.next_pipe_id,
            fake_fds: self.fake_fds,
            fake_fd_next: self.fake_fd_next,
            net: self.net,
            trap_frame: self.trap_frame,
            mmap_base: self.mmap_base,
            console: self.console,
        }
    }

    /// This kernel with `tf` as the saved registers of the trap it answers.
    pub open spec fn with_trap_frame(self, tf: TrapFrame) -> Kernel {
        Kernel {
            mem: self.mem,
            fs: self.fs,
            fds: self.fds,
            procs: self.procs,
            pipes: self.pipes,
            next_pipe_id: self.next_pipe_id,
            fake_fds: self.fake_fds,
            fake_fd_next: self.fake_fd_next,
            net: self.net,
            trap_frame: tf,
            mmap_base: self.mmap_base,
            console: self.console,
        }
    }

    /// Everything but memory is as in `o`.
    pub open spec fn same_but_mem(self, o: Kernel) -> bool {
        &&& self.fs == o.fs
        &&& self.fds == o.fds
        &&& self.procs == o.procs
        &&& self.pipes == o.pipes
        &&& self.next_pipe_id == o.next_pipe_id
        &&& self.fake_fds == o.fake_fds
        &&& self.fake_fd_next == o.fake_fd_next
        &&& self.net == o.net
        &&& self.trap_frame == o.trap_frame
        &&& self.mmap_base == o.mmap_base
        &&& self.console == o.console
    }

    /// The page table of the running process.
    pub fn current_pt(&self) -> (r: Option<PageTable>)
        requires
            self.procs.wf(),
        ensures
            r == self.upt(),
    {
        match self.procs.get(self.procs.current_pid()) {
            Some(p) => Some(p.page_table),
            None => None,
        }
    }

    /// Writes `data` at user address `va`; false, with nothing written, when
    /// some byte of the range is not mapped.
    pub fn copy_out(&mut self, va: usize, data: &[u8]) -> (ok: bool)
        requires
            old(self).wf(),
        ensures
            final(self).wf(),
            ok == old(self).mapped(va as int, data@.len() as int),
            final(self).same_but_mem(*old(self)),
            ok ==> old(self).wrote(final(self).mem, va as int, data@),
            !ok ==> *final(self) == *old(self),
    {
        let pt = match self.current_pt() {
            Some(pt) => pt,
            None => return false,
        };
        if va > usize::MAX - data.len() {
            return false;
        }
        let ghost m0 = self.mem;
        let ok = copy_to_user(&pt, &mut self.mem, va, data);
        proof {
            if ok {
                assert forall|p: int| m0.is_frame(p) implies self.mem.is_frame(p) by {}
            }
        }
        ok
    }

    /// The user bytes at `[va, va + len)`; `None` when one is not mapped.
    pub fn copy_in(&self, va: usize, len: usize) -> (r: Option<Vec<u8>>)
        requires
            self.wf(),
        ensures
            r is Some <==> self.mapped(va as int, len as int),
            r is Some ==> r->0@ == self.ubytes(va as int, len as nat),
    {
        let pt = match self.current_pt() {
            Some(pt) => pt,
            None => return None,
        };
        if va > usize::MAX - len {
            return None;
        }
        copy_from_user(&pt, &self.mem, va, len)
    }

    /// The length of the zero-terminated user string at `va`.
    pub open spec fn cstr_len(self, va: int) -> Option<nat> {
        match self.upt() {
            Some(pt) => user_cstr_len(pt, self.mem, va),
            None => None,
        }
    }

    /// The zero-terminated user string at `va`, without its zero; `None`
    /// when a byte before its end is not mapped.
    pub fn cstr_in(&self, va: usize) -> (r: Option<Vec<u8>>)
        requires
            self.wf(),
        ensures
            r is Some <==> self.cstr_len(va as int) is Some,
            r is Some ==> r->0@ == self.ubytes(va as int, self.cstr_len(va as int)->0),
    {
        let pt = match self.current_pt() {
            Some(pt) => pt,
            None => return None,
        };
        read_user_cstr(&pt, &self.mem, va)
    }
}

} // verus!


verus! {

/// The bytes of `x`, least significant first, `n` of them.
pub open spec fn le(x: u64, n: nat) -> Seq<u8> {
    Seq::new(n, |j: int| ((x >> ((8 * j) as u64)) & 0xff) as u8)
}

/// `n` zero bytes.
pub open spec fn zeros(n: nat) -> Seq<u8> {
    Seq::new(n, |j: int| 0u8)
}

/// Appends the `n` low bytes of `x`, least significant first.
fn push_le(v: &mut Vec<u8>, x: u64, n: usize)
    requires
        n <= 8,
    ensures
        final(v)@ == old(v)@ + le(x, n as nat),
{
    let mut j: usize = 0;
    while j < n
        invariant
            j <= n <= 8,
            v@ == old(v)@ + le(x, j as nat),
        decreases n - j,
    {
        v.push(((x >> ((8 * j) as u64)) & 0xff) as u8);
        proof {
            assert(v@ =~= old(v)@ + le(x, (j + 1) as nat));
        }
        j = j + 1;
    }
}

/// Appends `n` zero bytes.
fn push_zeros(v: &mut Vec<u8>, n: usize)
    ensures
        final(v)@ == old(v)@ + zeros(n as nat),
{
    let mut j: usize = 0;
    while j < n
        invariant
            j <= n,
            v@ == old(v)@ + zeros(j as nat),
        decreases n - j,
    {
        v.push(0);
        proof {
            assert(v@ =~= old(v)@ + zeros((j + 1) as nat));
        }
        j = j + 1;
    }
}

/// The 128-byte `stat` record of an object with mode `mode` and `size`
/// bytes: one link, 4096-byte blocks, and the number of 512-byte blocks.
pub open spec fn stat_bytes_of(mode: u64, size: u64) -> Seq<u8> {
    zeros(16) + le(mode, 4) + zeros(4) + le(1, 4) + zeros(20) + le(size, 8) + le(4096, 4) + zeros(4)
        + le(size.wrapping_add(511) / 512, 8) + zeros(56)
}

/// The mode of a file of `size` bytes: a directory (040755) when empty,
/// else a regular file (0100644).
pub open spec fn file_mode(size: u64) -> u64 {
    if size == 0 { 0o40755 } else { 0o100644 }
}

/// The `stat` record of a file of `size` bytes.
pub open spec fn stat_bytes(size: u64) -> Seq<u8> {
    stat_bytes_of(file_mode(size), size)
}

/// The mode the standard descriptors report: a character device
/// (`S_IFCHR`), readable and writable by its owner, writable by its group.
pub const STDIO_MODE: u64 = 0o20620;

fn stat_record(mode: u64, size: u64) -> (v: Vec<u8>)
    ensures
        v@ == stat_bytes_of(mode, size),
{
    let mut v: Vec<u8> = Vec::new();
    push_zeros(&mut v, 16);
    push_le(&mut v, mode, 4);
    push_zeros(&mut v, 4);
    push_le(&mut v, 1, 4);
    push_zeros(&mut v, 20);
    push_le(&mut v, size, 8);
    push_le(&mut v, 4096, 4);
    push_zeros(&mut v, 4);
    push_le(&mut v, size.wrapping_add(511) / 512, 8);
    push_zeros(&mut v, 56);
    v
}

/// A 65-byte field holding `s` and zeros after it.
pub fn pad(s: &[u8]) -> (r: Vec<u8>)
    requires
        s@.len() <= 65,
    ensures
        r@ == s@ + zeros((65 - s@.len()) as nat),
{
    let mut r: Vec<u8> = Vec::new();
    let mut i: usize = 0;
    while i < s.len()
        invariant
            i <= s@.len(),
            r@ == s@.take(i as int),
        decreases s@.len() - i,
    {
        r.push(s[i]);
        proof {
            assert(r@ =~= s@.take(i as int + 1));
        }
        i = i + 1;
    }
    proof {
        assert(s@.take(s@.len() as int) =~= s@);
    }
    push_zeros(&mut r, 65 - s.len());
    r
}

/// `Linux`, `rvos`, `5.15.0`, `#1`, `riscv64` and an empty domain name,
/// each in a 65-byte field.
pub open spec fn uname_bytes() -> Seq<u8> {
    let f = |s: Seq<u8>| s + zeros((65 - s.len()) as nat);
    f(seq![0x4cu8, 0x69, 0x6e, 0x75, 0x78]) + f(seq![0x72u8, 0x76, 0x6f, 0x73])
        + f(seq![0x35u8, 0x2e, 0x31, 0x35, 0x2e, 0x30]) + f(seq![0x23u8, 0x31])
        + f(seq![0x72u8, 0x69, 0x73, 0x63, 0x76, 0x36, 0x34]) + f(Seq::<u8>::empty())
}

fn uname_record() -> (v: Vec<u8>)
    ensures
        v@ == uname_bytes(),
{
    let mut v: Vec<u8> = Vec::new();
    let a = pad(vec![0x4cu8, 0x69, 0x6e, 0x75, 0x78].as_slice());
    let b = pad(vec![0x72u8, 0x76, 0x6f, 0x73].as_slice());
    let c = pad(vec![0x35u8, 0x2e, 0x31, 0x35, 0x2e, 0x30].as_slice());
    let d = pad(vec![0x23u8, 0x31].as_slice());
    let e = pad(vec![0x72u8, 0x69, 0x73, 0x63, 0x76, 0x36, 0x34].as_slice());
    let empty: Vec<u8> = Vec::new();
    let f = pad(empty.as_slice());
    v.extend_from_slice(a.as_slice());
    v.extend_from_slice(b.as_slice());
    v.extend_from_slice(c.as_slice());
    v.extend_from_slice(d.as_slice());
    v.extend_from_slice(e.as_slice());
    v.extend_from_slice(f.as_slice());
    proof {
        assert(v@ =~= uname_bytes());
    }
    v
}

/// `/proc/self/exe`.
pub open spec fn self_exe_path() -> Seq<u8> {
    seq![0x2fu8, 0x70, 0x72, 0x6f, 0x63, 0x2f, 0x73, 0x65, 0x6c, 0x66, 0x2f, 0x65, 0x78, 0x65]
}

/// `/sbin/nginx`, where `/proc/self/exe` leads.
pub open spec fn self_exe_target() -> Seq<u8> {
    seq![0x2fu8, 0x73, 0x62, 0x69, 0x6e, 0x2f, 0x6e, 0x67, 0x69, 0x6e, 0x78]
}

/// `/tmp` and its terminating zero.
pub open spec fn cwd_bytes() -> Seq<u8> {
    seq![0x2fu8, 0x74, 0x6d, 0x70, 0]
}

} // verus!

verus! {

/// What the network stack has to do to finish a call.
pub enum NetRequest {
    /// Receive into user memory at `buf`, at most `len` bytes, from socket
    /// `handle`.
    Recv { handle: usize, buf: usize, len: usize },
    /// Send `data` on socket `handle`.
    Send { handle: usize, data: Vec<u8> },
    /// Drop socket `handle`; the call returns 0.
    Close { handle: usize },
    /// Listen on descriptor `fd`; the call returns 0.
    Listen { fd: usize },
    /// Accept on the listening descriptor `fd`, whose socket is `handle`,
    /// writing the peer's address at `addr` and its length at `addrlen`.
    Accept { fd: usize, handle: usize, addr: usize, addrlen: usize },
    /// Wait for epoll events, at most `maxevents`, to write at `events`.
    EpollWait { events: usize, maxevents: usize, timeout: isize },
    /// Send the chunks `chunks` on socket `handle` one after the other, as
    /// `writev` does, stopping at the first that does not go out whole.
    Writev { handle: usize, chunks: Vec<Vec<u8>> },
    /// Receive at most `len` bytes from socket `handle` and write them to
    /// descriptor `out_fd`, as `sendfile` does.
    SendfileRecv { handle: usize, len: usize, out_fd: usize },
}

/// What a system call comes to: a return value, or work for the network
/// stack, or the loading of an executable, or another process running now
/// (its registers the kernel's saved ones).
pub enum Outcome {
    Ret(isize),
    Net(NetRequest),
    Exec(ExecRequest),
    Switched,
    /// Read at most `len` bytes typed on the console into `buf`.
    Stdin { buf: usize, len: usize },
}

/// An `execve` whose arguments were read: the file to run, its data's
/// path, the arguments and the environment.
pub struct ExecRequest {
    pub path: Vec<u8>,
    pub argv: Vec<Vec<u8>>,
    pub envp: Vec<Vec<u8>>,
}

impl Kernel {
    /// Whether descriptor `fd` is a socket, epoll or eventfd descriptor.
    pub open spec fn fake(self, fd: usize) -> bool {
        self.fake_fds@.contains_key(fd)
    }

    /// Whether descriptor `fd` is an internet socket.
    pub open spec fn inet(self, fd: usize) -> bool {
        self.fake_fds@.contains_key(fd) && self.fake_fds@[fd] is InetSocket
    }
}

pub fn is_fake_fd(k: &Kernel, fd: usize) -> (r: bool)
    ensures
        r == k.fake(fd),
{
    k.fake_fds.contains_key(&fd)
}

pub fn is_inet_socket(k: &Kernel, fd: usize) -> (r: bool)
    ensures
        r == k.inet(fd),
{
    match k.fake_fds.get(&fd) {
        Some(FakeFdType::InetSocket) => true,
        _ => false,
    }
}

/// Hands out the next descriptor from 100 on for `kind`.
fn alloc_fake(k: &mut Kernel, kind: FakeFdType) -> (fd: usize)
    requires
        old(k).wf(),
    ensures
        final(k).wf(),
        fd == old(k).fake_fd_next,
        final(k).fake_fd_next == old(k).fake_fd_next.wrapping_add(1),
        final(k).fake_fds@ == old(k).fake_fds@.insert(fd, kind),
        final(k).mem == old(k).mem,
        final(k).fs == old(k).fs,
        final(k).fds == old(k).fds,
        final(k).procs == old(k).procs,
        final(k).pipes == old(k).pipes,
        final(k).next_pipe_id == old(k).next_pipe_id,
        final(k).net == old(k).net,
        final(k).trap_frame == old(k).trap_frame,
        final(k).mmap_base == old(k).mmap_base,
        final(k).console == old(k).console,
{
    let fd = k.fake_fd_next;
    k.fake_fd_next = k.fake_fd_next.wrapping_add(1);
    k.fake_fds.insert(fd, kind);
    fd
}

/// `k2` is `k1` with a descriptor handed out for `kind`, returned as `r`.
pub open spec fn took_fake(k1: Kernel, k2: Kernel, kind: FakeFdType, r: isize) -> bool {
    &&& r == k1.fake_fd_next as isize
    &&& k2.fake_fd_next == k1.fake_fd_next.wrapping_add(1)
    &&& k2.fake_fds@ == k1.fake_fds@.insert(k1.fake_fd_next, kind)
    &&& k2.mem == k1.mem && k2.fs == k1.fs && k2.fds == k1.fds && k2.procs == k1.procs
    &&& k2.pipes == k1.pipes && k2.next_pipe_id == k1.next_pipe_id && k2.net == k1.net
    &&& k2.trap_frame == k1.trap_frame && k2.mmap_base == k1.mmap_base && k2.console == k1.console
}

/// What `sys_getcwd` returns and leaves in the kernel, from the kernel `k0` it is called on to the kernel `k1` it leaves.
pub open spec fn getcwd_call(k0: Kernel, k1: Kernel, buf: usize, size: usize, r: Result<isize, KernelPanic>) -> bool {
    &&& (k1.same_but_mem(k0))
    &&& (size < 5 ==> r == Ok::<isize, KernelPanic>(-1isize) && k1 == k0)
    &&& (size >= 5 ==> {
                &&& (r is Ok <==> k0.mapped(buf as int, 5))
                &&& r is Ok ==> r->Ok_0 == buf as isize && k0.wrote(k1.mem, buf as int, cwd_bytes())
            })
}

/// `getcwd`: writes `/tmp` at `buf` and returns `buf`; -1 when `size` is
/// under 5.
pub fn sys_getcwd(k: &mut Kernel, buf: usize, size: usize) -> (r: Result<isize, KernelPanic>)
    requires
        old(k).wf(),
    ensures
        final(k).wf(),
        getcwd_call(*old(k), *final(k), buf, size, r),
{
    if size < 5 {
        return Ok(-1);
    }
    let cwd = vec![0x2fu8, 0x74, 0x6d, 0x70, 0];
    if k.copy_out(buf, cwd.as_slice()) {
        Ok(buf as isize)
    } else {
        Err(KernelPanic)
    }
}

/// What `sys_eventfd2` returns and leaves in the kernel, from the kernel `k0` it is called on to the kernel `k1` it leaves.
pub open spec fn eventfd2_call(k0: Kernel, k1: Kernel, r: isize) -> bool {
    &&& (took_fake(k0, k1, FakeFdType::EventFd, r))
}

/// `eventfd2`: a new eventfd descriptor.
pub fn sys_eventfd2(k: &mut Kernel) -> (r: isize)
    requires
        old(k).wf(),
    ensures
        final(k).wf(),
        eventfd2_call(*old(k), *final(k), r),
{
    alloc_fake(k, FakeFdType::EventFd) as isize
}

/// What `sys_epoll_create1` returns and leaves in the kernel, from the kernel `k0` it is called on to the kernel `k1` it leaves.
pub open spec fn epoll_create1_call(k0: Kernel, k1: Kernel, r: isize) -> bool {
    &&& (took_fake(k0, k1, FakeFdType::Epoll, r))
}

/// `epoll_create1`: a new epoll descriptor.
pub fn sys_epoll_create1(k: &mut Kernel) -> (r: isize)
    requires
        old(k).wf(),
    ensures
        final(k).wf(),
        epoll_create1_call(*old(k), *final(k), r),
{
    alloc_fake(k, FakeFdType::Epoll) as isize
}

/// What `sys_fcntl` returns on the kernel `k`.
pub open spec fn fcntl_call(k: Kernel, fd: usize, cmd: usize, r: isize) -> bool {
    &&& (r == if cmd == 1 { fd as isize } else if cmd == 3 && k.inet(fd) { 0x800 } else { 0 })
}

/// `fcntl`: `F_GETFD` returns the descriptor, `F_GETFL` reports sockets
/// non-blocking (0x800), everything else succeeds with 0.
pub fn sys_fcntl(k: &Kernel, fd: usize, cmd: usize) -> (r: isize)
    ensures
        fcntl_call(*k, fd, cmd, r),
{
    if cmd == 1 {
        fd as isize
    } else if cmd == 3 {
        if is_inet_socket(k, fd) { 0x800 } else { 0 }
    } else {
        0
    }
}

/// `ioctl`: only `FIONBIO` (0x5421) is known, and succeeds with 0; any
/// other request, a terminal one among them, fails with -1, so that no
/// descriptor passes for a terminal.
pub fn sys_ioctl(k: &Kernel, fd: usize, req: usize) -> (r: isize)
    ensures
        r == if req == FIONBIO { 0isize } else { -1isize },
{
    if req == FIONBIO {
        return 0;
    }
    -1
}

/// The `ioctl` request that sets a descriptor non-blocking.
pub const FIONBIO: usize = 0x5421;

/// The error `openat`, `faccessat` and `execve` return for a path that
/// names no file: `-ENOENT`.
pub const ENOENT: isize = -2;

/// What `sys_dup2` returns and leaves in the kernel, from the kernel `k0` it is called on to the kernel `k1` it leaves.
pub open spec fn dup2_call(k0: Kernel, k1: Kernel, oldfd: usize, newfd: usize, r: Result<isize, KernelPanic>) -> bool {
    &&& (newfd == usize::MAX ==> (r is Err || r == Ok::<isize, KernelPanic>(-1isize)))
    &&& (newfd < usize::MAX ==> r is Ok)
    &&& (r is Ok ==> {
                &&& r->Ok_0 == if k0.fds.get_spec(oldfd as int) is Some { newfd as isize } else { -1isize }
                &&& k1.mem == k0.mem && k1.fs == k0.fs && k1.procs == k0.procs
                &&& k1.fake_fds == k0.fake_fds && k1.pipes == k0.pipes && k1.net == k0.net
                &&& k0.fds.get_spec(oldfd as int) is None ==> k1.fds == k0.fds
                &&& k0.fds.get_spec(oldfd as int) is Some ==> {
                    &&& k1.fds.get_spec(newfd as int) == k0.fds.get_spec(oldfd as int)
                    &&& forall|i: int| 0 <= i < k1.fds@.len() && i != newfd ==> #[trigger] k1.fds.get_spec(i) == k0.fds.get_spec(i)
                    &&& k1.fds@.len() == if newfd < k0.fds@.len() { k0.fds@.len() as int } else { newfd + 1 }
                }
            })
}

/// `dup2`: makes `newfd` a copy of `oldfd`; -1 when `oldfd` is not open.
pub fn sys_dup2(k: &mut Kernel, oldfd: usize, newfd: usize) -> (r: Result<isize, KernelPanic>)
    requires
        old(k).wf(),
    ensures
        final(k).wf(),
        dup2_call(*old(k), *final(k), oldfd, newfd, r),
{
    if newfd == usize::MAX {
        if k.fds.lookup(oldfd).is_none() {
            return Ok(-1);
        }
        return Err(KernelPanic);
    }
    if k.fds.dup2(oldfd, newfd) {
        Ok(newfd as isize)
    } else {
        Ok(-1)
    }
}

/// What `sys_close` returns and leaves in the kernel, from the kernel `k0` it is called on to the kernel `k1` it leaves.
pub open spec fn close_call(k0: Kernel, k1: Kernel, fd: usize, r: Outcome) -> bool {
    &&& (fd <= 2 ==> r == Outcome::Ret(0isize) && k1 == k0)
    &&& (fd > 2 ==> closed(k0, k1, fd, r))
}

/// What closing descriptor `fd` (not a standard one) returns and leaves.
pub open spec fn closed(k0: Kernel, k1: Kernel, fd: usize, r: Outcome) -> bool {
    &&& (k1.mem == k0.mem && k1.fs == k0.fs && k1.procs == k0.procs)
    &&& (k1.pipes == k0.pipes && k1.fake_fd_next == k0.fake_fd_next)
    &&& (k1.fake_fds@ == k0.fake_fds@.remove(fd))
    &&& (k0.inet(fd) ==> {
                &&& k1.fds == k0.fds
                &&& k1.net.epoll_data@ == k0.net.epoll_data@.remove(fd)
                &&& k0.net.listen_fd == Some(fd) ==> k1.net.handles@ == k0.net.handles@ && r == Outcome::Ret(0isize)
                &&& k0.net.listen_fd != Some(fd) ==> {
                    &&& k1.net.handles@ == k0.net.handles@.remove(fd)
                    &&& r == if k0.net.handles@.contains_key(fd) {
                        Outcome::Net(NetRequest::Close { handle: k0.net.handles@[fd] })
                    } else {
                        Outcome::Ret(0isize)
                    }
                }
            })
    &&& (!k0.inet(fd) ==> {
                &&& r == Outcome::Ret(0isize)
                &&& k1.net == k0.net
                &&& k0.fake(fd) ==> k1.fds == k0.fds
                &&& !k0.fake(fd) ==> k1.fds@ == if fd < k0.fds@.len() { k0.fds@.update(fd as int, None) } else { k0.fds@ }
            })
}

/// `close`: the standard descriptors 0, 1 and 2 are never closed; an
/// internet socket is forgotten and its socket dropped by the network
/// stack; other socket, epoll and eventfd descriptors are freed; a file
/// descriptor is closed. Returns 0.
pub fn sys_close(k: &mut Kernel, fd: usize) -> (r: Outcome)
    requires
        old(k).wf(),
    ensures
        final(k).wf(),
        close_call(*old(k), *final(k), fd, r),
{
    if fd <= 2 {
        return Outcome::Ret(0);
    }
    if is_inet_socket(k, fd) {
        let h = k.net.close_fd(fd);
        k.fake_fds.remove(&fd);
        return match h {
            Some(handle) => Outcome::Net(NetRequest::Close { handle }),
            None => Outcome::Ret(0),
        };
    }
    if k.fake_fds.remove(&fd).is_some() {
        return Outcome::Ret(0);
    }
    k.fds.close(fd);
    Outcome::Ret(0)
}

} // verus!

verus! {

/// `k2` is `k1` with only the descriptor table changed.
pub open spec fn only_fds(k1: Kernel, k2: Kernel) -> bool {
    &&& k2.mem == k1.mem && k2.fs == k1.fs && k2.procs == k1.procs
    &&& k2.pipes == k1.pipes && k2.next_pipe_id == k1.next_pipe_id
    &&& k2.fake_fds == k1.fake_fds && k2.fake_fd_next == k1.fake_fd_next && k2.net == k1.net
    &&& k2.trap_frame == k1.trap_frame && k2.mmap_base == k1.mmap_base && k2.console == k1.console
}

/// The offset `lseek` moves to: `offset` from the start (0), from the
/// current offset (1) or from the end (2), wrapping.
pub open spec fn seek_target(cur: usize, size: usize, offset: usize, whence: usize) -> usize {
    if whence == 0 { offset } else if whence == 1 { cur.wrapping_add(offset) } else { size.wrapping_add(offset) }
}

/// What `sys_lseek` returns and leaves in the kernel, from the kernel `k0` it is called on to the kernel `k1` it leaves.
pub open spec fn lseek_call(k0: Kernel, k1: Kernel, fd: usize, offset: usize, whence: usize, r: isize) -> bool {
    &&& (only_fds(k0, k1))
    &&& (({
                let of = k0.fds.get_spec(fd as int);
                if of is None || whence > 2 {
                    r == -1 && k1.fds == k0.fds
                } else {
                    let f = of->0;
                    let size = match k0.fs.inode_file(f.inode as int) { Some(file) => file.bytes().len() as usize, None => 0usize };
                    let t = seek_target(f.offset, size, offset, whence);
                    &&& r == t as isize
                    &&& k1.fds@ == k0.fds@.update(fd as int, Some(OpenFile { offset: t, ..f }))
                }
            }))
}

/// `lseek`: moves the offset of `fd` and returns it; -1 when `fd` is not
/// open or `whence` is none of 0, 1, 2.
pub fn sys_lseek(k: &mut Kernel, fd: usize, offset: usize, whence: usize) -> (r: isize)
    requires
        old(k).wf(),
    ensures
        final(k).wf(),
        lseek_call(*old(k), *final(k), fd, offset, whence, r),
{
    let of = match k.fds.lookup(fd) {
        Some(of) => of,
        None => return -1,
    };
    let t = if whence == 0 {
        offset
    } else if whence == 1 {
        of.offset.wrapping_add(offset)
    } else if whence == 2 {
        file_size(&k.fs, of.inode).wrapping_add(offset)
    } else {
        return -1;
    };
    match k.fds.get(fd) {
        Some(f) => {
            f.offset = t;
        },
        None => {},
    }
    t as isize
}

/// Law: `lseek` with whence 0 (`SEEK_SET`) on an open descriptor moves its
/// offset to exactly `offset` and returns it, whatever the offset was; the
/// descriptor keeps its file and modes, and no other descriptor changes.
pub proof fn law_lseek_set(k0: Kernel, k1: Kernel, fd: usize, offset: usize, r: isize)
    requires
        lseek_call(k0, k1, fd, offset, 0, r),
        k0.fds.get_spec(fd as int) is Some,
    ensures
        r == offset as isize,
        k1.fds.get_spec(fd as int) is Some,
        k1.fds.get_spec(fd as int)->0.offset == offset,
        k1.fds.get_spec(fd as int)->0.inode == k0.fds.get_spec(fd as int)->0.inode,
        k1.fds.get_spec(fd as int)->0.readable == k0.fds.get_spec(fd as int)->0.readable,
        k1.fds.get_spec(fd as int)->0.writable == k0.fds.get_spec(fd as int)->0.writable,
        k1.fds.get_spec(fd as int)->0.pipe_id == k0.fds.get_spec(fd as int)->0.pipe_id,
        forall|d: int| d != fd ==> #[trigger] k1.fds.get_spec(d) == k0.fds.get_spec(d),
        k1.mem == k0.mem && k1.fs == k0.fs,
{
}

/// Law: `lseek` on an open descriptor of a file of `size` bytes (0 for a
/// descriptor with no file behind it) moves the offset to `offset` with
/// whence 0, to the old offset plus `offset` with whence 1 and to `size`
/// plus `offset` with whence 2, the sums wrapping, and returns the new
/// offset; any other whence answers -1 and changes nothing.
pub proof fn law_lseek_whence(k0: Kernel, k1: Kernel, fd: usize, offset: usize, whence: usize, r: isize)
    requires
        lseek_call(k0, k1, fd, offset, whence, r),
        k0.fds.get_spec(fd as int) is Some,
    ensures
        ({
            let cur = k0.fds.get_spec(fd as int)->0.offset;
            let size: usize = match k0.fs.inode_file(k0.fds.get_spec(fd as int)->0.inode as int) {
                Some(file) => file.bytes().len() as usize,
                None => 0,
            };
            let base: int = if whence == 0 { 0 } else if whence == 1 { cur as int } else { size as int };
            let t: int = if base + offset <= usize::MAX { base + offset } else { base + offset - (usize::MAX + 1) };
            &&& whence <= 2 ==> k1.fds.get_spec(fd as int) is Some && k1.fds.get_spec(fd as int)->0.offset == t
                && r == t as isize
            &&& whence > 2 ==> r == -1 && k1.fds == k0.fds
        }),
{
}

/// Law: `lseek` with whence 1 (`SEEK_CUR`) and offset 0 on an open
/// descriptor returns its offset and leaves it where it was.
pub proof fn law_lseek_tell(k0: Kernel, k1: Kernel, fd: usize, r: isize)
    requires
        lseek_call(k0, k1, fd, 0, 1, r),
        k0.fds.get_spec(fd as int) is Some,
    ensures
        r == k0.fds.get_spec(fd as int)->0.offset as isize,
        k1.fds.get_spec(fd as int) == k0.fds.get_spec(fd as int),
        forall|d: int| #[trigger] k1.fds.get_spec(d) == k0.fds.get_spec(d),
{
    let f = k0.fds.get_spec(fd as int)->0;
    assert(f.offset.wrapping_add(0) == f.offset);
    assert(k1.fds@ =~= k0.fds@);
}

/// Writes the `stat` record of a file of `size` bytes at `buf`.
pub fn fill_stat(k: &mut Kernel, buf: usize, size: u64) -> (r: Result<(), KernelPanic>)
    requires
        old(k).wf(),
    ensures
        final(k).wf(),
        final(k).same_but_mem(*old(k)),
        r is Ok <==> old(k).mapped(buf as int, 128),
        r is Ok ==> old(k).wrote(final(k).mem, buf as int, stat_bytes(size)),
{
    let mode: u64 = if size == 0 { 0o40755 } else { 0o100644 };
    fill_stat_mode(k, buf, mode, size)
}

/// Writes the `stat` record of an object with mode `mode` and `size` bytes
/// at `buf`.
fn fill_stat_mode(k: &mut Kernel, buf: usize, mode: u64, size: u64) -> (r: Result<(), KernelPanic>)
    requires
        old(k).wf(),
    ensures
        final(k).wf(),
        final(k).same_but_mem(*old(k)),
        r is Ok <==> old(k).mapped(buf as int, 128),
        r is Ok ==> old(k).wrote(final(k).mem, buf as int, stat_bytes_of(mode, size)),
{
    let rec = stat_record(mode, size);
    if k.copy_out(buf, rec.as_slice()) {
        Ok(())
    } else {
        Err(KernelPanic)
    }
}

/// What `sys_fstat` returns and leaves in the kernel, from the kernel `k0` it is called on to the kernel `k1` it leaves.
pub open spec fn fstat_call(k0: Kernel, k1: Kernel, fd: usize, buf: usize, r: Result<isize, KernelPanic>) -> bool {
    &&& (k1.same_but_mem(k0))
    &&& (k0.fds.get_spec(fd as int) is None ==> r == Ok::<isize, KernelPanic>(-1isize) && k1 == k0)
    &&& (k0.fds.get_spec(fd as int) matches Some(f) ==> {
                let size = match k0.fs.inode_file(f.inode as int) { Some(file) => file.bytes().len() as u64, None => 0u64 };
                let rec = if fd <= 2 && f.pipe_id is None { stat_bytes_of(STDIO_MODE, 0) } else { stat_bytes(size) };
                &&& (r is Ok <==> k0.mapped(buf as int, 128))
                &&& r is Ok ==> r->Ok_0 == 0 && k0.wrote(k1.mem, buf as int, rec)
            })
}

/// `fstat`: the `stat` record of the file open at `fd`; a standard
/// descriptor (0, 1, 2) that is no pipe reports a character device; -1
/// when `fd` is not open.
pub fn sys_fstat(k: &mut Kernel, fd: usize, buf: usize) -> (r: Result<isize, KernelPanic>)
    requires
        old(k).wf(),
    ensures
        final(k).wf(),
        fstat_call(*old(k), *final(k), fd, buf, r),
{
    match k.fds.lookup(fd) {
        Some(of) => {
            if fd <= 2 && of.pipe_id.is_none() {
                return match fill_stat_mode(k, buf, STDIO_MODE, 0) {
                    Ok(()) => Ok(0),
                    Err(e) => Err(e),
                };
            }
            let size = file_size(&k.fs, of.inode) as u64;
            match fill_stat(k, buf, size) {
                Ok(()) => Ok(0),
                Err(e) => Err(e),
            }
        },
        None => Ok(-1),
    }
}

/// The path named by the user string at `va`.
pub open spec fn upath(k: Kernel, va: usize) -> Seq<u8> {
    k.ubytes(va as int, k.cstr_len(va as int)->0)
}

/// What `sys_fstatat` returns and leaves in the kernel, from the kernel `k0` it is called on to the kernel `k1` it leaves.
pub open spec fn fstatat_call(k0: Kernel, k1: Kernel, path: usize, buf: usize, r: Result<isize, KernelPanic>) -> bool {
    &&& (k1.same_but_mem(k0))
    &&& (k0.cstr_len(path as int) is None ==> r is Err)
    &&& (k0.cstr_len(path as int) is Some ==> ({
                let p = upath(k0, path);
                match k0.fs.lookup_spec(p) {
                    None => r == Ok::<isize, KernelPanic>(-1isize) && k1 == k0,
                    Some(ino) => {
                        let size = match k0.fs.inode_file(ino as int) { Some(file) => file.bytes().len() as u64, None => 0u64 };
                        &&& (r is Ok <==> k0.mapped(buf as int, 128))
                        &&& r is Ok ==> r->Ok_0 == 0 && k0.wrote(k1.mem, buf as int, stat_bytes(size))
                    },
                }
            }))
}

/// `fstatat` and `statx`: the `stat` record of the file at the user path
/// `path`; -1 when no file has that path.
pub fn sys_fstatat(k: &mut Kernel, path: usize, buf: usize) -> (r: Result<isize, KernelPanic>)
    requires
        old(k).wf(),
    ensures
        final(k).wf(),
        fstatat_call(*old(k), *final(k), path, buf, r),
{
    let p = match k.cstr_in(path) {
        Some(p) => p,
        None => return Err(KernelPanic),
    };
    match lookup(&k.fs, p.as_slice()) {
        Some(inode) => {
            let size = file_size(&k.fs, inode) as u64;
            match fill_stat(k, buf, size) {
                Ok(()) => Ok(0),
                Err(e) => Err(e),
            }
        },
        None => Ok(-1),
    }
}

/// What `sys_statx` returns and leaves in the kernel, from the kernel `k0` it is called on to the kernel `k1` it leaves.
pub open spec fn statx_call(k0: Kernel, k1: Kernel, path: usize, buf: usize, r: Result<isize, KernelPanic>) -> bool {
    &&& (k1.same_but_mem(k0))
    &&& (k0.cstr_len(path as int) is None ==> r is Err)
    &&& (k0.cstr_len(path as int) is Some ==> ({
                let p = upath(k0, path);
                match k0.fs.lookup_spec(p) {
                    None => r == Ok::<isize, KernelPanic>(-1isize) && k1 == k0,
                    Some(ino) => {
                        let size = match k0.fs.inode_file(ino as int) { Some(file) => file.bytes().len() as u64, None => 0u64 };
                        &&& (r is Ok <==> k0.mapped(buf as int, 128))
                        &&& r is Ok ==> r->Ok_0 == 0 && k0.wrote(k1.mem, buf as int, stat_bytes(size))
                    },
                }
            }))
}

/// `statx`: as `fstatat`.
pub fn sys_statx(k: &mut Kernel, path: usize, buf: usize) -> (r: Result<isize, KernelPanic>)
    requires
        old(k).wf(),
    ensures
        final(k).wf(),
        statx_call(*old(k), *final(k), path, buf, r),
{
    sys_fstatat(k, path, buf)
}

/// What `sys_faccessat` returns on the kernel `k`.
pub open spec fn faccessat_call(k: Kernel, path: usize, r: Result<isize, KernelPanic>) -> bool {
    &&& (r is Err <==> k.cstr_len(path as int) is None)
    &&& (r is Ok ==> r->Ok_0 == if k.fs.lookup_spec(upath(k, path)) is Some { 0isize } else { ENOENT })
}

/// `faccessat`: 0 when a file has the user path `path`, else -2
/// (`-ENOENT`).
pub fn sys_faccessat(k: &Kernel, path: usize) -> (r: Result<isize, KernelPanic>)
    requires
        k.wf(),
    ensures
        faccessat_call(*k, path, r),
{
    let p = match k.cstr_in(path) {
        Some(p) => p,
        None => return Err(KernelPanic),
    };
    if lookup(&k.fs, p.as_slice()).is_some() { Ok(0) } else { Ok(ENOENT) }
}

/// What `sys_mkdirat` returns and leaves in the kernel, from the kernel `k0` it is called on to the kernel `k1` it leaves.
pub open spec fn mkdirat_call(k0: Kernel, k1: Kernel, path: usize, r: Result<isize, KernelPanic>) -> bool {
    &&& (r is Err <==> k0.cstr_len(path as int) is None)
    &&& (r is Err ==> k1 == k0)
    &&& (r is Ok ==> ({
                let p = upath(k0, path);
                &&& r->Ok_0 == 0
                &&& k1.mem == k0.mem && k1.fds == k0.fds && k1.procs == k0.procs
                &&& k0.fs.lookup_spec(p) is Some ==> k1.fs == k0.fs
                &&& k0.fs.lookup_spec(p) is None ==> {
                    &&& k1.fs.inodes() == k0.fs.inodes().push(p)
                    &&& k1.fs.has(p)
                    &&& k1.fs.file(p).bytes().len() == 0
                    &&& forall|q: Seq<u8>| q != p ==> (#[trigger] k1.fs.has(q) == k0.fs.has(q))
                    &&& forall|q: Seq<u8>| q != p && k0.fs.has(q) ==> #[trigger] k1.fs.file(q) == k0.fs.file(q)
                }
            }))
}

/// `mkdirat`: creates a directory at the user path `path` unless a file
/// has that path; returns 0.
pub fn sys_mkdirat(k: &mut Kernel, path: usize) -> (r: Result<isize, KernelPanic>)
    requires
        old(k).wf(),
    ensures
        final(k).wf(),
        mkdirat_call(*old(k), *final(k), path, r),
{
    let p = match k.cstr_in(path) {
        Some(p) => p,
        None => return Err(KernelPanic),
    };
    if lookup(&k.fs, p.as_slice()).is_some() {
        Ok(0)
    } else {
        mkdir(&mut k.fs, p.as_slice());
        Ok(0)
    }
}

/// What `sys_openat` returns and leaves in the kernel, from the kernel `k0` it is called on to the kernel `k1` it leaves.
pub open spec fn openat_call(k0: Kernel, k1: Kernel, path: usize, flags: usize, r: Result<isize, KernelPanic>) -> bool {
    &&& (r is Err <==> k0.cstr_len(path as int) is None)
    &&& (r is Err ==> k1 == k0)
    &&& (r is Ok ==> only_fds(k0, k1))
    &&& (r is Ok ==> ({
                let p = upath(k0, path);
                match k0.fs.lookup_spec(p) {
                    None => r->Ok_0 == ENOENT && k1.fds == k0.fds,
                    Some(ino) => {
                        let f = OpenFile { inode: ino, offset: 0, readable: true, writable: flags & 1 != 0 || flags & 2 != 0, pipe_id: None };
                        let fd = crate::fdtable::first_free(k0.fds@);
                        &&& r->Ok_0 == fd as isize
                        &&& k1.fds@ == if fd < k0.fds@.len() { k0.fds@.update(fd, Some(f)) } else { k0.fds@.push(Some(f)) }
                    },
                }
            }))
}

/// `openat`: opens the file at the user path `path` in the lowest free
/// descriptor, at offset 0, writable when `flags` asks for writing; -2
/// (`-ENOENT`) when no file has that path.
pub fn sys_openat(k: &mut Kernel, path: usize, flags: usize) -> (r: Result<isize, KernelPanic>)
    requires
        old(k).wf(),
    ensures
        final(k).wf(),
        openat_call(*old(k), *final(k), path, flags, r),
{
    let p = match k.cstr_in(path) {
        Some(p) => p,
        None => return Err(KernelPanic),
    };
    match lookup(&k.fs, p.as_slice()) {
        Some(inode) => {
            let writable = (flags & 1) != 0 || (flags & 2) != 0;
            let fd = k.fds.alloc_fd(OpenFile { inode, offset: 0, readable: true, writable, pipe_id: None });
            Ok(fd as isize)
        },
        None => Ok(ENOENT),
    }
}

/// `getpid`: the running process's pid.
pub fn sys_getpid(k: &Kernel) -> (r: isize)
    ensures
        r == k.procs.current() as isize,
{
    k.procs.current_pid() as isize
}

/// What `sys_getppid` returns on the kernel `k`.
pub open spec fn getppid_call(k: Kernel, r: isize) -> bool {
    &&& (r == if k.procs.has(k.procs.current()) { k.procs.get_spec(k.procs.current()).ppid as isize } else { 0isize })
}

/// `getppid`: the running process's parent; 0 when there is no running
/// process.
pub fn sys_getppid(k: &Kernel) -> (r: isize)
    requires
        k.wf(),
    ensures
        getppid_call(*k, r),
{
    match k.procs.get(k.procs.current_pid()) {
        Some(p) => p.ppid as isize,
        None => 0,
    }
}

/// What `sys_uname` returns and leaves in the kernel, from the kernel `k0` it is called on to the kernel `k1` it leaves.
pub open spec fn uname_call(k0: Kernel, k1: Kernel, buf: usize, r: Result<isize, KernelPanic>) -> bool {
    &&& (k1.same_but_mem(k0))
    &&& (r is Ok <==> k0.mapped(buf as int, 390))
    &&& (r is Ok ==> r->Ok_0 == 0 && k0.wrote(k1.mem, buf as int, uname_bytes()))
}

/// `uname`: writes the system's names at `buf`.
pub fn sys_uname(k: &mut Kernel, buf: usize) -> (r: Result<isize, KernelPanic>)
    requires
        old(k).wf(),
    ensures
        final(k).wf(),
        uname_call(*old(k), *final(k), buf, r),
{
    let rec = uname_record();
    if k.copy_out(buf, rec.as_slice()) { Ok(0) } else { Err(KernelPanic) }
}

/// The limits `getrlimit` reports: 1024 and 4096 open files, and no limit
/// on anything else.
pub open spec fn rlimit_bytes(resource: usize) -> Seq<u8> {
    if resource == 7 { le(1024, 8) + le(4096, 8) } else { le(u64::MAX, 8) + le(u64::MAX, 8) }
}

/// What `sys_getrlimit` returns and leaves in the kernel, from the kernel `k0` it is called on to the kernel `k1` it leaves.
pub open spec fn getrlimit_call(k0: Kernel, k1: Kernel, resource: usize, buf: usize, r: Result<isize, KernelPanic>) -> bool {
    &&& (k1.same_but_mem(k0))
    &&& (r is Ok <==> k0.mapped(buf as int, 16))
    &&& (r is Ok ==> r->Ok_0 == 0 && k0.wrote(k1.mem, buf as int, rlimit_bytes(resource)))
}

/// `getrlimit`: writes the soft and hard limits of `resource` at `buf`.
pub fn sys_getrlimit(k: &mut Kernel, resource: usize, buf: usize) -> (r: Result<isize, KernelPanic>)
    requires
        old(k).wf(),
    ensures
        final(k).wf(),
        getrlimit_call(*old(k), *final(k), resource, buf, r),
{
    let (cur, max) = if resource == 7 { (1024u64, 4096u64) } else { (u64::MAX, u64::MAX) };
    let mut v: Vec<u8> = Vec::new();
    push_le(&mut v, cur, 8);
    push_le(&mut v, max, 8);
    if k.copy_out(buf, v.as_slice()) { Ok(0) } else { Err(KernelPanic) }
}

/// The limit `prlimit64` reports, both soft and hard: 1024 open files, no
/// limit on anything else.
pub open spec fn prlimit_bytes(resource: usize) -> Seq<u8> {
    let lim: u64 = if resource == 7 { 1024 } else { u64::MAX };
    le(lim, 8) + le(lim, 8)
}

/// What `sys_prlimit64` returns and leaves in the kernel, from the kernel `k0` it is called on to the kernel `k1` it leaves.
pub open spec fn prlimit64_call(k0: Kernel, k1: Kernel, resource: usize, old_limit: usize, r: Result<isize, KernelPanic>) -> bool {
    &&& (k1.same_but_mem(k0))
    &&& (old_limit == 0 ==> r == Ok::<isize, KernelPanic>(0isize) && k1 == k0)
    &&& (old_limit != 0 ==> (r is Ok <==> k0.mapped(old_limit as int, 16)))
    &&& (old_limit != 0 && r is Ok ==> r->Ok_0 == 0 && k0.wrote(k1.mem, old_limit as int, prlimit_bytes(resource)))
}

/// `prlimit64`: writes the limits of `resource` at `old_limit` unless it
/// is null; the new limits are ignored.
pub fn sys_prlimit64(k: &mut Kernel, resource: usize, old_limit: usize) -> (r: Result<isize, KernelPanic>)
    requires
        old(k).wf(),
    ensures
        final(k).wf(),
        prlimit64_call(*old(k), *final(k), resource, old_limit, r),
{
    if old_limit != 0 {
        let lim: u64 = if resource == 7 { 1024 } else { u64::MAX };
        let mut v: Vec<u8> = Vec::new();
        push_le(&mut v, lim, 8);
        push_le(&mut v, lim, 8);
        if !k.copy_out(old_limit, v.as_slice()) {
            return Err(KernelPanic);
        }
    }
    Ok(0)
}

/// What `sys_getrandom` returns and leaves in the kernel, from the kernel `k0` it is called on to the kernel `k1` it leaves.
pub open spec fn getrandom_call(k0: Kernel, k1: Kernel, buf: usize, buflen: usize, r: Result<isize, KernelPanic>) -> bool {
    &&& (k1.same_but_mem(k0))
    &&& (r is Ok <==> k0.mapped(buf as int, buflen as int))
    &&& (r is Ok ==> r->Ok_0 == buflen as isize && k0.wrote(k1.mem, buf as int, Seq::new(buflen as nat, |i: int| 0xabu8)))
}

/// `getrandom`: fills `buflen` bytes at `buf` with 0xab and returns their
/// number.
pub fn sys_getrandom(k: &mut Kernel, buf: usize, buflen: usize) -> (r: Result<isize, KernelPanic>)
    requires
        old(k).wf(),
    ensures
        final(k).wf(),
        getrandom_call(*old(k), *final(k), buf, buflen, r),
{
    let mut v: Vec<u8> = Vec::new();
    let mut i: usize = 0;
    while i < buflen
        invariant
            i <= buflen,
            v@ == Seq::new(i as nat, |j: int| 0xabu8),
        decreases buflen - i,
    {
        v.push(0xab);
        proof {
            assert(v@ =~= Seq::new((i + 1) as nat, |j: int| 0xabu8));
        }
        i = i + 1;
    }
    if k.copy_out(buf, v.as_slice()) { Ok(buflen as isize) } else { Err(KernelPanic) }
}

/// What `sys_readlinkat` returns and leaves in the kernel, from the kernel `k0` it is called on to the kernel `k1` it leaves.
pub open spec fn readlinkat_call(k0: Kernel, k1: Kernel, path: usize, buf: usize, bufsiz: usize, r: Result<isize, KernelPanic>) -> bool {
    &&& (k1.same_but_mem(k0))
    &&& (k0.cstr_len(path as int) is None ==> r is Err)
    &&& (k0.cstr_len(path as int) is Some && upath(k0, path) != self_exe_path()
                ==> r == Ok::<isize, KernelPanic>(-1isize) && k1 == k0)
    &&& (k0.cstr_len(path as int) is Some && upath(k0, path) == self_exe_path() ==> {
                let n = if bufsiz < 11 { bufsiz } else { 11 };
                &&& (r is Ok <==> k0.mapped(buf as int, n as int))
                &&& r is Ok ==> r->Ok_0 == n as isize && k0.wrote(k1.mem, buf as int, self_exe_target().take(n as int))
            })
}

/// `readlinkat`: `/proc/self/exe` leads to `/sbin/nginx`, of which as much
/// as fits in `bufsiz` bytes is written at `buf`; -1 for any other path.
pub fn sys_readlinkat(k: &mut Kernel, path: usize, buf: usize, bufsiz: usize) -> (r: Result<isize, KernelPanic>)
    requires
        old(k).wf(),
    ensures
        final(k).wf(),
        readlinkat_call(*old(k), *final(k), path, buf, bufsiz, r),
{
    let p = match k.cstr_in(path) {
        Some(p) => p,
        None => return Err(KernelPanic),
    };
    let exe = vec![0x2fu8, 0x70, 0x72, 0x6f, 0x63, 0x2f, 0x73, 0x65, 0x6c, 0x66, 0x2f, 0x65, 0x78, 0x65];
    if !path_eq(p.as_slice(), exe.as_slice()) {
        return Ok(-1);
    }
    let target = vec![0x2fu8, 0x73, 0x62, 0x69, 0x6e, 0x2f, 0x6e, 0x67, 0x69, 0x6e, 0x78];
    let n = if bufsiz < 11 { bufsiz } else { 11 };
    let mut out: Vec<u8> = Vec::new();
    let mut i: usize = 0;
    while i < n
        invariant
            i <= n <= 11,
            target@ == self_exe_target(),
            out@ == self_exe_target().take(i as int),
        decreases n - i,
    {
        out.push(target[i]);
        proof {
            assert(out@ =~= self_exe_target().take(i as int + 1));
        }
        i = i + 1;
    }
    if k.copy_out(buf, out.as_slice()) { Ok(n as isize) } else { Err(KernelPanic) }
}

} // verus!

verus! {

/// `munmap`: succeeds without unmapping.
pub fn sys_munmap(_addr: usize, _len: usize) -> (r: isize)
    ensures r == 0,
{
    0
}

/// `mprotect`: succeeds without changing protections.
pub fn sys_mprotect(_addr: usize, _len: usize, _prot: usize) -> (r: isize)
    ensures r == 0,
{
    0
}

/// `madvise`: succeeds.
pub fn sys_madvise(_addr: usize, _len: usize, _advice: usize) -> (r: isize)
    ensures r == 0,
{
    0
}

/// `setgid`: succeeds.
pub fn sys_setgid(_gid: usize) -> (r: isize)
    ensures r == 0,
{
    0
}

/// `setuid`: succeeds.
pub fn sys_setuid(_uid: usize) -> (r: isize)
    ensures r == 0,
{
    0
}

/// `setgroups`: succeeds.
pub fn sys_setgroups(_size: usize, _list: usize) -> (r: isize)
    ensures r == 0,
{
    0
}

/// `getuid`: root.
pub fn sys_getuid() -> (r: isize)
    ensures r == 0,
{
    0
}

/// `geteuid`: root.
pub fn sys_geteuid() -> (r: isize)
    ensures r == 0,
{
    0
}

/// `getgid`: root's group.
pub fn sys_getgid() -> (r: isize)
    ensures r == 0,
{
    0
}

/// `getegid`: root's group.
pub fn sys_getegid() -> (r: isize)
    ensures r == 0,
{
    0
}

/// `rt_sigaction`: succeeds without installing a handler.
pub fn sys_rt_sigaction(_sig: usize, _act: usize, _oldact: usize, _sigsetsize: usize) -> (r: isize)
    ensures r == 0,
{
    0
}

/// `rt_sigprocmask`: succeeds without masking.
pub fn sys_rt_sigprocmask(_how: usize, _set: usize, _oldset: usize, _sigsetsize: usize) -> (r: isize)
    ensures r == 0,
{
    0
}

/// `prctl`: succeeds.
pub fn sys_prctl(_option: usize, _arg2: usize, _arg3: usize, _arg4: usize, _arg5: usize) -> (r: isize)
    ensures r == 0,
{
    0
}

/// `set_tid_address`: the thread id, always 1.
pub fn sys_set_tid_address(_tidptr: usize) -> (r: isize)
    ensures r == 1,
{
    1
}

/// `set_robust_list`: succeeds.
pub fn sys_set_robust_list(_head: usize, _len: usize) -> (r: isize)
    ensures r == 0,
{
    0
}

/// `umask`: the mask stays 022.
pub fn sys_umask(_mask: usize) -> (r: isize)
    ensures r == 0o22,
{
    0o22
}

/// `fchownat`: succeeds without changing owners.
pub fn sys_fchownat(_dirfd: usize, _path: usize, _owner: usize, _group: usize, _flags: usize) -> (r: isize)
    ensures r == 0,
{
    0
}

/// `sched_setaffinity`: succeeds.
pub fn sys_sched_setaffinity(_pid: usize, _len: usize, _mask: usize) -> (r: isize)
    ensures r == 0,
{
    0
}

/// `sched_getaffinity`: succeeds without writing a mask.
pub fn sys_sched_getaffinity(_pid: usize, _len: usize, _mask: usize) -> (r: isize)
    ensures r == 0,
{
    0
}

/// `getsockname`: not supported, -1.
pub fn sys_getsockname(_fd: usize, _addr: usize, _addrlen: usize) -> (r: isize)
    ensures r == -1,
{
    -1
}

/// `getpeername`: not supported, -1.
pub fn sys_getpeername(_fd: usize, _addr: usize, _addrlen: usize) -> (r: isize)
    ensures r == -1,
{
    -1
}

/// What `sys_bind` returns on the kernel `k`.
pub open spec fn bind_call(k: Kernel, fd: usize, r: isize) -> bool {
    &&& (r == if k.fake(fd) { 0isize } else { -1isize })
}

/// `bind`: 0 on a socket, epoll or eventfd descriptor, else -1.
pub fn sys_bind(k: &Kernel, fd: usize) -> (r: isize)
    ensures
        bind_call(*k, fd, r),
{
    if is_fake_fd(k, fd) { 0 } else { -1 }
}

/// What `sys_connect` returns on the kernel `k`.
pub open spec fn connect_call(k: Kernel, fd: usize, r: isize) -> bool {
    &&& (r == if k.fake(fd) { 0isize } else { -1isize })
}

/// `connect`: 0 on a socket, epoll or eventfd descriptor, else -1.
pub fn sys_connect(k: &Kernel, fd: usize) -> (r: isize)
    ensures
        connect_call(*k, fd, r),
{
    if is_fake_fd(k, fd) { 0 } else { -1 }
}

/// What `sys_setsockopt` returns on the kernel `k`.
pub open spec fn setsockopt_call(k: Kernel, fd: usize, r: isize) -> bool {
    &&& (r == if k.fake(fd) { 0isize } else { -1isize })
}

/// `setsockopt`: 0 on a socket, epoll or eventfd descriptor, else -1.
pub fn sys_setsockopt(k: &Kernel, fd: usize) -> (r: isize)
    ensures
        setsockopt_call(*k, fd, r),
{
    if is_fake_fd(k, fd) { 0 } else { -1 }
}

/// What `sys_getsockopt` returns on the kernel `k`.
pub open spec fn getsockopt_call(k: Kernel, fd: usize, r: isize) -> bool {
    &&& (r == if k.fake(fd) { 0isize } else { -1isize })
}

/// `getsockopt`: 0 on a socket, epoll or eventfd descriptor, else -1.
pub fn sys_getsockopt(k: &Kernel, fd: usize) -> (r: isize)
    ensures
        getsockopt_call(*k, fd, r),
{
    if is_fake_fd(k, fd) { 0 } else { -1 }
}

/// What `sys_shutdown` returns on the kernel `k`.
pub open spec fn shutdown_call(k: Kernel, fd: usize, r: isize) -> bool {
    &&& (r == if k.fake(fd) { 0isize } else { -1isize })
}

/// `shutdown`: 0 on a socket, epoll or eventfd descriptor, else -1.
pub fn sys_shutdown(k: &Kernel, fd: usize) -> (r: isize)
    ensures
        shutdown_call(*k, fd, r),
{
    if is_fake_fd(k, fd) { 0 } else { -1 }
}

/// A name-service connection with nothing to read yet.
pub open spec fn fresh_nscd(s: NscdState) -> bool {
    &&& s.phase is Header
    &&& s.data@.len() == 0
    &&& s.offset == 0
}

/// What `sys_socket` returns and leaves in the kernel, from the kernel `k0` it is called on to the kernel `k1` it leaves.
pub open spec fn socket_call(k0: Kernel, k1: Kernel, domain: usize, r: isize) -> bool {
    &&& (k1.fake_fd_next == k0.fake_fd_next.wrapping_add(1))
    &&& (k1.mem == k0.mem && k1.fs == k0.fs && k1.fds == k0.fds && k1.procs == k0.procs)
    &&& (k1.pipes == k0.pipes && k1.net == k0.net)
    &&& (domain == 1 ==> {
                &&& r == k0.fake_fd_next as isize
                &&& k1.fake_fds@.dom() == k0.fake_fds@.dom().insert(k0.fake_fd_next)
                &&& (k1.fake_fds@[k0.fake_fd_next] matches FakeFdType::Nscd(s) && fresh_nscd(s))
                &&& forall|f: usize| f != k0.fake_fd_next && #[trigger] k0.fake_fds@.contains_key(f) ==> k1.fake_fds@[f] == k0.fake_fds@[f]
            })
    &&& (domain == 2 ==> r == k0.fake_fd_next as isize
                && k1.fake_fds@ == k0.fake_fds@.insert(k0.fake_fd_next, FakeFdType::InetSocket))
    &&& (domain != 1 && domain != 2 ==> r == -1 && k1.fake_fds == k0.fake_fds)
}

/// `socket`: takes the next descriptor from 100 on; a local (1) socket
/// talks to the emulated name service, an internet (2) one is a TCP
/// socket; any other domain gets -1, the descriptor being used up all the
/// same.
pub fn sys_socket(k: &mut Kernel, domain: usize) -> (r: isize)
    requires
        old(k).wf(),
    ensures
        final(k).wf(),
        socket_call(*old(k), *final(k), domain, r),
{
    let fd = k.fake_fd_next;
    k.fake_fd_next = k.fake_fd_next.wrapping_add(1);
    if domain == 1 {
        let st = NscdState { phase: NscdPhase::Header, header: [0u8; 36], data: Vec::new(), offset: 0 };
        k.fake_fds.insert(fd, FakeFdType::Nscd(st));
        return fd as isize;
    }
    if domain == 2 {
        k.fake_fds.insert(fd, FakeFdType::InetSocket);
        return fd as isize;
    }
    -1
}

/// What `sys_socketpair` returns and leaves in the kernel, from the kernel `k0` it is called on to the kernel `k1` it leaves.
pub open spec fn socketpair_call(k0: Kernel, k1: Kernel, sv: usize, r: Result<isize, KernelPanic>) -> bool {
    &&& (({
                let fd1 = k0.fake_fd_next;
                let fd2 = fd1.wrapping_add(1);
                &&& r is Ok <==> k0.mapped(sv as int, 8)
                &&& r is Ok ==> {
                    &&& r->Ok_0 == 0
                    &&& k1.fake_fd_next == fd2.wrapping_add(1)
                    &&& k1.fake_fds@ == k0.fake_fds@.insert(fd1, FakeFdType::InetSocket).insert(fd2, FakeFdType::InetSocket)
                    &&& k0.wrote(k1.mem, sv as int, le(fd1 as u64, 4) + le(fd2 as u64, 4))
                    &&& k1.fs == k0.fs && k1.fds == k0.fds && k1.procs == k0.procs
                    &&& k1.pipes == k0.pipes && k1.net == k0.net
                }
            }))
}

/// `socketpair`: two new internet sockets, whose descriptors are written
/// at `sv` as two 32-bit numbers.
pub fn sys_socketpair(k: &mut Kernel, sv: usize) -> (r: Result<isize, KernelPanic>)
    requires
        old(k).wf(),
    ensures
        final(k).wf(),
        socketpair_call(*old(k), *final(k), sv, r),
{
    let fd1 = k.fake_fd_next;
    let fd2 = fd1.wrapping_add(1);
    k.fake_fd_next = fd2.wrapping_add(1);
    k.fake_fds.insert(fd1, FakeFdType::InetSocket);
    k.fake_fds.insert(fd2, FakeFdType::InetSocket);
    let mut v: Vec<u8> = Vec::new();
    push_le(&mut v, fd1 as u64, 4);
    push_le(&mut v, fd2 as u64, 4);
    let ghost k1 = *k;
    if k.copy_out(sv, v.as_slice()) {
        proof {
            assert(k1.upt() == old(k).upt());
        }
        Ok(0)
    } else {
        Err(KernelPanic)
    }
}

/// What `sys_listen` returns on the kernel `k`.
pub open spec fn listen_call(k: Kernel, fd: usize, r: Outcome) -> bool {
    &&& (r == if k.inet(fd) { Outcome::Net(NetRequest::Listen { fd }) } else if k.fake(fd) { Outcome::Ret(0isize) } else { Outcome::Ret(-1isize) })
}

/// `listen`: on an internet socket the network stack starts listening and
/// the call returns 0; other socket, epoll and eventfd descriptors get 0,
/// anything else -1.
pub fn sys_listen(k: &Kernel, fd: usize) -> (r: Outcome)
    ensures
        listen_call(*k, fd, r),
{
    if is_inet_socket(k, fd) {
        return Outcome::Net(NetRequest::Listen { fd });
    }
    if is_fake_fd(k, fd) { Outcome::Ret(0) } else { Outcome::Ret(-1) }
}

/// What `sys_pipe2` returns and leaves in the kernel, from the kernel `k0` it is called on to the kernel `k1` it leaves.
pub open spec fn pipe2_call(k0: Kernel, k1: Kernel, pipefd: usize, r: Result<isize, KernelPanic>) -> bool {
    &&& (r is Ok ==> r->Ok_0 == 0)
    &&& (k0.next_pipe_id == usize::MAX ==> r is Err && k1 == k0)
    &&& (k0.next_pipe_id < usize::MAX ==> ({
                let id = k0.next_pipe_id;
                let rf = OpenFile { inode: 0, offset: 0, readable: true, writable: false, pipe_id: Some(id) };
                let wf = OpenFile { inode: 0, offset: 0, readable: false, writable: true, pipe_id: Some(id) };
                let t0 = k0.fds@;
                let rfd = crate::fdtable::first_free(t0);
                let t1 = if rfd < t0.len() { t0.update(rfd, Some(rf)) } else { t0.push(Some(rf)) };
                let wfd = crate::fdtable::first_free(t1);
                let t2 = if wfd < t1.len() { t1.update(wfd, Some(wf)) } else { t1.push(Some(wf)) };
                &&& k1.next_pipe_id == id + 1
                &&& k1.pipes@.dom() == k0.pipes@.dom().insert(id)
                &&& k1.pipes@[id].contents().len() == 0
                &&& forall|j: usize| j != id && #[trigger] k0.pipes@.contains_key(j) ==> k1.pipes@[j] == k0.pipes@[j]
                &&& k1.fds@ == t2
                &&& k1.fs == k0.fs && k1.procs == k0.procs && k1.fake_fds == k0.fake_fds
                &&& (r is Ok <==> k0.mapped(pipefd as int, 8))
                &&& r is Ok ==> k0.wrote(k1.mem, pipefd as int, le(rfd as u64, 4) + le(wfd as u64, 4))
            }))
}

/// Law: the id the next pipe takes is that of no pipe and of no pipe a
/// descriptor names.
pub proof fn law_next_pipe_id_unused(k: Kernel)
    requires
        k.wf(),
    ensures
        !k.pipes@.contains_key(k.next_pipe_id),
        forall|i: int| 0 <= i < k.fds@.len() && #[trigger] k.fds@[i] is Some ==> k.fds@[i]->0.pipe_id != Some(k.next_pipe_id),
{
}

/// `pipe2`: a new pipe, with id the next pipe id, and two descriptors, its
/// read end and its write end, each the lowest free one; both are written
/// at `pipefd` as 32-bit numbers. `Err` where the kernel stops: when the
/// pipe ids are used up.
#[verifier::rlimit(40)]
pub fn sys_pipe2(k: &mut Kernel, pipefd: usize) -> (r: Result<isize, KernelPanic>)
    requires
        old(k).wf(),
    ensures
        final(k).wf(),
        pipe2_call(*old(k), *final(k), pipefd, r),
{
    let id = k.next_pipe_id;
    if id == usize::MAX {
        return Err(KernelPanic);
    }
    let ghost k0 = *k;
    k.next_pipe_id = id + 1;
    k.pipes.insert(id, PipeInner::new());
    let rfd = k.fds.alloc_fd(OpenFile { inode: 0, offset: 0, readable: true, writable: false, pipe_id: Some(id) });
    let ghost t1 = k.fds@;
    let wfd = k.fds.alloc_fd(OpenFile { inode: 0, offset: 0, readable: false, writable: true, pipe_id: Some(id) });
    proof {
        assert forall|i: int| 0 <= i < t1.len() && #[trigger] t1[i] is Some && t1[i]->0.pipe_id is Some
            implies t1[i]->0.pipe_id->0 < id + 1 by {
            if i < k0.fds@.len() && i != rfd {
                assert(k0.fds@[i] == t1[i]);
            }
        }
        assert forall|i: int| 0 <= i < k.fds@.len() && #[trigger] k.fds@[i] is Some && k.fds@[i]->0.pipe_id is Some
            implies k.fds@[i]->0.pipe_id->0 < k.next_pipe_id by {
            if i < t1.len() && i != wfd {
                assert(t1[i] == k.fds@[i]);
            }
        }
        assert forall|j: usize| #[trigger] k.pipes@.contains_key(j) implies j < k.next_pipe_id by {
            if j != id {
                assert(k0.pipes@.contains_key(j));
            }
        }
    }
    let mut v: Vec<u8> = Vec::new();
    push_le(&mut v, rfd as u64, 4);
    push_le(&mut v, wfd as u64, 4);
    let ghost k1 = *k;
    proof {
        assert(k1.upt() == old(k).upt());
    }
    if k.copy_out(pipefd, v.as_slice()) {
        Ok(0)
    } else {
        Err(KernelPanic)
    }
}

} // verus!

verus! {

/// A continuation byte of UTF-8: `10xxxxxx`.
pub open spec fn utf8_cont(x: u8) -> bool {
    0x80 <= x <= 0xbf
}

/// The length of the well-formed UTF-8 sequence that `b` starts with, 0
/// when it starts with none (the table of well-formed byte sequences of
/// RFC 3629: no overlong forms, no surrogates, nothing above U+10FFFF).
pub open spec fn utf8_lead_len(b: Seq<u8>) -> nat {
    let n = b.len();
    if n == 0 {
        0
    } else if b[0] <= 0x7f {
        1
    } else if 0xc2 <= b[0] <= 0xdf && n >= 2 && utf8_cont(b[1]) {
        2
    } else if b[0] == 0xe0 && n >= 3 && 0xa0 <= b[1] <= 0xbf && utf8_cont(b[2]) {
        3
    } else if (0xe1 <= b[0] <= 0xec || 0xee <= b[0] <= 0xef) && n >= 3 && utf8_cont(b[1]) && utf8_cont(b[2]) {
        3
    } else if b[0] == 0xed && n >= 3 && 0x80 <= b[1] <= 0x9f && utf8_cont(b[2]) {
        3
    } else if b[0] == 0xf0 && n >= 4 && 0x90 <= b[1] <= 0xbf && utf8_cont(b[2]) && utf8_cont(b[3]) {
        4
    } else if 0xf1 <= b[0] <= 0xf3 && n >= 4 && utf8_cont(b[1]) && utf8_cont(b[2]) && utf8_cont(b[3]) {
        4
    } else if b[0] == 0xf4 && n >= 4 && 0x80 <= b[1] <= 0x8f && utf8_cont(b[2]) && utf8_cont(b[3]) {
        4
    } else {
        0
    }
}

/// Whether `b` is valid UTF-8: a run of well-formed sequences.
pub open spec fn utf8_valid(b: Seq<u8>) -> bool
    decreases b.len(),
{
    if b.len() == 0 {
        true
    } else {
        let n = utf8_lead_len(b);
        n > 0 && n <= b.len() && utf8_valid(b.skip(n as int))
    }
}

/// Whether `core::str::from_utf8` accepts `b`. Its documentation says it
/// accepts exactly the valid UTF-8 byte strings; the contract claims that,
/// with validity as `utf8_valid` states it.
#[verifier::external_body]
fn is_utf8(b: &[u8]) -> (r: bool)
    ensures
        r == utf8_valid(b@),
{
    core::str::from_utf8(b).is_ok()
}

/// `<invalid utf8>`.
pub open spec fn invalid_utf8_text() -> Seq<u8> {
    seq![0x3cu8, 0x69, 0x6e, 0x76, 0x61, 0x6c, 0x69, 0x64, 0x20, 0x75, 0x74, 0x66, 0x38, 0x3e]
}

/// What the console shows for bytes written to it: the bytes when they
/// are UTF-8, else `<invalid utf8>`.
pub open spec fn console_text(b: Seq<u8>) -> Seq<u8> {
    if utf8_valid(b) { b } else { invalid_utf8_text() }
}

/// The size of the file that inode `ino` names, 0 when none.
pub open spec fn inode_size(k: Kernel, ino: usize) -> nat {
    match k.fs.inode_file(ino as int) { Some(f) => f.bytes().len(), None => 0 }
}

/// Reads into user memory at `buf` from the file behind descriptor `fd`:
/// as many bytes as are left past its offset and fit in `count`, moving
/// the offset past them.
fn read_file(k: &mut Kernel, fd: usize, of: OpenFile, buf: usize, count: usize) -> (r: Result<isize, KernelPanic>)
    requires
        old(k).wf(),
        old(k).fds.get_spec(fd as int) == Some(of),
        of.pipe_id is None,
    ensures
        final(k).wf(),
        ({
            let f = old(k).fs.inode_file(of.inode as int);
            let data = f->0.bytes();
            let n = if f is Some { vstd::math::min(data.len() - of.offset, count as int) } else { 0 };
            &&& f is Some && of.offset > data.len() ==> r is Err
            &&& !(f is Some && of.offset > data.len()) ==> {
                &&& (r is Ok <==> n == 0 || old(k).mapped(buf as int, n))
                &&& r is Ok ==> {
                    &&& r->Ok_0 == n as isize
                    &&& final(k).fds@ == old(k).fds@.update(fd as int, Some(OpenFile { offset: (of.offset + n) as usize, ..of }))
                    &&& n == 0 ==> final(k).mem == old(k).mem
                    &&& n > 0 ==> old(k).wrote(final(k).mem, buf as int, data.subrange(of.offset as int, of.offset + n))
                    &&& final(k).fs == old(k).fs && final(k).procs == old(k).procs && final(k).pipes == old(k).pipes
                    &&& final(k).fake_fds == old(k).fake_fds && final(k).net == old(k).net && final(k).console == old(k).console
                }
            }
        }),
{
    let size = file_size(&k.fs, of.inode);
    if k.fs.inode_get(of.inode).is_some() && of.offset > size {
        return Err(KernelPanic);
    }
    let mut tmp: Vec<u8> = Vec::new();
    let mut i: usize = 0;
    while i < count
        invariant
            i <= count,
            tmp@.len() == i,
        decreases count - i,
    {
        tmp.push(0);
        i = i + 1;
    }
    let ghost t0 = tmp@;
    let n = read_inode(&k.fs, of.inode, tmp.as_mut_slice(), of.offset);
    let ghost k0 = *k;
    proof {
        let f = old(k).fs.inode_file(of.inode as int);
        if f is Some {
            let data = f->0.bytes();
            assert(n == vstd::math::min(data.len() - of.offset, count as int));
            assert(tmp@.take(n as int) =~= data.subrange(of.offset as int, of.offset + n));
        } else {
            assert(n == 0);
        }
    }
    if n > 0 {
        let mut out: Vec<u8> = Vec::new();
        let mut j: usize = 0;
        while j < n
            invariant
                j <= n <= tmp@.len(),
                out@ == tmp@.take(j as int),
            decreases n - j,
        {
            out.push(tmp[j]);
            proof {
                assert(out@ =~= tmp@.take(j as int + 1));
            }
            j = j + 1;
        }
        if !k.copy_out(buf, out.as_slice()) {
            return Err(KernelPanic);
        }
    }
    proof {
        assert(of.offset + n <= usize::MAX);
    }
    match k.fds.get(fd) {
        Some(f) => {
            f.offset = of.offset + n;
        },
        None => {},
    }
    Ok(n as isize)
}

} // verus!

verus! {

/// Reads into user memory at `buf` from pipe `pid`: as many of its unread
/// bytes as fit in `count`; 0 when there is no such pipe.
fn read_pipe(k: &mut Kernel, pid: usize, buf: usize, count: usize) -> (r: Result<isize, KernelPanic>)
    requires
        old(k).wf(),
    ensures
        final(k).wf(),
        !old(k).pipes@.contains_key(pid) ==> r == Ok::<isize, KernelPanic>(0isize) && *final(k) == *old(k),
        old(k).pipes@.contains_key(pid) ==> ({
            let p = old(k).pipes@[pid];
            let n = vstd::math::min(count as int, p.contents().len() as int);
            &&& (r is Ok <==> n == 0 || old(k).mapped(buf as int, n))
            &&& r is Ok ==> {
                &&& r->Ok_0 == n as isize
                &&& final(k).pipes@.dom() == old(k).pipes@.dom()
                &&& final(k).pipes@[pid].contents() == p.contents().skip(n)
                &&& forall|j: usize| j != pid && #[trigger] old(k).pipes@.contains_key(j) ==> final(k).pipes@[j] == old(k).pipes@[j]
                &&& n == 0 ==> final(k).mem == old(k).mem
                &&& n > 0 ==> old(k).wrote(final(k).mem, buf as int, p.contents().take(n))
                &&& final(k).fds == old(k).fds && final(k).fs == old(k).fs && final(k).procs == old(k).procs
                &&& final(k).fake_fds == old(k).fake_fds && final(k).net == old(k).net && final(k).console == old(k).console
            }
        }),
{
    if !k.pipes.contains_key(&pid) {
        return Ok(0);
    }
    let mut p = match k.pipes.remove(&pid) {
        Some(p) => p,
        None => return Ok(0),
    };
    let mut tmp: Vec<u8> = Vec::new();
    let mut i: usize = 0;
    while i < count
        invariant
            i <= count,
            tmp@.len() == i,
        decreases count - i,
    {
        tmp.push(0);
        i = i + 1;
    }
    let n = p.read(tmp.as_mut_slice());
    k.pipes.insert(pid, p);
    proof {
        assert(k.pipes@.dom() =~= old(k).pipes@.dom());
        assert(k.upt() == old(k).upt());
    }
    if n > 0 {
        let mut out: Vec<u8> = Vec::new();
        let mut j: usize = 0;
        while j < n
            invariant
                j <= n <= tmp@.len(),
                out@ == tmp@.take(j as int),
            decreases n - j,
        {
            out.push(tmp[j]);
            proof {
                assert(out@ =~= tmp@.take(j as int + 1));
            }
            j = j + 1;
        }
        proof {
            assert(out@ =~= old(k).pipes@[pid].contents().take(n as int));
        }
        if !k.copy_out(buf, out.as_slice()) {
            return Err(KernelPanic);
        }
    }
    Ok(n as isize)
}

/// Reads into user memory at `buf` from the name-service connection `fd`:
/// as much of its reply as is left and fits in `count`.
fn read_nscd(k: &mut Kernel, fd: usize, buf: usize, count: usize) -> (r: Result<isize, KernelPanic>)
    requires
        old(k).wf(),
        old(k).fake_fds@.contains_key(fd),
        old(k).fake_fds@[fd] is Nscd,
    ensures
        final(k).wf(),
        ({
            let st = old(k).fake_fds@[fd]->Nscd_0;
            let left = if st.offset <= st.data@.len() { st.data@.len() - st.offset } else { 0 };
            let n = vstd::math::min(left, count as int);
            &&& (r is Ok <==> n == 0 || old(k).mapped(buf as int, n))
            &&& r is Ok ==> {
                &&& r->Ok_0 == n as isize
                &&& final(k).fake_fds@.dom() == old(k).fake_fds@.dom()
                &&& (final(k).fake_fds@[fd] matches FakeFdType::Nscd(s2)
                    && s2.data == st.data && s2.phase == st.phase && s2.offset == st.offset + n)
                &&& forall|f: usize| f != fd && #[trigger] old(k).fake_fds@.contains_key(f) ==> final(k).fake_fds@[f] == old(k).fake_fds@[f]
                &&& n == 0 ==> final(k).mem == old(k).mem
                &&& n > 0 ==> old(k).wrote(final(k).mem, buf as int, st.data@.subrange(st.offset as int, st.offset + n))
                &&& final(k).fds == old(k).fds && final(k).fs == old(k).fs && final(k).procs == old(k).procs
                &&& final(k).pipes == old(k).pipes && final(k).net == old(k).net && final(k).console == old(k).console
            }
        }),
{
    let mut st = match k.fake_fds.remove(&fd) {
        Some(FakeFdType::Nscd(st)) => st,
        _ => {
            assert(false);
            return Err(KernelPanic);
        },
    };
    let left = st.data.len().saturating_sub(st.offset);
    let n = if left < count { left } else { count };
    assert(st.data@.len() == st.data.len());
    if n > 0 {
        let mut out: Vec<u8> = Vec::new();
        let mut j: usize = 0;
        while j < n
            invariant
                j <= n,
                st.offset + n <= st.data@.len(),
                st.data@.len() == st.data.len(),
                out@ == st.data@.subrange(st.offset as int, st.offset + j),
            decreases n - j,
        {
            out.push(st.data[st.offset + j]);
            proof {
                assert(out@ =~= st.data@.subrange(st.offset as int, st.offset + j + 1));
            }
            j = j + 1;
        }
        let ghost k1 = *k;
        proof {
            assert(k1.upt() == old(k).upt());
        }
        if !k.copy_out(buf, out.as_slice()) {
            return Err(KernelPanic);
        }
        st.offset = st.offset + n;
    }
    k.fake_fds.insert(fd, FakeFdType::Nscd(st));
    proof {
        assert(k.fake_fds@.dom() =~= old(k).fake_fds@.dom());
    }
    Ok(n as isize)
}

/// The name-service connection `fd` of `k0` moved `n` bytes on in `k1`, its
/// reply and phase as they were, every other descriptor from 100 on as it
/// was.
pub open spec fn nscd_advanced(k0: Kernel, k1: Kernel, fd: usize, n: int) -> bool {
    let st = k0.fake_fds@[fd]->Nscd_0;
    &&& k1.fake_fds@.dom() == k0.fake_fds@.dom()
    &&& (k1.fake_fds@[fd] matches FakeFdType::Nscd(s2) && s2.data == st.data && s2.phase == st.phase && s2.offset == st.offset + n)
    &&& forall|f: usize| f != fd && #[trigger] k0.fake_fds@.contains_key(f) ==> k1.fake_fds@[f] == k0.fake_fds@[f]
}

/// Only pipe `pid` may differ between `k0` and `k1`; the same pipes exist.
pub open spec fn pipe_taken(k0: Kernel, k1: Kernel, pid: usize) -> bool {
    &&& k1.pipes@.dom() == k0.pipes@.dom()
    &&& forall|j: usize| j != pid && #[trigger] k0.pipes@.contains_key(j) ==> k1.pipes@[j] == k0.pipes@[j]
}

/// What `sys_read` returns and leaves in the kernel, from the kernel `k0` it is called on to the kernel `k1` it leaves.
pub open spec fn read_call(k0: Kernel, k1: Kernel, fd: usize, buf: usize, count: usize, r: Result<Outcome, KernelPanic>) -> bool {
    &&& (r is Ok ==> k1.fs == k0.fs && k1.procs == k0.procs && k1.net == k0.net && k1.console == k0.console)
    &&& (reads_console(k0, fd, count) ==> k1 == k0 && r == Ok::<Outcome, KernelPanic>(Outcome::Stdin { buf, len: count }))
    &&& (k0.fake_fds@.contains_key(fd) && k0.fake_fds@[fd] is Nscd ==> ({
                let st = k0.fake_fds@[fd]->Nscd_0;
                let left = if st.offset <= st.data@.len() { st.data@.len() - st.offset } else { 0 };
                let n = vstd::math::min(left, count as int);
                &&& (r is Ok <==> n == 0 || k0.mapped(buf as int, n))
                &&& r is Ok ==> r->Ok_0 == Outcome::Ret(n as isize)
                &&& r is Ok && n > 0 ==> k0.wrote(k1.mem, buf as int, st.data@.subrange(st.offset as int, st.offset + n))
                &&& r is Ok ==> nscd_advanced(k0, k1, fd, n)
                &&& r is Ok && n == 0 ==> k1.mem == k0.mem
                &&& r is Ok ==> k1.fds == k0.fds && k1.pipes == k0.pipes
            }))
    &&& (k0.inet(fd) ==> k1 == k0 && r == Ok::<Outcome, KernelPanic>(
                if k0.net.handles@.contains_key(fd) {
                    Outcome::Net(NetRequest::Recv { handle: k0.net.handles@[fd], buf, len: count })
                } else {
                    Outcome::Ret(-1isize)
                }))
    &&& (!reads_console(k0, fd, count) && (!k0.fake_fds@.contains_key(fd) || k0.fake_fds@[fd] is Epoll
                || k0.fake_fds@[fd] is EventFd) ==> ({
                match k0.fds.get_spec(fd as int) {
                    None => r == Ok::<Outcome, KernelPanic>(Outcome::Ret(-1isize)) && k1 == k0,
                    Some(of) => match of.pipe_id {
                        Some(pid) => {
                            let n = if k0.pipes@.contains_key(pid) {
                                vstd::math::min(count as int, k0.pipes@[pid].contents().len() as int)
                            } else {
                                0
                            };
                            &&& (r is Ok <==> n == 0 || k0.mapped(buf as int, n))
                            &&& r is Ok ==> r->Ok_0 == Outcome::Ret(n as isize)
                            &&& r is Ok && n > 0 ==> k0.wrote(k1.mem, buf as int, k0.pipes@[pid].contents().take(n))
                            &&& r is Ok && k0.pipes@.contains_key(pid) ==> k1.pipes@[pid].contents() == k0.pipes@[pid].contents().skip(n)
                            &&& !k0.pipes@.contains_key(pid) ==> r == Ok::<Outcome, KernelPanic>(Outcome::Ret(0isize)) && k1 == k0
                            &&& r is Ok ==> pipe_taken(k0, k1, pid)
                            &&& r is Ok && n == 0 ==> k1.mem == k0.mem
                            &&& r is Ok ==> k1.fds == k0.fds && k1.fake_fds == k0.fake_fds
                        },
                        None => {
                            let f = k0.fs.inode_file(of.inode as int);
                            let data = f->0.bytes();
                            let n = if f is Some { vstd::math::min(data.len() - of.offset, count as int) } else { 0 };
                            &&& f is Some && of.offset > data.len() ==> r is Err
                            &&& !(f is Some && of.offset > data.len()) ==> {
                                &&& (r is Ok <==> n == 0 || k0.mapped(buf as int, n))
                                &&& r is Ok ==> r->Ok_0 == Outcome::Ret(n as isize)
                                    && k1.fds@ == k0.fds@.update(fd as int, Some(OpenFile { offset: (of.offset + n) as usize, ..of }))
                                &&& r is Ok && n > 0 ==> k0.wrote(k1.mem, buf as int, data.subrange(of.offset as int, of.offset + n))
                                &&& r is Ok && n == 0 ==> k1.mem == k0.mem
                                &&& r is Ok ==> k1.pipes == k0.pipes && k1.fake_fds == k0.fake_fds
                            }
                        },
                    },
                }
            }))
}

/// Whether a read of `count` bytes from `fd` reads the console: `fd` is 0,
/// no socket, epoll or eventfd descriptor, still the console's entry
/// (inode 0, no pipe), and `count` is not 0.
pub open spec fn reads_console(k: Kernel, fd: usize, count: usize) -> bool {
    &&& fd == 0
    &&& count > 0
    &&& !k.fake_fds@.contains_key(fd)
    &&& k.fds.get_spec(0) matches Some(of)
    &&& of.inode == 0 && of.pipe_id is None
}

/// `read`: from standard input (descriptor 0 as the console left it), what
/// is typed on the console; from a name-service connection, its reply;
/// from an internet socket, what the network stack receives; from a pipe,
/// its unread bytes; from a file, the bytes past the descriptor's offset,
/// which moves past them. -1 when `fd` is none of these.
pub fn sys_read(k: &mut Kernel, fd: usize, buf: usize, count: usize) -> (r: Result<Outcome, KernelPanic>)
    requires
        old(k).wf(),
    ensures
        final(k).wf(),
        read_call(*old(k), *final(k), fd, buf, count, r),
{
    let is_nscd = match k.fake_fds.get(&fd) {
        Some(FakeFdType::Nscd(_)) => true,
        _ => false,
    };
    if is_nscd {
        return match read_nscd(k, fd, buf, count) {
            Ok(n) => Ok(Outcome::Ret(n)),
            Err(e) => Err(e),
        };
    }
    if is_inet_socket(k, fd) {
        return match k.net.handles.get(&fd) {
            Some(h) => Ok(Outcome::Net(NetRequest::Recv { handle: *h, buf, len: count })),
            None => Ok(Outcome::Ret(-1)),
        };
    }
    if fd == 0 && count > 0 && !is_fake_fd(k, 0) {
        match k.fds.lookup(0) {
            Some(of) => {
                if of.inode == 0 && of.pipe_id.is_none() {
                    return Ok(Outcome::Stdin { buf, len: count });
                }
            },
            None => {},
        }
    }
    match k.fds.lookup(fd) {
        Some(of) => match of.pipe_id {
            Some(pid) => match read_pipe(k, pid, buf, count) {
                Ok(n) => Ok(Outcome::Ret(n)),
                Err(e) => Err(e),
            },
            None => match read_file(k, fd, of, buf, count) {
                Ok(n) => Ok(Outcome::Ret(n)),
                Err(e) => Err(e),
            },
        },
        None => Ok(Outcome::Ret(-1)),
    }
}

/// Finishes a read of standard input with the bytes `typed` on the
/// console: they are written at `buf` and their number returned.
pub fn finish_stdin(k: &mut Kernel, buf: usize, typed: &[u8]) -> (r: Result<isize, KernelPanic>)
    requires
        old(k).wf(),
        typed@.len() <= isize::MAX,
    ensures
        final(k).wf(),
        final(k).same_but_mem(*old(k)),
        r is Ok <==> typed@.len() == 0 || old(k).mapped(buf as int, typed@.len() as int),
        r is Ok ==> r->Ok_0 == typed@.len() as isize,
        r is Ok && typed@.len() > 0 ==> old(k).wrote(final(k).mem, buf as int, typed@),
        typed@.len() == 0 ==> *final(k) == *old(k),
{
    if typed.len() == 0 {
        return Ok(0);
    }
    if k.copy_out(buf, typed) {
        Ok(typed.len() as isize)
    } else {
        Err(KernelPanic)
    }
}

/// What `sys_recvfrom` returns and leaves in the kernel, from the kernel `k0` it is called on to the kernel `k1` it leaves.
pub open spec fn recvfrom_call(k0: Kernel, k1: Kernel, fd: usize, buf: usize, len: usize, r: Result<Outcome, KernelPanic>) -> bool {
    &&& (k0.inet(fd) ==> k1 == k0 && r == Ok::<Outcome, KernelPanic>(
                if k0.net.handles@.contains_key(fd) {
                    Outcome::Net(NetRequest::Recv { handle: k0.net.handles@[fd], buf, len })
                } else {
                    Outcome::Ret(-1isize)
                }))
    &&& (!k0.fake_fds@.contains_key(fd) && k0.fds.get_spec(fd as int) is None
                ==> r == Ok::<Outcome, KernelPanic>(Outcome::Ret(-1isize)) && k1 == k0)
    &&& read_call(k0, k1, fd, buf, len, r)
}

/// `recvfrom`: as `read`.
pub fn sys_recvfrom(k: &mut Kernel, fd: usize, buf: usize, len: usize) -> (r: Result<Outcome, KernelPanic>)
    requires
        old(k).wf(),
    ensures
        final(k).wf(),
        recvfrom_call(*old(k), *final(k), fd, buf, len, r),
{
    sys_read(k, fd, buf, len)
}

} // verus!

verus! {

/// Copies a slice into a new vector.
fn to_vec(b: &[u8]) -> (v: Vec<u8>)
    ensures
        v@ == b@,
{
    let mut v: Vec<u8> = Vec::new();
    let mut i: usize = 0;
    while i < b.len()
        invariant
            i <= b@.len(),
            v@ == b@.take(i as int),
        decreases b@.len() - i,
    {
        v.push(b[i]);
        proof {
            assert(v@ =~= b@.take(i as int + 1));
        }
        i = i + 1;
    }
    proof {
        assert(b@.take(b@.len() as int) =~= b@);
    }
    v
}

/// What writing `data` to descriptor `fd` returns and leaves in the kernel,
/// from the kernel `k0` it is done on to the kernel `k1` it leaves.
pub open spec fn write_data_call(k0: Kernel, k1: Kernel, fd: usize, data: Seq<u8>, r: Result<Outcome, KernelPanic>) -> bool {
    &&& (k1.mem == k0.mem && k1.procs == k0.procs && k1.fake_fds == k0.fake_fds)
    &&& (k1.net == k0.net && k1.next_pipe_id == k0.next_pipe_id)
    &&& (k1.fake_fd_next == k0.fake_fd_next && k1.trap_frame == k0.trap_frame)
    &&& (k1.mmap_base == k0.mmap_base)
    &&& (fd == 1 || fd == 2 ==> {
        &&& r == Ok::<Outcome, KernelPanic>(Outcome::Ret(data.len() as isize))
        &&& k1.console@ == k0.console@ + console_text(data)
        &&& k1.fs == k0.fs && k1.fds == k0.fds && k1.pipes == k0.pipes
    })
    &&& (fd != 1 && fd != 2 ==> k1.console == k0.console)
    &&& (fd != 1 && fd != 2 && k0.inet(fd) ==> {
        &&& k1 == k0
        &&& k0.net.handles@.contains_key(fd) ==> (r matches Ok(Outcome::Net(NetRequest::Send { handle, data: d }))
            && handle == k0.net.handles@[fd] && d@ == data)
        &&& !k0.net.handles@.contains_key(fd) ==> r == Ok::<Outcome, KernelPanic>(Outcome::Ret(-1isize))
    })
    &&& (fd != 1 && fd != 2 && !k0.inet(fd) ==> match k0.fds.get_spec(fd as int) {
        None => r == Ok::<Outcome, KernelPanic>(Outcome::Ret(-1isize)) && k1 == k0,
        Some(of) => match of.pipe_id {
            Some(pid) => {
                &&& k1.fs == k0.fs && k1.fds == k0.fds
                &&& !k0.pipes@.contains_key(pid) ==> r == Ok::<Outcome, KernelPanic>(Outcome::Ret(0isize)) && k1.pipes == k0.pipes
                &&& k0.pipes@.contains_key(pid) ==> {
                    let p = k0.pipes@[pid];
                    let n = if p.read_end_closed() { 0 } else { vstd::math::min(data.len() as int, crate::pipe::PIPE_BUF - 1 - p.contents().len()) };
                    &&& r == Ok::<Outcome, KernelPanic>(Outcome::Ret(n as isize))
                    &&& k1.pipes@.dom() == k0.pipes@.dom()
                    &&& k1.pipes@[pid].contents() == p.contents() + data.take(n)
                    &&& forall|j: usize| j != pid && #[trigger] k0.pipes@.contains_key(j) ==> k1.pipes@[j] == k0.pipes@[j]
                }
            },
            None => {
                &&& k1.pipes == k0.pipes
                &&& of.offset + data.len() > usize::MAX ==> r is Err
                &&& of.offset + data.len() <= usize::MAX ==> {
                    let n: usize = match k0.fs.inode_file(of.inode as int) {
                        Some(f) => if f.is_static() { 0 } else { data.len() as usize },
                        None => 0,
                    };
                    &&& r == Ok::<Outcome, KernelPanic>(Outcome::Ret(n as isize))
                    &&& k1.fds@ == k0.fds@.update(fd as int, Some(OpenFile { offset: (of.offset + n) as usize, ..of }))
                    &&& k1.fs.inodes() == k0.fs.inodes()
                    &&& (match k0.fs.inode_file(of.inode as int) {
                        Some(f) => f.is_static(),
                        None => true,
                    }) ==> k1.fs == k0.fs
                    &&& (k0.fs.inode_file(of.inode as int) matches Some(f) && !f.is_static()) ==> {
                        let p = k0.fs.inode_path(of.inode as int)->0;
                        &&& k1.fs.file(p).bytes() == written_bytes(k0.fs.file(p).bytes(), data, of.offset as int)
                        &&& forall|q: Seq<u8>| #[trigger] k1.fs.has(q) == k0.fs.has(q)
                        &&& forall|q: Seq<u8>| q != p && k0.fs.has(q) ==> #[trigger] k1.fs.file(q) == k0.fs.file(q)
                    }
                }
            },
        },
    })
}

/// Writes `data` to descriptor `fd`: to the console for 1 and 2, to the
/// network stack for an internet socket, into a pipe, or into a file at
/// the descriptor's offset, which moves past it.
pub fn write_data(k: &mut Kernel, fd: usize, data: &[u8]) -> (r: Result<Outcome, KernelPanic>)
    requires
        old(k).wf(),
    ensures
        final(k).wf(),
        write_data_call(*old(k), *final(k), fd, data@, r),
{
    if fd == 1 || fd == 2 {
        if is_utf8(data) {
            k.console.extend_from_slice(data);
        } else {
            let msg = vec![0x3cu8, 0x69, 0x6e, 0x76, 0x61, 0x6c, 0x69, 0x64, 0x20, 0x75, 0x74, 0x66, 0x38, 0x3e];
            k.console.extend_from_slice(msg.as_slice());
        }
        assert(k.console@ =~= old(k).console@ + console_text(data@));
        return Ok(Outcome::Ret(data.len() as isize));
    }
    if is_inet_socket(k, fd) {
        return match k.net.handles.get(&fd) {
            Some(h) => Ok(Outcome::Net(NetRequest::Send { handle: *h, data: to_vec(data) })),
            None => Ok(Outcome::Ret(-1)),
        };
    }
    let of = match k.fds.lookup(fd) {
        Some(of) => of,
        None => return Ok(Outcome::Ret(-1)),
    };
    match of.pipe_id {
        Some(pid) => {
            if !k.pipes.contains_key(&pid) {
                return Ok(Outcome::Ret(0));
            }
            let mut p = match k.pipes.remove(&pid) {
                Some(p) => p,
                None => return Ok(Outcome::Ret(0)),
            };
            let n = p.write(data);
            k.pipes.insert(pid, p);
            proof {
                assert(k.pipes@.dom() =~= old(k).pipes@.dom());
            }
            Ok(Outcome::Ret(n as isize))
        },
        None => {
            if of.offset > usize::MAX - data.len() {
                return Err(KernelPanic);
            }
            let n = write_inode(&mut k.fs, of.inode, data, of.offset);
            match k.fds.get(fd) {
                Some(f) => {
                    f.offset = of.offset + n;
                },
                None => {},
            }
            Ok(Outcome::Ret(n as isize))
        },
    }
}

/// Whether a write to `fd` takes its bytes: it does for the console, for
/// an internet socket with a socket behind it, for a pipe that exists and
/// for a file.
pub open spec fn write_takes_data(k: Kernel, fd: usize) -> bool {
    if fd == 1 || fd == 2 {
        true
    } else if k.inet(fd) {
        k.net.handles@.contains_key(fd)
    } else {
        match k.fds.get_spec(fd as int) {
            None => false,
            Some(of) => match of.pipe_id {
                Some(pid) => k.pipes@.contains_key(pid),
                None => true,
            },
        }
    }
}

fn takes_data(k: &Kernel, fd: usize) -> (r: bool)
    ensures
        r == write_takes_data(*k, fd),
{
    if fd == 1 || fd == 2 {
        return true;
    }
    if is_inet_socket(k, fd) {
        return k.net.handles.contains_key(&fd);
    }
    match k.fds.lookup(fd) {
        None => false,
        Some(of) => match of.pipe_id {
            Some(pid) => k.pipes.contains_key(&pid),
            None => true,
        },
    }
}

/// What `sys_write` returns and leaves in the kernel, from the kernel `k0` it is called on to the kernel `k1` it leaves.
pub open spec fn write_call(k0: Kernel, k1: Kernel, fd: usize, buf: usize, count: usize, r: Result<Outcome, KernelPanic>) -> bool {
    &&& (k1.mem == k0.mem && k1.procs == k0.procs && k1.net == k0.net)
    &&& (write_takes_data(k0, fd) && !k0.mapped(buf as int, count as int) ==> r is Err && k1 == k0)
    &&& (write_takes_data(k0, fd) && k0.mapped(buf as int, count as int) ==> write_data_call(k0, k1, fd,
                k0.ubytes(buf as int, count as nat), r))
    &&& (!write_takes_data(k0, fd) ==> write_data_call(k0, k1, fd, Seq::empty(), r))
    &&& (!write_takes_data(k0, fd) ==> k1 == k0 && r == Ok::<Outcome, KernelPanic>(Outcome::Ret(
                if k0.inet(fd) || k0.fds.get_spec(fd as int) is None { -1isize } else { 0isize })))
    &&& ((fd == 1 || fd == 2) && k0.mapped(buf as int, count as int) ==> {
                &&& r == Ok::<Outcome, KernelPanic>(Outcome::Ret(count as isize))
                &&& k1.console@ == k0.console@ + console_text(k0.ubytes(buf as int, count as nat))
            })
    &&& (fd != 1 && fd != 2 && k0.inet(fd) && write_takes_data(k0, fd) && k0.mapped(buf as int, count as int) ==> {
                &&& k1 == k0
                &&& r matches Ok(Outcome::Net(NetRequest::Send { handle, data: d }))
                &&& handle == k0.net.handles@[fd]
                &&& d@ == k0.ubytes(buf as int, count as nat)
            })
}

/// `write`: writes the `count` user bytes at `buf` to `fd`, as
/// `write_data` does; the bytes are read only when the descriptor takes
/// them.
pub fn sys_write(k: &mut Kernel, fd: usize, buf: usize, count: usize) -> (r: Result<Outcome, KernelPanic>)
    requires
        old(k).wf(),
    ensures
        final(k).wf(),
        write_call(*old(k), *final(k), fd, buf, count, r),
{
    if !takes_data(k, fd) {
        let empty: Vec<u8> = Vec::new();
        return write_data(k, fd, empty.as_slice());
    }
    let data = match k.copy_in(buf, count) {
        Some(d) => d,
        None => return Err(KernelPanic),
    };
    write_data(k, fd, data.as_slice())
}

/// How `writev` goes on after one chunk of `len` bytes took `n`: it stops
/// with the error when nothing was written yet, with the total after an
/// error or a short write, and goes on otherwise.
#[derive(PartialEq, Eq, Structural, Debug)]
pub enum WritevStep {
    Continue(isize),
    Done(isize),
}

/// The step `writev` takes after a chunk of `len` bytes took `n`, `total`
/// bytes having been written before.
pub open spec fn writev_next(total: isize, n: isize, len: int) -> WritevStep {
    if n < 0 {
        if total == 0 { WritevStep::Done(n) } else { WritevStep::Done(total) }
    } else if (n as int) < len {
        WritevStep::Done(total.wrapping_add(n))
    } else {
        WritevStep::Continue(total.wrapping_add(n))
    }
}

pub fn writev_step(total: isize, n: isize, len: usize) -> (r: WritevStep)
    ensures
        r == writev_next(total, n, len as int),
{
    if n < 0 {
        if total == 0 {
            return WritevStep::Done(n);
        }
        return WritevStep::Done(total);
    }
    let t = total.wrapping_add(n);
    if (n as usize) < len {
        WritevStep::Done(t)
    } else {
        WritevStep::Continue(t)
    }
}

/// The 64-bit little-endian number in the first eight bytes of `b`.
pub open spec fn u64_le(b: Seq<u8>) -> u64 {
    (b[0] as u64) | ((b[1] as u64) << 8u64) | ((b[2] as u64) << 16u64) | ((b[3] as u64) << 24u64)
        | ((b[4] as u64) << 32u64) | ((b[5] as u64) << 40u64) | ((b[6] as u64) << 48u64) | ((b[7] as u64) << 56u64)
}

fn u64_at(b: &[u8], at: usize) -> (x: u64)
    requires
        at + 8 <= b@.len(),
    ensures
        x == u64_le(b@.subrange(at as int, at + 8)),
{
    (b[at] as u64) | ((b[at + 1] as u64) << 8) | ((b[at + 2] as u64) << 16) | ((b[at + 3] as u64) << 24)
        | ((b[at + 4] as u64) << 32) | ((b[at + 5] as u64) << 40) | ((b[at + 6] as u64) << 48) | ((b[at + 7] as u64) << 56)
}

/// What `writev` does with the records at `iov` from record `i` on, from
/// kernel `k0` (kernel `k1`, outcome `r`), `total` bytes having been
/// written before: a record (a base and a length of eight bytes each) that
/// cannot be read faults; an empty one is passed over; the chunk another
/// names is written to `fd` as `write` writes it; the writes stop at an
/// error or a short write as `writev_next` says; the outcome is the total.
pub open spec fn writev_from(k0: Kernel, k1: Kernel, fd: usize, iov: int, i: nat, cnt: nat, total: isize,
    r: Result<Outcome, KernelPanic>) -> bool
    decreases cnt - i,
{
    if i >= cnt {
        k1 == k0 && r == Ok::<Outcome, KernelPanic>(Outcome::Ret(total))
    } else if !(iov + 16 * i + 16 <= usize::MAX && k0.mapped(iov + 16 * i, 16)) {
        k1 == k0 && r is Err
    } else {
        let rec = k0.ubytes(iov + 16 * i, 16);
        let base = u64_le(rec.subrange(0, 8));
        let len = u64_le(rec.subrange(8, 16));
        if len == 0 {
            writev_from(k0, k1, fd, iov, i + 1, cnt, total, r)
        } else if !(base <= usize::MAX && len <= usize::MAX) {
            k1 == k0 && r is Err
        } else {
            exists|km: Kernel, rm: Result<Outcome, KernelPanic>|
                #[trigger] write_call(k0, km, fd, base as usize, len as usize, rm) && match rm {
                    Ok(Outcome::Ret(n)) => match writev_next(total, n, len as int) {
                        WritevStep::Continue(t) => writev_from(km, k1, fd, iov, i + 1, cnt, t, r),
                        WritevStep::Done(v) => k1 == km && r == Ok::<Outcome, KernelPanic>(Outcome::Ret(v)),
                    },
                    Ok(_) => k1 == km && r is Err,
                    Err(e) => k1 == km && r == Err::<Outcome, KernelPanic>(e),
                }
        }
    }
}

/// An empty record is passed over.
proof fn lemma_writev_skip(k0: Kernel, k1: Kernel, fd: usize, iov: int, i: nat, cnt: nat, total: isize,
    r: Result<Outcome, KernelPanic>)
    requires
        i < cnt,
        iov + 16 * i + 16 <= usize::MAX,
        k0.mapped(iov + 16 * i, 16),
        u64_le(k0.ubytes(iov + 16 * i, 16).subrange(8, 16)) == 0,
        writev_from(k0, k1, fd, iov, i + 1, cnt, total, r),
    ensures
        writev_from(k0, k1, fd, iov, i, cnt, total, r),
{
}

/// Writing the chunk of record `i`, then going on as `writev_from` says,
/// is what `writev_from` says of the records from `i` on.
proof fn lemma_writev_step(k0: Kernel, km: Kernel, k1: Kernel, fd: usize, iov: int, i: nat, cnt: nat, total: isize,
    base: u64, len: u64, rm: Result<Outcome, KernelPanic>, r: Result<Outcome, KernelPanic>)
    requires
        i < cnt,
        iov + 16 * i + 16 <= usize::MAX,
        k0.mapped(iov + 16 * i, 16),
        base == u64_le(k0.ubytes(iov + 16 * i, 16).subrange(0, 8)),
        len == u64_le(k0.ubytes(iov + 16 * i, 16).subrange(8, 16)),
        len != 0,
        base <= usize::MAX,
        len <= usize::MAX,
        write_call(k0, km, fd, base as usize, len as usize, rm),
        match rm {
            Ok(Outcome::Ret(n)) => match writev_next(total, n, len as int) {
                WritevStep::Continue(t) => writev_from(km, k1, fd, iov, i + 1, cnt, t, r),
                WritevStep::Done(v) => k1 == km && r == Ok::<Outcome, KernelPanic>(Outcome::Ret(v)),
            },
            Ok(_) => k1 == km && r is Err,
            Err(e) => k1 == km && r == Err::<Outcome, KernelPanic>(e),
        },
    ensures
        writev_from(k0, k1, fd, iov, i, cnt, total, r),
{
}

/// What `sys_writev` returns and leaves in the kernel, from the kernel `k0` it is called on to the kernel `k1` it leaves.
pub open spec fn writev_call(k0: Kernel, k1: Kernel, fd: usize, iov: usize, iovcnt: usize, r: Result<Outcome, KernelPanic>) -> bool {
    &&& (k1.procs == k0.procs && k1.net == k0.net)
    &&& (iovcnt == 0 ==> r == Ok::<Outcome, KernelPanic>(Outcome::Ret(0isize)) && k1 == k0)
    &&& (fd != 1 && fd != 2 && k0.inet(fd) && k0.net.handles@.contains_key(fd) ==> ({
                let cs = iov_chunks(k0, iov as int, 0, iovcnt as nat);
                &&& k1 == k0
                &&& (r is Ok <==> cs is Some)
                &&& r is Ok && cs->0.len() == 0 ==> r->Ok_0 == Outcome::Ret(0isize)
                &&& r is Ok && cs->0.len() > 0 ==> (r->Ok_0 matches Outcome::Net(NetRequest::Writev { handle, chunks })
                    && handle == k0.net.handles@[fd] && strs_view(chunks@) == cs->0)
            }))
    &&& (!(fd != 1 && fd != 2 && k0.inet(fd) && k0.net.handles@.contains_key(fd))
            ==> writev_from(k0, k1, fd, iov as int, 0, iovcnt as nat, 0isize, r))
}

/// `writev`: writes the chunks that the `iovcnt` records at `iov` (base
/// and length, 16 bytes each) name, in order, as `write` does, stopping at
/// an error or a short write; returns the bytes written, or the error when
/// the first chunk fails. To an internet socket the chunks go to the
/// network stack, which sends them the same way.
#[verifier::spinoff_prover]
#[verifier::rlimit(100)]
pub fn sys_writev(k: &mut Kernel, fd: usize, iov: usize, iovcnt: usize) -> (r: Result<Outcome, KernelPanic>)
    requires
        old(k).wf(),
    ensures
        final(k).wf(),
        writev_call(*old(k), *final(k), fd, iov, iovcnt, r),
{
    let sock = if fd != 1 && fd != 2 && is_inet_socket(k, fd) {
        match k.net.handles.get(&fd) {
            Some(h) => Some(*h),
            None => None,
        }
    } else {
        None
    };
    if let Some(h) = sock {
        let chunks = gather_chunks(k, iov, iovcnt)?;
        if chunks.len() == 0 {
            return Ok(Outcome::Ret(0));
        }
        return Ok(Outcome::Net(NetRequest::Writev { handle: h, chunks }));
    }
    let mut total: isize = 0;
    let mut i: usize = 0;
    while i < iovcnt
        invariant
            i <= iovcnt,
            k.wf(),
            k.procs == old(k).procs && k.net == old(k).net,
            i == 0 ==> *k == *old(k) && total == 0,
            !(fd != 1 && fd != 2 && old(k).inet(fd) && old(k).net.handles@.contains_key(fd)),
            forall|k1: Kernel, r: Result<Outcome, KernelPanic>|
                #[trigger] writev_from(*k, k1, fd, iov as int, i as nat, iovcnt as nat, total, r)
                ==> writev_from(*old(k), k1, fd, iov as int, 0, iovcnt as nat, 0isize, r),
        decreases iovcnt - i,
    {
        let ghost ki = *k;
        let ghost ti = total;
        let ghost i0 = i;
        let at = match (i as u128).checked_mul(16) {
            Some(x) => x,
            None => return Err(KernelPanic),
        };
        if at > (usize::MAX as u128) || iov > usize::MAX - (at as usize) {
            proof {
                assert(writev_from(ki, ki, fd, iov as int, i as nat, iovcnt as nat, ti, Err::<Outcome, KernelPanic>(KernelPanic)));
            }
            return Err(KernelPanic);
        }
        let rec = match k.copy_in(iov + (at as usize), 16) {
            Some(b) => b,
            None => {
                proof {
                    assert(writev_from(ki, ki, fd, iov as int, i as nat, iovcnt as nat, ti, Err::<Outcome, KernelPanic>(KernelPanic)));
                }
                return Err(KernelPanic);
            },
        };
        let base = u64_at(rec.as_slice(), 0);
        let len = u64_at(rec.as_slice(), 8);
        proof {
            assert(rec@.subrange(0, 8) =~= ki.ubytes(iov + 16 * i, 16).subrange(0, 8));
            assert(rec@.subrange(8, 16) =~= ki.ubytes(iov + 16 * i, 16).subrange(8, 16));
        }
        i = i + 1;
        if len == 0 {
            proof {
                assert forall|k1: Kernel, r: Result<Outcome, KernelPanic>|
                    #[trigger] writev_from(*k, k1, fd, iov as int, i as nat, iovcnt as nat, total, r)
                    implies writev_from(*old(k), k1, fd, iov as int, 0, iovcnt as nat, 0isize, r) by {
                    lemma_writev_skip(ki, k1, fd, iov as int, i0 as nat, iovcnt as nat, ti, r);
                }
            }
            continue;
        }
        if base > (usize::MAX as u64) || len > (usize::MAX as u64) {
            proof {
                assert(writev_from(ki, ki, fd, iov as int, i0 as nat, iovcnt as nat, ti, Err::<Outcome, KernelPanic>(KernelPanic)));
            }
            return Err(KernelPanic);
        }
        let wr = sys_write(k, fd, base as usize, len as usize);
        let ghost km = *k;
        let n = match wr {
            Ok(Outcome::Ret(n)) => n,
            Ok(_) => {
                proof {
                    lemma_writev_step(ki, km, km, fd, iov as int, i0 as nat, iovcnt as nat, ti, base, len, wr,
                        Err::<Outcome, KernelPanic>(KernelPanic));
                }
                return Err(KernelPanic);
            },
            Err(e) => {
                proof {
                    lemma_writev_step(ki, km, km, fd, iov as int, i0 as nat, iovcnt as nat, ti, base, len, wr,
                        Err::<Outcome, KernelPanic>(e));
                }
                return Err(e);
            },
        };
        match writev_step(total, n, len as usize) {
            WritevStep::Continue(t) => {
                total = t;
                proof {
                    assert forall|k1: Kernel, r: Result<Outcome, KernelPanic>|
                        #[trigger] writev_from(*k, k1, fd, iov as int, i as nat, iovcnt as nat, total, r)
                        implies writev_from(*old(k), k1, fd, iov as int, 0, iovcnt as nat, 0isize, r) by {
                        lemma_writev_step(ki, km, k1, fd, iov as int, i0 as nat, iovcnt as nat, ti, base, len, wr, r);
                    }
                }
            },
            WritevStep::Done(v) => {
                proof {
                    lemma_writev_step(ki, km, km, fd, iov as int, i0 as nat, iovcnt as nat, ti, base, len, wr,
                        Ok::<Outcome, KernelPanic>(Outcome::Ret(v)));
                }
                return Ok(Outcome::Ret(v));
            },
        }
    }
    proof {
        assert(writev_from(*k, *k, fd, iov as int, i as nat, iovcnt as nat, total, Ok::<Outcome, KernelPanic>(Outcome::Ret(total))));
    }
    Ok(Outcome::Ret(total))
}

} // verus!

verus! {

/// The chunks that the `cnt` records at `iov` name, from record `i` on,
/// leaving out the empty ones; each record is a base and a length of eight
/// bytes each. `None` when a record or a chunk cannot be read.
pub open spec fn iov_chunks(k: Kernel, iov: int, i: nat, cnt: nat) -> Option<Seq<Seq<u8>>>
    decreases cnt - i,
{
    if i >= cnt {
        Some(Seq::empty())
    } else if !(iov + 16 * i <= usize::MAX && k.mapped(iov + 16 * i, 16)) {
        None
    } else {
        let rec = k.ubytes(iov + 16 * i, 16);
        let base = u64_le(rec.subrange(0, 8));
        let len = u64_le(rec.subrange(8, 16));
        if len == 0 {
            iov_chunks(k, iov, i + 1, cnt)
        } else if !(base <= usize::MAX && len <= usize::MAX && k.mapped(base as int, len as int)) {
            None
        } else {
            match iov_chunks(k, iov, i + 1, cnt) {
                Some(rest) => Some(seq![k.ubytes(base as int, len as nat)] + rest),
                None => None,
            }
        }
    }
}

/// `prefix` followed by the chunks of `rest`, if there are any.
pub open spec fn chunks_after(prefix: Seq<Seq<u8>>, rest: Option<Seq<Seq<u8>>>) -> Option<Seq<Seq<u8>>> {
    match rest {
        Some(r) => Some(prefix + r),
        None => None,
    }
}

/// Reads the non-empty chunks that the `iovcnt` records at `iov` name.
#[verifier::spinoff_prover]
#[verifier::rlimit(60)]
fn gather_chunks(k: &Kernel, iov: usize, iovcnt: usize) -> (r: Result<Vec<Vec<u8>>, KernelPanic>)
    requires
        k.wf(),
    ensures
        r is Ok <==> iov_chunks(*k, iov as int, 0, iovcnt as nat) is Some,
        r is Ok ==> strs_view(r->Ok_0@) == iov_chunks(*k, iov as int, 0, iovcnt as nat)->0,
{
    let mut chunks: Vec<Vec<u8>> = Vec::new();
    let mut i: usize = 0;
    proof {
        assert(strs_view(chunks@) =~= Seq::<Seq<u8>>::empty());
        assert(Seq::<Seq<u8>>::empty() + iov_chunks(*k, iov as int, 0, iovcnt as nat)->0
            =~= iov_chunks(*k, iov as int, 0, iovcnt as nat)->0);
    }
    while i < iovcnt
        invariant
            i <= iovcnt,
            k.wf(),
            iov_chunks(*k, iov as int, 0, iovcnt as nat)
                == chunks_after(strs_view(chunks@), iov_chunks(*k, iov as int, i as nat, iovcnt as nat)),
        decreases iovcnt - i,
    {
        let at = match (i as u128).checked_mul(16) {
            Some(x) => x,
            None => return Err(KernelPanic),
        };
        if at > (usize::MAX as u128) || iov > usize::MAX - (at as usize) {
            return Err(KernelPanic);
        }
        let rec = match k.copy_in(iov + (at as usize), 16) {
            Some(b) => b,
            None => return Err(KernelPanic),
        };
        proof {
            assert(rec@.subrange(0, 8) == k.ubytes(iov + 16 * i, 16).subrange(0, 8));
        }
        let base = u64_at(rec.as_slice(), 0);
        let len = u64_at(rec.as_slice(), 8);
        i = i + 1;
        if len == 0 {
            continue;
        }
        if base > (usize::MAX as u64) || len > (usize::MAX as u64) {
            return Err(KernelPanic);
        }
        let data = match k.copy_in(base as usize, len as usize) {
            Some(d) => d,
            None => return Err(KernelPanic),
        };
        let ghost before = strs_view(chunks@);
        chunks.push(data);
        proof {
            assert(strs_view(chunks@) =~= before.push(data@));
            match iov_chunks(*k, iov as int, i as nat, iovcnt as nat) {
                Some(rest) => {
                    assert(before + (seq![data@] + rest) =~= before.push(data@) + rest);
                },
                None => {},
            }
        }
    }
    proof {
        assert(strs_view(chunks@) + Seq::<Seq<u8>>::empty() =~= strs_view(chunks@));
    }
    Ok(chunks)
}

/// The user bytes at `[va, va + len)` as a vector, or a fault.
fn fetch(k: &Kernel, va: usize, len: usize) -> (r: Result<Vec<u8>, KernelPanic>)
    requires
        k.wf(),
    ensures
        r is Ok <==> k.mapped(va as int, len as int),
        r is Ok ==> r->Ok_0@ == k.ubytes(va as int, len as nat),
{
    match k.copy_in(va, len) {
        Some(v) => Ok(v),
        None => Err(KernelPanic),
    }
}

/// What `sys_pread64` returns and leaves in the kernel, from the kernel `k0` it is called on to the kernel `k1` it leaves.
pub open spec fn pread64_call(k0: Kernel, k1: Kernel, fd: usize, buf: usize, count: usize, offset: usize, r: Result<isize, KernelPanic>) -> bool {
    &&& (k1.same_but_mem(k0))
    &&& (k0.fds.get_spec(fd as int) is None ==> r == Ok::<isize, KernelPanic>(-1isize) && k1 == k0)
    &&& (k0.fds.get_spec(fd as int) matches Some(of) ==> ({
                let f = k0.fs.inode_file(of.inode as int);
                let data = f->0.bytes();
                let n = if f is Some { vstd::math::min(data.len() - offset, count as int) } else { 0 };
                &&& f is Some && offset > data.len() ==> r is Err
                &&& !(f is Some && offset > data.len()) ==> {
                    &&& (r is Ok <==> n == 0 || k0.mapped(buf as int, n))
                    &&& r is Ok ==> r->Ok_0 == n as isize
                    &&& r is Ok && n == 0 ==> k1.mem == k0.mem
                    &&& r is Ok && n > 0 ==> k0.wrote(k1.mem, buf as int, data.subrange(offset as int, offset + n))
                }
            }))
}

/// `pread64`: reads from the file behind `fd` at `offset` without moving
/// the descriptor's offset; -1 when `fd` is not open.
pub fn sys_pread64(k: &mut Kernel, fd: usize, buf: usize, count: usize, offset: usize) -> (r: Result<isize, KernelPanic>)
    requires
        old(k).wf(),
    ensures
        final(k).wf(),
        pread64_call(*old(k), *final(k), fd, buf, count, offset, r),
{
    let of = match k.fds.lookup(fd) {
        Some(of) => of,
        None => return Ok(-1),
    };
    let size = file_size(&k.fs, of.inode);
    if k.fs.inode_get(of.inode).is_some() && offset > size {
        return Err(KernelPanic);
    }
    let mut tmp: Vec<u8> = Vec::new();
    let mut i: usize = 0;
    while i < count
        invariant
            i <= count,
            tmp@.len() == i,
        decreases count - i,
    {
        tmp.push(0);
        i = i + 1;
    }
    let n = read_inode(&k.fs, of.inode, tmp.as_mut_slice(), offset);
    proof {
        let f = old(k).fs.inode_file(of.inode as int);
        if f is Some {
            assert(tmp@.take(n as int) =~= f->0.bytes().subrange(offset as int, offset + n));
        }
    }
    if n > 0 {
        let mut out: Vec<u8> = Vec::new();
        let mut j: usize = 0;
        while j < n
            invariant
                j <= n <= tmp@.len(),
                out@ == tmp@.take(j as int),
            decreases n - j,
        {
            out.push(tmp[j]);
            proof {
                assert(out@ =~= tmp@.take(j as int + 1));
            }
            j = j + 1;
        }
        if !k.copy_out(buf, out.as_slice()) {
            return Err(KernelPanic);
        }
    }
    Ok(n as isize)
}

/// What `sys_pwrite64` returns and leaves in the kernel, from the kernel `k0` it is called on to the kernel `k1` it leaves.
pub open spec fn pwrite64_call(k0: Kernel, k1: Kernel, fd: usize, buf: usize, count: usize, offset: usize, r: Result<isize, KernelPanic>) -> bool {
    &&& (k1.mem == k0.mem && k1.fds == k0.fds && k1.procs == k0.procs)
    &&& (k1.pipes == k0.pipes && k1.fake_fds == k0.fake_fds && k1.net == k0.net)
    &&& (k0.fds.get_spec(fd as int) is None ==> r == Ok::<isize, KernelPanic>(-1isize) && k1 == k0)
    &&& (k0.fds.get_spec(fd as int) matches Some(of) ==> {
                &&& !k0.mapped(buf as int, count as int) || offset + count > usize::MAX ==> r is Err
                &&& k0.mapped(buf as int, count as int) && offset + count <= usize::MAX ==> {
                    let data = k0.ubytes(buf as int, count as nat);
                    &&& k1.fs.inodes() == k0.fs.inodes()
                    &&& match k0.fs.inode_file(of.inode as int) {
                        Some(f) => if f.is_static() {
                            r == Ok::<isize, KernelPanic>(0isize) && k1.fs == k0.fs
                        } else {
                            let p = k0.fs.inode_path(of.inode as int)->0;
                            &&& r == Ok::<isize, KernelPanic>(count as isize)
                            &&& k1.fs.file(p).bytes() == written_bytes(f.bytes(), data, offset as int)
                            &&& forall|q: Seq<u8>| q != p && k0.fs.has(q) ==> #[trigger] k1.fs.file(q) == k0.fs.file(q)
                        },
                        None => r == Ok::<isize, KernelPanic>(0isize) && k1.fs == k0.fs,
                    }
                }
            })
}

/// `pwrite64`: writes the `count` user bytes at `buf` into the file behind
/// `fd` at `offset`, without moving the descriptor's offset; -1 when `fd`
/// is not open.
pub fn sys_pwrite64(k: &mut Kernel, fd: usize, buf: usize, count: usize, offset: usize) -> (r: Result<isize, KernelPanic>)
    requires
        old(k).wf(),
    ensures
        final(k).wf(),
        pwrite64_call(*old(k), *final(k), fd, buf, count, offset, r),
{
    let of = match k.fds.lookup(fd) {
        Some(of) => of,
        None => return Ok(-1),
    };
    let data = fetch(k, buf, count)?;
    if offset > usize::MAX - count {
        return Err(KernelPanic);
    }
    let n = write_inode(&mut k.fs, of.inode, data.as_slice(), offset);
    Ok(n as isize)
}

/// What `sys_getdents64` returns and leaves in the kernel, from the kernel `k0` it is called on to the kernel `k1` it leaves.
pub open spec fn getdents64_call(k0: Kernel, k1: Kernel, fd: usize, buf: usize, count: usize, r: Result<isize, KernelPanic>) -> bool {
    &&& (k1.fs == k0.fs && k1.procs == k0.procs && k1.pipes == k0.pipes)
    &&& (k1.fake_fds == k0.fake_fds && k1.net == k0.net && k1.console == k0.console)
    &&& (k0.fds.get_spec(fd as int) is None ==> r == Ok::<isize, KernelPanic>(-1isize) && k1 == k0)
    &&& (k0.fds.get_spec(fd as int) matches Some(of) ==> ({
                let fs = k0.fs;
                let entries = fs.dir_entries(fs.inode_path(of.inode as int)->0, of.inode as u64);
                let listed = fs.inode_path(of.inode as int) is Some && fs.has(fs.inode_path(of.inode as int)->0)
                    && fs.file(fs.inode_path(of.inode as int)->0).bytes().len() == 0 && of.offset < entries.len();
                let enc = encode_entries(entries, of.offset as int, count as int);
                let n = if listed { enc.0.len() } else { 0 };
                &&& (r is Ok <==> n == 0 || k0.mapped(buf as int, n as int))
                &&& r is Ok ==> r->Ok_0 == n as isize
                &&& r is Ok && n == 0 ==> k1 == k0
                &&& r is Ok && n > 0 ==> {
                    &&& k0.wrote(k1.mem, buf as int, enc.0)
                    &&& k1.fds@ == k0.fds@.update(fd as int, Some(OpenFile { offset: (of.offset + enc.1) as usize, ..of }))
                }
            }))
}

/// `getdents64`: lists the directory open at `fd` into `buf`, from the
/// entry at the descriptor's offset on, as many records as fit in `count`
/// bytes, and moves the offset past them; -1 when `fd` is not open.
pub fn sys_getdents64(k: &mut Kernel, fd: usize, buf: usize, count: usize) -> (r: Result<isize, KernelPanic>)
    requires
        old(k).wf(),
    ensures
        final(k).wf(),
        getdents64_call(*old(k), *final(k), fd, buf, count, r),
{
    let of = match k.fds.lookup(fd) {
        Some(of) => of,
        None => return Ok(-1),
    };
    let mut tmp: Vec<u8> = Vec::new();
    let mut i: usize = 0;
    while i < count
        invariant
            i <= count,
            tmp@.len() == i,
        decreases count - i,
    {
        tmp.push(0);
        i = i + 1;
    }
    let (n, next) = read_dir(&k.fs, of.inode, tmp.as_mut_slice(), of.offset);
    if n > 0 {
        let mut out: Vec<u8> = Vec::new();
        let mut j: usize = 0;
        while j < n
            invariant
                j <= n <= tmp@.len(),
                out@ == tmp@.take(j as int),
            decreases n - j,
        {
            out.push(tmp[j]);
            proof {
                assert(out@ =~= tmp@.take(j as int + 1));
            }
            j = j + 1;
        }
        proof {
            let fs = old(k).fs;
            let entries = fs.dir_entries(fs.inode_path(of.inode as int)->0, of.inode as u64);
            let enc = encode_entries(entries, of.offset as int, count as int);
            assert(out@ =~= enc.0);
        }
        if !k.copy_out(buf, out.as_slice()) {
            return Err(KernelPanic);
        }
        match k.fds.get(fd) {
            Some(f) => {
                f.offset = next;
            },
            None => {},
        }
    }
    Ok(n as isize)
}

} // verus!

verus! {

/// What reading a descriptor into the kernel gives: bytes, a return value
/// with no bytes, or a receive for the network stack on a socket.
pub enum ReadData {
    Bytes(Vec<u8>),
    Status(isize),
    Recv(usize),
}

/// What reading at most `count` bytes from `fd` into the kernel gives and
/// leaves, from kernel `k0` to kernel `k1`, as `read_call` says of reading
/// into user memory: the bytes of a name-service reply, a pipe or a file;
/// a receive for an internet socket; -1 for a descriptor that is not open.
pub open spec fn read_data_call(k0: Kernel, k1: Kernel, fd: usize, count: usize, r: Result<ReadData, KernelPanic>) -> bool {
    &&& (k1.mem == k0.mem && k1.procs == k0.procs && k1.net == k0.net)
    &&& (k1.fs == k0.fs && k1.console == k0.console)
    &&& (k0.fake_fds@.contains_key(fd) && k0.fake_fds@[fd] is Nscd ==> ({
                let st = k0.fake_fds@[fd]->Nscd_0;
                let left = if st.offset <= st.data@.len() { st.data@.len() - st.offset } else { 0 };
                let n = vstd::math::min(left, count as int);
                &&& (r matches Ok(ReadData::Bytes(b)) && b@.len() == n
                    && (st.offset <= st.data@.len() ==> b@ == st.data@.subrange(st.offset as int, st.offset + n)))
                &&& nscd_advanced(k0, k1, fd, n)
                &&& k1.fds == k0.fds && k1.pipes == k0.pipes
            }))
    &&& (k0.inet(fd) ==> k1 == k0 && r == Ok::<ReadData, KernelPanic>(
                if k0.net.handles@.contains_key(fd) { ReadData::Recv(k0.net.handles@[fd]) } else { ReadData::Status(-1isize) }))
    &&& (!k0.fake_fds@.contains_key(fd) || k0.fake_fds@[fd] is Epoll || k0.fake_fds@[fd] is EventFd ==> ({
                match k0.fds.get_spec(fd as int) {
                    None => r == Ok::<ReadData, KernelPanic>(ReadData::Status(-1isize)) && k1 == k0,
                    Some(of) => match of.pipe_id {
                        Some(pid) => {
                            &&& !k0.pipes@.contains_key(pid) ==> (r matches Ok(ReadData::Bytes(b)) && b@.len() == 0) && k1 == k0
                            &&& k0.pipes@.contains_key(pid) ==> ({
                                let n = vstd::math::min(count as int, k0.pipes@[pid].contents().len() as int);
                                &&& (r matches Ok(ReadData::Bytes(b)) && b@ == k0.pipes@[pid].contents().take(n))
                                &&& k1.pipes@[pid].contents() == k0.pipes@[pid].contents().skip(n)
                                &&& pipe_taken(k0, k1, pid)
                                &&& k1.fds == k0.fds && k1.fake_fds == k0.fake_fds
                            })
                        },
                        None => {
                            let f = k0.fs.inode_file(of.inode as int);
                            let data = f->0.bytes();
                            let n = if f is Some { vstd::math::min(data.len() - of.offset, count as int) } else { 0 };
                            &&& f is Some && of.offset > data.len() ==> r is Err && k1 == k0
                            &&& !(f is Some && of.offset > data.len()) ==> {
                                &&& (r matches Ok(ReadData::Bytes(b)) && b@.len() == n
                                    && (f is Some ==> b@ == data.subrange(of.offset as int, of.offset + n)))
                                &&& k1.fds@ == k0.fds@.update(fd as int, Some(OpenFile { offset: (of.offset + n) as usize, ..of }))
                                &&& k1.pipes == k0.pipes && k1.fake_fds == k0.fake_fds
                            }
                        },
                    },
                }
            }))
}

/// Reads at most `count` bytes from `fd` into the kernel, as `read` does
/// into user memory.
#[verifier::spinoff_prover]
#[verifier::rlimit(40)]
fn read_data(k: &mut Kernel, fd: usize, count: usize) -> (r: Result<ReadData, KernelPanic>)
    requires
        old(k).wf(),
    ensures
        final(k).wf(),
        r matches Ok(ReadData::Bytes(b)) ==> b@.len() <= count,
        read_data_call(*old(k), *final(k), fd, count, r),
{
    let is_nscd = match k.fake_fds.get(&fd) {
        Some(FakeFdType::Nscd(_)) => true,
        _ => false,
    };
    if is_nscd {
        let mut st = match k.fake_fds.remove(&fd) {
            Some(FakeFdType::Nscd(st)) => st,
            _ => {
                assert(false);
                return Err(KernelPanic);
            },
        };
        let ghost st0 = st;
        let left = st.data.len().saturating_sub(st.offset);
        let n = if left < count { left } else { count };
        let mut out: Vec<u8> = Vec::new();
        assert(st.data@.len() == st.data.len());
        if n > 0 {
            let mut j: usize = 0;
            while j < n
                invariant
                    j <= n <= count,
                    st.offset + n <= st.data@.len(),
                    st.data@.len() == st.data.len(),
                    out@ == st.data@.subrange(st.offset as int, st.offset + j),
                decreases n - j,
            {
                out.push(st.data[st.offset + j]);
                proof {
                    assert(out@ =~= st.data@.subrange(st.offset as int, st.offset + j + 1));
                }
                j = j + 1;
            }
            st.offset = st.offset + n;
        }
        proof {
            if st0.offset <= st0.data@.len() {
                assert(out@ =~= st0.data@.subrange(st0.offset as int, st0.offset + n));
            }
        }
        k.fake_fds.insert(fd, FakeFdType::Nscd(st));
        proof {
            assert(k.fake_fds@.dom() =~= old(k).fake_fds@.dom());
        }
        return Ok(ReadData::Bytes(out));
    }
    if is_inet_socket(k, fd) {
        return match k.net.handles.get(&fd) {
            Some(h) => Ok(ReadData::Recv(*h)),
            None => Ok(ReadData::Status(-1)),
        };
    }
    let of = match k.fds.lookup(fd) {
        Some(of) => of,
        None => return Ok(ReadData::Status(-1)),
    };
    let mut tmp: Vec<u8> = Vec::new();
    let mut i: usize = 0;
    while i < count
        invariant
            i <= count,
            tmp@.len() == i,
        decreases count - i,
    {
        tmp.push(0);
        i = i + 1;
    }
    let n = match of.pipe_id {
        Some(pid) => {
            if !k.pipes.contains_key(&pid) {
                return Ok(ReadData::Bytes(Vec::new()));
            }
            let mut p = match k.pipes.remove(&pid) {
                Some(p) => p,
                None => return Ok(ReadData::Bytes(Vec::new())),
            };
            let n = p.read(tmp.as_mut_slice());
            k.pipes.insert(pid, p);
            proof {
                assert(tmp@.take(n as int) =~= old(k).pipes@[pid].contents().take(n as int));
                assert(k.pipes@.dom() =~= old(k).pipes@.dom());
            }
            n
        },
        None => {
            let size = file_size(&k.fs, of.inode);
            if k.fs.inode_get(of.inode).is_some() && of.offset > size {
                return Err(KernelPanic);
            }
            let n = read_inode(&k.fs, of.inode, tmp.as_mut_slice(), of.offset);
            proof {
                let f = old(k).fs.inode_file(of.inode as int);
                if f is Some {
                    assert(tmp@.take(n as int) =~= f->0.bytes().subrange(of.offset as int, of.offset + n));
                } else {
                    assert(tmp@.take(n as int) =~= Seq::<u8>::empty());
                }
            }
            match k.fds.get(fd) {
                Some(f) => {
                    f.offset = of.offset + n;
                },
                None => {},
            }
            n
        },
    };
    let mut out: Vec<u8> = Vec::new();
    let mut j: usize = 0;
    while j < n
        invariant
            j <= n <= tmp@.len() == count,
            out@ == tmp@.take(j as int),
        decreases n - j,
    {
        out.push(tmp[j]);
        proof {
            assert(out@ =~= tmp@.take(j as int + 1));
        }
        j = j + 1;
    }
    Ok(ReadData::Bytes(out))
}

/// What `sys_sendfile` returns and leaves in the kernel, from the kernel `k0` it is called on to the kernel `k1` it leaves.
pub open spec fn sendfile_call(k0: Kernel, k1: Kernel, out_fd: usize, in_fd: usize, count: usize, r: Result<Outcome, KernelPanic>) -> bool {
    &&& (k1.mem == k0.mem && k1.procs == k0.procs && k1.net == k0.net)
    &&& (k0.inet(in_fd) ==> k1 == k0 && r == Ok::<Outcome, KernelPanic>(if k0.net.handles@.contains_key(in_fd) {
                Outcome::Net(NetRequest::SendfileRecv { handle: k0.net.handles@[in_fd], len: vstd::math::min(count as int, 4096) as usize, out_fd })
            } else {
                Outcome::Ret(-1isize)
            }))
    &&& (!k0.inet(in_fd) ==> exists|km: Kernel, d: Result<ReadData, KernelPanic>|
            #[trigger] read_data_call(k0, km, in_fd, vstd::math::min(count as int, 4096) as usize, d) && match d {
                Ok(ReadData::Bytes(b)) => if b@.len() == 0 {
                    k1 == km && r == Ok::<Outcome, KernelPanic>(Outcome::Ret(0isize))
                } else {
                    write_data_call(km, k1, out_fd, b@, r)
                },
                Ok(ReadData::Status(v)) => k1 == km && r == Ok::<Outcome, KernelPanic>(Outcome::Ret(v)),
                Ok(ReadData::Recv(_)) => k1 == km && r is Ok,
                Err(e) => k1 == km && r == Err::<Outcome, KernelPanic>(e),
            })
}

/// `sendfile`: reads at most `count` (no more than 4096) bytes from
/// `in_fd` and writes them to `out_fd`; returns what the read returned
/// when that is not positive. A socket to read from is left to the network
/// stack.
pub fn sys_sendfile(k: &mut Kernel, out_fd: usize, in_fd: usize, count: usize) -> (r: Result<Outcome, KernelPanic>)
    requires
        old(k).wf(),
    ensures
        final(k).wf(),
        sendfile_call(*old(k), *final(k), out_fd, in_fd, count, r),
{
    let len = if count < 4096 { count } else { 4096 };
    let d = read_data(k, in_fd, len);
    let ghost km = *k;
    let ghost dv = d;
    proof {
        assert(len == vstd::math::min(count as int, 4096) as usize);
        assert(read_data_call(*old(k), km, in_fd, len, dv));
    }
    match d {
        Err(e) => Err(e),
        Ok(ReadData::Bytes(b)) => {
            if b.len() == 0 {
                Ok(Outcome::Ret(0))
            } else {
                write_data(k, out_fd, b.as_slice())
            }
        },
        Ok(ReadData::Status(s)) => Ok(Outcome::Ret(s)),
        Ok(ReadData::Recv(h)) => Ok(Outcome::Net(NetRequest::SendfileRecv { handle: h, len, out_fd })),
    }
}

/// Finishes a `sendfile` from a socket with what the network stack
/// received: a return value of its own, or the bytes, which go to
/// `out_fd` as `write_data` writes them.
pub fn finish_sendfile(k: &mut Kernel, out_fd: usize, got: Result<Vec<u8>, isize>) -> (r: Result<Outcome, KernelPanic>)
    requires
        old(k).wf(),
    ensures
        final(k).wf(),
        got matches Err(s) ==> r == Ok::<Outcome, KernelPanic>(Outcome::Ret(s)) && *final(k) == *old(k),
        got matches Ok(b) && b@.len() == 0 ==> r == Ok::<Outcome, KernelPanic>(Outcome::Ret(0isize)) && *final(k) == *old(k),
        got matches Ok(b) ==> (b@.len() > 0 ==> write_data_call(*old(k), *final(k), out_fd, b@, r)),
        final(k).mem == old(k).mem && final(k).procs == old(k).procs && final(k).net == old(k).net,
{
    match got {
        Err(s) => Ok(Outcome::Ret(s)),
        Ok(b) => {
            if b.len() == 0 {
                Ok(Outcome::Ret(0))
            } else {
                write_data(k, out_fd, b.as_slice())
            }
        },
    }
}

/// The reply the emulated name service gives to every lookup: root, with
/// uid and gid 0, home `/root` and shell `/bin/sh`.
pub open spec fn nscd_reply() -> Seq<u8> {
    le(2, 4) + le(1, 4) + le(5, 4) + le(2, 4) + le(0, 4) + le(0, 4) + le(5, 4) + le(6, 4) + le(8, 4)
        + seq![0x72u8, 0x6f, 0x6f, 0x74, 0] + seq![0x78u8, 0] + seq![0x72u8, 0x6f, 0x6f, 0x74, 0]
        + seq![0x2fu8, 0x72, 0x6f, 0x6f, 0x74, 0] + seq![0x2fu8, 0x62, 0x69, 0x6e, 0x2f, 0x73, 0x68, 0]
}

fn nscd_reply_bytes() -> (v: Vec<u8>)
    ensures
        v@ == nscd_reply(),
{
    let mut v: Vec<u8> = Vec::new();
    push_le(&mut v, 2, 4);
    push_le(&mut v, 1, 4);
    push_le(&mut v, 5, 4);
    push_le(&mut v, 2, 4);
    push_le(&mut v, 0, 4);
    push_le(&mut v, 0, 4);
    push_le(&mut v, 5, 4);
    push_le(&mut v, 6, 4);
    push_le(&mut v, 8, 4);
    let tail = vec![0x72u8, 0x6f, 0x6f, 0x74, 0, 0x78, 0, 0x72, 0x6f, 0x6f, 0x74, 0, 0x2f, 0x72, 0x6f, 0x6f, 0x74, 0,
        0x2f, 0x62, 0x69, 0x6e, 0x2f, 0x73, 0x68, 0];
    v.extend_from_slice(tail.as_slice());
    proof {
        assert(v@ =~= nscd_reply());
    }
    v
}

/// What `sys_sendto` returns and leaves in the kernel, from the kernel `k0` it is called on to the kernel `k1` it leaves.
pub open spec fn sendto_call(k0: Kernel, k1: Kernel, fd: usize, buf: usize, len: usize, r: Result<Outcome, KernelPanic>) -> bool {
    &&& (k1.mem == k0.mem && k1.procs == k0.procs && k1.net == k0.net)
    &&& (k1.fs == k0.fs && k1.fds == k0.fds && k1.pipes == k0.pipes)
    &&& (k0.fake_fds@.contains_key(fd) && k0.fake_fds@[fd] is Nscd ==> {
                &&& (r is Ok <==> k0.mapped(buf as int, len as int))
                &&& r is Ok ==> {
                    &&& r->Ok_0 == Outcome::Ret(len as isize)
                    &&& k1.fake_fds@.dom() == k0.fake_fds@.dom()
                    &&& (k1.fake_fds@[fd] matches FakeFdType::Nscd(s) && s.data@ == nscd_reply() && s.offset == 0 && s.phase is Data)
                    &&& forall|f: usize| f != fd && #[trigger] k0.fake_fds@.contains_key(f) ==> k1.fake_fds@[f] == k0.fake_fds@[f]
                }
            })
    &&& (k0.inet(fd) ==> k1 == k0)
    &&& (k0.inet(fd) && k0.net.handles@.contains_key(fd) && k0.mapped(buf as int, len as int)
                ==> (r matches Ok(Outcome::Net(NetRequest::Send { handle, data: d })) && handle == k0.net.handles@[fd]
                    && d@ == k0.ubytes(buf as int, len as nat)))
    &&& (!k0.fake_fds@.contains_key(fd) ==> r == Ok::<Outcome, KernelPanic>(Outcome::Ret(-1isize)) && k1 == k0)
    &&& (k0.inet(fd) && !k0.net.handles@.contains_key(fd) ==> r == Ok::<Outcome, KernelPanic>(Outcome::Ret(-1isize)))
    &&& (k0.inet(fd) && k0.net.handles@.contains_key(fd) && !k0.mapped(buf as int, len as int) ==> r is Err)
    &&& (k0.fake_fds@.contains_key(fd) && (k0.fake_fds@[fd] is Epoll || k0.fake_fds@[fd] is EventFd)
            ==> r == Ok::<Outcome, KernelPanic>(Outcome::Ret(-1isize)) && k1 == k0)
    &&& (r is Err ==> k1 == k0)
}

/// `sendto`: a request to the name service is answered with the root
/// user's record, to be read next, and its length returned; on an
/// internet socket the bytes go to the network stack; -1 otherwise.
pub fn sys_sendto(k: &mut Kernel, fd: usize, buf: usize, len: usize) -> (r: Result<Outcome, KernelPanic>)
    requires
        old(k).wf(),
    ensures
        final(k).wf(),
        sendto_call(*old(k), *final(k), fd, buf, len, r),
{
    let is_nscd = match k.fake_fds.get(&fd) {
        Some(FakeFdType::Nscd(_)) => true,
        _ => false,
    };
    if is_nscd {
        let _req = fetch(k, buf, len)?;
        let mut st = match k.fake_fds.remove(&fd) {
            Some(FakeFdType::Nscd(st)) => st,
            _ => {
                assert(false);
                return Err(KernelPanic);
            },
        };
        st.data = nscd_reply_bytes();
        st.offset = 0;
        st.phase = NscdPhase::Data;
        k.fake_fds.insert(fd, FakeFdType::Nscd(st));
        proof {
            assert(k.fake_fds@.dom() =~= old(k).fake_fds@.dom());
        }
        return Ok(Outcome::Ret(len as isize));
    }
    if is_inet_socket(k, fd) {
        return match k.net.handles.get(&fd) {
            Some(h) => {
                let data = fetch(k, buf, len)?;
                Ok(Outcome::Net(NetRequest::Send { handle: *h, data }))
            },
            None => Ok(Outcome::Ret(-1)),
        };
    }
    Ok(Outcome::Ret(-1))
}

/// What `sys_recvmsg` returns and leaves in the kernel, from the kernel `k0` it is called on to the kernel `k1` it leaves.
pub open spec fn recvmsg_call(k0: Kernel, k1: Kernel, fd: usize, msg: usize, r: Result<isize, KernelPanic>) -> bool {
    &&& (k1.procs == k0.procs && k1.fds == k0.fds && k1.fs == k0.fs)
    &&& (k1.pipes == k0.pipes && k1.net == k0.net && k1.fake_fd_next == k0.fake_fd_next)
    &&& (!(k0.fake_fds@.contains_key(fd) && k0.fake_fds@[fd] is Nscd) ==> r == Ok::<isize, KernelPanic>(-1isize) && k1 == k0)
    &&& (k0.fake_fds@.contains_key(fd) && k0.fake_fds@[fd] is Nscd ==> ({
                let st = k0.fake_fds@[fd]->Nscd_0;
                let hok = msg + 32 <= usize::MAX && k0.mapped(msg + 16, 16);
                let hdr = k0.ubytes(msg + 16, 16);
                let iov_ptr = u64_le(hdr.subrange(0, 8));
                let iov_len = u64_le(hdr.subrange(8, 16));
                let iv = k0.ubytes(iov_ptr as int, 16);
                let base = u64_le(iv.subrange(0, 8));
                let len = u64_le(iv.subrange(8, 16));
                let n = nscd_take(st, len as int);
                &&& !hok ==> r is Err
                &&& hok && (iov_len == 0 || iov_ptr == 0) ==> r == Ok::<isize, KernelPanic>(-1isize) && k1 == k0
                &&& hok && iov_len > 0 && iov_ptr != 0 && !(iov_ptr + 16 <= usize::MAX && k0.mapped(iov_ptr as int, 16)) ==> r is Err
                &&& hok && iov_len > 0 && iov_ptr != 0 && iov_ptr + 16 <= usize::MAX && k0.mapped(iov_ptr as int, 16) ==> {
                    &&& !(base <= usize::MAX && len <= usize::MAX) ==> r is Err
                    &&& base <= usize::MAX && len <= usize::MAX ==> {
                        &&& (r is Ok <==> (n == 0 || base == 0 || k0.mapped(base as int, n)))
                        &&& r is Ok ==> r->Ok_0 == n as isize
                        &&& r is Ok ==> k1.fake_fds@ == k0.fake_fds@.insert(fd, FakeFdType::Nscd(NscdState {
                            offset: if n > 0 && base != 0 { (st.offset + n) as usize } else { st.offset },
                            ..st
                        }))
                        &&& r is Ok && n > 0 && base != 0 ==> k0.wrote(k1.mem, base as int, st.data@.subrange(st.offset as int, st.offset + n))
                        &&& r is Ok && !(n > 0 && base != 0) ==> k1.mem == k0.mem
                    }
                }
            }))
}

/// `recvmsg`: on a name-service connection, reads its reply into the first
/// buffer of the message at `msg` (at most that buffer's length) and
/// returns how much there was to read; -1 on anything else or a message
/// without buffers.
#[verifier::spinoff_prover]
#[verifier::rlimit(80)]
pub fn sys_recvmsg(k: &mut Kernel, fd: usize, msg: usize) -> (r: Result<isize, KernelPanic>)
    requires
        old(k).wf(),
    ensures
        final(k).wf(),
        recvmsg_call(*old(k), *final(k), fd, msg, r),
{
    let is_nscd = match k.fake_fds.get(&fd) {
        Some(FakeFdType::Nscd(_)) => true,
        _ => false,
    };
    if !is_nscd {
        return Ok(-1);
    }
    if msg > usize::MAX - 32 {
        return Err(KernelPanic);
    }
    let hdr = fetch(k, msg + 16, 16)?;
    let iov_ptr = u64_at(hdr.as_slice(), 0);
    let iov_len = u64_at(hdr.as_slice(), 8);
    if iov_len > 0 && iov_ptr != 0 {
        if iov_ptr > (usize::MAX as u64) - 16 {
            return Err(KernelPanic);
        }
        let iov = fetch(k, iov_ptr as usize, 16)?;
        let base = u64_at(iov.as_slice(), 0);
        let len = u64_at(iov.as_slice(), 8);
        if base > (usize::MAX as u64) || len > (usize::MAX as u64) {
            return Err(KernelPanic);
        }
        return nscd_deliver(k, fd, base as usize, len as usize);
    }
    Ok(-1)
}

/// Delivers the next bytes of the name-service reply of `fd` into user
/// memory at `base`, at most `len` of them, unless `base` is null; returns
/// how many there were.
#[verifier::spinoff_prover]
#[verifier::rlimit(60)]
fn nscd_deliver(k: &mut Kernel, fd: usize, base: usize, len: usize) -> (r: Result<isize, KernelPanic>)
    requires
        old(k).wf(),
        old(k).fake_fds@.contains_key(fd),
        old(k).fake_fds@[fd] is Nscd,
    ensures
        final(k).wf(),
        final(k).procs == old(k).procs && final(k).fds == old(k).fds && final(k).fs == old(k).fs,
        final(k).pipes == old(k).pipes && final(k).net == old(k).net && final(k).fake_fd_next == old(k).fake_fd_next,
        ({
            let st = old(k).fake_fds@[fd]->Nscd_0;
            let n = nscd_take(st, len as int);
            &&& (r is Ok <==> (n == 0 || base == 0 || old(k).mapped(base as int, n)))
            &&& r is Ok ==> r->Ok_0 == n as isize
            &&& r is Ok ==> final(k).fake_fds@ == old(k).fake_fds@.insert(fd, FakeFdType::Nscd(NscdState {
                offset: if n > 0 && base != 0 { (st.offset + n) as usize } else { st.offset },
                ..st
            }))
            &&& r is Ok && n > 0 && base != 0 ==> old(k).wrote(final(k).mem, base as int, st.data@.subrange(st.offset as int, st.offset + n))
            &&& r is Ok && !(n > 0 && base != 0) ==> final(k).mem == old(k).mem
        }),
{
    let ghost k0 = *k;
    let mut st = match k.fake_fds.remove(&fd) {
        Some(FakeFdType::Nscd(st)) => st,
        _ => {
            assert(false);
            return Err(KernelPanic);
        },
    };
    let left = st.data.len().saturating_sub(st.offset);
    let n = if left < len { left } else { len };
    assert(n == nscd_take(st, len as int));
    assert(st.data@.len() == st.data.len());
    if n > 0 && base != 0 {
        let mut out: Vec<u8> = Vec::new();
        let mut j: usize = 0;
        while j < n
            invariant
                j <= n,
                st.offset + n <= st.data@.len(),
                st.data@.len() == st.data.len(),
                out@ == st.data@.subrange(st.offset as int, st.offset + j),
            decreases n - j,
        {
            out.push(st.data[st.offset + j]);
            j = j + 1;
            assert(out@ =~= st.data@.subrange(st.offset as int, st.offset + j));
        }
        if !k.copy_out(base, out.as_slice()) {
            return Err(KernelPanic);
        }
        st.offset = st.offset + n;
    }
    k.fake_fds.insert(fd, FakeFdType::Nscd(st));
    proof {
        assert(k.fake_fds@ =~= k0.fake_fds@.insert(fd, FakeFdType::Nscd(st)));
    }
    Ok(n as isize)
}

/// How many bytes of its reply a name-service descriptor in state `st`
/// delivers into a buffer of `len` bytes: what is left of the reply, at
/// most `len`.
pub open spec fn nscd_take(st: NscdState, len: int) -> int {
    let left = if st.offset <= st.data@.len() { st.data@.len() - st.offset } else { 0 };
    vstd::math::min(left, len)
}

/// What `sys_epoll_ctl` returns and leaves in the kernel, from the kernel `k0` it is called on to the kernel `k1` it leaves.
pub open spec fn epoll_ctl_call(k0: Kernel, k1: Kernel, fd: usize, event: usize, r: Result<isize, KernelPanic>) -> bool {
    &&& (!(k0.fake(fd) && event != 0) ==> r == Ok::<isize, KernelPanic>(0isize) && k1 == k0)
    &&& (k0.fake(fd) && event != 0 ==> {
                &&& (r is Ok <==> k0.mapped(event as int + 8, 8))
                &&& r is Ok ==> {
                    &&& r->Ok_0 == 0
                    &&& k1.net.epoll_data@ == k0.net.epoll_data@.insert(fd, u64_le(k0.ubytes(event as int + 8, 8)))
                    &&& k1.net.handles@ == k0.net.handles@ && k1.net.listen_fd == k0.net.listen_fd
                    &&& k1.mem == k0.mem && k1.fds == k0.fds && k1.fake_fds == k0.fake_fds
                }
            })
}

/// `epoll_ctl`: records the user data of the event at `event` for `fd`
/// when `fd` is a socket, epoll or eventfd descriptor and `event` is not
/// null; returns 0.
pub fn sys_epoll_ctl(k: &mut Kernel, fd: usize, event: usize) -> (r: Result<isize, KernelPanic>)
    requires
        old(k).wf(),
    ensures
        final(k).wf(),
        epoll_ctl_call(*old(k), *final(k), fd, event, r),
{
    if (is_inet_socket(k, fd) || is_fake_fd(k, fd)) && event != 0 {
        if event > usize::MAX - 8 {
            return Err(KernelPanic);
        }
        let b = fetch(k, event + 8, 8)?;
        let data = u64_at(b.as_slice(), 0);
        proof {
            assert(b@.subrange(0, 8) =~= b@);
        }
        k.net.set_epoll_data(fd, data);
    }
    Ok(0)
}

/// The descriptor of a `pollfd` record: its first four bytes, little-endian.
pub open spec fn poll_fd(b: Seq<u8>) -> i32 {
    ((b[0] as u32) | ((b[1] as u32) << 8u32) | ((b[2] as u32) << 16u32) | ((b[3] as u32) << 24u32)) as i32
}

/// The events a `pollfd` record asks about: its bytes 4 and 5, little-endian.
pub open spec fn poll_events(b: Seq<u8>) -> u16 {
    (b[4] as u16) | ((b[5] as u16) << 8u16)
}

/// The events `ppoll` reports for a record: those of reading and writing
/// (`POLLIN`, `POLLOUT`) it asked about, when its descriptor is a socket,
/// epoll or eventfd descriptor; none otherwise.
pub open spec fn poll_revents(k: Kernel, rec: Seq<u8>) -> u16 {
    if k.fake(poll_fd(rec) as usize) { poll_events(rec) & 5u16 } else { 0u16 }
}

/// What `ppoll` does with the records at `fds` from record `i` on, from
/// kernel `k0` to kernel `k1` with outcome `r`, `ready` descriptors having
/// been found ready before: each record's returned events (bytes 6 and 7)
/// become `poll_revents`, its descriptor counting as ready when it is a
/// socket, epoll or eventfd descriptor; a record that cannot be read
/// faults. The outcome is the number of ready descriptors.
pub open spec fn polled(k0: Kernel, k1: Kernel, fds: int, i: nat, nfds: nat, ready: nat, r: Result<isize, KernelPanic>) -> bool
    decreases nfds - i,
{
    if i >= nfds {
        k1 == k0 && r == Ok::<isize, KernelPanic>(ready as isize)
    } else if !(fds + 8 * i + 8 <= usize::MAX && k0.mapped(fds + 8 * i, 8)) {
        k1 == k0 && r is Err
    } else {
        let rec = k0.ubytes(fds + 8 * i, 8);
        let next = if k0.fake(poll_fd(rec) as usize) { ready + 1 } else { ready };
        exists|km: Kernel|
            #[trigger] k0.wrote(km.mem, fds + 8 * i + 6, le(poll_revents(k0, rec) as u64, 2))
            && km.same_but_mem(k0) && polled(km, k1, fds, i + 1, nfds, next, r)
    }
}

/// What `sys_ppoll` returns and leaves in the kernel, from the kernel `k0` it is called on to the kernel `k1` it leaves.
pub open spec fn ppoll_call(k0: Kernel, k1: Kernel, fds: usize, nfds: usize, r: Result<isize, KernelPanic>) -> bool {
    &&& (k1.same_but_mem(k0))
    &&& (nfds == 0 ==> r == Ok::<isize, KernelPanic>(0isize) && k1 == k0)
    &&& (nfds <= isize::MAX ==> (r matches Ok(n) ==> 0 <= n <= nfds))
    &&& polled(k0, k1, fds as int, 0, nfds as nat, 0, r)
}

/// A range inside a mapped range is mapped.
proof fn lemma_mapped_within(k: Kernel, va: int, len: int, off: int, len2: int)
    requires
        k.mapped(va, len),
        0 <= off,
        off + len2 <= len,
    ensures
        k.mapped(va + off, len2),
{
    assert forall|j: int| 0 <= j < len2 implies #[trigger] crate::uaccess::user_pa(k.upt()->0, k.mem, (va + off) + j) is Some by {
        assert(crate::uaccess::user_pa(k.upt()->0, k.mem, va + (off + j)) is Some);
        assert((va + off) + j == va + (off + j));
    }
}

/// `ppoll`: for each of the `nfds` records at `fds` (descriptor, events,
/// returned events; 8 bytes each), a socket, epoll or eventfd descriptor
/// is ready for the reading and writing it asked about, anything else for
/// nothing; returns the number of ready descriptors.
pub fn sys_ppoll(k: &mut Kernel, fds: usize, nfds: usize) -> (r: Result<isize, KernelPanic>)
    requires
        old(k).wf(),
    ensures
        final(k).wf(),
        ppoll_call(*old(k), *final(k), fds, nfds, r),
{
    let mut ready: usize = 0;
    let mut i: usize = 0;
    while i < nfds
        invariant
            i <= nfds,
            ready <= i,
            k.wf(),
            k.same_but_mem(*old(k)),
            i == 0 ==> *k == *old(k) && ready == 0,
            forall|k1: Kernel, r: Result<isize, KernelPanic>|
                #[trigger] polled(*k, k1, fds as int, i as nat, nfds as nat, ready as nat, r)
                ==> polled(*old(k), k1, fds as int, 0, nfds as nat, 0, r),
        decreases nfds - i,
    {
        let ghost ki = *k;
        let ghost ri = ready;
        let at = match (i as u128).checked_mul(8) {
            Some(x) => x,
            None => return Err(KernelPanic),
        };
        if at > (usize::MAX as u128) || fds > usize::MAX - (at as usize) || fds + (at as usize) > usize::MAX - 8 {
            proof {
                assert(polled(ki, ki, fds as int, i as nat, nfds as nat, ready as nat, Err::<isize, KernelPanic>(KernelPanic)));
            }
            return Err(KernelPanic);
        }
        let p = fds + (at as usize);
        let rec = match fetch(k, p, 8) {
            Ok(b) => b,
            Err(e) => {
                proof {
                    assert(polled(ki, ki, fds as int, i as nat, nfds as nat, ready as nat, Err::<isize, KernelPanic>(e)));
                }
                return Err(e);
            },
        };
        let fd = ((rec[0] as u32) | ((rec[1] as u32) << 8u32) | ((rec[2] as u32) << 16u32) | ((rec[3] as u32) << 24u32)) as i32;
        let events: u16 = (rec[4] as u16) | ((rec[5] as u16) << 8u16);
        let fake = is_fake_fd(k, fd as usize);
        let revents: u16 = if fake { events & 0x5 } else { 0 };
        proof {
            assert(fd == poll_fd(rec@));
            assert(events == poll_events(rec@));
            assert(revents == poll_revents(ki, rec@));
            lemma_mapped_within(ki, p as int, 8, 6, 2);
        }
        let mut out: Vec<u8> = Vec::new();
        push_le(&mut out, revents as u64, 2);
        if !k.copy_out(p + 6, out.as_slice()) {
            return Err(KernelPanic);
        }
        if fake {
            ready = ready + 1;
        }
        i = i + 1;
        proof {
            assert(out@ =~= le(revents as u64, 2));
            assert forall|k1: Kernel, r: Result<isize, KernelPanic>|
                #[trigger] polled(*k, k1, fds as int, i as nat, nfds as nat, ready as nat, r)
                implies polled(*old(k), k1, fds as int, 0, nfds as nat, 0, r) by {
                assert(ki.wrote(k.mem, fds + 8 * (i - 1) + 6, le(poll_revents(ki, rec@) as u64, 2)));
                assert(polled(ki, k1, fds as int, (i - 1) as nat, nfds as nat, ri as nat, r));
            }
        }
    }
    proof {
        assert(polled(*k, *k, fds as int, i as nat, nfds as nat, ready as nat, Ok::<isize, KernelPanic>(ready as isize)));
    }
    Ok(ready as isize)
}

} // verus!

verus! {

/// What `sys_accept` returns and leaves in the kernel, from the kernel `k0` it is called on to the kernel `k1` it leaves.
pub open spec fn accept_call(k0: Kernel, k1: Kernel, fd: usize, addr: usize, addrlen: usize, r: Outcome) -> bool {
    &&& (k0.inet(fd) ==> k1 == k0 && r == match k0.net.accept_target_spec(fd) {
                Some(h) => Outcome::Net(NetRequest::Accept { fd, handle: h, addr, addrlen }),
                None => Outcome::Ret(EAGAIN),
            })
    &&& (!k0.inet(fd) && k0.fake(fd) ==> took_fake(k0, k1, FakeFdType::InetSocket, r->Ret_0) && r is Ret)
    &&& (!k0.fake(fd) ==> r == Outcome::Ret(-1isize) && k1 == k0)
}

/// `accept`: on an internet socket, the listening descriptor's socket is
/// handed to the network stack, and any other internet socket would block
/// (-11); on another socket, epoll or eventfd descriptor a new internet
/// socket descriptor is returned; -1 otherwise.
pub fn sys_accept(k: &mut Kernel, fd: usize, addr: usize, addrlen: usize) -> (r: Outcome)
    requires
        old(k).wf(),
    ensures
        final(k).wf(),
        accept_call(*old(k), *final(k), fd, addr, addrlen, r),
{
    if is_inet_socket(k, fd) {
        return match k.net.accept_target(fd) {
            Some(h) => Outcome::Net(NetRequest::Accept { fd, handle: h, addr, addrlen }),
            None => Outcome::Ret(EAGAIN),
        };
    }
    if is_fake_fd(k, fd) {
        let nfd = alloc_fake(k, FakeFdType::InetSocket);
        return Outcome::Ret(nfd as isize);
    }
    Outcome::Ret(-1)
}

/// What `sys_accept4` returns and leaves in the kernel, from the kernel `k0` it is called on to the kernel `k1` it leaves.
pub open spec fn accept4_call(k0: Kernel, k1: Kernel, fd: usize, addr: usize, addrlen: usize, r: Outcome) -> bool {
    accept_call(k0, k1, fd, addr, addrlen, r)
}

/// `accept4`: as `accept`.
pub fn sys_accept4(k: &mut Kernel, fd: usize, addr: usize, addrlen: usize) -> (r: Outcome)
    requires
        old(k).wf(),
    ensures
        final(k).wf(),
        accept4_call(*old(k), *final(k), fd, addr, addrlen, r),
{
    sys_accept(k, fd, addr, addrlen)
}

/// The peer address `accept` reports: IPv4, port 80, address 0.0.0.0.
pub open spec fn peer_addr_bytes() -> Seq<u8> {
    seq![2u8, 0, 0, 0x50] + zeros(12)
}

/// Memory `m2` is that of `k0` once `accept` has written the peer's address
/// at `addr` and its length at `addrlen`, each where it is not null, with
/// memory `m1` after the first write.
pub open spec fn accept_wrote(k0: Kernel, m1: PhysMem, m2: PhysMem, addr: usize, addrlen: usize) -> bool {
    &&& if addr == 0 { m1 == k0.mem } else { k0.wrote(m1, addr as int, peer_addr_bytes()) }
    &&& if addrlen == 0 {
        m2 == m1
    } else {
        k0.with_mem(m1).mapped(addrlen as int, 4) && k0.with_mem(m1).wrote(m2, addrlen as int, le(16, 4))
    }
}

/// Finishes an `accept` on the listening descriptor: while its socket
/// still listens, or when the network stack could make no new listening
/// socket (`new_listen` is `None`), the call would block (-11). Otherwise
/// the new listening socket takes the listening descriptor's place, the
/// old socket, which holds the connection, gets the next descriptor from
/// 100 on, the peer's address and its length (16) are written at `addr`
/// and `addrlen` unless they are null, and the new descriptor is returned.
pub fn finish_accept(k: &mut Kernel, listening: bool, new_listen: Option<usize>, addr: usize, addrlen: usize) -> (r: Result<isize, KernelPanic>)
    requires
        old(k).wf(),
    ensures
        final(k).wf(),
        listening || new_listen is None || !(old(k).net.listen_fd matches Some(l) && old(k).net.handles@.contains_key(l))
            ==> r == Ok::<isize, KernelPanic>(EAGAIN) && *final(k) == *old(k),
        !listening && new_listen is Some && (old(k).net.listen_fd matches Some(l) && old(k).net.handles@.contains_key(l)) ==> {
            let l = old(k).net.listen_fd->0;
            let nfd = old(k).fake_fd_next;
            &&& r is Ok ==> r->Ok_0 == nfd as isize
            &&& final(k).fake_fd_next == nfd.wrapping_add(1)
            &&& final(k).fake_fds@ == old(k).fake_fds@.insert(nfd, FakeFdType::InetSocket)
            &&& final(k).net.handles@ == old(k).net.handles@.insert(l, new_listen->0).insert(nfd, old(k).net.handles@[l])
            &&& final(k).net.listen_fd == old(k).net.listen_fd
            &&& final(k).fds == old(k).fds && final(k).procs == old(k).procs && final(k).fs == old(k).fs
            &&& addr != 0 && !old(k).mapped(addr as int, 16) ==> r is Err
            &&& addr == 0 ==> (r is Ok <==> addrlen == 0 || old(k).mapped(addrlen as int, 4))
            &&& addrlen == 0 ==> (r is Ok <==> addr == 0 || old(k).mapped(addr as int, 16))
            &&& r is Ok ==> exists|m1: PhysMem| accept_wrote(*old(k), m1, final(k).mem, addr, addrlen)
            &&& r is Err && addr != 0 && old(k).mapped(addr as int, 16) ==> addrlen != 0
                && exists|m1: PhysMem| old(k).wrote(m1, addr as int, peer_addr_bytes())
                    && !old(k).with_mem(m1).mapped(addrlen as int, 4)
        },
{
    if listening {
        return Ok(EAGAIN);
    }
    let nh = match new_listen {
        Some(h) => h,
        None => return Ok(EAGAIN),
    };
    let has_listen = match k.net.listen_fd {
        Some(l) => k.net.handles.contains_key(&l),
        None => false,
    };
    if !has_listen {
        return Ok(EAGAIN);
    }
    let old_handle = match k.net.replace_listen_socket(nh) {
        Some(h) => h,
        None => {
            assert(false);
            return Ok(EAGAIN);
        },
    };
    let nfd = alloc_fake(k, FakeFdType::InetSocket);
    k.net.add_fd_handle(nfd, old_handle);
    let ghost k1 = *k;
    proof {
        assert(k1.mem == old(k).mem && k1.procs == old(k).procs);
    }
    if addr != 0 {
        let mut a: Vec<u8> = vec![2u8, 0, 0, 0x50];
        push_zeros(&mut a, 12);
        assert(a@ =~= peer_addr_bytes());
        if !k.copy_out(addr, a.as_slice()) {
            return Err(KernelPanic);
        }
    }
    let ghost m1 = k.mem;
    let ghost k2 = *k;
    proof {
        assert(k2.procs == old(k).procs);
        assert(old(k).with_mem(m1).procs == k2.procs);
    }
    if addrlen != 0 {
        let mut l: Vec<u8> = Vec::new();
        push_le(&mut l, 16, 4);
        assert(l@ =~= le(16, 4));
        if !k.copy_out(addrlen, l.as_slice()) {
            proof {
                assert(!old(k).with_mem(m1).mapped(addrlen as int, 4));
                if addr == 0 {
                    assert(!old(k).mapped(addrlen as int, 4));
                } else {
                    assert(old(k).wrote(m1, addr as int, peer_addr_bytes()));
                }
            }
            return Err(KernelPanic);
        }
    }
    proof {
        assert(accept_wrote(*old(k), m1, k.mem, addr, addrlen));
    }
    Ok(nfd as isize)
}

/// Finishes a receive from a socket into user memory at `buf`: a return
/// value of the network stack's own, or the bytes it received, of which at
/// most `len` are written and counted.
pub fn finish_recv(k: &mut Kernel, buf: usize, len: usize, got: Result<Vec<u8>, isize>) -> (r: Result<isize, KernelPanic>)
    requires
        old(k).wf(),
    ensures
        final(k).wf(),
        final(k).same_but_mem(*old(k)),
        got matches Err(s) ==> r == Ok::<isize, KernelPanic>(s) && *final(k) == *old(k),
        got matches Ok(b) ==> {
            let n = vstd::math::min(b@.len() as int, len as int);
            &&& (r is Ok <==> n == 0 || old(k).mapped(buf as int, n))
            &&& r is Ok ==> r->Ok_0 == n as isize
            &&& r is Ok && n == 0 ==> *final(k) == *old(k)
            &&& r is Ok && n > 0 ==> old(k).wrote(final(k).mem, buf as int, b@.take(n))
        },
{
    match got {
        Err(s) => Ok(s),
        Ok(b) => {
            let n = if b.len() < len { b.len() } else { len };
            if n == 0 {
                return Ok(0);
            }
            let mut out: Vec<u8> = Vec::new();
            let mut j: usize = 0;
            while j < n
                invariant
                    j <= n <= b@.len(),
                    out@ == b@.take(j as int),
                decreases n - j,
            {
                out.push(b[j]);
                proof {
                    assert(out@ =~= b@.take(j as int + 1));
                }
                j = j + 1;
            }
            if k.copy_out(buf, out.as_slice()) { Ok(n as isize) } else { Err(KernelPanic) }
        },
    }
}

/// What writing the `epoll_event` records for `list` at `events`, from
/// record `i` on, leaves from kernel `k0` (kernel `k1`, outcome `r`): each
/// 16-byte record gets the events as a 32-bit number, 4 bytes left as they
/// were, then the 64-bit data; a record that cannot be written faults. The
/// outcome is the number of records.
pub open spec fn epoll_written(k0: Kernel, k1: Kernel, events: int, list: Seq<(u32, u64)>, i: nat,
    r: Result<isize, KernelPanic>) -> bool
    decreases list.len() - i,
{
    if i >= list.len() {
        k1 == k0 && r == Ok::<isize, KernelPanic>(list.len() as isize)
    } else if !(events + 16 * i + 16 <= usize::MAX && k0.mapped(events + 16 * i, 4)) {
        k1 == k0 && r is Err
    } else {
        exists|km: Kernel|
            #[trigger] k0.wrote(km.mem, events + 16 * i, le(list[i as int].0 as u64, 4)) && km.same_but_mem(k0) && if !km.mapped(
                events + 16 * i + 8,
                8,
            ) {
                k1 == km && r is Err
            } else {
                exists|kn: Kernel|
                    #[trigger] km.wrote(kn.mem, events + 16 * i + 8, le(list[i as int].1, 8)) && kn.same_but_mem(km)
                        && epoll_written(kn, k1, events, list, i + 1, r)
            }
    }
}

/// The 16-byte records `epoll_pwait` writes: the events as a 32-bit
/// number, 4 bytes left as they were, then the 64-bit data.
pub fn finish_epoll(k: &mut Kernel, events: usize, list: &[(u32, u64)]) -> (r: Result<isize, KernelPanic>)
    requires
        old(k).wf(),
    ensures
        final(k).wf(),
        final(k).same_but_mem(*old(k)),
        list@.len() == 0 ==> r == Ok::<isize, KernelPanic>(0isize) && *final(k) == *old(k),
        r is Ok ==> r->Ok_0 == list@.len() as isize,
        epoll_written(*old(k), *final(k), events as int, list@, 0, r),
{
    let mut i: usize = 0;
    while i < list.len()
        invariant
            i <= list@.len(),
            k.wf(),
            k.same_but_mem(*old(k)),
            i == 0 ==> *k == *old(k),
            forall|k1: Kernel, r: Result<isize, KernelPanic>|
                #[trigger] epoll_written(*k, k1, events as int, list@, i as nat, r)
                ==> epoll_written(*old(k), k1, events as int, list@, 0, r),
        decreases list@.len() - i,
    {
        let ghost ki = *k;
        let at = match (i as u128).checked_mul(16) {
            Some(x) => x,
            None => return Err(KernelPanic),
        };
        if at > (usize::MAX as u128) || events > usize::MAX - (at as usize) || events + (at as usize) > usize::MAX - 16 {
            proof {
                assert(epoll_written(ki, ki, events as int, list@, i as nat, Err::<isize, KernelPanic>(KernelPanic)));
            }
            return Err(KernelPanic);
        }
        let p = events + (at as usize);
        let (ev, data) = list[i];
        let mut a: Vec<u8> = Vec::new();
        push_le(&mut a, ev as u64, 4);
        if !k.copy_out(p, a.as_slice()) {
            proof {
                assert(epoll_written(ki, ki, events as int, list@, i as nat, Err::<isize, KernelPanic>(KernelPanic)));
            }
            return Err(KernelPanic);
        }
        let ghost km = *k;
        proof {
            assert(a@ =~= le(list@[i as int].0 as u64, 4));
            assert(ki.wrote(km.mem, events + 16 * i, le(list@[i as int].0 as u64, 4)));
        }
        let mut b: Vec<u8> = Vec::new();
        push_le(&mut b, data, 8);
        if !k.copy_out(p + 8, b.as_slice()) {
            proof {
                assert(epoll_written(ki, km, events as int, list@, i as nat, Err::<isize, KernelPanic>(KernelPanic)));
            }
            return Err(KernelPanic);
        }
        proof {
            assert(b@ =~= le(list@[i as int].1, 8));
            assert(km.wrote(k.mem, events + 16 * i + 8, le(list@[i as int].1, 8)));
        }
        i = i + 1;
        proof {
            assert forall|k1: Kernel, r: Result<isize, KernelPanic>|
                #[trigger] epoll_written(*k, k1, events as int, list@, i as nat, r)
                implies epoll_written(*old(k), k1, events as int, list@, 0, r) by {
                assert(epoll_written(ki, k1, events as int, list@, (i - 1) as nat, r));
            }
        }
    }
    proof {
        assert(epoll_written(*k, *k, events as int, list@, i as nat, Ok::<isize, KernelPanic>(list@.len() as isize)));
    }
    Ok(list.len() as isize)
}

/// When an `epoll_pwait` that began at `start_ms` gives up: `timeout`
/// milliseconds later when that is positive, never otherwise.
pub fn epoll_deadline(start_ms: i64, timeout: isize) -> (r: Option<i64>)
    ensures
        r == if timeout > 0 { Some(start_ms.wrapping_add(timeout as i64)) } else { None },
{
    if timeout > 0 { Some(start_ms.wrapping_add(timeout as i64)) } else { None }
}

/// Whether an `epoll_pwait` that found `found` events by time `now_ms`
/// returns, and what: the number of events when there are any, 0 when it
/// was not to wait or its deadline has passed.
pub fn epoll_wait_result(found: usize, timeout: isize, now_ms: i64, deadline: Option<i64>) -> (r: Option<isize>)
    ensures
        r == if found > 0 {
            Some(found as isize)
        } else if timeout == 0 {
            Some(0isize)
        } else if deadline matches Some(d) && now_ms >= d {
            Some(0isize)
        } else {
            None
        },
{
    if found > 0 {
        return Some(found as isize);
    }
    if timeout == 0 {
        return Some(0);
    }
    match deadline {
        Some(d) => if now_ms >= d { Some(0) } else { None },
        None => None,
    }
}

/// `epoll_pwait`: left to the network stack, which waits for events on
/// the sockets.
pub fn sys_epoll_pwait(events: usize, maxevents: usize, timeout: usize) -> (r: Outcome)
    ensures
        r == Outcome::Net(NetRequest::EpollWait { events, maxevents, timeout: timeout as isize }),
{
    Outcome::Net(NetRequest::EpollWait { events, maxevents, timeout: timeout as isize })
}

/// The time `clock_gettime` reports for a timer at `ticks` (10 MHz): the
/// seconds plus one, and the microseconds within the second.
pub open spec fn clock_bytes(ticks: u64) -> Seq<u8> {
    le((ticks / 10_000_000 + 1) as u64, 8) + le(ticks % 10_000_000, 8)
}

/// What `sys_clock_gettime` returns and leaves in the kernel, from the kernel `k0` it is called on to the kernel `k1` it leaves.
pub open spec fn clock_gettime_call(k0: Kernel, k1: Kernel, buf: usize, ticks: u64, r: Result<isize, KernelPanic>) -> bool {
    &&& (k1.same_but_mem(k0))
    &&& (r is Ok <==> k0.mapped(buf as int, 16))
    &&& (r is Ok ==> r->Ok_0 == 0 && k0.wrote(k1.mem, buf as int, clock_bytes(ticks)))
}

/// `clock_gettime`: writes the time of a timer at `ticks` at `buf`.
pub fn sys_clock_gettime(k: &mut Kernel, buf: usize, ticks: u64) -> (r: Result<isize, KernelPanic>)
    requires
        old(k).wf(),
    ensures
        final(k).wf(),
        clock_gettime_call(*old(k), *final(k), buf, ticks, r),
{
    let sec: u64 = ticks / 10_000_000 + 1;
    let usec: u64 = ticks % 10_000_000;
    let mut v: Vec<u8> = Vec::new();
    push_le(&mut v, sec, 8);
    push_le(&mut v, usec, 8);
    if k.copy_out(buf, v.as_slice()) { Ok(0) } else { Err(KernelPanic) }
}

/// `k1` is `k0` with the running process stopped, its registers saved in
/// its entry and ready again (unless a zombie), and another process,
/// `k1.procs.current()`, running with the registers saved in its entry;
/// nothing else changed.
pub open spec fn switched(k0: Kernel, k1: Kernel) -> bool {
    let cur = k0.procs.current();
    let n = k1.procs.current();
    &&& n != cur
    &&& k0.procs.has(n)
    &&& k1.trap_frame == k0.procs.get_spec(n).trap_frame
    &&& k1.procs.next() == k0.procs.next()
    &&& forall|q: usize| #[trigger] k1.procs.has(q) == k0.procs.has(q)
    &&& k0.procs.has(cur) ==> k1.procs.get_spec(cur) == parked(k0.procs.get_spec(cur), k0.trap_frame)
    &&& k1.procs.get_spec(n) == (Process { state: ProcState::Running, ..k0.procs.get_spec(n) })
    &&& forall|q: usize| q != cur && q != n && k0.procs.has(q) ==> #[trigger] k1.procs.get_spec(q) == k0.procs.get_spec(q)
    &&& k1.mem == k0.mem && k1.fs == k0.fs && k1.fds == k0.fds && k1.pipes == k0.pipes
    &&& k1.next_pipe_id == k0.next_pipe_id && k1.fake_fds == k0.fake_fds && k1.fake_fd_next == k0.fake_fd_next
    &&& k1.net == k0.net && k1.mmap_base == k0.mmap_base && k1.console == k0.console
}

/// Saves the registers of the running process in its entry and makes
/// `next` the running process, its saved registers the running ones.
fn switch_to(k: &mut Kernel, next: usize)
    requires
        old(k).wf(),
        old(k).procs.has(next),
        next != old(k).procs.current(),
    ensures
        final(k).wf(),
        final(k).procs.current() == next,
        switched(*old(k), *final(k)),
{
    let tf = k.trap_frame;
    let ghost t0 = k.procs;
    let ghost cur = t0.current();
    k.trap_frame = switch_process(&mut k.procs, &tf, next);
    proof {
        assert forall|q: usize| #[trigger] k.procs.has(q) implies k.mem.is_frame(k.procs.get_spec(q).page_table.root()) by {
            assert(t0.has(q));
            if q != cur && q != next {
                assert(k.procs.get_spec(q) == t0.get_spec(q));
            }
        }
    }
}

/// The process that runs once `cur` has exited: its parent when that is
/// ready, else the next ready one after it in round-robin order of pids;
/// `None` when no other process is ready.
pub open spec fn successor(t: ProcTable, cur: usize, next: Option<usize>) -> bool {
    if t.has(cur) && t.runnable(cur, t.get_spec(cur).ppid) {
        next == Some(t.get_spec(cur).ppid)
    } else {
        match next {
            Some(p) => t.next_after(cur, p),
            None => !exists|q: usize| #[trigger] t.runnable(cur, q),
        }
    }
}

/// What `sys_exit` returns and leaves in the kernel, from the kernel `k0` it is called on to the kernel `k1` it leaves.
pub open spec fn exit_call(k0: Kernel, k1: Kernel, code: usize, r: Outcome) -> bool {
    let cur = k0.procs.current();
    &&& (r == Outcome::Ret(0isize) || r == Outcome::Switched)
    &&& (k1.mem == k0.mem && k1.fds == k0.fds && k1.fs == k0.fs)
    &&& (forall|q: usize| #[trigger] k1.procs.has(q) == k0.procs.has(q))
    &&& (k0.procs.has(cur) ==> {
                let p = k1.procs.get_spec(cur);
                &&& p.state == ProcState::Zombie
                &&& p.exit_code == code as isize
                &&& p.pid == k0.procs.get_spec(cur).pid && p.ppid == k0.procs.get_spec(cur).ppid
            })
    &&& (forall|q: usize| q != cur && q != k1.procs.current() && k0.procs.has(q)
                ==> #[trigger] k1.procs.get_spec(q) == k0.procs.get_spec(q))
    &&& (r == Outcome::Ret(0isize) ==> successor(k0.procs, cur, None) && k1.procs.current() == cur
                && k1.trap_frame == k0.trap_frame)
    &&& (r == Outcome::Switched ==> {
                let n = k1.procs.current();
                &&& successor(k0.procs, cur, Some(n))
                &&& k1.trap_frame == k0.procs.get_spec(n).trap_frame
                &&& k1.procs.get_spec(n) == (Process { state: ProcState::Running, ..k0.procs.get_spec(n) })
            })
}

/// `exit` and `exit_group`: the running process becomes a zombie with
/// exit code `code`, and the kernel runs its parent when that is ready,
/// else the next ready process in round-robin order of pids. When no
/// other process is ready, returns 0.
pub fn sys_exit(k: &mut Kernel, code: usize) -> (r: Outcome)
    requires
        old(k).wf(),
    ensures
        final(k).wf(),
        exit_call(*old(k), *final(k), code, r),
{
    let cur = k.procs.current_pid();
    let parent = match k.procs.get(cur) {
        Some(p) => Some(p.ppid),
        None => None,
    };
    let ready_parent = match parent {
        Some(pp) => pp != cur && match k.procs.get(pp) {
            Some(q) => q.state == ProcState::Ready,
            None => false,
        },
        None => false,
    };
    let next = if ready_parent {
        parent
    } else {
        k.procs.next_ready(cur)
    };
    let ghost k0 = *k;
    exit_process(&mut k.procs, code as isize);
    proof {
        assert forall|q: usize| #[trigger] k.procs.has(q) implies k.mem.is_frame(k.procs.get_spec(q).page_table.root()) by {
            assert(k0.procs.has(q));
        }
    }
    let ghost km = *k;
    match next {
        Some(n) => {
            switch_to(k, n);
            proof {
                assert(successor(k0.procs, cur, Some(n)));
            }
            Outcome::Switched
        },
        None => Outcome::Ret(0),
    }
}

} // verus!

verus! {

/// Puts `p` back in the table in place of the process with its pid.
fn put_back(k: &mut Kernel, p: Process)
    requires
        old(k).procs.wf(),
        p.pid < old(k).procs.next(),
    ensures
        final(k).procs.wf(),
        final(k).procs.has(p.pid),
        final(k).procs.get_spec(p.pid) == p,
        forall|q: usize| q != p.pid ==> (#[trigger] final(k).procs.has(q) == old(k).procs.has(q)),
        forall|q: usize| q != p.pid && old(k).procs.has(q) ==> #[trigger] final(k).procs.get_spec(q) == old(k).procs.get_spec(q),
        final(k).procs.current() == old(k).procs.current(),
        final(k).procs.next() == old(k).procs.next(),
        final(k).mem == old(k).mem && final(k).fs == old(k).fs && final(k).fds == old(k).fds,
        final(k).pipes == old(k).pipes && final(k).fake_fds == old(k).fake_fds && final(k).net == old(k).net,
        final(k).console == old(k).console && final(k).trap_frame == old(k).trap_frame,
        final(k).next_pipe_id == old(k).next_pipe_id && final(k).fake_fd_next == old(k).fake_fd_next,
        final(k).mmap_base == old(k).mmap_base,
{
    k.procs.insert(p);
}

/// What `sys_clone` returns and leaves in the kernel, from the kernel `k0` it is called on to the kernel `k1` it leaves.
pub open spec fn clone_call(k0: Kernel, k1: Kernel, stack: usize, r: Result<isize, KernelPanic>) -> bool {
    &&& (k1.procs.current() == k0.procs.current())
    &&& (k1.fs == k0.fs && k1.fds == k0.fds && k1.pipes == k0.pipes)
    &&& (!k0.procs.has(k0.procs.current()) && k0.procs.next() < usize::MAX
                ==> r == Ok::<isize, KernelPanic>(-1isize) && k1.procs == k0.procs)
    &&& (r == Ok::<isize, KernelPanic>(-1isize) ==> k1.procs == k0.procs)
    &&& (k0.procs.next() >= usize::MAX ==> r is Err && k1 == k0)
    &&& (({
                let cur = k0.procs.current();
                let ppt = k0.procs.get_spec(cur).page_table;
                &&& k0.procs.has(cur)
                &&& k0.procs.next() < usize::MAX
                &&& ppt.wf(k0.mem)
                &&& clone_fits(ppt, k0.mem)
                &&& 3 + KERNEL_REGION_PAGES + 3 * user_pages_from(ppt, k0.mem, 0) <= k0.mem.free_pages()
            }) ==> r is Ok && r->Ok_0 != -1)
    &&& (r is Ok && r->Ok_0 != -1 ==> {
                let c = r->Ok_0;
                let cp = k0.procs.next() as usize;
                let child = k1.procs.get_spec(cp);
                let parent = k0.procs.get_spec(k0.procs.current());
                &&& c == k0.procs.next() as isize
                &&& k1.procs.has(cp)
                &&& child.ppid == k0.procs.current()
                &&& child.state == ProcState::Ready
                &&& child.brk == parent.brk
                &&& child.fd_table@ == parent.fd_table@
                &&& child.trap_frame.sepc == k0.trap_frame.sepc.wrapping_add(4)
                &&& parent.page_table.wf(k0.mem) ==> {
                    &&& forall|v: int| !user_page(parent.page_table, k0.mem, v)
                        ==> #[trigger] child.page_table.lookup(k1.mem, v) == kernel_lookup(slot_key(v))
                    &&& forall|v: int| #[trigger] user_page(parent.page_table, k0.mem, v)
                        ==> page_copied(parent.page_table, k0.mem, child.page_table, k1.mem, v)
                }
                &&& forall|p: int, x: int| k0.mem.is_frame(p) ==> #[trigger] k1.mem.word(p, x) == k0.mem.word(p, x)
                &&& child.trap_frame.regs@ == if stack != 0 {
                    k0.trap_frame.regs@.update(10, 0usize).update(2, stack)
                } else {
                    k0.trap_frame.regs@.update(10, 0usize)
                }
                &&& forall|q: usize| q != cp ==> (#[trigger] k1.procs.has(q) == k0.procs.has(q))
                &&& forall|q: usize| q != cp && k0.procs.has(q) ==> #[trigger] k1.procs.get_spec(q) == k0.procs.get_spec(q)
            })
}

/// `clone`: forks the running process with the saved registers of this
/// trap; the child gets the stack pointer `stack` unless it is 0. Returns
/// the child's pid, or -1 when there is no running process or memory runs
/// out; the pid is owed where `fork_process` is owed success.
pub fn sys_clone(k: &mut Kernel, stack: usize) -> (r: Result<isize, KernelPanic>)
    requires
        old(k).wf(),
    ensures
        final(k).wf(),
        clone_call(*old(k), *final(k), stack, r),
{
    if k.procs.next_pid() == usize::MAX {
        return Err(KernelPanic);
    }
    let tf = k.trap_frame;
    proof {
        k.procs.lemma_roots_framed(k.mem);
    }
    let child = match fork_process(&mut k.procs, &mut k.mem, &tf) {
        Ok(Some(c)) => c,
        Ok(None) => return Ok(-1),
        Err(e) => return Err(e),
    };
    proof {
        k.procs.lemma_roots_framed(k.mem);
        assert(child < old(k).procs.next() + 1);
        assert(child as isize == -1isize ==> child + 1 == 0x1_0000_0000_0000_0000int || child + 1 == 0x1_0000_0000int)
            by (bit_vector);
    }
    if child as isize == -1 {
        return Err(KernelPanic);
    }
    if stack != 0 {
        let ghost t1 = k.procs;
        let mut c = match k.procs.remove(child) {
            Some(c) => c,
            None => return Err(KernelPanic),
        };
        c.trap_frame.regs[2] = stack;
        proof {
            assert(c.pid == child);
            assert(t1.get_spec(child).pid == child);
        }
        put_back(k, c);
        proof {
            assert forall|q: usize| #[trigger] k.procs.has(q) implies k.mem.is_frame(k.procs.get_spec(q).page_table.root()) by {
                if q != child {
                    assert(t1.has(q));
                }
            }
        }
    }
    Ok(child as isize)
}

/// The process a `wait4` for `want` by process `cur` reaps: the first, by
/// pid from position `from` on, that is a zombie child of `cur` and has
/// pid `want` when `want` is positive.
pub open spec fn first_zombie(s: Seq<Process>, cur: usize, want: usize, from: int) -> Option<int>
    decreases s.len() - from,
{
    if from < 0 || from >= s.len() {
        None
    } else if zombie_of(s[from], cur, want) {
        Some(from)
    } else {
        first_zombie(s, cur, want, from + 1)
    }
}

/// `p` is a zombie child of `cur` that a `wait4` for `want` reaps: with pid
/// `want` when that is positive.
pub open spec fn zombie_of(p: Process, cur: usize, want: usize) -> bool {
    p.ppid == cur && p.state == ProcState::Zombie && !((want as isize) > 0 && p.pid != want)
}

/// The zombie found is the first from `from` on.
proof fn lemma_first_zombie(s: Seq<Process>, cur: usize, want: usize, from: int)
    requires
        0 <= from,
        first_zombie(s, cur, want, from) is Some,
    ensures
        from <= first_zombie(s, cur, want, from)->0 < s.len(),
        zombie_of(s[first_zombie(s, cur, want, from)->0], cur, want),
        forall|j: int| from <= j < first_zombie(s, cur, want, from)->0 ==> !zombie_of(#[trigger] s[j], cur, want),
    decreases s.len() - from,
{
    if from < s.len() && !zombie_of(s[from], cur, want) {
        lemma_first_zombie(s, cur, want, from + 1);
    }
}

/// Law: `wait4` reaps, of the zombie children it may reap, the one with the
/// lowest pid.
pub proof fn law_wait_reaps_lowest_pid(t: ProcTable, cur: usize, want: usize)
    requires
        t.wf(),
        first_zombie(t.procs(), cur, want, 0) is Some,
    ensures
        forall|j: int| 0 <= j < t.procs().len() && zombie_of(#[trigger] t.procs()[j], cur, want)
            ==> t.procs()[first_zombie(t.procs(), cur, want, 0)->0].pid <= t.procs()[j].pid,
{
    let i = first_zombie(t.procs(), cur, want, 0)->0;
    lemma_first_zombie(t.procs(), cur, want, 0);
    assert forall|j: int| 0 <= j < t.procs().len() && zombie_of(#[trigger] t.procs()[j], cur, want)
        implies t.procs()[i].pid <= t.procs()[j].pid by {
        if j > i {
            t.lemma_pid_order(i, j);
        }
    }
}

/// With no zombie child found from `from` on, none is there.
proof fn lemma_no_zombie(s: Seq<Process>, cur: usize, want: usize, from: int, j: int)
    requires
        0 <= from <= j < s.len(),
        first_zombie(s, cur, want, from) is None,
    ensures
        !zombie_of(s[j], cur, want),
    decreases j - from,
{
    if from < j {
        lemma_no_zombie(s, cur, want, from + 1, j);
    }
}

/// The one zombie child there is, is the one found.
proof fn lemma_only_zombie(s: Seq<Process>, cur: usize, want: usize, from: int, i: int)
    requires
        0 <= from <= i < s.len(),
        zombie_of(s[i], cur, want),
        forall|j: int| 0 <= j < s.len() && j != i ==> !zombie_of(#[trigger] s[j], cur, want),
    ensures
        first_zombie(s, cur, want, from) == Some(i),
    decreases i - from,
{
    if from < i {
        lemma_only_zombie(s, cur, want, from + 1, i);
    }
}

/// What `sys_wait4` returns and leaves in the kernel, from the kernel `k0` it is called on to the kernel `k1` it leaves.
pub open spec fn wait4_call(k0: Kernel, k1: Kernel, pid: usize, wstatus: usize, options: usize, r: Result<Outcome, KernelPanic>) -> bool {
    &&& (k1.fs == k0.fs && k1.fds == k0.fds)
    &&& (({
                let s = k0.procs.procs();
                let cur = k0.procs.current();
                match first_zombie(s, cur, pid, 0) {
                    None => if options & 1 != 0 {
                        r == Ok::<Outcome, KernelPanic>(Outcome::Ret(0isize)) && k1 == k0
                    } else if live_child(k0.procs, cur, pid) {
                        &&& r == Ok::<Outcome, KernelPanic>(Outcome::Switched)
                        &&& k0.procs.next_after(cur, k1.procs.current())
                        &&& switched(k0, k1)
                    } else {
                        r == Ok::<Outcome, KernelPanic>(Outcome::Ret(EAGAIN)) && k1 == k0
                    },
                    Some(i) => {
                        let z = s[i];
                        let status = le(((z.exit_code & 0xff) << 8) as u64, 8);
                        &&& (r is Ok <==> wstatus == 0 || k0.mapped(wstatus as int, 8))
                        &&& r is Ok ==> {
                            &&& r->Ok_0 == Outcome::Ret(z.pid as isize)
                            &&& !k1.procs.has(z.pid)
                            &&& forall|q: usize| q != z.pid ==> (#[trigger] k1.procs.has(q) == k0.procs.has(q))
                            &&& forall|q: usize| q != z.pid && k0.procs.has(q) ==> #[trigger] k1.procs.get_spec(q) == k0.procs.get_spec(q)
                            &&& wstatus != 0 ==> k0.wrote(k1.mem, wstatus as int, status)
                            &&& wstatus == 0 ==> k1.mem == k0.mem
                        }
                    },
                }
            }))
}

/// Law: when a process exits while its parent is ready, the parent runs
/// next, with the registers saved for it, and the exited process is left a
/// zombie for the parent's `wait4`.
pub proof fn law_exit_wakes_parent(k0: Kernel, k1: Kernel, code: usize, r: Outcome)
    requires
        k0.wf(),
        k0.procs.has(k0.procs.current()),
        k0.procs.runnable(k0.procs.current(), k0.procs.get_spec(k0.procs.current()).ppid),
        exit_call(k0, k1, code, r),
    ensures
        r == Outcome::Switched,
        k1.procs.current() == k0.procs.get_spec(k0.procs.current()).ppid,
        k1.trap_frame == k0.procs.get_spec(k1.procs.current()).trap_frame,
        k1.procs.get_spec(k0.procs.current()).state == ProcState::Zombie,
        k1.procs.get_spec(k0.procs.current()).exit_code == code as isize,
{
}

/// Law: a `wait4` that finds no zombie child, while a child that could
/// still exit is there, blocks: another process runs, and the caller is
/// left ready with the registers it made the call with, so that it makes
/// the call again when it next runs.
pub proof fn law_wait_blocks(k0: Kernel, k1: Kernel, pid: usize, wstatus: usize, options: usize, r: Result<Outcome, KernelPanic>)
    requires
        k0.wf(),
        k0.procs.has(k0.procs.current()),
        k0.procs.get_spec(k0.procs.current()).state == ProcState::Running,
        first_zombie(k0.procs.procs(), k0.procs.current(), pid, 0) is None,
        options & 1 == 0,
        live_child(k0.procs, k0.procs.current(), pid),
        wait4_call(k0, k1, pid, wstatus, options, r),
    ensures
        r == Ok::<Outcome, KernelPanic>(Outcome::Switched),
        k1.procs.current() != k0.procs.current(),
        k1.procs.get_spec(k0.procs.current()).trap_frame == k0.trap_frame,
        k1.procs.runnable(k1.procs.current(), k0.procs.current()),
{
    let cur = k0.procs.current();
    assert(k1.procs.has(cur));
}

/// Law: a parent that blocks in `wait4` (`k0` to `k1`) while a child
/// runs, whose child then exits (`k1` to `k2`), runs again, and the `wait4`
/// it makes again (`k2` to `k3`) reaps that child and returns its pid.
pub proof fn law_wait_reaps_exited_child(k0: Kernel, k1: Kernel, k2: Kernel, k3: Kernel, pid: usize, wstatus: usize,
    options: usize, code: usize, r1: Result<Outcome, KernelPanic>, r2: Outcome, r3: Result<Outcome, KernelPanic>)
    requires
        k0.wf(),
        k1.wf(),
        k2.wf(),
        k0.procs.has(k0.procs.current()),
        k0.procs.get_spec(k0.procs.current()).state == ProcState::Running,
        first_zombie(k0.procs.procs(), k0.procs.current(), pid, 0) is None,
        options & 1 == 0,
        live_child(k0.procs, k0.procs.current(), pid),
        wait4_call(k0, k1, pid, wstatus, options, r1),
        k1.procs.get_spec(k1.procs.current()).ppid == k0.procs.current(),
        !((pid as isize) > 0 && k1.procs.current() != pid),
        exit_call(k1, k2, code, r2),
        wait4_call(k2, k3, pid, wstatus, options, r3),
        r3 is Ok,
    ensures
        k2.procs.current() == k0.procs.current(),
        r3 == Ok::<Outcome, KernelPanic>(Outcome::Ret(k1.procs.current() as isize)),
        !k3.procs.has(k1.procs.current()),
{
    let cur = k0.procs.current();
    let n = k1.procs.current();
    law_wait_blocks(k0, k1, pid, wstatus, options, r1);
    k1.procs.lemma_has_pid(n);
    assert(k1.procs.get_spec(n).pid == n);
    law_exit_wakes_parent(k1, k2, code, r2);
    let s2 = k2.procs.procs();
    assert(k1.procs.has(n));
    assert(k2.procs.has(n));
    k2.procs.lemma_has_pid(n);
    let i = k2.procs.index_of(n);
    k2.procs.lemma_index_of(i);
    assert(zombie_of(s2[i], cur, pid));
    assert forall|j: int| 0 <= j < s2.len() && j != i implies !zombie_of(#[trigger] s2[j], cur, pid) by {
        k2.procs.lemma_index_of(j);
        let q = s2[j].pid;
        assert(k2.procs.has(q));
        if q == cur {
            assert(k2.procs.get_spec(cur).state == ProcState::Running);
        } else {
            assert(q != n);
            assert(k1.procs.has(q));
            assert(k2.procs.get_spec(q) == k1.procs.get_spec(q));
            assert(k0.procs.has(q));
            assert(k1.procs.get_spec(q) == k0.procs.get_spec(q));
            let j0 = k0.procs.index_of(q);
            k0.procs.lemma_has_pid(q);
            lemma_no_zombie(k0.procs.procs(), cur, pid, 0, j0);
        }
    }
    lemma_only_zombie(s2, cur, pid, 0, i);
}

/// A child of `cur` that could still exit: a ready process other than
/// `cur` whose parent is `cur`, with pid `want` when that is positive.
pub open spec fn live_child(t: ProcTable, cur: usize, want: usize) -> bool {
    exists|q: usize| #[trigger] t.runnable(cur, q) && t.get_spec(q).ppid == cur && !((want as isize) > 0 && q != want)
}

/// Whether process `cur` has a child that could still exit, with pid
/// `want` when that is positive.
fn has_live_child(t: &ProcTable, cur: usize, want: usize) -> (r: bool)
    requires
        t.wf(),
    ensures
        r == live_child(*t, cur, want),
{
    let mut i: usize = 0;
    while i < t.len()
        invariant
            t.wf(),
            i <= t.procs().len(),
            forall|j: int| 0 <= j < i ==> !(#[trigger] t.procs()[j].ppid == cur && t.procs()[j].state == ProcState::Ready
                && t.procs()[j].pid != cur && !((want as isize) > 0 && t.procs()[j].pid != want)),
        decreases t.procs().len() - i,
    {
        let p = t.at(i);
        if p.ppid == cur && p.state == ProcState::Ready && p.pid != cur && !((want as isize) > 0 && p.pid != want) {
            proof {
                t.lemma_index_of(i as int);
                assert(t.runnable(cur, p.pid));
            }
            return true;
        }
        i = i + 1;
    }
    proof {
        assert forall|q: usize| #[trigger] t.runnable(cur, q) implies !(t.get_spec(q).ppid == cur && !((want as isize) > 0 && q != want)) by {
            let j = t.index_of(q);
            t.lemma_index_of(j);
            assert(!(t.procs()[j].ppid == cur && t.procs()[j].state == ProcState::Ready
                && t.procs()[j].pid != cur && !((want as isize) > 0 && t.procs()[j].pid != want)));
        }
    }
    false
}

/// `wait4`: reaps the first zombie child of the running process (the one
/// with pid `pid` when that is positive): writes its status (exit code
/// times 256) at `wstatus` unless null, removes it and returns its pid.
/// Without one, returns 0 when `options` asks not to wait (`WNOHANG`);
/// else, while a child that could still exit is there, the caller blocks:
/// its registers are saved with `sepc` at its `ecall`, so that it makes the
/// call again when it runs next, and the next ready process in round-robin
/// order of pids runs; with no such child, returns -11.
pub fn sys_wait4(k: &mut Kernel, pid: usize, wstatus: usize, options: usize) -> (r: Result<Outcome, KernelPanic>)
    requires
        old(k).wf(),
    ensures
        final(k).wf(),
        wait4_call(*old(k), *final(k), pid, wstatus, options, r),
{
    let cur = k.procs.current_pid();
    let ghost s = k.procs.procs();
    let mut found: Option<usize> = None;
    let mut i: usize = 0;
    while i < k.procs.len()
        invariant_except_break
            found is None,
            first_zombie(s, cur, pid, 0) == first_zombie(s, cur, pid, i as int),
        invariant
            i <= s.len(),
            s == k.procs.procs(),
            cur == k.procs.current(),
            *k == *old(k),
        ensures
            found is None ==> first_zombie(s, cur, pid, 0) == None::<int>,
            found matches Some(j) ==> first_zombie(s, cur, pid, 0) == Some(j as int) && j < s.len(),
        decreases s.len() - i,
    {
        let p = k.procs.at(i);
        if p.ppid == cur && p.state == ProcState::Zombie {
            if !((pid as isize) > 0 && p.pid != pid) {
                proof {
                    assert(first_zombie(s, cur, pid, i as int) == Some(i as int));
                }
                found = Some(i);
                break;
            }
        }
        i = i + 1;
    }
    let j = match found {
        Some(j) => j,
        None => {
            if options & 1 != 0 {
                return Ok(Outcome::Ret(0));
            }
            if has_live_child(&k.procs, cur, pid) {
                match k.procs.next_ready(cur) {
                    Some(n) => {
                        switch_to(k, n);
                        return Ok(Outcome::Switched);
                    },
                    None => {},
                }
            }
            return Ok(Outcome::Ret(EAGAIN));
        },
    };
    let z = k.procs.at(j);
    let zpid = z.pid;
    let code = z.exit_code;
    if wstatus != 0 {
        let mut v: Vec<u8> = Vec::new();
        proof {
            assert(((code & 0xff) << 8) >= 0 && ((code & 0xff) << 8) <= 0xff00) by (bit_vector);
        }
        push_le(&mut v, ((code & 0xff) << 8) as u64, 8);
        if !k.copy_out(wstatus, v.as_slice()) {
            return Err(KernelPanic);
        }
    }
    let ghost t1 = k.procs;
    k.procs.remove(zpid);
    proof {
        t1.lemma_index_of(j as int);
    }
    Ok(Outcome::Ret(zpid as isize))
}

} // verus!

verus! {

proof fn lemma_aligned_top(x: usize)
    ensures
        (x & !0xfffusize) + 4095 <= usize::MAX,
{
    assert(((x & !0xfffusize) | 0xfffusize) == (x & !0xfffusize) + 0xfff) by (bit_vector);
}


/// Page `v` shares its slot with a page from `a` up to `b`.
pub open spec fn in_slot_range(v: int, a: int, b: int) -> bool {
    exists|w: int| a <= w < b && #[trigger] same_slot(v, w)
}

/// Maps every page of `[start, end)` that `pt` leaves unmapped to a fresh
/// frame with `flags`, skipping pages once memory runs out; `Err` where the
/// kernel stops. It succeeds where three pages are free for each page of
/// the range.
fn map_fresh_pages(pt: &PageTable, mem: &mut PhysMem, start: usize, end: usize, flags: PTEFlags) -> (r: Result<(), KernelPanic>)
    requires
        old(mem).wf(),
        flags.wf(),
        start % 4096 == 0,
        end % 4096 == 0,
        end + 4095 <= usize::MAX,
    ensures
        final(mem).wf(),
        final(mem).first_ppn() == old(mem).first_ppn(),
        forall|p: int| old(mem).is_frame(p) ==> final(mem).is_frame(p),
        pt.wf(*old(mem)) ==> {
            &&& pt.wf(*final(mem))
            &&& forall|v: int| #[trigger] pt.lookup(*old(mem), v) is Some ==> pt.lookup(*final(mem), v) == pt.lookup(*old(mem), v)
            &&& r is Ok ==> forall|v: int| start / 4096 <= v < end / 4096 ==> #[trigger] pt.lookup(*final(mem), v) is Some || final(mem).free_pages() == 0
            &&& r is Ok ==> pages_added(*pt, *old(mem), *final(mem), flags.bits)
            &&& r is Ok ==> forall|v: int| #[trigger] pt.lookup(*final(mem), v) != pt.lookup(*old(mem), v)
                ==> in_slot_range(v, (start / 4096) as int, (end / 4096) as int)
        },
        pt.wf(*old(mem)) && (end <= start || 3 * ((end - start) / 4096) <= old(mem).free_pages()) ==> {
            &&& r is Ok
            &&& forall|v: int| start / 4096 <= v < end / 4096 ==> #[trigger] pt.lookup(*final(mem), v) is Some
        },
{
    let ghost enough = pt.wf(*old(mem)) && (end <= start || 3 * ((end - start) / 4096) <= old(mem).free_pages());
    let mut page = start;
    while page < end
        invariant
            enough == (pt.wf(*old(mem)) && (end <= start || 3 * ((end - start) / 4096) <= old(mem).free_pages())),
            start <= page,
            enough && start < end ==> 3 * ((end - page) / 4096) <= mem.free_pages(),
            enough ==> forall|v: int| start / 4096 <= v < page / 4096 ==> #[trigger] pt.lookup(*mem, v) is Some,
            page <= end || page == start,
            page % 4096 == 0,
            start <= page || start >= end,
            end % 4096 == 0,
            end + 4095 <= usize::MAX,
            flags.wf(),
            old(mem).wf(),
            mem.wf(),
            mem.first_ppn() == old(mem).first_ppn(),
            forall|p: int| old(mem).is_frame(p) ==> mem.is_frame(p),
            pt.wf(*old(mem)) ==> {
                &&& pt.wf(*mem)
                &&& forall|v: int| #[trigger] pt.lookup(*old(mem), v) is Some ==> pt.lookup(*mem, v) == pt.lookup(*old(mem), v)
                &&& forall|v: int| start / 4096 <= v < page / 4096 ==> #[trigger] pt.lookup(*mem, v) is Some || mem.free_pages() == 0
                &&& pages_added(*pt, *old(mem), *mem, flags.bits)
                &&& forall|v: int| #[trigger] pt.lookup(*mem, v) != pt.lookup(*old(mem), v)
                    ==> in_slot_range(v, (start / 4096) as int, (page / 4096) as int)
            },
        decreases end - page,
    {
        let ghost mb = *mem;
        proof {
            mb.lemma_wf_facts();
        }
        if pt.translate(mem, page).is_none() {
            match mem.alloc_page() {
                Some(pa) => {
                    let ghost ma = *mem;
                    proof {
                        assert forall|p: int, x: int| #[trigger] ma.entry(p, x) == mb.entry(p, x) by {
                            mb.lemma_word_outside(p, x);
                        }
                        crate::pagetable::lemma_same_entries(*pt, mb, ma);
                    }
                    proof {
                        if pt.wf(*old(mem)) {
                            lemma_grows_old_words(*pt, mb, ma);
                            lemma_grows_trans(*pt, *old(mem), mb, ma);
                            assert forall|v: int| #[trigger] pt.lookup(ma, v) != pt.lookup(*old(mem), v) implies
                                pt.lookup(*old(mem), v) is None
                                && exists|q: usize| pt.lookup(ma, v) == Some(leaf_bits(q, flags.bits)) by {
                                assert(pt.lookup(ma, v) == pt.lookup(mb, v));
                            }
                        }
                    }
                    proof {
                        if enough {
                            assert((end - page) / 4096 >= 1);
                            assert(ma.free_pages() >= 2);
                            assert(pt.lookup(ma, (page / 4096) as int) is None);
                            assert(pt.pages_needed(ma, (page / 4096) as int) <= 2);
                        }
                    }
                    if !pt.map_checked(mem, page, pa, flags) {
                        return Err(KernelPanic);
                    }
                    proof {
                        if pt.wf(*old(mem)) {
                            assert(same_slot(page as int / 4096, page as int / 4096));
                            mb.lemma_free_monotone(*mem);
                            let m3 = *mem;
                            lemma_grows_trans(*pt, *old(mem), ma, m3);
                            assert forall|v: int| #[trigger] pt.lookup(m3, v) != pt.lookup(*old(mem), v) implies
                                pt.lookup(*old(mem), v) is None
                                && exists|q: usize| pt.lookup(m3, v) == Some(leaf_bits(q, flags.bits)) by {
                                if same_slot(v, (page / 4096) as int) {
                                    assert(pt.lookup(ma, v) == pt.lookup(ma, (page / 4096) as int));
                                    assert(pt.lookup(m3, v) == Some(leaf_bits(pa, flags.bits)));
                                } else {
                                    assert(pt.lookup(m3, v) == pt.lookup(ma, v));
                                }
                            }
                        }
                    }
                },
                None => {},
            }
        }
        proof {
            old(mem).lemma_free_monotone(*mem);
            mb.lemma_free_monotone(*mem);
            assert((page + 4096) / 4096 == page / 4096 + 1);
            if enough {
                assert forall|v: int| start / 4096 <= v < (page + 4096) / 4096 implies #[trigger] pt.lookup(*mem, v) is Some by {
                    if v < page / 4096 {
                        assert(pt.lookup(mb, v) is Some);
                    } else {
                        assert(v == page / 4096);
                    }
                }
            }
            if enough && start < end {
                assert((end - page) / 4096 == (end - (page + 4096)) / 4096 + 1);
            }
        }
        page = page + 4096;
    }
    Ok(())
}

/// The break a process with break `brk` starts from: 0x10000 when it has
/// none yet.
pub open spec fn brk_base(brk: usize) -> usize {
    if brk == 0 { 0x10000 } else { brk }
}

/// A kernel whose memory kept every frame, with the same files, processes
/// and pipes, is well formed.
proof fn lemma_wf_kept(k0: Kernel, k1: Kernel)
    requires
        k0.wf(),
        k1.mem.wf(),
        forall|p: int| k0.mem.is_frame(p) ==> k1.mem.is_frame(p),
        k1.fs == k0.fs && k1.procs == k0.procs && k1.pipes == k0.pipes,
        k1.fds == k0.fds && k1.next_pipe_id == k0.next_pipe_id,
    ensures
        k1.wf(),
{
    assert forall|q: usize| #[trigger] k1.procs.has(q) implies k1.mem.is_frame(k1.procs.get_spec(q).page_table.root()) by {
        assert(k0.mem.is_frame(k0.procs.get_spec(q).page_table.root()));
    }
}

/// What `sys_brk` returns and leaves in the kernel, from the kernel `k0` it is called on to the kernel `k1` it leaves.
pub open spec fn brk_call(k0: Kernel, k1: Kernel, addr: usize, r: Result<isize, KernelPanic>) -> bool {
    &&& (k1.fs == k0.fs && k1.fds == k0.fds && k1.procs.current() == k0.procs.current())
    &&& (!k0.procs.has(k0.procs.current()) ==> r == Ok::<isize, KernelPanic>(-1isize) && k1 == k0)
    &&& (k0.procs.has(k0.procs.current()) ==> ({
                let cur = k0.procs.current();
                let p = k0.procs.get_spec(cur);
                let np = k1.procs.get_spec(cur);
                let b = brk_base(p.brk);
                let start = b.wrapping_add(0xfff) & !0xfffusize;
                let end = addr.wrapping_add(0xfff) & !0xfffusize;
                &&& addr == 0 ==> r == Ok::<isize, KernelPanic>(b as isize) && k1.mem == k0.mem
                &&& addr != 0 && (addr <= b || (p.page_table.wf(k0.mem)
                        && (end <= start || 3 * ((end - start) / 4096) <= k0.mem.free_pages()))) ==> {
                    &&& r == Ok::<isize, KernelPanic>(addr as isize)
                    &&& addr > b ==> forall|v: int| start / 4096 <= v < end / 4096 ==> #[trigger] p.page_table.lookup(k1.mem, v) is Some
                }
                &&& r is Ok ==> {
                    &&& k1.procs.has(cur)
                    &&& np.brk == if addr == 0 { b } else { addr }
                    &&& np.page_table == p.page_table && np.trap_frame == p.trap_frame && np.state == p.state
                    &&& np.pid == p.pid && np.ppid == p.ppid && np.fd_table == p.fd_table
                    &&& forall|q: usize| #[trigger] k1.procs.has(q) == k0.procs.has(q)
                    &&& forall|q: usize| q != cur && k0.procs.has(q) ==> #[trigger] k1.procs.get_spec(q) == k0.procs.get_spec(q)
                    &&& addr != 0 ==> r->Ok_0 == addr as isize
                    &&& addr != 0 && addr > b && p.page_table.wf(k0.mem) ==>
                        forall|v: int| start / 4096 <= v < end / 4096 ==> #[trigger] p.page_table.lookup(k1.mem, v) is Some || k1.mem.free_pages() == 0
                    &&& addr != 0 && addr > b && p.page_table.wf(k0.mem) ==> pages_added(p.page_table, k0.mem, k1.mem, 0x16usize)
                    &&& addr != 0 && addr > b && p.page_table.wf(k0.mem) ==> forall|v: int|
                        #[trigger] p.page_table.lookup(k1.mem, v) != p.page_table.lookup(k0.mem, v)
                        ==> in_slot_range(v, (start / 4096) as int, (end / 4096) as int)
                    &&& !(addr != 0 && addr > b) ==> k1.mem == k0.mem
                }
            }))
}

/// `brk`: with `addr` 0, returns the running process's break; otherwise
/// maps the pages from the old break up to `addr` that are not mapped yet
/// (as long as memory lasts), sets the break to `addr` and returns it. -1
/// when there is no running process. A non-zero `addr` succeeds where the
/// process's table is well formed and three pages are free for each page
/// to map.
pub fn sys_brk(k: &mut Kernel, addr: usize) -> (r: Result<isize, KernelPanic>)
    requires
        old(k).wf(),
    ensures
        final(k).wf(),
        brk_call(*old(k), *final(k), addr, r),
{
    let pid = k.procs.current_pid();
    if !k.procs.get(pid).is_some() {
        return Ok(-1);
    }
    proof {
        k.procs.lemma_has_pid(pid);
    }
    let ghost t0 = k.procs;
    let mut p = match k.procs.remove(pid) {
        Some(p) => p,
        None => return Ok(-1),
    };
    if p.brk == 0 {
        p.brk = 0x10000;
    }
    if addr == 0 {
        let b = p.brk;
        put_back(k, p);
        proof {
            assert forall|q: usize| #[trigger] k.procs.has(q) implies k.mem.is_frame(k.procs.get_spec(q).page_table.root()) by {
                if q != pid {
                    assert(t0.has(q));
                }
            }
        }
        return Ok(b as isize);
    }
    if addr > p.brk {
        let start = p.brk.wrapping_add(0xfff) & !0xfff;
        let end = addr.wrapping_add(0xfff) & !0xfff;
        proof {
            lemma_page_align(p.brk.wrapping_add(0xfff));
            lemma_page_align(addr.wrapping_add(0xfff));
            lemma_aligned_top(addr.wrapping_add(0xfff));
            assert((16usize | 2usize) | 4usize == 0x16usize) by (bit_vector);
        }
        let flags = PTEFlags::U().union(PTEFlags::R()).union(PTEFlags::W());
        let ghost m0 = k.mem;
        match map_fresh_pages(&p.page_table, &mut k.mem, start, end, flags) {
            Ok(()) => {},
            Err(e) => return Err(e),
        }
    }
    p.brk = addr;
    put_back(k, p);
    proof {
        assert forall|q: usize| #[trigger] k.procs.has(q) implies k.mem.is_frame(k.procs.get_spec(q).page_table.root()) by {
            if q != pid {
                assert(t0.has(q));
            }
        }
    }
    Ok(addr as isize)
}

} // verus!

verus! {

/// Where `mmap` puts a mapping of `len` bytes: at `addr` when `flags` asks
/// for a fixed address, else at the next free address from 0x5000_0000 on.
pub open spec fn mmap_ret(base: usize, addr: usize, flags: usize) -> usize {
    if flags & 0x10 != 0 { addr } else if base == 0 { 0x5000_0000 } else { base }
}

/// The next free mmap address after a mapping of `len` bytes.
pub open spec fn mmap_next(base: usize, len: usize, flags: usize) -> usize {
    let b = if base == 0 { 0x5000_0000usize } else { base };
    if flags & 0x10 != 0 { b } else { b.wrapping_add(len.wrapping_add(0xfff) & !0xfffusize) }
}

/// The leaf flags of a mapping with protection `prot`: user, plus read,
/// write and execute as `prot` asks.
pub open spec fn prot_bits(prot: usize) -> usize {
    let a = if prot & 1 != 0 { 16usize | 2usize } else { 16usize };
    let b = if prot & 2 != 0 { a | 4usize } else { a };
    if prot & 4 != 0 { b | 8usize } else { b }
}

/// The leaf flags of a mapping with protection `prot`.
fn prot_flags(prot: usize) -> (f: PTEFlags)
    ensures
        f.wf(),
        f.bits == prot_bits(prot),
{
    let mut f = PTEFlags::U();
    if prot & 1 != 0 {
        f = f.union(PTEFlags::R());
    }
    if prot & 2 != 0 {
        f = f.union(PTEFlags::W());
    }
    if prot & 4 != 0 {
        f = f.union(PTEFlags::X());
    }
    f
}

/// How mapping pages with leaf flags `bits` changed table `pt` from memory
/// `m0` to `m1`: it stays well formed and grows, and the only pages whose
/// entry changed were not mapped before and now map a frame with `bits`.
pub open spec fn pages_added(pt: PageTable, m0: PhysMem, m1: PhysMem, bits: usize) -> bool {
    &&& pt.wf(m1)
    &&& pt.grows(m0, m1)
    &&& forall|v: int| #[trigger] pt.lookup(m1, v) != pt.lookup(m0, v) ==> pt.lookup(m0, v) is None
        && exists|pa: usize| pt.lookup(m1, v) == Some(leaf_bits(pa, bits))
}

/// How mapping the pages of an `mmap` with protection `prot` changed table
/// `pt` from memory `m0` to `m1`.
pub open spec fn mmap_mapped(pt: PageTable, m0: PhysMem, m1: PhysMem, prot: usize) -> bool {
    pages_added(pt, m0, m1, prot_bits(prot))
}

/// Law: each page that the mapping step of an `mmap` with protection
/// `prot` adds was unmapped before and now has the user and valid bits,
/// the execute bit exactly when `prot & 4` (`PROT_EXEC`), the read bit
/// exactly when `prot & 1` and the write bit exactly when `prot & 2`.
pub proof fn law_mmap_page_permissions(pt: PageTable, m0: PhysMem, m1: PhysMem, prot: usize, v: int)
    requires
        mmap_mapped(pt, m0, m1, prot),
        pt.lookup(m1, v) != pt.lookup(m0, v),
    ensures
        pt.lookup(m0, v) is None,
        pt.lookup(m1, v) is Some,
        (pt.lookup(m1, v)->0 & 8usize != 0) == (prot & 4 != 0),
        (pt.lookup(m1, v)->0 & 2usize != 0) == (prot & 1 != 0),
        (pt.lookup(m1, v)->0 & 4usize != 0) == (prot & 2 != 0),
        pt.lookup(m1, v)->0 & 16usize != 0,
        pt.lookup(m1, v)->0 & 1usize != 0,
{
    let pa = choose|pa: usize| pt.lookup(m1, v) == Some(leaf_bits(pa, prot_bits(prot)));
    let (r, w, x) = (prot & 1 != 0, prot & 2 != 0, prot & 4 != 0);
    assert(prot_bits(prot) == user_perm_bits(r, w, x));
    lemma_user_leaf_perms(leaf_bits(pa, prot_bits(prot)), r, w, x);
    lemma_leaf_bits(pa, prot_bits(prot));
}

/// Law: two `mmap` calls in a row, neither with `MAP_FIXED`, place their
/// mappings one after the other: the first starts at 0x5000_0000 when no
/// mapping was made before, and the second starts at the first page
/// boundary at or past the first one's end, so the two never overlap.
pub proof fn law_mmap_back_to_back(k0: Kernel, k1: Kernel, k2: Kernel, addr1: usize, len1: usize, prot1: usize,
    flags1: usize, fd1: usize, off1: usize, r1: Result<isize, KernelPanic>, addr2: usize, len2: usize, prot2: usize,
    flags2: usize, fd2: usize, off2: usize, r2: Result<isize, KernelPanic>)
    requires
        mmap_call(k0, k1, addr1, len1, prot1, flags1, fd1, off1, r1),
        mmap_call(k1, k2, addr2, len2, prot2, flags2, fd2, off2, r2),
        r1 is Ok && r2 is Ok,
        flags1 & 0x10 == 0 && flags2 & 0x10 == 0,
        len1 + 0xfff <= usize::MAX,
        k0.mmap_base + len1 + 0x1000 <= isize::MAX,
        0x5000_0000 + len1 + 0x1000 <= isize::MAX,
    ensures
        k0.mmap_base == 0 ==> r1->Ok_0 == 0x5000_0000,
        k0.mmap_base != 0 ==> r1->Ok_0 == k0.mmap_base as isize,
        (r2->Ok_0 - r1->Ok_0) % 4096 == 0,
        r1->Ok_0 + len1 <= r2->Ok_0 < r1->Ok_0 + len1 + 4096,
{
    let b = if k0.mmap_base == 0 { 0x5000_0000usize } else { k0.mmap_base };
    lemma_page_align(len1.wrapping_add(0xfff));
    let span = mmap_span(len1);
    assert(len1.wrapping_add(0xfff) == len1 + 0xfff);
    assert(span % 4096 == 0 && span <= len1 + 0xfff && len1 + 0xfff - span < 4096);
    assert(r1->Ok_0 == b as isize);
    assert(k1.mmap_base == b.wrapping_add(span));
    assert(b + span <= usize::MAX);
    assert(k1.mmap_base == b + span);
    assert(k1.mmap_base != 0);
    assert(r2->Ok_0 == (b + span) as isize);
}

/// Law: a successful `mmap` in a process with a well-formed table first
/// maps its pages so that each page it adds (one unmapped before) has the
/// user and valid bits and exactly the read, write and execute bits that
/// `prot` asks (`PROT_READ` 1, `PROT_WRITE` 2, `PROT_EXEC` 4), and the whole
/// returned range is mapped.
pub proof fn law_mmap_call_permissions(k0: Kernel, k1: Kernel, addr: usize, len: usize, prot: usize, flags: usize,
    fd: usize, offset: usize, r: Result<isize, KernelPanic>) -> (w: (PhysMem, usize))
    requires
        mmap_call(k0, k1, addr, len, prot, flags, fd, offset, r),
        r is Ok,
        k0.upt() is Some,
        k0.upt()->0.wf(k0.mem),
    ensures
        ({
            let (m, start) = w;
            &&& r->Ok_0 == start as isize
            &&& forall|v: int| #[trigger] k0.upt()->0.lookup(m, v) != k0.upt()->0.lookup(k0.mem, v) ==> {
                &&& k0.upt()->0.lookup(k0.mem, v) is None
                &&& k0.upt()->0.lookup(m, v) is Some
                &&& (k0.upt()->0.lookup(m, v)->0 & 8usize != 0) == (prot & 4 != 0)
                &&& (k0.upt()->0.lookup(m, v)->0 & 2usize != 0) == (prot & 1 != 0)
                &&& (k0.upt()->0.lookup(m, v)->0 & 4usize != 0) == (prot & 2 != 0)
                &&& k0.upt()->0.lookup(m, v)->0 & 16usize != 0
                &&& k0.upt()->0.lookup(m, v)->0 & 1usize != 0
            }
            &&& mmap_span(len) > 0 ==> range_mapped(k0.upt()->0, m, start as int, mmap_span(len) as int)
        }),
{
    let pt = k0.upt()->0;
    let ret = mmap_ret(k0.mmap_base, addr, flags);
    let bytes = mmap_file_bytes(k0, len, flags, fd, offset);
    let alen: nat = mmap_span(len) as nat;
    assert(mmap_memory(k0, k1, ret, alen, prot, bytes));
    let (km, kz) = choose|km: Kernel, kz: Kernel|
        #![trigger km.same_but_mem(k1), kz.same_but_mem(k1)]
        {
        &&& km.same_but_mem(k1) && kz.same_but_mem(k1)
        &&& (k0.upt() is Some && k0.upt()->0.wf(k0.mem) ==> mmap_mapped(k0.upt()->0, k0.mem, km.mem, prot))
        &&& (k0.upt() is None ==> km.mem == k0.mem)
        &&& (alen > 0 ==> km.mapped(ret as int, alen as int) && km.wrote(kz.mem, ret as int, zeros(alen)))
        &&& (alen == 0 ==> kz.mem == km.mem)
        &&& (bytes.len() > 0 ==> kz.wrote(k1.mem, ret as int, bytes))
        &&& (bytes.len() == 0 ==> k1.mem == kz.mem)
    };
    assert(km.procs == k0.procs);
    assert(km.upt() == k0.upt());
    assert forall|v: int| #[trigger] pt.lookup(km.mem, v) != pt.lookup(k0.mem, v) implies {
        &&& pt.lookup(k0.mem, v) is None
        &&& pt.lookup(km.mem, v) is Some
        &&& (pt.lookup(km.mem, v)->0 & 8usize != 0) == (prot & 4 != 0)
        &&& (pt.lookup(km.mem, v)->0 & 2usize != 0) == (prot & 1 != 0)
        &&& (pt.lookup(km.mem, v)->0 & 4usize != 0) == (prot & 2 != 0)
        &&& pt.lookup(km.mem, v)->0 & 16usize != 0
        &&& pt.lookup(km.mem, v)->0 & 1usize != 0
    } by {
        law_mmap_page_permissions(pt, k0.mem, km.mem, prot, v);
    }
    assert(r->Ok_0 == ret as isize);
    assert(mmap_span(len) > 0 ==> range_mapped(pt, km.mem, ret as int, mmap_span(len) as int));
    (km.mem, ret)
}

/// Law: a successful `brk` that moves the break of a process with a
/// well-formed table up maps each page it adds (one unmapped before) for
/// the user, readable and writable, and not executable.
pub proof fn law_brk_page_permissions(k0: Kernel, k1: Kernel, addr: usize, r: Result<isize, KernelPanic>, v: int)
    requires
        brk_call(k0, k1, addr, r),
        r is Ok,
        k0.procs.has(k0.procs.current()),
        addr != 0,
        addr > brk_base(k0.procs.get_spec(k0.procs.current()).brk),
        k0.procs.get_spec(k0.procs.current()).page_table.wf(k0.mem),
        k0.procs.get_spec(k0.procs.current()).page_table.lookup(k1.mem, v)
            != k0.procs.get_spec(k0.procs.current()).page_table.lookup(k0.mem, v),
    ensures
        ({
            let pt = k0.procs.get_spec(k0.procs.current()).page_table;
            &&& pt.lookup(k0.mem, v) is None
            &&& pt.lookup(k1.mem, v) is Some
            &&& pt.lookup(k1.mem, v)->0 & 2usize != 0
            &&& pt.lookup(k1.mem, v)->0 & 4usize != 0
            &&& pt.lookup(k1.mem, v)->0 & 8usize == 0
            &&& pt.lookup(k1.mem, v)->0 & 16usize != 0
            &&& pt.lookup(k1.mem, v)->0 & 1usize != 0
        }),
{
    let pt = k0.procs.get_spec(k0.procs.current()).page_table;
    assert(pages_added(pt, k0.mem, k1.mem, 0x16usize));
    let pa = choose|pa: usize| pt.lookup(k1.mem, v) == Some(leaf_bits(pa, 0x16usize));
    lemma_user_leaf_perms(leaf_bits(pa, 0x16usize), true, true, false);
    lemma_leaf_bits(pa, 0x16usize);
}

/// The bytes a file-backed `mmap` copies in: those of the file open at
/// `fd` from `offset` on, at most `len`; none for an anonymous mapping
/// (`MAP_ANONYMOUS`), a negative `fd`, or one with no file behind it.
pub open spec fn mmap_file_bytes(k: Kernel, len: usize, flags: usize, fd: usize, offset: usize) -> Seq<u8> {
    if flags & 0x20 == 0 && (fd as isize) >= 0 && k.fds.get_spec(fd as int) is Some
        && k.fs.inode_file(k.fds.get_spec(fd as int)->0.inode as int) is Some {
        let data = k.fs.inode_file(k.fds.get_spec(fd as int)->0.inode as int)->0.bytes();
        data.subrange(offset as int, offset + vstd::math::min(data.len() - offset, len as int))
    } else {
        Seq::empty()
    }
}

/// The bytes an `mmap` of `len` bytes spans: `len` rounded up to pages.
pub open spec fn mmap_span(len: usize) -> usize {
    len.wrapping_add(0xfffusize) & !0xfffusize
}

/// What a successful `mmap` of `alen` bytes at `ret` leaves in memory, from
/// kernel `k0` to kernel `k1`: first the pages are mapped (as
/// `mmap_mapped` says, where the process's table is well formed), the whole
/// range being mapped then; then the range is zeroed; then `bytes` are
/// written at its start.
pub open spec fn mmap_memory(k0: Kernel, k1: Kernel, ret: usize, alen: nat, prot: usize, bytes: Seq<u8>) -> bool {
    exists|km: Kernel, kz: Kernel|
        #![trigger km.same_but_mem(k1), kz.same_but_mem(k1)]
        {
            &&& km.same_but_mem(k1) && kz.same_but_mem(k1)
            &&& (k0.upt() is Some && k0.upt()->0.wf(k0.mem) ==> mmap_mapped(k0.upt()->0, k0.mem, km.mem, prot))
            &&& (k0.upt() is None ==> km.mem == k0.mem)
            &&& (alen > 0 ==> km.mapped(ret as int, alen as int) && km.wrote(kz.mem, ret as int, zeros(alen)))
            &&& (alen == 0 ==> kz.mem == km.mem)
            &&& (bytes.len() > 0 ==> kz.wrote(k1.mem, ret as int, bytes))
            &&& (bytes.len() == 0 ==> k1.mem == kz.mem)
        }
}

/// What `sys_mmap` returns and leaves in the kernel, from the kernel `k0` it is called on to the kernel `k1` it leaves.
pub open spec fn mmap_call(k0: Kernel, k1: Kernel, addr: usize, len: usize, prot: usize, flags: usize, fd: usize, offset: usize, r: Result<isize, KernelPanic>) -> bool {
    &&& (k1.fs == k0.fs && k1.fds == k0.fds && k1.procs == k0.procs)
    &&& (k1.pipes == k0.pipes && k1.fake_fds == k0.fake_fds && k1.net == k0.net)
    &&& (k1.mmap_base == mmap_next(k0.mmap_base, len, flags))
    &&& (r is Ok ==> r->Ok_0 == mmap_ret(k0.mmap_base, addr, flags) as isize)
    &&& (r is Ok ==> mmap_memory(k0, k1, mmap_ret(k0.mmap_base, addr, flags), mmap_span(len) as nat, prot,
                mmap_file_bytes(k0, len, flags, fd, offset)))
    &&& (flags & 0x20 == 0 && (fd as isize) >= 0 && k0.fds.get_spec(fd as int) is Some
            && k0.fs.inode_file(k0.fds.get_spec(fd as int)->0.inode as int) is Some
            && offset > k0.fs.inode_file(k0.fds.get_spec(fd as int)->0.inode as int)->0.bytes().len() ==> r is Err)
    &&& (k0.upt() is None && mmap_span(len) > 0 ==> r is Err)
    &&& (mmap_room(k0, mmap_ret(k0.mmap_base, addr, flags), mmap_span(len))
            && mmap_file_bytes(k0, len, flags, fd, offset).len() == 0
            && !mmap_past_end(k0, flags, fd, offset) ==> r is Ok)
    &&& (mmap_room(k0, mmap_ret(k0.mmap_base, addr, flags), mmap_span(len))
            && mmap_fresh(k0, mmap_ret(k0.mmap_base, addr, flags), mmap_span(len))
            && len <= mmap_span(len)
            && !mmap_past_end(k0, flags, fd, offset) ==> r is Ok)
}

/// None of the pages of `[ret, ret + alen)` is mapped in the running
/// process's table.
pub open spec fn mmap_fresh(k0: Kernel, ret: usize, alen: usize) -> bool {
    &&& k0.upt() is Some
    &&& forall|v: int| ret / 4096 <= v < (ret + alen) / 4096 ==> #[trigger] k0.upt()->0.lookup(k0.mem, v) is None
}

/// Page `v` maps a frame of memory that holds none of `pt`'s tables.
pub open spec fn fresh_leaf(pt: PageTable, mem: PhysMem, v: int) -> bool {
    &&& pt.lookup(mem, v) is Some
    &&& mem.is_frame(pte_ppn(pt.lookup(mem, v)->0) as int)
    &&& pt.not_table(mem, pte_ppn(pt.lookup(mem, v)->0) as int)
}

/// The frame of an address built from a frame number below 2^20 and an
/// offset is that frame number.
proof fn lemma_pa_frame(g: usize, a: usize)
    requires
        g < 0x10_0000,
    ensures
        (((g << 12usize) | (a & 0xfffusize)) as usize) / 4096 == g,
{
    assert(((g << 12usize) | (a & 0xfffusize)) >> 12usize == g) by (bit_vector)
        requires
            g < 0x10_0000;
    lemma_shr12((g << 12usize) | (a & 0xfffusize));
}

/// Writing at most `alen` bytes at `ret`, all of whose pages map frames
/// that hold none of `pt`'s tables, keeps `pt` and every lookup as they
/// were.
proof fn lemma_fresh_write_keeps(pt: PageTable, m0: PhysMem, m1: PhysMem, ret: usize, alen: usize, data: Seq<u8>)
    requires
        m0.wf(),
        pt.wf(m0),
        ret % 4096 == 0,
        alen % 4096 == 0,
        ret + alen <= usize::MAX,
        data.len() <= alen,
        forall|v: int| ret / 4096 <= v < (ret + alen) / 4096 ==> #[trigger] fresh_leaf(pt, m0, v),
        forall|p: int| m0.is_frame(p) <==> m1.is_frame(p),
        ({
            let ov = overlay(user_pas(pt, m0, ret as int, data.len()), data, data.len() as int);
            forall|q: int| #[trigger] m1.byte(q)
                == if ov.dom().contains(q) && m0.is_frame(q / 4096) { ov[q] } else { m0.byte(q) }
        }),
    ensures
        pt.wf(m1),
        forall|v: int| #[trigger] pt.lookup(m1, v) == pt.lookup(m0, v),
        forall|v: usize| #[trigger] pt.translate_spec(m1, v) == pt.translate_spec(m0, v),
{
    m0.lemma_wf_facts();
    let pas = user_pas(pt, m0, ret as int, data.len());
    assert forall|i: int| 0 <= i < data.len() implies pt.not_table(m0, #[trigger] pas[i] as int / 4096) by {
        let a = (ret + i) as usize;
        let v = (a / 4096) as int;
        assert(a == ret + i);
        assert((ret + i) / 4096 == ret / 4096 + i / 4096);
        assert((ret + alen) / 4096 == ret / 4096 + alen / 4096);
        assert(i / 4096 < alen / 4096);
        assert(ret / 4096 <= v < (ret + alen) / 4096);
        assert(fresh_leaf(pt, m0, v));
        let e = pt.lookup(m0, v)->0;
        let g = pte_ppn(e);
        assert(m0.is_frame(g as int));
        assert(g < 0x10_0000);
        lemma_pa_frame(g, a);
        assert(pas[i] == (((g << 12usize) | (a & 0xfffusize)) as usize));
    }
    lemma_write_keeps_tables(pt, m0, m1, ret as int, data);
}

/// An `mmap` whose file offset lies past the end of the file it maps.
pub open spec fn mmap_past_end(k0: Kernel, flags: usize, fd: usize, offset: usize) -> bool {
    flags & 0x20 == 0 && (fd as isize) >= 0 && k0.fds.get_spec(fd as int) is Some
        && k0.fs.inode_file(k0.fds.get_spec(fd as int)->0.inode as int) is Some
        && offset > k0.fs.inode_file(k0.fds.get_spec(fd as int)->0.inode as int)->0.bytes().len()
}

/// An `mmap` of `alen` bytes at `ret` has room in `k0`: nothing to map, or
/// the running process's table is well formed, the range is page-aligned
/// and inside the address space, and three free pages remain for each of
/// its pages.
pub open spec fn mmap_room(k0: Kernel, ret: usize, alen: usize) -> bool {
    alen == 0 || {
        &&& k0.upt() is Some
        &&& k0.upt()->0.wf(k0.mem)
        &&& ret % 4096 == 0
        &&& ret + alen <= usize::MAX
        &&& 3 * (alen / 4096) <= k0.mem.free_pages()
    }
}

/// `mmap`: maps `len` bytes (rounded up to pages) at the address it
/// returns, each page not mapped yet to a fresh frame with the protection
/// `prot` (as long as memory lasts), zeroes them, and, unless the mapping
/// is anonymous or `fd` is negative, fills it from the file open at `fd`
/// at `offset`. It succeeds where the range has room (`mmap_room`) and
/// either nothing of the file is copied or none of its pages is mapped yet
/// (`mmap_fresh`), unless the offset lies past the file's end.
#[verifier::spinoff_prover]
#[verifier::rlimit(60)]
pub fn sys_mmap(k: &mut Kernel, addr: usize, len: usize, prot: usize, flags: usize, fd: usize, offset: usize) -> (r: Result<isize, KernelPanic>)
    requires
        old(k).wf(),
    ensures
        final(k).wf(),
        mmap_call(*old(k), *final(k), addr, len, prot, flags, fd, offset, r),
{
    if k.mmap_base == 0 {
        k.mmap_base = 0x5000_0000;
    }
    let aligned_len = len.wrapping_add(0xfff) & !0xfff;
    proof {
        lemma_page_align(len.wrapping_add(0xfff));
        lemma_aligned_top(len.wrapping_add(0xfff));
    }
    let ret = if flags & 0x10 != 0 {
        addr
    } else {
        let r = k.mmap_base;
        k.mmap_base = k.mmap_base.wrapping_add(aligned_len);
        r
    };
    let ghost k0 = *old(k);
    proof {
        assert(aligned_len == mmap_span(len));
        assert(ret == mmap_ret(k0.mmap_base, addr, flags));
    }
    let ghost room = mmap_room(k0, ret, aligned_len);
    let ghost fresh = room && aligned_len > 0 && mmap_fresh(k0, ret, aligned_len);
    let pt = k.current_pt();
    if let Some(pt) = pt {
        let pf = prot_flags(prot);
        let mut page: usize = 0;
        while page < aligned_len
            invariant
                page % 4096 == 0,
                aligned_len % 4096 == 0,
                aligned_len + 4095 <= usize::MAX,
                pf.wf(),
                pf.bits == prot_bits(prot),
                old(k).wf(),
                k0 == *old(k),
                k0.upt() == Some(pt),
                k.mem.wf(),
                k.mem.first_ppn() == old(k).mem.first_ppn(),
                forall|p: int| old(k).mem.is_frame(p) ==> k.mem.is_frame(p),
                k.fs == old(k).fs && k.fds == old(k).fds && k.procs == old(k).procs,
                k.pipes == old(k).pipes && k.fake_fds == old(k).fake_fds && k.net == old(k).net,
                k.mmap_base == mmap_next(old(k).mmap_base, len, flags),
                k.next_pipe_id == old(k).next_pipe_id && k.fake_fd_next == old(k).fake_fd_next,
                k.trap_frame == old(k).trap_frame && k.console == old(k).console,
                pt.wf(k0.mem) ==> mmap_mapped(pt, k0.mem, k.mem, prot),
                room == mmap_room(k0, ret, aligned_len),
                ret == mmap_ret(k0.mmap_base, addr, flags),
                aligned_len == mmap_span(len),
                room && aligned_len > 0 ==> {
                    &&& 3 * ((aligned_len - page) / 4096) <= k.mem.free_pages()
                    &&& page <= aligned_len
                    &&& forall|v: int| ret / 4096 <= v < (ret + page) / 4096 ==> #[trigger] pt.lookup(k.mem, v) is Some
                },
                fresh == (room && aligned_len > 0 && mmap_fresh(k0, ret, aligned_len)),
                fresh ==> forall|v: int| ret / 4096 <= v < (ret + aligned_len) / 4096
                    ==> #[trigger] pt.lookup(k.mem, v) is None || fresh_leaf(pt, k.mem, v),
            decreases aligned_len - page,
        {
            let va = ret.wrapping_add(page);
            let ghost mb = k.mem;
            proof {
                mb.lemma_wf_facts();
                if room && aligned_len > 0 {
                    assert(va == ret + page);
                    assert(va / 4096 == ret / 4096 + page / 4096);
                    assert((ret + page + 4096) / 4096 == (ret + page) / 4096 + 1);
                    assert((aligned_len - page) / 4096 >= 1);
                }
            }
            if pt.translate(&k.mem, va).is_none() {
                let ghost m1 = k.mem;
                match k.mem.alloc_page() {
                    Some(pa) => {
                        let ghost m2 = k.mem;
                        proof {
                            if pt.wf(k0.mem) {
                                lemma_grows_old_words(pt, m1, m2);
                                lemma_grows_trans(pt, k0.mem, m1, m2);
                                assert forall|v: int| #[trigger] pt.lookup(m2, v) != pt.lookup(k0.mem, v) implies
                                    pt.lookup(k0.mem, v) is None
                                    && exists|q: usize| pt.lookup(m2, v) == Some(leaf_bits(q, prot_bits(prot))) by {
                                    assert(pt.lookup(m2, v) == pt.lookup(m1, v));
                                }
                            }
                        }
                        proof {
                            if fresh {
                                let f = pa as int / 4096;
                                assert(f == m1.next_ppn());
                                assert forall|a: int| 0 <= a < 512 && #[trigger] pt.v0(m2, a) implies pt.l1(m2, a) != f by {
                                    assert(pt.v0(m1, a));
                                    assert(m1.is_frame(pt.l1(m1, a)));
                                }
                                assert forall|a: int, b: int| 0 <= a < 512 && 0 <= b < 512 && #[trigger] pt.v1(m2, a, b)
                                    implies pt.l2(m2, a, b) != f by {
                                    assert(pt.v1(m1, a, b));
                                    assert(m1.is_frame(pt.l2(m1, a, b)));
                                }
                                assert(pt.not_table(m2, f));
                                assert forall|v: int| ret / 4096 <= v < (ret + aligned_len) / 4096
                                    implies #[trigger] pt.lookup(m2, v) is None || fresh_leaf(pt, m2, v) by {
                                    assert(pt.lookup(m2, v) == pt.lookup(m1, v));
                                    if pt.lookup(m1, v) is Some {
                                        let g = pte_ppn(pt.lookup(m1, v)->0) as int;
                                        assert(fresh_leaf(pt, m1, v));
                                        assert forall|a: int| 0 <= a < 512 && #[trigger] pt.v0(m2, a) implies pt.l1(m2, a) != g by {
                                            assert(pt.v0(m1, a));
                                        }
                                        assert forall|a: int, b: int| 0 <= a < 512 && 0 <= b < 512 && #[trigger] pt.v1(m2, a, b)
                                            implies pt.l2(m2, a, b) != g by {
                                            assert(pt.v1(m1, a, b));
                                        }
                                    }
                                }
                            }
                            if room && aligned_len > 0 {
                                assert(pt.wf(m2));
                                assert(pt.lookup(m1, (va / 4096) as int) is None);
                                assert(pt.lookup(m2, (va / 4096) as int) == pt.lookup(m1, (va / 4096) as int));
                                assert(m2.free_pages() >= 2);
                                assert(pt.pages_needed(m2, (va / 4096) as int) <= 2);
                            }
                        }
                        if !pt.map_checked(&mut k.mem, va, pa, pf) {
                            proof {
                                lemma_wf_kept(*old(k), *k);
                            }
                            return Err(KernelPanic);
                        }
                        proof {
                            if fresh {
                                let m3 = k.mem;
                                let f = pa as int / 4096;
                                lemma_shr12(pa);
                                lemma_leaf_bits(pa, prot_bits(prot));
                                lemma_not_table_kept(pt, m2, m3, f);
                                assert forall|v: int| ret / 4096 <= v < (ret + aligned_len) / 4096
                                    implies #[trigger] pt.lookup(m3, v) is None || fresh_leaf(pt, m3, v) by {
                                    if same_slot(v, (va / 4096) as int) {
                                        assert(pt.lookup(m3, v) == Some(leaf_bits(pa, prot_bits(prot))));
                                    } else {
                                        assert(pt.lookup(m3, v) == pt.lookup(m2, v));
                                        if pt.lookup(m2, v) is Some {
                                            assert(fresh_leaf(pt, m2, v));
                                            lemma_not_table_kept(pt, m2, m3, pte_ppn(pt.lookup(m2, v)->0) as int);
                                        }
                                    }
                                }
                            }
                            if pt.wf(k0.mem) {
                                let m3 = k.mem;
                                lemma_grows_trans(pt, k0.mem, m2, m3);
                                assert forall|v: int| #[trigger] pt.lookup(m3, v) != pt.lookup(k0.mem, v) implies
                                    pt.lookup(k0.mem, v) is None
                                    && exists|q: usize| pt.lookup(m3, v) == Some(leaf_bits(q, prot_bits(prot))) by {
                                    if same_slot(v, (va / 4096) as int) {
                                        assert(pt.lookup(m2, v) == pt.lookup(m2, (va / 4096) as int));
                                        assert(pt.lookup(m3, v) == Some(leaf_bits(pa, prot_bits(prot))));
                                    } else {
                                        assert(pt.lookup(m3, v) == pt.lookup(m2, v));
                                    }
                                }
                            }
                        }
                    },
                    None => {},
                }
            }
            proof {
                mb.lemma_free_monotone(k.mem);
                if room && aligned_len > 0 {
                    assert((aligned_len - page) / 4096 == (aligned_len - (page + 4096)) / 4096 + 1);
                    assert forall|v: int| ret / 4096 <= v < (ret + page + 4096) / 4096 implies #[trigger] pt.lookup(k.mem, v) is Some by {
                        if v < (ret + page) / 4096 {
                            assert(pt.lookup(mb, v) is Some);
                        } else {
                            assert(v == va / 4096);
                        }
                    }
                }
            }
            page = page + 4096;
        }
        proof {
            if room && aligned_len > 0 {
                assert forall|i: int| 0 <= i < aligned_len implies #[trigger] user_pa(pt, k.mem, ret + i) is Some by {
                    assert(ret / 4096 <= (ret + i) / 4096 < (ret + aligned_len) / 4096);
                    assert(pt.lookup(k.mem, (ret + i) / 4096) is Some);
                    assert(((ret + i) as usize / 4096) as int == (ret + i) / 4096);
                }
            }
            if fresh {
                assert forall|v: int| ret / 4096 <= v < (ret + aligned_len) / 4096 implies #[trigger] fresh_leaf(pt, k.mem, v) by {
                    assert(pt.lookup(k.mem, v) is Some);
                }
                assert(pt.wf(k.mem));
            }
        }
    }
    proof {
        lemma_wf_kept(*old(k), *k);
    }
    let ghost km = *k;
    if aligned_len > 0 {
        let mut zero: Vec<u8> = Vec::new();
        push_zeros(&mut zero, aligned_len);
        if !k.copy_out(ret, zero.as_slice()) {
            return Err(KernelPanic);
        }
        proof {
            assert(zero@ =~= zeros(aligned_len as nat));
            if fresh {
                let gpt = k0.upt()->0;
                lemma_fresh_write_keeps(gpt, km.mem, k.mem, ret, aligned_len, zeros(aligned_len as nat));
                assert forall|i: int| 0 <= i < aligned_len implies #[trigger] user_pa(gpt, k.mem, ret + i) is Some by {
                    assert(user_pa(gpt, km.mem, ret + i) is Some);
                }
                assert(k.mapped(ret as int, aligned_len as int));
            }
        }
    }
    let ghost kz = *k;
    let ghost bytes = mmap_file_bytes(k0, len, flags, fd, offset);
    if flags & 0x20 == 0 && (fd as isize) >= 0 {
        if let Some(of) = k.fds.lookup(fd) {
            let size = file_size(&k.fs, of.inode);
            if k.fs.inode_get(of.inode).is_some() && offset > size {
                return Err(KernelPanic);
            }
            let mut tmp: Vec<u8> = Vec::new();
            push_zeros(&mut tmp, len);
            let n = read_inode(&k.fs, of.inode, tmp.as_mut_slice(), offset);
            if n > 0 {
                let mut out: Vec<u8> = Vec::new();
                let mut j: usize = 0;
                while j < n
                    invariant
                        j <= n <= tmp@.len(),
                        out@ == tmp@.take(j as int),
                    decreases n - j,
                {
                    out.push(tmp[j]);
                    proof {
                        assert(out@ =~= tmp@.take(j as int + 1));
                    }
                    j = j + 1;
                }
                proof {
                    assert(out@ =~= bytes);
                    if fresh {
                        assert(out@.len() <= len);
                        assert forall|i: int| 0 <= i < out@.len() implies #[trigger] user_pa(k0.upt()->0, k.mem, ret + i) is Some by {
                            assert(user_pa(k0.upt()->0, kz.mem, ret + i) is Some);
                        }
                    }
                }
                if !k.copy_out(ret, out.as_slice()) {
                    return Err(KernelPanic);
                }
                proof {
                    assert(km.same_but_mem(*k) && kz.same_but_mem(*k));
                }
                return Ok(ret as isize);
            }
            proof {
                assert(bytes.len() == 0);
            }
        }
    }
    proof {
        assert(bytes.len() == 0);
        assert(km.same_but_mem(*k) && kz.same_but_mem(*k));
    }
    Ok(ret as isize)
}

} // verus!

verus! {

/// The strings an `execve` takes from the null-terminated array of
/// pointers at `base`, from entry `i` on: each pointer names a string read
/// as `read_user_str` reads it; the list ends at a null pointer, at an entry
/// or a string that cannot be read, or after entry 128.
pub open spec fn user_strs(pt: PageTable, mem: PhysMem, base: int, i: nat) -> Seq<Seq<u8>>
    decreases 129 - i,
{
    if i > 128 || base + 8 * i + 8 > usize::MAX || !range_mapped(pt, mem, base + 8 * i, 8) {
        Seq::empty()
    } else {
        let ptr = le_u64(user_bytes(pt, mem, base + 8 * i, 8));
        if ptr == 0 || ptr + 4097 > usize::MAX || user_str_len(pt, mem, ptr as int) is None {
            Seq::empty()
        } else {
            seq![latin1_utf8(user_bytes(pt, mem, ptr as int, user_str_len(pt, mem, ptr as int)->0))]
                + user_strs(pt, mem, base, i + 1)
        }
    }
}

/// The Latin-1 to UTF-8 encoding at most doubles a string's length.
proof fn lemma_latin1_len(s: Seq<u8>)
    ensures
        latin1_utf8(s).len() <= 2 * s.len(),
    decreases s.len(),
{
    if s.len() > 0 {
        lemma_latin1_len(s.drop_last());
    }
}

/// Reads the strings of the pointer array at `base`.
#[verifier::spinoff_prover]
#[verifier::rlimit(50)]
fn read_str_array(pt: &PageTable, mem: &PhysMem, base: usize) -> (v: Vec<Vec<u8>>)
    requires
        mem.wf(),
    ensures
        strs_view(v@) == user_strs(*pt, *mem, base as int, 0),
        v@.len() <= 129,
        forall|j: int| 0 <= j < v@.len() ==> #[trigger] v@[j]@.len() <= 8192,
{
    let mut v: Vec<Vec<u8>> = Vec::new();
    let mut i: usize = 0;
    loop
        invariant
            i <= 129,
            v@.len() == i,
            mem.wf(),
            strs_view(v@) + user_strs(*pt, *mem, base as int, i as nat) == user_strs(*pt, *mem, base as int, 0),
            forall|j: int| 0 <= j < v@.len() ==> #[trigger] v@[j]@.len() <= 8192,
        decreases 129 - i,
    {
        if i > 128 || base > usize::MAX - 8 * i - 8 {
            proof {
                assert(user_strs(*pt, *mem, base as int, i as nat) =~= Seq::<Seq<u8>>::empty());
                assert(strs_view(v@) + Seq::<Seq<u8>>::empty() =~= strs_view(v@));
            }
            return v;
        }
        let ptr = match read_user_u64(pt, mem, base + 8 * i) {
            Some(p) => p,
            None => {
                proof {
                    assert(strs_view(v@) + Seq::<Seq<u8>>::empty() =~= strs_view(v@));
                }
                return v;
            },
        };
        if ptr == 0 || ptr > (usize::MAX as u64) - 4097 {
            proof {
                assert(strs_view(v@) + Seq::<Seq<u8>>::empty() =~= strs_view(v@));
            }
            return v;
        }
        let s = match read_user_str(pt, mem, ptr as usize) {
            Some(s) => s,
            None => {
                proof {
                    assert(strs_view(v@) + Seq::<Seq<u8>>::empty() =~= strs_view(v@));
                }
                return v;
            },
        };
        proof {
            let n = user_str_len(*pt, *mem, ptr as int)->0;
            lemma_latin1_len(user_bytes(*pt, *mem, ptr as int, n));
        }
        let ghost before = strs_view(v@);
        v.push(s);
        proof {
            assert(strs_view(v@) =~= before.push(s@));
            assert(strs_view(v@) + user_strs(*pt, *mem, base as int, (i + 1) as nat)
                =~= before + user_strs(*pt, *mem, base as int, i as nat));
        }
        i = i + 1;
    }
}

/// What `sys_execve` returns on the kernel `k`.
pub open spec fn execve_call(k: Kernel, path: usize, argv: usize, envp: usize, r: Outcome) -> bool {
    &&& (({
                let pt = k.upt()->0;
                let ok = k.upt() is Some && path + 4097 <= usize::MAX && user_str_len(pt, k.mem, path as int) is Some;
                let p = latin1_utf8(user_bytes(pt, k.mem, path as int, user_str_len(pt, k.mem, path as int)->0));
                &&& !ok ==> r == Outcome::Ret(ENOENT)
                &&& ok && !(k.fs.has(p) && k.fs.file(p).is_static()) ==> r == Outcome::Ret(ENOENT)
                &&& ok && k.fs.has(p) && k.fs.file(p).is_static() ==> (r matches Outcome::Exec(req)
                    && req.path@ == p
                    && strs_view(req.argv@) == user_strs(pt, k.mem, argv as int, 0)
                    && strs_view(req.envp@) == user_strs(pt, k.mem, envp as int, 0)
                    && req.argv@.len() <= 129 && req.envp@.len() <= 129
                    && (forall|j: int| 0 <= j < req.argv@.len() ==> #[trigger] req.argv@[j]@.len() <= 8192)
                    && (forall|j: int| 0 <= j < req.envp@.len() ==> #[trigger] req.envp@[j]@.len() <= 8192))
            }))
}

/// `execve`: reads the path, the arguments and the environment from user
/// memory and, when the path names a read-only file, asks for the file to
/// be loaded; -2 (`-ENOENT`) when the path cannot be read or names no
/// such file.
pub fn sys_execve(k: &Kernel, path: usize, argv: usize, envp: usize) -> (r: Outcome)
    requires
        k.wf(),
    ensures
        execve_call(*k, path, argv, envp, r),
{
    let pt = match k.current_pt() {
        Some(pt) => pt,
        None => return Outcome::Ret(ENOENT),
    };
    if path > usize::MAX - 4097 {
        return Outcome::Ret(ENOENT);
    }
    let p = match read_user_str(&pt, &k.mem, path) {
        Some(s) => s,
        None => return Outcome::Ret(ENOENT),
    };
    let a = read_str_array(&pt, &k.mem, argv);
    let e = read_str_array(&pt, &k.mem, envp);
    if get_file_data(&k.fs, p.as_slice()).is_none() {
        return Outcome::Ret(ENOENT);
    }
    Outcome::Exec(ExecRequest { path: p, argv: a, envp: e })
}

/// `PATH=`.
pub open spec fn path_prefix() -> Seq<u8> {
    seq![0x50u8, 0x41, 0x54, 0x48, 0x3d]
}

/// The environment an executable starts with: `envp`, with `PATH=/bin`
/// added when no entry sets `PATH`.
pub open spec fn exec_env(envp: Seq<Seq<u8>>) -> Seq<Seq<u8>> {
    if exists|j: int| 0 <= j < envp.len() && #[trigger] envp[j].len() >= 5 && envp[j].take(5) == path_prefix() {
        envp
    } else {
        envp.push(crate::proc::init_env())
    }
}

fn with_path(envp: &Vec<Vec<u8>>) -> (v: Vec<Vec<u8>>)
    ensures
        strs_view(v@) == exec_env(strs_view(envp@)),
        v@.len() <= envp@.len() + 1,
        forall|j: int| 0 <= j < v@.len() ==> #[trigger] v@[j]@.len() <= 9 || exists|i: int| 0 <= i < envp@.len() && envp@[i]@ == v@[j]@,
{
    let prefix = vec![0x50u8, 0x41, 0x54, 0x48, 0x3d];
    let mut v: Vec<Vec<u8>> = Vec::new();
    let mut found = false;
    let mut i: usize = 0;
    while i < envp.len()
        invariant
            i <= envp@.len(),
            v@.len() == i,
            prefix@ == path_prefix(),
            strs_view(v@) == strs_view(envp@).take(i as int),
            found <==> exists|j: int| 0 <= j < i && #[trigger] envp@[j]@.len() >= 5 && envp@[j]@.take(5) == path_prefix(),
        decreases envp@.len() - i,
    {
        let s = to_vec(envp[i].as_slice());
        if starts_with(envp[i].as_slice(), prefix.as_slice()) {
            found = true;
        }
        let ghost before = v@;
        assert(s@ == envp@[i as int]@);
        v.push(s);
        proof {
            assert forall|j: int| 0 <= j < i implies #[trigger] v@[j]@ == envp@[j]@ by {
                assert(v@[j] == before[j]);
                assert(strs_view(before)[j] == strs_view(envp@).take(i as int)[j]);
            }
            assert(strs_view(v@) =~= strs_view(envp@).take(i as int + 1));
        }
        i = i + 1;
    }
    proof {
        assert(strs_view(envp@).take(envp@.len() as int) =~= strs_view(envp@));
        assert forall|j: int| 0 <= j < envp@.len() implies #[trigger] strs_view(envp@)[j] == envp@[j]@ by {}
        if found {
            let j = choose|j: int| 0 <= j < envp@.len() && #[trigger] envp@[j]@.len() >= 5 && envp@[j]@.take(5) == path_prefix();
            assert(strs_view(envp@)[j] == envp@[j]@);
        }
        assert(found <==> exists|j: int| 0 <= j < strs_view(envp@).len() && #[trigger] strs_view(envp@)[j].len() >= 5
            && strs_view(envp@)[j].take(5) == path_prefix());
    }
    if !found {
        let pth = vec![0x50u8, 0x41, 0x54, 0x48, 0x3d, 0x2f, 0x62, 0x69, 0x6e];
        let ghost before = strs_view(v@);
        v.push(pth);
        proof {
            assert(pth@ == crate::proc::init_env());
            assert(strs_view(v@) =~= before.push(crate::proc::init_env()));
        }
    }
    proof {
        assert forall|j: int| 0 <= j < v@.len() implies #[trigger] v@[j]@.len() <= 9 || exists|i: int| 0 <= i < envp@.len() && envp@[i]@ == v@[j]@ by {
            if j < envp@.len() {
                assert(strs_view(v@)[j] == strs_view(envp@)[j]);
            }
        }
    }
    v
}

/// Whether the initial stack of `argv` and `envp` fits below the top of
/// memory.
pub fn stack_fits_check(argv: &Vec<Vec<u8>>, envp: &Vec<Vec<u8>>) -> (r: bool)
    ensures
        r == stack_fits(crate::mm::PHYS_END as int, strs_view(argv@) + strs_view(envp@)),
{
    let ghost all = strs_view(argv@) + strs_view(envp@);
    let base: u128 = crate::mm::PHYS_END as u128;
    let n: u128 = argv.len() as u128 + envp.len() as u128;
    let max: u128 = usize::MAX as u128;
    if base + 8 * (n + 19) > max || base + 0x400 + 0x100 * n > max || base + 0x210 > max {
        return false;
    }
    assert(argv@.len() + envp@.len() <= usize::MAX);
    let total = argv.len() + envp.len();
    let mut j: usize = 0;
    while j < total
        invariant
            total == argv@.len() + envp@.len(),
            j <= argv@.len() + envp@.len(),
            all == strs_view(argv@) + strs_view(envp@),
            base == crate::mm::PHYS_END,
            max == usize::MAX,
            forall|i: int| 0 <= i < j ==> base + 0x400 + 0x100 * i + #[trigger] all[i].len() + 1 <= usize::MAX,
        decreases argv@.len() + envp@.len() - j,
    {
        let len = if j < argv.len() { argv[j].len() } else { envp[j - argv.len()].len() };
        assert(len == all[j as int].len());
        if base + 0x400 + 0x100 * (j as u128) + (len as u128) + 1 > max {
            return false;
        }
        j = j + 1;
    }
    true
}

/// Whether the file of `path` in `k0` is a read-only file that the running
/// process exists to replace itself with.
pub open spec fn exec_target(k0: Kernel, path: Seq<u8>) -> bool {
    &&& k0.procs.has(k0.procs.current())
    &&& k0.fs.has(path)
    &&& k0.fs.file(path).is_static()
}

/// Finishes an `execve` of `req`: reads the executable the file holds with
/// `parse_elf`, and the running process is replaced by the program, as
/// `exec_image` replaces it, with the environment given a `PATH` when it
/// has none, and the saved registers of this trap are set to enter it: the
/// entry point, the new stack, and the argument count in `a0`. Returns 0;
/// -2 (`-ENOENT`) when the file is gone, holds no executable or one whose
/// segments reach past its end, there is no running process or memory runs
/// out; `Err` where the kernel stops.
pub fn finish_execve(k: &mut Kernel, req: &ExecRequest) -> (r: Result<isize, KernelPanic>)
    requires
        old(k).wf(),
    ensures
        final(k).wf(),
        final(k).fs == old(k).fs && final(k).fds == old(k).fds,
        r == Ok::<isize, KernelPanic>(ENOENT) ==> {
            &&& final(k).trap_frame == old(k).trap_frame
            &&& final(k).procs.current() == old(k).procs.current()
            &&& forall|q: usize| #[trigger] final(k).procs.has(q) == old(k).procs.has(q)
            &&& forall|q: usize| old(k).procs.has(q) ==> #[trigger] final(k).procs.get_spec(q) == old(k).procs.get_spec(q)
        },
        ({
            let d = old(k).fs.file(req.path@).bytes();
            &&& !exec_target(*old(k), req.path@) ==> r == Ok::<isize, KernelPanic>(ENOENT)
            &&& exec_target(*old(k), req.path@) && elf_no_image(d) ==> r == Ok::<isize, KernelPanic>(ENOENT)
            &&& exec_target(*old(k), req.path@) && elf_parse_stops(d) ==> r is Err
        }),
        forall|e: ElfImage| #[trigger] image_parsed(old(k).fs.file(req.path@).bytes(), e) && exec_target(*old(k), req.path@) ==> {
            let d = old(k).fs.file(req.path@).bytes();
            let fits = stack_fits(crate::mm::PHYS_END as int, strs_view(req.argv@) + exec_env(strs_view(req.envp@)));
            &&& !e.fits(d.len()) ==> r == Ok::<isize, KernelPanic>(ENOENT)
            &&& e.fits(d.len()) && !fits ==> r is Err
            &&& e.fits(d.len()) && fits && exec_room(old(k).mem, e) ==> r == Ok::<isize, KernelPanic>(0isize)
        },
        r == Ok::<isize, KernelPanic>(0isize) ==> exists|e: ElfImage| #[trigger] image_parsed(old(k).fs.file(req.path@).bytes(), e) && {
            let cur = old(k).procs.current();
            let np = final(k).procs.get_spec(cur);
            let op = old(k).procs.get_spec(cur);
            &&& old(k).procs.has(cur) && final(k).procs.has(cur)
            &&& np.brk == brk_after(max_end(e.segments@))
            &&& np.trap_frame.sepc == e.entry
            &&& np.pid == op.pid && np.ppid == op.ppid && np.state == op.state
            &&& final(k).trap_frame.sepc == e.entry
            &&& final(k).trap_frame.regs@ == old(k).trap_frame.regs@.update(2, crate::elf::STACK_TOP).update(10, req.argv@.len() as usize)
            &&& stack_in_page(strs_view(req.argv@) + exec_env(strs_view(req.envp@))) ==> {
                &&& np.page_table.wf(final(k).mem)
                &&& stack_mapped(np.page_table, final(k).mem)
                &&& forall|v: int| #[trigger] kernel_lookup(slot_key(v)) is Some
                    ==> np.page_table.lookup(final(k).mem, v) == kernel_lookup(slot_key(v))
                &&& forall|i: int| 0 <= i < e.segments@.len() && #[trigger] e.segments@[i].kind == SegmentKind::Load
                    ==> seg_mapped(np.page_table, final(k).mem, e.segments@[i])
                        && seg_loaded(np.page_table, final(k).mem, old(k).fs.file(req.path@).bytes(), e.segments@[i])
            }
            &&& forall|q: usize| #[trigger] final(k).procs.has(q) == old(k).procs.has(q)
            &&& forall|q: usize| q != cur && old(k).procs.has(q) ==> #[trigger] final(k).procs.get_spec(q) == old(k).procs.get_spec(q)
        },
{
    let envp = with_path(&req.envp);
    let pid = k.procs.current_pid();
    if !k.procs.get(pid).is_some() {
        return Ok(ENOENT);
    }
    let e = match get_file_data(&k.fs, req.path.as_slice()) {
        Some(data) => match parse_elf(data) {
            Err(x) => return Err(x),
            Ok(None) => return Ok(ENOENT),
            Ok(Some(e)) => {
                if !e.fits_in(data.len()) {
                    return Ok(ENOENT);
                }
                e
            },
        },
        None => return Ok(ENOENT),
    };
    if !stack_fits_check(&req.argv, &envp) {
        return Err(KernelPanic);
    }
    proof {
        k.procs.lemma_has_pid(pid);
        assert(image_parsed(old(k).fs.file(req.path@).bytes(), e));
    }
    let ghost t0 = k.procs;
    let mut p = match k.procs.remove(pid) {
        Some(p) => p,
        None => return Ok(ENOENT),
    };
    let data = get_file_data(&k.fs, req.path.as_slice()).unwrap();
    let res = exec_image(&mut p, &mut k.mem, data, Some(&e), &req.argv, &envp);
    let ghost pfinal = p;
    put_back(k, p);
    proof {
        assert forall|q: usize| #[trigger] k.procs.has(q) implies k.mem.is_frame(k.procs.get_spec(q).page_table.root()) by {
            if q != pid {
                assert(t0.has(q));
            }
        }
    }
    match res {
        Ok(Some(sp)) => {
            k.trap_frame.sepc = e.entry;
            k.trap_frame.regs[2] = sp;
            k.trap_frame.regs[10] = req.argv.len();
            Ok(0)
        },
        Ok(None) => {
            proof {
                assert(pfinal == t0.get_spec(pid));
            }
            Ok(ENOENT)
        },
        Err(err) => Err(err),
    }
}

} // verus!

verus! {

/// The system calls the kernel answers, by number.
pub open spec fn known_syscall(num: usize) -> bool {
    num == 17 || (19 <= num <= 25) || num == 29 || num == 34 || num == 48 || num == 54 || num == 56
        || num == 57 || num == 59 || (61 <= num <= 64) || (66 <= num <= 68) || num == 71 || num == 73
        || (78 <= num <= 80) || num == 93 || num == 94 || num == 96 || num == 99 || num == 113
        || num == 122 || num == 123 || num == 134 || num == 135 || num == 144 || num == 146 || num == 159
        || num == 160 || num == 163 || num == 166 || num == 167 || (172 <= num <= 177) || (198 <= num <= 210)
        || num == 212 || (214 <= num <= 215) || (220 <= num <= 222) || num == 226 || num == 233 || num == 242
        || num == 260 || num == 261 || num == 278 || num == 291
}

/// What the calls that only answer return: 0 for those that succeed
/// without effect, 1 for `set_tid_address`, 022 for `umask`, -1 for
/// `getsockname` and `getpeername`.
pub open spec fn constant_result(num: usize) -> Option<isize> {
    if num == 54 || num == 122 || num == 123 || num == 134 || num == 135 || num == 144
        || num == 146 || num == 159 || num == 167 || num == 99 || (174 <= num <= 177) || num == 215
        || num == 226 || num == 233 {
        Some(0isize)
    } else if num == 96 {
        Some(1isize)
    } else if num == 166 {
        Some(0o22isize)
    } else if num == 204 || num == 205 {
        Some(-1isize)
    } else {
        None
    }
}

/// An outcome read as a number or a panic: the return value of an answered
/// call, or the kernel's panic (an outcome that is no answer reads as 0).
pub open spec fn ret_view(r: Result<Outcome, KernelPanic>) -> Result<isize, KernelPanic> {
    match r {
        Ok(Outcome::Ret(v)) => Ok(v),
        Ok(_) => Ok(0isize),
        Err(e) => Err(e),
    }
}

fn ret(r: Result<isize, KernelPanic>) -> (o: Result<Outcome, KernelPanic>)
    ensures
        o is Err || o->Ok_0 is Ret,
        ret_view(o) == r,
{
    match r {
        Ok(v) => Ok(Outcome::Ret(v)),
        Err(e) => Err(e),
    }
}

/// What system call `num` does with arguments `a0`..`a5`, the timer at
/// `ticks`, taking the kernel from `k0` to `k1` with outcome `r`: each known
/// number does what its call's contract says, with the arguments that call
/// reads; an unknown number leaves the kernel as it was and answers -1.
pub open spec fn syscall_effect(k0: Kernel, k1: Kernel, num: usize, a0: usize, a1: usize, a2: usize, a3: usize,
    a4: usize, a5: usize, ticks: u64, r: Result<Outcome, KernelPanic>) -> bool {
    &&& (!known_syscall(num) ==> r == Ok::<Outcome, KernelPanic>(Outcome::Ret(-1isize)) && k1 == k0)
    &&& (constant_result(num) matches Some(v) ==> r == Ok::<Outcome, KernelPanic>(Outcome::Ret(v)) && k1 == k0)
    &&& (num == 29 ==> r == Ok::<Outcome, KernelPanic>(Outcome::Ret(if a1 == FIONBIO { 0isize } else { -1isize })) && k1 == k0)
    &&& (num == 172 ==> r == Ok::<Outcome, KernelPanic>(Outcome::Ret(k0.procs.current() as isize)) && k1 == k0)
    &&& (num == 22 ==> r == Ok::<Outcome, KernelPanic>(Outcome::Net(NetRequest::EpollWait { events: a1, maxevents: a2, timeout: a3 as isize })) && k1 == k0)
    &&& (num == 17 ==> (r is Err || r->Ok_0 is Ret) && getcwd_call(k0, k1, a0, a1, ret_view(r)))
    &&& (num == 19 ==> (r matches Ok(Outcome::Ret(v)) && eventfd2_call(k0, k1, v)))
    &&& (num == 20 ==> (r matches Ok(Outcome::Ret(v)) && epoll_create1_call(k0, k1, v)))
    &&& (num == 21 ==> (r is Err || r->Ok_0 is Ret) && epoll_ctl_call(k0, k1, a2, a3, ret_view(r)))
    &&& (num == 23 || num == 24 ==> (r is Err || r->Ok_0 is Ret) && dup2_call(k0, k1, a0, a1, ret_view(r)))
    &&& (num == 25 ==> (r matches Ok(Outcome::Ret(v)) && fcntl_call(k0, a0, a1, v)) && k1 == k0)
    &&& (num == 34 ==> (r is Err || r->Ok_0 is Ret) && mkdirat_call(k0, k1, a1, ret_view(r)))
    &&& (num == 48 ==> (r is Err || r->Ok_0 is Ret) && faccessat_call(k0, a1, ret_view(r)) && k1 == k0)
    &&& (num == 56 ==> (r is Err || r->Ok_0 is Ret) && openat_call(k0, k1, a1, a2, ret_view(r)))
    &&& (num == 57 ==> (r matches Ok(o) && close_call(k0, k1, a0, o)))
    &&& (num == 59 ==> (r is Err || r->Ok_0 is Ret) && pipe2_call(k0, k1, a0, ret_view(r)))
    &&& (num == 61 ==> (r is Err || r->Ok_0 is Ret) && getdents64_call(k0, k1, a0, a1, a2, ret_view(r)))
    &&& (num == 62 ==> (r matches Ok(Outcome::Ret(v)) && lseek_call(k0, k1, a0, a1, a2, v)))
    &&& (num == 63 ==> read_call(k0, k1, a0, a1, a2, r))
    &&& (num == 64 ==> write_call(k0, k1, a0, a1, a2, r))
    &&& (num == 66 ==> writev_call(k0, k1, a0, a1, a2, r))
    &&& (num == 67 ==> (r is Err || r->Ok_0 is Ret) && pread64_call(k0, k1, a0, a1, a2, a3, ret_view(r)))
    &&& (num == 68 ==> (r is Err || r->Ok_0 is Ret) && pwrite64_call(k0, k1, a0, a1, a2, a3, ret_view(r)))
    &&& (num == 71 ==> sendfile_call(k0, k1, a0, a1, a3, r))
    &&& (num == 73 ==> (r is Err || r->Ok_0 is Ret) && ppoll_call(k0, k1, a0, a1, ret_view(r)))
    &&& (num == 78 ==> (r is Err || r->Ok_0 is Ret) && readlinkat_call(k0, k1, a1, a2, a3, ret_view(r)))
    &&& (num == 79 ==> (r is Err || r->Ok_0 is Ret) && fstatat_call(k0, k1, a1, a2, ret_view(r)))
    &&& (num == 80 ==> (r is Err || r->Ok_0 is Ret) && fstat_call(k0, k1, a0, a1, ret_view(r)))
    &&& (num == 93 || num == 94 ==> (r matches Ok(o) && exit_call(k0, k1, a0, o)))
    &&& (num == 113 ==> (r is Err || r->Ok_0 is Ret) && clock_gettime_call(k0, k1, a1, ticks, ret_view(r)))
    &&& (num == 160 ==> (r is Err || r->Ok_0 is Ret) && uname_call(k0, k1, a0, ret_view(r)))
    &&& (num == 163 ==> (r is Err || r->Ok_0 is Ret) && getrlimit_call(k0, k1, a0, a1, ret_view(r)))
    &&& (num == 173 ==> (r matches Ok(Outcome::Ret(v)) && getppid_call(k0, v)) && k1 == k0)
    &&& (num == 198 ==> (r matches Ok(Outcome::Ret(v)) && socket_call(k0, k1, a0, v)))
    &&& (num == 199 ==> (r is Err || r->Ok_0 is Ret) && socketpair_call(k0, k1, a3, ret_view(r)))
    &&& (num == 200 ==> (r matches Ok(Outcome::Ret(v)) && bind_call(k0, a0, v)) && k1 == k0)
    &&& (num == 201 ==> (r matches Ok(o) && listen_call(k0, a0, o)) && k1 == k0)
    &&& (num == 202 ==> (r matches Ok(o) && accept_call(k0, k1, a0, a1, a2, o)))
    &&& (num == 203 ==> (r matches Ok(Outcome::Ret(v)) && connect_call(k0, a0, v)) && k1 == k0)
    &&& (num == 206 ==> sendto_call(k0, k1, a0, a1, a2, r))
    &&& (num == 207 ==> recvfrom_call(k0, k1, a0, a1, a2, r))
    &&& (num == 208 ==> (r matches Ok(Outcome::Ret(v)) && setsockopt_call(k0, a0, v)) && k1 == k0)
    &&& (num == 209 ==> (r matches Ok(Outcome::Ret(v)) && getsockopt_call(k0, a0, v)) && k1 == k0)
    &&& (num == 210 ==> (r matches Ok(Outcome::Ret(v)) && shutdown_call(k0, a0, v)) && k1 == k0)
    &&& (num == 212 ==> (r is Err || r->Ok_0 is Ret) && recvmsg_call(k0, k1, a0, a1, ret_view(r)))
    &&& (num == 214 ==> (r is Err || r->Ok_0 is Ret) && brk_call(k0, k1, a0, ret_view(r)))
    &&& (num == 220 ==> (r is Err || r->Ok_0 is Ret) && clone_call(k0, k1, a1, ret_view(r)))
    &&& (num == 221 ==> (r matches Ok(o) && execve_call(k0, a0, a1, a2, o)) && k1 == k0)
    &&& (num == 222 ==> (r is Err || r->Ok_0 is Ret) && mmap_call(k0, k1, a0, a1, a2, a3, a4, a5, ret_view(r)))
    &&& (num == 242 ==> (r matches Ok(o) && accept4_call(k0, k1, a0, a1, a2, o)))
    &&& (num == 260 ==> wait4_call(k0, k1, a0, a1, a2, r))
    &&& (num == 261 ==> (r is Err || r->Ok_0 is Ret) && prlimit64_call(k0, k1, a1, a3, ret_view(r)))
    &&& (num == 278 ==> (r is Err || r->Ok_0 is Ret) && getrandom_call(k0, k1, a0, a1, ret_view(r)))
    &&& (num == 291 ==> (r is Err || r->Ok_0 is Ret) && statx_call(k0, k1, a1, a4, ret_view(r)))
}

/// Law: system call 67 is `pread64` with the Linux argument order: `a0`
/// the descriptor, `a1` the buffer, `a2` the byte count and `a3` the file
/// offset. On a descriptor open on a file of bytes `data`, an offset past
/// the end fails; otherwise it copies `data[a3 .. a3 + n]` to user address
/// `a1`, with `n` the smaller of `a2` and the bytes left from `a3`, returns
/// `n`, succeeds exactly when `n` is 0 or those `n` bytes are mapped, and
/// leaves every descriptor, its offset too, as it was.
pub proof fn law_dispatch_pread64(k0: Kernel, k1: Kernel, a0: usize, a1: usize, a2: usize, a3: usize, a4: usize,
    a5: usize, ticks: u64, r: Result<Outcome, KernelPanic>)
    requires
        syscall_effect(k0, k1, 67, a0, a1, a2, a3, a4, a5, ticks, r),
        k0.fds.get_spec(a0 as int) is Some,
        k0.fs.inode_file(k0.fds.get_spec(a0 as int)->0.inode as int) is Some,
    ensures
        k1.fds == k0.fds && k1.fs == k0.fs && k1.procs == k0.procs,
        ({
            let data = k0.fs.inode_file(k0.fds.get_spec(a0 as int)->0.inode as int)->0.bytes();
            let n: int = if a2 <= data.len() - a3 { a2 as int } else { data.len() - a3 };
            &&& a3 > data.len() ==> r is Err
            &&& a3 <= data.len() ==> (r is Ok <==> n == 0 || k0.mapped(a1 as int, n))
            &&& a3 <= data.len() && r is Ok ==> r == Ok::<Outcome, KernelPanic>(Outcome::Ret(n as isize))
            &&& a3 <= data.len() && r is Ok && n > 0 ==> k0.wrote(k1.mem, a1 as int, data.subrange(a3 as int, a3 + n))
            &&& a3 <= data.len() && r is Ok && n == 0 ==> k1.mem == k0.mem
        }),
{
}

/// Law: system call 63 is `read` with the Linux argument order: `a0` the
/// descriptor, `a1` the buffer and `a2` the byte count. On a descriptor
/// open on a file of bytes `data` at offset `off` (no pipe, socket or other
/// special descriptor), an offset past the end fails; otherwise it copies
/// `data[off .. off + n]` to `a1`, with `n` the smaller of `a2` and the
/// bytes left, returns `n`, succeeds exactly when `n` is 0 or those `n`
/// bytes are mapped, and moves the descriptor's offset to `off + n`.
pub proof fn law_dispatch_read_file(k0: Kernel, k1: Kernel, a0: usize, a1: usize, a2: usize, a3: usize, a4: usize,
    a5: usize, ticks: u64, r: Result<Outcome, KernelPanic>)
    requires
        syscall_effect(k0, k1, 63, a0, a1, a2, a3, a4, a5, ticks, r),
        !k0.fake_fds@.contains_key(a0),
        k0.fds.get_spec(a0 as int) is Some,
        k0.fds.get_spec(a0 as int)->0.pipe_id is None,
        k0.fs.inode_file(k0.fds.get_spec(a0 as int)->0.inode as int) is Some,
        k0.fs.inode_file(k0.fds.get_spec(a0 as int)->0.inode as int)->0.bytes().len() <= usize::MAX,
    ensures
        ({
            let of = k0.fds.get_spec(a0 as int)->0;
            let data = k0.fs.inode_file(of.inode as int)->0.bytes();
            let n: int = if a2 <= data.len() - of.offset { a2 as int } else { data.len() - of.offset };
            &&& of.offset > data.len() ==> r is Err
            &&& of.offset <= data.len() ==> (r is Ok <==> n == 0 || k0.mapped(a1 as int, n))
            &&& of.offset <= data.len() && r is Ok ==> {
                &&& r == Ok::<Outcome, KernelPanic>(Outcome::Ret(n as isize))
                &&& k1.fds.get_spec(a0 as int) is Some
                &&& k1.fds.get_spec(a0 as int)->0.offset == of.offset + n
                &&& k1.fds.get_spec(a0 as int)->0.inode == of.inode
                &&& n > 0 ==> k0.wrote(k1.mem, a1 as int, data.subrange(of.offset as int, of.offset + n))
                &&& n == 0 ==> k1.mem == k0.mem
                &&& k1.fs == k0.fs
            }
        }),
{
    let of = k0.fds.get_spec(a0 as int)->0;
    assert(of.inode != 0);
    assert(!reads_console(k0, a0, a2));
}

/// Law: system call 64 is `write` with the Linux argument order: `a0` the
/// descriptor, `a1` the buffer and `a2` the byte count. On a descriptor
/// other than 1 and 2, open on a writable (not built-in) file at offset
/// `off` (no pipe, socket or other special descriptor), with the `a2` user
/// bytes at `a1` mapped, it returns `a2`, the file holds those bytes from
/// `off` on and keeps its bytes before `off`, and the descriptor's offset
/// moves to `off + a2`.
pub proof fn law_dispatch_write_file(k0: Kernel, k1: Kernel, a0: usize, a1: usize, a2: usize, a3: usize, a4: usize,
    a5: usize, ticks: u64, r: Result<Outcome, KernelPanic>)
    requires
        syscall_effect(k0, k1, 64, a0, a1, a2, a3, a4, a5, ticks, r),
        a0 != 1 && a0 != 2,
        !k0.fake_fds@.contains_key(a0),
        k0.fds.get_spec(a0 as int) is Some,
        k0.fds.get_spec(a0 as int)->0.pipe_id is None,
        k0.fs.inode_file(k0.fds.get_spec(a0 as int)->0.inode as int) is Some,
        !k0.fs.inode_file(k0.fds.get_spec(a0 as int)->0.inode as int)->0.is_static(),
        k0.mapped(a1 as int, a2 as int),
        k0.fds.get_spec(a0 as int)->0.offset + a2 <= usize::MAX,
    ensures
        r == Ok::<Outcome, KernelPanic>(Outcome::Ret(a2 as isize)),
        k1.mem == k0.mem,
        ({
            let of = k0.fds.get_spec(a0 as int)->0;
            let old_bytes = k0.fs.inode_file(of.inode as int)->0.bytes();
            let new_bytes = k1.fs.file(k0.fs.inode_path(of.inode as int)->0).bytes();
            let src = k0.ubytes(a1 as int, a2 as nat);
            &&& k1.fds.get_spec(a0 as int) is Some
            &&& k1.fds.get_spec(a0 as int)->0.offset == of.offset + a2
            &&& k1.fds.get_spec(a0 as int)->0.inode == of.inode
            &&& new_bytes.len() == if old_bytes.len() >= of.offset + a2 { old_bytes.len() as int } else { of.offset + a2 }
            &&& forall|i: int| 0 <= i < a2 ==> #[trigger] new_bytes[of.offset + i] == src[i]
            &&& forall|i: int| 0 <= i < of.offset && i < old_bytes.len() ==> #[trigger] new_bytes[i] == old_bytes[i]
        }),
{
    let of = k0.fds.get_spec(a0 as int)->0;
    let old_bytes = k0.fs.inode_file(of.inode as int)->0.bytes();
    let p = k0.fs.inode_path(of.inode as int)->0;
    let new_bytes = k1.fs.file(p).bytes();
    let src = k0.ubytes(a1 as int, a2 as nat);
    assert(write_takes_data(k0, a0));
    assert(k0.fs.file(p).bytes() == old_bytes);
    assert(new_bytes == written_bytes(old_bytes, src, of.offset as int));
    assert forall|i: int| 0 <= i < a2 implies #[trigger] new_bytes[of.offset + i] == src[i] by {
        assert(new_bytes[of.offset + i] == written_bytes(old_bytes, src, of.offset as int)[of.offset + i]);
    }
}

/// Law: system call 68 is `pwrite64` with the Linux argument order: `a0`
/// the descriptor, `a1` the buffer, `a2` the byte count and `a3` the file
/// offset. On a descriptor open on a writable (not built-in) file, with the
/// `a2` user bytes at `a1` mapped, it returns `a2`; the file then holds
/// those bytes from offset `a3` on, keeps its bytes before `a3`, and is as
/// long as before or `a3 + a2`, whichever is more. Descriptors stay.
pub proof fn law_dispatch_pwrite64(k0: Kernel, k1: Kernel, a0: usize, a1: usize, a2: usize, a3: usize, a4: usize,
    a5: usize, ticks: u64, r: Result<Outcome, KernelPanic>)
    requires
        syscall_effect(k0, k1, 68, a0, a1, a2, a3, a4, a5, ticks, r),
        k0.fds.get_spec(a0 as int) is Some,
        k0.fs.inode_file(k0.fds.get_spec(a0 as int)->0.inode as int) is Some,
        !k0.fs.inode_file(k0.fds.get_spec(a0 as int)->0.inode as int)->0.is_static(),
        k0.mapped(a1 as int, a2 as int),
        a3 + a2 <= usize::MAX,
    ensures
        k1.fds == k0.fds && k1.mem == k0.mem,
        r == Ok::<Outcome, KernelPanic>(Outcome::Ret(a2 as isize)),
        ({
            let old_bytes = k0.fs.inode_file(k0.fds.get_spec(a0 as int)->0.inode as int)->0.bytes();
            let new_bytes = k1.fs.file(k0.fs.inode_path(k0.fds.get_spec(a0 as int)->0.inode as int)->0).bytes();
            let src = k0.ubytes(a1 as int, a2 as nat);
            &&& new_bytes.len() == if old_bytes.len() >= a3 + a2 { old_bytes.len() as int } else { a3 + a2 }
            &&& forall|i: int| 0 <= i < a2 ==> #[trigger] new_bytes[a3 + i] == src[i]
            &&& forall|i: int| 0 <= i < a3 && i < old_bytes.len() ==> #[trigger] new_bytes[i] == old_bytes[i]
        }),
{
    let of = k0.fds.get_spec(a0 as int)->0;
    let old_bytes = k0.fs.inode_file(of.inode as int)->0.bytes();
    let p = k0.fs.inode_path(of.inode as int)->0;
    let new_bytes = k1.fs.file(p).bytes();
    let src = k0.ubytes(a1 as int, a2 as nat);
    assert(new_bytes == written_bytes(old_bytes, src, a3 as int));
    assert forall|i: int| 0 <= i < a2 implies #[trigger] new_bytes[a3 + i] == src[i] by {
        assert(new_bytes[a3 + i] == written_bytes(old_bytes, src, a3 as int)[a3 + i]);
    }
}

/// Law: system call 62 is `lseek` with the Linux argument order: `a0` the
/// descriptor, `a1` the offset and `a2` whence. With whence 0 (`SEEK_SET`)
/// on an open descriptor it answers `a1` and leaves the descriptor at `a1`.
pub proof fn law_dispatch_lseek_set(k0: Kernel, k1: Kernel, a0: usize, a1: usize, a3: usize, a4: usize,
    a5: usize, ticks: u64, r: Result<Outcome, KernelPanic>)
    requires
        syscall_effect(k0, k1, 62, a0, a1, 0, a3, a4, a5, ticks, r),
        k0.fds.get_spec(a0 as int) is Some,
    ensures
        r == Ok::<Outcome, KernelPanic>(Outcome::Ret(a1 as isize)),
        k1.fds.get_spec(a0 as int) is Some,
        k1.fds.get_spec(a0 as int)->0.offset == a1,
{
    let v = r->Ok_0->Ret_0;
    law_lseek_set(k0, k1, a0, a1, v);
}

/// Law: system call 56 is `openat` with the Linux argument order: `a1` the
/// path and `a2` the flags. When the path names a file it opens it in the
/// lowest free descriptor, which it returns, at offset 0, readable, and
/// writable exactly when the flags ask for writing (`O_WRONLY` 1 or
/// `O_RDWR` 2); every other descriptor stays.
pub proof fn law_dispatch_openat(k0: Kernel, k1: Kernel, a0: usize, a1: usize, a2: usize, a3: usize, a4: usize,
    a5: usize, ticks: u64, r: Result<Outcome, KernelPanic>)
    requires
        syscall_effect(k0, k1, 56, a0, a1, a2, a3, a4, a5, ticks, r),
        k0.cstr_len(a1 as int) is Some,
        k0.fs.lookup_spec(k0.ubytes(a1 as int, k0.cstr_len(a1 as int)->0)) is Some,
        k0.fds@.len() < isize::MAX,
    ensures
        r is Ok,
        r->Ok_0 is Ret,
        ({
            let d = r->Ok_0->Ret_0 as int;
            &&& 0 <= d
            &&& k0.fds.get_spec(d) is None
            &&& forall|j: int| 0 <= j < d ==> #[trigger] k0.fds.get_spec(j) is Some
            &&& k1.fds.get_spec(d) == Some(OpenFile {
                inode: k0.fs.lookup_spec(k0.ubytes(a1 as int, k0.cstr_len(a1 as int)->0))->0,
                offset: 0,
                readable: true,
                writable: a2 & 1 != 0 || a2 & 2 != 0,
                pipe_id: None,
            })
            &&& forall|j: int| j != d ==> #[trigger] k1.fds.get_spec(j) == k0.fds.get_spec(j)
        }),
{
    let t = k0.fds@;
    law_alloc_lowest_free(t);
    let d = crate::fdtable::first_free(t);
    assert(r->Ok_0->Ret_0 == d as isize);
    assert forall|j: int| j != d implies #[trigger] k1.fds.get_spec(j) == k0.fds.get_spec(j) by {
        if d < t.len() {
            assert(k1.fds@ == t.update(d, k1.fds@[d]));
        } else {
            assert(k1.fds@.len() == t.len() + 1);
        }
    }
}

/// Law: system calls 23 and 24 copy descriptor `a0` into `a1`: with `a0`
/// open (and `a1` not the largest descriptor number), `a1` then refers to
/// what `a0` does and is returned, and every other descriptor stays.
pub proof fn law_dispatch_dup(k0: Kernel, k1: Kernel, num: usize, a0: usize, a1: usize, a2: usize, a3: usize,
    a4: usize, a5: usize, ticks: u64, r: Result<Outcome, KernelPanic>)
    requires
        num == 23 || num == 24,
        syscall_effect(k0, k1, num, a0, a1, a2, a3, a4, a5, ticks, r),
        k0.fds.get_spec(a0 as int) is Some,
        a1 < usize::MAX,
    ensures
        r == Ok::<Outcome, KernelPanic>(Outcome::Ret(a1 as isize)),
        k1.fds.get_spec(a1 as int) == k0.fds.get_spec(a0 as int),
        forall|i: int| 0 <= i && i != a1 ==> #[trigger] k1.fds.get_spec(i) == k0.fds.get_spec(i),
{
    assert forall|i: int| 0 <= i && i != a1 implies #[trigger] k1.fds.get_spec(i) == k0.fds.get_spec(i) by {
        if i < k1.fds@.len() {
            assert(k1.fds.get_spec(i) == k0.fds.get_spec(i));
        }
    }
}

/// Law: system call 214 is `brk` of `a0`: with `a0` 0 it answers the
/// current break (0x10000 before any was set) and changes no memory; with
/// `a0` at or below the current break it answers `a0` and makes `a0` the
/// break.
pub proof fn law_dispatch_brk(k0: Kernel, k1: Kernel, a0: usize, a1: usize, a2: usize, a3: usize, a4: usize,
    a5: usize, ticks: u64, r: Result<Outcome, KernelPanic>)
    requires
        syscall_effect(k0, k1, 214, a0, a1, a2, a3, a4, a5, ticks, r),
        k0.procs.has(k0.procs.current()),
    ensures
        ({
            let old_brk = k0.procs.get_spec(k0.procs.current()).brk;
            let cur: usize = if old_brk == 0 { 0x10000 } else { old_brk };
            &&& a0 == 0 ==> r == Ok::<Outcome, KernelPanic>(Outcome::Ret(cur as isize)) && k1.mem == k0.mem
            &&& a0 != 0 && a0 <= cur ==> r == Ok::<Outcome, KernelPanic>(Outcome::Ret(a0 as isize))
                && k1.procs.get_spec(k1.procs.current()).brk == a0
        }),
{
}

/// Law: system call 222 is `mmap` with the Linux argument order: `a0` the
/// address, `a1` the length, `a2` the protection, `a3` the flags, `a4` the
/// descriptor and `a5` the offset. On success it answers `a0` under
/// `MAP_FIXED` (0x10) and the next free mapping address otherwise
/// (0x5000_0000 at first), and its pages are mapped with exactly the read,
/// write and execute bits that `a2` asks, over the whole page-rounded length
/// `a1` from the returned address.
pub proof fn law_dispatch_mmap(k0: Kernel, k1: Kernel, a0: usize, a1: usize, a2: usize, a3: usize, a4: usize,
    a5: usize, ticks: u64, r: Result<Outcome, KernelPanic>) -> (w: (PhysMem, usize))
    requires
        syscall_effect(k0, k1, 222, a0, a1, a2, a3, a4, a5, ticks, r),
        r is Ok,
        k0.upt() is Some,
        k0.upt()->0.wf(k0.mem),
    ensures
        r->Ok_0 is Ret,
        a3 & 0x10 != 0 ==> r->Ok_0->Ret_0 == a0 as isize,
        a3 & 0x10 == 0 && k0.mmap_base == 0 ==> r->Ok_0->Ret_0 == 0x5000_0000,
        a3 & 0x10 == 0 && k0.mmap_base != 0 ==> r->Ok_0->Ret_0 == k0.mmap_base as isize,
        ({
            let (m, start) = w;
            &&& r->Ok_0->Ret_0 == start as isize
            &&& forall|v: int| #[trigger] k0.upt()->0.lookup(m, v) != k0.upt()->0.lookup(k0.mem, v) ==> {
                &&& k0.upt()->0.lookup(k0.mem, v) is None
                &&& k0.upt()->0.lookup(m, v) is Some
                &&& (k0.upt()->0.lookup(m, v)->0 & 8usize != 0) == (a2 & 4 != 0)
                &&& (k0.upt()->0.lookup(m, v)->0 & 2usize != 0) == (a2 & 1 != 0)
                &&& (k0.upt()->0.lookup(m, v)->0 & 4usize != 0) == (a2 & 2 != 0)
                &&& k0.upt()->0.lookup(m, v)->0 & 16usize != 0
                &&& k0.upt()->0.lookup(m, v)->0 & 1usize != 0
            }
            &&& a1 > 0 && a1 + 0xfff <= usize::MAX ==> range_mapped(k0.upt()->0, m, start as int, mmap_span(a1) as int)
        }),
{
    let w = law_mmap_call_permissions(k0, k1, a0, a1, a2, a3, a4, a5, ret_view(r));
    lemma_page_align(a1.wrapping_add(0xfff));
    if a1 > 0 && a1 + 0xfff <= usize::MAX {
        assert(a1.wrapping_add(0xfff) == a1 + 0xfff);
        assert(mmap_span(a1) > 0);
    }
    w
}

/// Answers system call `num` with arguments `args`, the timer standing at
/// `ticks`: each number goes to its call; numbers the kernel does not
/// know get -1.
#[verifier::spinoff_prover]
#[verifier::rlimit(60)]
pub fn dispatch(k: &mut Kernel, num: usize, args: [usize; 6], ticks: u64) -> (r: Result<Outcome, KernelPanic>)
    requires
        old(k).wf(),
    ensures
        final(k).wf(),
        syscall_effect(*old(k), *final(k), num, args[0], args[1], args[2], args[3], args[4], args[5], ticks, r),
{
    let a0 = args[0];
    let a1 = args[1];
    let a2 = args[2];
    let a3 = args[3];
    let a4 = args[4];
    let a5 = args[5];
    if num == 17 {
        ret(sys_getcwd(k, a0, a1))
    } else if num == 19 {
        Ok(Outcome::Ret(sys_eventfd2(k)))
    } else if num == 20 {
        Ok(Outcome::Ret(sys_epoll_create1(k)))
    } else if num == 21 {
        ret(sys_epoll_ctl(k, a2, a3))
    } else if num == 22 {
        Ok(sys_epoll_pwait(a1, a2, a3))
    } else if num == 23 || num == 24 {
        ret(sys_dup2(k, a0, a1))
    } else if num == 25 {
        Ok(Outcome::Ret(sys_fcntl(k, a0, a1)))
    } else if num == 29 {
        Ok(Outcome::Ret(sys_ioctl(k, a0, a1)))
    } else if num == 34 {
        ret(sys_mkdirat(k, a1))
    } else if num == 48 {
        ret(sys_faccessat(k, a1))
    } else if num == 54 {
        Ok(Outcome::Ret(sys_fchownat(a0, a1, a2, a3, a4)))
    } else if num == 56 {
        ret(sys_openat(k, a1, a2))
    } else if num == 57 {
        Ok(sys_close(k, a0))
    } else if num == 59 {
        ret(sys_pipe2(k, a0))
    } else if num == 61 {
        ret(sys_getdents64(k, a0, a1, a2))
    } else if num == 62 {
        Ok(Outcome::Ret(sys_lseek(k, a0, a1, a2)))
    } else if num == 71 {
        sys_sendfile(k, a0, a1, a3)
    } else if num == 63 {
        sys_read(k, a0, a1, a2)
    } else if num == 64 {
        sys_write(k, a0, a1, a2)
    } else if num == 66 {
        sys_writev(k, a0, a1, a2)
    } else if num == 67 {
        ret(sys_pread64(k, a0, a1, a2, a3))
    } else if num == 68 {
        ret(sys_pwrite64(k, a0, a1, a2, a3))
    } else if num == 73 {
        ret(sys_ppoll(k, a0, a1))
    } else if num == 78 {
        ret(sys_readlinkat(k, a1, a2, a3))
    } else if num == 79 {
        ret(sys_fstatat(k, a1, a2))
    } else if num == 80 {
        ret(sys_fstat(k, a0, a1))
    } else if num == 93 || num == 94 {
        Ok(sys_exit(k, a0))
    } else if num == 96 {
        Ok(Outcome::Ret(sys_set_tid_address(a0)))
    } else if num == 99 {
        Ok(Outcome::Ret(sys_set_robust_list(a0, a1)))
    } else if num == 113 {
        ret(sys_clock_gettime(k, a1, ticks))
    } else if num == 122 {
        Ok(Outcome::Ret(sys_sched_setaffinity(a0, a1, a2)))
    } else if num == 123 {
        Ok(Outcome::Ret(sys_sched_getaffinity(a0, a1, a2)))
    } else if num == 134 {
        Ok(Outcome::Ret(sys_rt_sigaction(a0, a1, a2, a3)))
    } else if num == 135 {
        Ok(Outcome::Ret(sys_rt_sigprocmask(a0, a1, a2, a3)))
    } else if num == 144 {
        Ok(Outcome::Ret(sys_setgid(a0)))
    } else if num == 146 {
        Ok(Outcome::Ret(sys_setuid(a0)))
    } else if num == 159 {
        Ok(Outcome::Ret(sys_setgroups(a0, a1)))
    } else if num == 160 {
        ret(sys_uname(k, a0))
    } else if num == 163 {
        ret(sys_getrlimit(k, a0, a1))
    } else if num == 166 {
        Ok(Outcome::Ret(sys_umask(a0)))
    } else if num == 167 {
        Ok(Outcome::Ret(sys_prctl(a0, a1, a2, a3, a4)))
    } else if num == 172 {
        Ok(Outcome::Ret(sys_getpid(k)))
    } else if num == 173 {
        Ok(Outcome::Ret(sys_getppid(k)))
    } else if num == 174 {
        Ok(Outcome::Ret(sys_getuid()))
    } else if num == 175 {
        Ok(Outcome::Ret(sys_geteuid()))
    } else if num == 176 {
        Ok(Outcome::Ret(sys_getgid()))
    } else if num == 177 {
        Ok(Outcome::Ret(sys_getegid()))
    } else if num == 198 {
        Ok(Outcome::Ret(sys_socket(k, a0)))
    } else if num == 199 {
        ret(sys_socketpair(k, a3))
    } else if num == 200 {
        Ok(Outcome::Ret(sys_bind(k, a0)))
    } else if num == 201 {
        Ok(sys_listen(k, a0))
    } else if num == 202 {
        Ok(sys_accept(k, a0, a1, a2))
    } else if num == 242 {
        Ok(sys_accept4(k, a0, a1, a2))
    } else if num == 203 {
        Ok(Outcome::Ret(sys_connect(k, a0)))
    } else if num == 204 {
        Ok(Outcome::Ret(sys_getsockname(a0, a1, a2)))
    } else if num == 205 {
        Ok(Outcome::Ret(sys_getpeername(a0, a1, a2)))
    } else if num == 206 {
        sys_sendto(k, a0, a1, a2)
    } else if num == 207 {
        sys_recvfrom(k, a0, a1, a2)
    } else if num == 208 {
        Ok(Outcome::Ret(sys_setsockopt(k, a0)))
    } else if num == 209 {
        Ok(Outcome::Ret(sys_getsockopt(k, a0)))
    } else if num == 210 {
        Ok(Outcome::Ret(sys_shutdown(k, a0)))
    } else if num == 212 {
        ret(sys_recvmsg(k, a0, a1))
    } else if num == 214 {
        ret(sys_brk(k, a0))
    } else if num == 215 {
        Ok(Outcome::Ret(sys_munmap(a0, a1)))
    } else if num == 220 {
        ret(sys_clone(k, a1))
    } else if num == 221 {
        Ok(sys_execve(k, a0, a1, a2))
    } else if num == 222 {
        ret(sys_mmap(k, a0, a1, a2, a3, a4, a5))
    } else if num == 226 {
        Ok(Outcome::Ret(sys_mprotect(a0, a1, a2)))
    } else if num == 233 {
        Ok(Outcome::Ret(sys_madvise(a0, a1, a2)))
    } else if num == 260 {
        sys_wait4(k, a0, a1, a2)
    } else if num == 261 {
        ret(sys_prlimit64(k, a1, a3))
    } else if num == 278 {
        ret(sys_getrandom(k, a0, a1))
    } else if num == 291 {
        ret(sys_statx(k, a1, a4))
    } else {
        Ok(Outcome::Ret(-1))
    }
}

} // verus!
