//! Processes: their address spaces, saved registers and the table that
//! holds them.
use vstd::prelude::*;
use crate::mm::{PhysMem, PAGE_SIZE, PHYS_END, KernelPanic, pte_ppn};
use crate::pagetable::{PageTable, KERNEL_REGION_PAGES, kernel_lookup, slot_key, lemma_same_entries, user_page, page_copied, page_byte,
    clone_fits, user_pages_from};
use crate::trap::TrapFrame;
use crate::fdtable::{FdTable, stdio_file};
use crate::elf_parse::{parse_elf, elf_no_image, elf_parse_stops, image_parsed};
use crate::elf::{ElfImage, STACK_TOP, strs_view, stack_fits, stack_writes, writes_hold, at_phdr_spec, brk_after, max_end,
    map_user_stack, load_program, initial_brk, stack_in_page, stack_mapped, seg_mapped, seg_loaded, SegmentKind,
    fits_user_space, load_pages, lemma_fits_loadable, lemma_stack_outside_kernel, lemma_load_pages_nonneg};

verus! {

#[derive(Clone, Copy, PartialEq, Eq, Structural, Debug)]
pub enum ProcState {
    Ready,
    Running,
    Zombie,
}

/// Pages that `Process::new` takes: the root table, a two-page kernel
/// stack and the tables of the kernel's mappings.
pub const NEW_PROCESS_PAGES: usize = 71;

pub struct Process {
    pub pid: usize,
    pub ppid: usize,
    pub state: ProcState,
    pub page_table: PageTable,
    pub trap_frame: TrapFrame,
    pub kernel_stack: usize,
    pub brk: usize,
    pub exit_code: isize,
    pub fd_table: FdTable,
}

impl Process {
    /// This process under pid `pid`.
    pub open spec fn with_pid(self, pid: usize) -> Process {
        Process {
            pid: pid,
            ppid: self.ppid,
            state: self.state,
            page_table: self.page_table,
            trap_frame: self.trap_frame,
            kernel_stack: self.kernel_stack,
            brk: self.brk,
            exit_code: self.exit_code,
            fd_table: self.fd_table,
        }
    }

    /// A ready process with an address space that maps only the kernel and
    /// the devices, a fresh kernel stack and standard descriptors; `None`
    /// when the root table or the stack cannot be allocated.
    pub fn new(pid: usize, mem: &mut PhysMem) -> (r: Option<Process>)
        requires
            old(mem).wf(),
            old(mem).free_pages() >= NEW_PROCESS_PAGES || old(mem).free_pages() < 3,
        ensures
            final(mem).wf(),
            final(mem).first_ppn() == old(mem).first_ppn(),
            forall|p: int| old(mem).is_frame(p) ==> final(mem).is_frame(p),
            r is Some <==> old(mem).free_pages() >= 3,
            r is Some ==> {
                let p = r->0;
                &&& p.pid == pid
                &&& p.ppid == 0
                &&& p.state == ProcState::Ready
                &&& p.brk == 0
                &&& p.exit_code == 0
                &&& p.kernel_stack == old(mem).current() + 3 * 4096
                &&& p.trap_frame.is_zero()
                &&& p.fd_table@ == seq![Some(stdio_file()), Some(stdio_file()), Some(stdio_file())]
                &&& p.page_table.wf(*final(mem))
                &&& !old(mem).is_frame(p.page_table.root())
                &&& final(mem).is_frame(p.page_table.root())
                &&& forall|v: int| #[trigger] p.page_table.lookup(*final(mem), v) == kernel_lookup(slot_key(v))
                &&& final(mem).free_pages() == old(mem).free_pages() - NEW_PROCESS_PAGES
            },
    {
        proof {
            old(mem).lemma_wf_facts();
        }
        let pt = match PageTable::new(mem) {
            Some(pt) => pt,
            None => return None,
        };
        let ghost m1 = *mem;
        proof {
            m1.lemma_wf_facts();
        }
        let kstack = match mem.alloc_pages(2) {
            Some(k) => k,
            None => return None,
        };
        proof {
            assert forall|p: int, i: int| #[trigger] mem.entry(p, i) == m1.entry(p, i) by {
                m1.lemma_word_outside(p, i);
            }
            lemma_same_entries(pt, m1, *mem);
        }
        pt.map_kernel_regions(mem);
        Some(Process {
            pid,
            ppid: 0,
            state: ProcState::Ready,
            page_table: pt,
            trap_frame: TrapFrame::new(),
            kernel_stack: kstack + 2 * PAGE_SIZE,
            brk: 0,
            exit_code: 0,
            fd_table: FdTable::new(),
        })
    }
}

/// The processes by increasing pid, the running one, and the next pid to
/// hand out.
pub struct ProcTable {
    procs: Vec<Process>,
    current_pid: usize,
    next_pid: usize,
}

impl ProcTable {
    pub closed spec fn procs(self) -> Seq<Process> {
        self.procs@
    }

    /// The pid of the running process.
    pub closed spec fn current(self) -> usize {
        self.current_pid
    }

    pub fn current_pid(&self) -> (p: usize)
        ensures
            p == self.current(),
    {
        self.current_pid
    }

    /// Makes `pid` the running process.
    pub fn set_current(&mut self, pid: usize)
        requires
            old(self).wf(),
        ensures
            final(self).wf(),
            final(self).current() == pid,
            final(self).procs() == old(self).procs(),
            final(self).next() == old(self).next(),
    {
        self.current_pid = pid;
    }

    pub closed spec fn next(self) -> nat {
        self.next_pid as nat
    }

    /// The pid handed out next.
    pub fn next_pid(&self) -> (n: usize)
        ensures
            n == self.next(),
    {
        self.next_pid
    }

    pub closed spec fn wf(self) -> bool {
        &&& forall|i: int, j: int| 0 <= i < j < self.procs@.len() ==> #[trigger] self.procs@[i].pid < #[trigger] self.procs@[j].pid
        &&& forall|i: int| 0 <= i < self.procs@.len() ==> #[trigger] self.procs@[i].pid < self.next_pid
        &&& self.next_pid >= 1
    }

    /// The processes stand by increasing pid.
    pub proof fn lemma_pid_order(self, i: int, j: int)
        requires
            self.wf(),
            0 <= i < j < self.procs().len(),
        ensures
            self.procs()[i].pid < self.procs()[j].pid,
    {
    }

    /// Whether a process has pid `pid`.
    pub open spec fn has(self, pid: usize) -> bool {
        exists|i: int| 0 <= i < self.procs().len() && #[trigger] self.procs()[i].pid == pid
    }

    /// Position of the process with pid `pid`.
    pub open spec fn index_of(self, pid: usize) -> int {
        choose|i: int| 0 <= i < self.procs().len() && #[trigger] self.procs()[i].pid == pid
    }

    /// The process with pid `pid`.
    pub open spec fn get_spec(self, pid: usize) -> Process {
        self.procs()[self.index_of(pid)]
    }

    pub proof fn lemma_index_of(self, i: int)
        requires
            self.wf(),
            0 <= i < self.procs().len(),
        ensures
            self.has(self.procs()[i].pid),
            self.index_of(self.procs()[i].pid) == i,
    {
        let k = self.index_of(self.procs()[i].pid);
        if k < i {
            assert(self.procs@[k].pid < self.procs@[i].pid);
        } else if k > i {
            assert(self.procs@[i].pid < self.procs@[k].pid);
        }
    }

    /// The root table of every process is a frame of `mem`.
    pub open spec fn roots_framed(self, mem: PhysMem) -> bool {
        forall|q: usize| #[trigger] self.has(q) ==> mem.is_frame(self.get_spec(q).page_table.root())
    }

    /// The process with pid `pid` has that pid, which is below the next.
    pub proof fn lemma_has_pid(self, pid: usize)
        requires
            self.wf(),
            self.has(pid),
        ensures
            self.get_spec(pid).pid == pid,
            pid < self.next(),
    {
        let i = self.index_of(pid);
        self.lemma_index_of(i);
    }

    /// `roots_framed` says, by pid, what holds of each position.
    pub proof fn lemma_roots_framed(self, mem: PhysMem)
        requires
            self.wf(),
        ensures
            self.roots_framed(mem) <==> forall|i: int| 0 <= i < self.procs().len()
                ==> mem.is_frame(#[trigger] self.procs()[i].page_table.root()),
    {
        if self.roots_framed(mem) {
            assert forall|i: int| 0 <= i < self.procs().len() implies mem.is_frame(#[trigger] self.procs()[i].page_table.root()) by {
                self.lemma_index_of(i);
                assert(self.has(self.procs()[i].pid));
            }
        }
        if forall|i: int| 0 <= i < self.procs().len() ==> mem.is_frame(#[trigger] self.procs()[i].page_table.root()) {
            assert forall|q: usize| #[trigger] self.has(q) implies mem.is_frame(self.get_spec(q).page_table.root()) by {
                let i = self.index_of(q);
                assert(mem.is_frame(self.procs()[i].page_table.root()));
            }
        }
    }

    /// No processes; pid 1 comes next.
    pub fn new() -> (t: ProcTable)
        ensures
            t.wf(),
            t.procs() == Seq::<Process>::empty(),
            t.current() == 0,
            t.next() == 1,
    {
        ProcTable { procs: Vec::new(), current_pid: 0, next_pid: 1 }
    }

    /// Position of the process with pid `pid`, if there is one.
    fn find(&self, pid: usize) -> (r: Option<usize>)
        requires
            self.wf(),
        ensures
            r is Some <==> self.has(pid),
            r is Some ==> r->0 == self.index_of(pid) && r->0 < self.procs().len(),
    {
        let mut i: usize = 0;
        while i < self.procs.len()
            invariant
                self.wf(),
                i <= self.procs@.len(),
                forall|j: int| 0 <= j < i ==> self.procs@[j].pid != pid,
            decreases self.procs@.len() - i,
        {
            if self.procs[i].pid == pid {
                proof {
                    self.lemma_index_of(i as int);
                }
                return Some(i);
            }
            i = i + 1;
        }
        None
    }

    /// The process with pid `pid`.
    pub fn get(&self, pid: usize) -> (r: Option<&Process>)
        requires
            self.wf(),
        ensures
            r is Some <==> self.has(pid),
            r is Some ==> *r->0 == self.get_spec(pid),
    {
        match self.find(pid) {
            Some(i) => Some(&self.procs[i]),
            None => None,
        }
    }

    /// The process with pid `pid`, to change it in place.
    pub fn get_mut(&mut self, pid: usize) -> (r: Option<&mut Process>)
        requires
            old(self).wf(),
        ensures
            r is Some <==> old(self).has(pid),
            r is None ==> *final(self) == *old(self),
            r is Some ==> {
                &&& *r->0 == old(self).get_spec(pid)
                &&& final(self).procs() == old(self).procs().update(old(self).index_of(pid), *final(r->0))
                &&& final(self).current() == old(self).current()
                &&& final(self).next() == old(self).next()
            },
    {
        match self.find(pid) {
            Some(i) => Some(&mut self.procs[i]),
            None => None,
        }
    }

    /// Takes the next pid.
    pub fn take_pid(&mut self) -> (pid: usize)
        requires
            old(self).wf(),
            old(self).next() < usize::MAX,
        ensures
            final(self).wf(),
            pid == old(self).next(),
            final(self).next() == old(self).next() + 1,
            final(self).procs() == old(self).procs(),
            final(self).current() == old(self).current(),
    {
        let pid = self.next_pid;
        self.next_pid = self.next_pid + 1;
        pid
    }

    /// Sets the next pid.
    pub fn set_next_pid(&mut self, next: usize)
        requires
            old(self).wf(),
            forall|i: int| 0 <= i < old(self).procs().len() ==> #[trigger] old(self).procs()[i].pid < next,
            next >= 1,
        ensures
            final(self).wf(),
            final(self).next() == next,
            final(self).procs() == old(self).procs(),
            final(self).current() == old(self).current(),
    {
        assert forall|i: int| 0 <= i < self.procs@.len() implies #[trigger] self.procs@[i].pid < next by {
            assert(old(self).procs()[i].pid < next);
        }
        self.next_pid = next;
    }

    /// Adds `p`, whose pid is below the next pid, or replaces the process
    /// with that pid.
    #[verifier::rlimit(80)]
    pub fn insert(&mut self, p: Process)
        requires
            old(self).wf(),
            p.pid < old(self).next(),
        ensures
            final(self).wf(),
            final(self).has(p.pid),
            final(self).get_spec(p.pid) == p,
            forall|q: usize| q != p.pid ==> (#[trigger] final(self).has(q) == old(self).has(q)),
            forall|q: usize| q != p.pid && old(self).has(q) ==> #[trigger] final(self).get_spec(q) == old(self).get_spec(q),
            final(self).current() == old(self).current(),
            final(self).next() == old(self).next(),
    {
        let mut i: usize = 0;
        while i < self.procs.len() && self.procs[i].pid < p.pid
            invariant
                self.wf(),
                *self == *old(self),
                i <= self.procs@.len(),
                forall|j: int| 0 <= j < i ==> self.procs@[j].pid < p.pid,
            decreases self.procs@.len() - i,
        {
            i = i + 1;
        }
        let ghost s0 = self.procs@;
        let pid = p.pid;
        if i < self.procs.len() && self.procs[i].pid == pid {
            self.procs.set(i, p);
            proof {
                assert forall|a: int, b: int| 0 <= a < b < self.procs@.len() implies #[trigger] self.procs@[a].pid < #[trigger] self.procs@[b].pid by {
                    assert(s0[a].pid < s0[b].pid);
                }
            }
        } else {
            self.procs.insert(i, p);
            proof {
                assert forall|a: int, b: int| 0 <= a < b < self.procs@.len() implies #[trigger] self.procs@[a].pid < #[trigger] self.procs@[b].pid by {
                    if b < i {
                        assert(s0[a].pid < s0[b].pid);
                    } else if a < i && b == i {
                    } else if a < i {
                        assert(self.procs@[b] == s0[b - 1]);
                        assert(s0[a].pid < s0[b - 1].pid);
                    } else if a == i {
                        assert(self.procs@[b] == s0[b - 1]);
                        if b - 1 > i {
                            assert(s0[i as int].pid < s0[b - 1].pid);
                        }
                    } else {
                        assert(self.procs@[a] == s0[a - 1]);
                        assert(self.procs@[b] == s0[b - 1]);
                        assert(s0[a - 1].pid < s0[b - 1].pid);
                    }
                }
                assert forall|a: int| 0 <= a < self.procs@.len() implies #[trigger] self.procs@[a].pid < self.next_pid by {
                    if a < i {
                        assert(self.procs@[a] == s0[a]);
                    } else if a > i {
                        assert(self.procs@[a] == s0[a - 1]);
                    }
                }
            }
        }
        proof {
            let found = i < s0.len() && s0[i as int].pid == pid;
            assert(self.procs@[i as int] == p);
            self.lemma_index_of(i as int);
            assert forall|q: usize| q != pid implies (#[trigger] self.has(q) == old(self).has(q)) by {
                if old(self).has(q) {
                    let k = old(self).index_of(q);
                    if found || k < i {
                        assert(self.procs@[k].pid == q);
                    } else {
                        assert(self.procs@[k + 1].pid == q);
                    }
                }
                if self.has(q) {
                    let k = self.index_of(q);
                    if found || k < i {
                        assert(s0[k].pid == q);
                    } else if k > i {
                        assert(s0[k - 1].pid == q);
                    }
                }
            }
            assert forall|q: usize| q != pid && old(self).has(q) implies #[trigger] self.get_spec(q) == old(self).get_spec(q) by {
                let k = old(self).index_of(q);
                old(self).lemma_index_of(k);
                if found || k < i {
                    self.lemma_index_of(k);
                } else {
                    self.lemma_index_of(k + 1);
                }
            }
        }
    }

    /// Removes the process with pid `pid`.
    pub fn remove(&mut self, pid: usize) -> (r: Option<Process>)
        requires
            old(self).wf(),
        ensures
            final(self).wf(),
            r is Some <==> old(self).has(pid),
            r is Some ==> r->0 == old(self).get_spec(pid),
            r is None ==> *final(self) == *old(self),
            !final(self).has(pid),
            forall|q: usize| q != pid ==> (#[trigger] final(self).has(q) == old(self).has(q)),
            forall|q: usize| q != pid && old(self).has(q) ==> #[trigger] final(self).get_spec(q) == old(self).get_spec(q),
            final(self).current() == old(self).current(),
            final(self).next() == old(self).next(),
    {
        match self.find(pid) {
            Some(i) => {
                let ghost s0 = self.procs@;
                let p = self.procs.remove(i);
                proof {
                    assert forall|a: int, b: int| 0 <= a < b < self.procs@.len() implies #[trigger] self.procs@[a].pid < #[trigger] self.procs@[b].pid by {
                        if b < i {
                            assert(s0[a].pid < s0[b].pid);
                        } else if a < i {
                            assert(s0[a].pid < s0[b + 1].pid);
                        } else {
                            assert(s0[a + 1].pid < s0[b + 1].pid);
                        }
                    }
                    assert forall|a: int| 0 <= a < self.procs@.len() implies #[trigger] self.procs@[a].pid < self.next_pid by {
                        if a >= i {
                            assert(self.procs@[a] == s0[a + 1]);
                        }
                    }
                    assert forall|q: usize| q != pid implies (#[trigger] self.has(q) == old(self).has(q)) by {
                        if old(self).has(q) {
                            let k = old(self).index_of(q);
                            if k < i {
                                assert(self.procs@[k].pid == q);
                            } else {
                                assert(self.procs@[k - 1].pid == q);
                            }
                        }
                        if self.has(q) {
                            let k = self.index_of(q);
                            if k < i {
                                assert(s0[k].pid == q);
                            } else {
                                assert(s0[k + 1].pid == q);
                            }
                        }
                    }
                    if self.has(pid) {
                        let k = self.index_of(pid);
                        if k < i {
                            assert(s0[k].pid < s0[i as int].pid);
                        } else {
                            assert(s0[i as int].pid < s0[k + 1].pid);
                        }
                    }
                    assert forall|q: usize| q != pid && old(self).has(q) implies #[trigger] self.get_spec(q) == old(self).get_spec(q) by {
                        let k = old(self).index_of(q);
                        old(self).lemma_index_of(k);
                        if k < i {
                            self.lemma_index_of(k);
                        } else {
                            self.lemma_index_of(k - 1);
                        }
                    }
                }
                Some(p)
            },
            None => None,
        }
    }

    /// The number of processes.
    pub fn len(&self) -> (n: usize)
        ensures
            n == self.procs().len(),
    {
        self.procs.len()
    }

    /// The process at position `i`.
    pub fn at(&self, i: usize) -> (p: &Process)
        requires
            i < self.procs().len(),
        ensures
            *p == self.procs()[i as int],
    {
        &self.procs[i]
    }

    /// Process `p` can take over from process `cur`: it exists, is ready
    /// and is not `cur`.
    pub open spec fn runnable(self, cur: usize, p: usize) -> bool {
        self.has(p) && self.get_spec(p).state == ProcState::Ready && p != cur
    }

    /// `p` is the process that runs after `cur` stops: of those that can
    /// take over, the first after `cur` going round the pids upwards.
    pub open spec fn next_after(self, cur: usize, p: usize) -> bool {
        &&& self.runnable(cur, p)
        &&& forall|q: usize| #[trigger] self.runnable(cur, q) ==> rr_rank(cur, p) <= rr_rank(cur, q)
    }

    /// The process that runs after `cur` stops, in round-robin order of
    /// pids; `None` when no other process is ready.
    pub fn next_ready(&self, cur: usize) -> (r: Option<usize>)
        requires
            self.wf(),
        ensures
            r is None <==> !exists|q: usize| #[trigger] self.runnable(cur, q),
            r matches Some(p) ==> self.next_after(cur, p),
    {
        let mut best: Option<usize> = None;
        let mut i: usize = 0;
        while i < self.procs.len()
            invariant
                self.wf(),
                i <= self.procs@.len(),
                best is None ==> forall|j: int| 0 <= j < i ==> !(#[trigger] self.procs@[j].state == ProcState::Ready
                    && self.procs@[j].pid != cur),
                best matches Some(p) ==> exists|j: int| 0 <= j < i && #[trigger] self.procs@[j].pid == p
                    && self.procs@[j].state == ProcState::Ready && p != cur,
                best matches Some(p) ==> forall|j: int| 0 <= j < i && #[trigger] self.procs@[j].state == ProcState::Ready
                    && self.procs@[j].pid != cur ==> rr_rank(cur, p) <= rr_rank(cur, self.procs@[j].pid),
            decreases self.procs@.len() - i,
        {
            let p = &self.procs[i];
            if p.state == ProcState::Ready && p.pid != cur {
                let better = match best {
                    None => true,
                    Some(b) => rank(cur, p.pid) < rank(cur, b),
                };
                if better {
                    best = Some(p.pid);
                }
            }
            i = i + 1;
        }
        proof {
            assert forall|q: usize| #[trigger] self.runnable(cur, q) implies (best matches Some(p) && rr_rank(cur, p) <= rr_rank(cur, q)) by {
                let j = self.index_of(q);
                self.lemma_index_of(j);
                assert(self.procs@[j].state == ProcState::Ready && self.procs@[j].pid != cur);
            }
            if let Some(p) = best {
                let j = choose|j: int| 0 <= j < self.procs@.len() && #[trigger] self.procs@[j].pid == p
                    && self.procs@[j].state == ProcState::Ready && p != cur;
                self.lemma_index_of(j);
                assert(self.runnable(cur, p));
            }
        }
        best
    }
}

/// How far pid `p` comes after pid `cur` going round the pids upwards
/// (past the largest back to 0).
pub open spec fn rr_rank(cur: usize, p: usize) -> int {
    if p > cur { p - cur } else { p - cur + usize::MAX + 1 }
}

fn rank(cur: usize, p: usize) -> (r: u128)
    ensures
        r == rr_rank(cur, p),
{
    if p > cur { (p - cur) as u128 } else { (p as u128) + (usize::MAX as u128) + 1 - (cur as u128) }
}

/// Marks the running process a zombie with exit code `code`.
pub fn exit_process(table: &mut ProcTable, code: isize)
    requires
        old(table).wf(),
    ensures
        final(table).wf(),
        forall|q: usize| #[trigger] final(table).has(q) == old(table).has(q),
        final(table).current() == old(table).current(),
        final(table).next() == old(table).next(),
        old(table).has(old(table).current()) ==> {
            let p = final(table).get_spec(old(table).current());
            let o = old(table).get_spec(old(table).current());
            &&& p.state == ProcState::Zombie
            &&& p.exit_code == code
            &&& p.pid == o.pid && p.ppid == o.ppid && p.brk == o.brk
            &&& p.page_table == o.page_table && p.trap_frame == o.trap_frame
            &&& p.kernel_stack == o.kernel_stack && p.fd_table == o.fd_table
        },
        forall|q: usize| q != old(table).current() && old(table).has(q)
            ==> #[trigger] final(table).get_spec(q) == old(table).get_spec(q),
{
    let pid = table.current_pid();
    let ghost t0 = *table;
    match table.get_mut(pid) {
        Some(p) => {
            p.state = ProcState::Zombie;
            p.exit_code = code;
        },
        None => {},
    }
    proof {
        if t0.has(pid) {
            let i = t0.index_of(pid);
            assert forall|a: int, b: int| 0 <= a < b < table.procs@.len() implies #[trigger] table.procs@[a].pid < #[trigger] table.procs@[b].pid by {
                assert(t0.procs@[a].pid < t0.procs@[b].pid);
            }
            assert forall|a: int| 0 <= a < table.procs@.len() implies #[trigger] table.procs@[a].pid < table.next_pid by {
                assert(t0.procs@[a].pid < t0.next_pid);
            }
            table.lemma_index_of(i);
            assert forall|q: usize| #[trigger] table.has(q) == t0.has(q) by {
                if t0.has(q) {
                    assert(table.procs@[t0.index_of(q)].pid == q);
                }
                if table.has(q) {
                    assert(t0.procs@[table.index_of(q)].pid == q);
                }
            }
            assert forall|q: usize| q != pid && t0.has(q) implies #[trigger] table.get_spec(q) == t0.get_spec(q) by {
                let k = t0.index_of(q);
                t0.lemma_index_of(k);
                table.lemma_index_of(k);
            }
        }
    }
}

/// The entry a process that stops running leaves: registers `tf`, and
/// ready again unless it no longer runs (a zombie stays one).
pub open spec fn parked(p: Process, tf: TrapFrame) -> Process {
    Process { trap_frame: tf, state: if p.state == ProcState::Running { ProcState::Ready } else { p.state }, ..p }
}

/// Changing the entry at position `i` of a table, its pid kept, changes no
/// other entry and keeps the table well formed.
proof fn lemma_entry_replaced(t0: ProcTable, t1: ProcTable, i: int, p: Process)
    requires
        t0.wf(),
        0 <= i < t0.procs().len(),
        p.pid == t0.procs()[i].pid,
        t1.procs() == t0.procs().update(i, p),
        t1.next() == t0.next(),
    ensures
        t1.wf(),
        forall|q: usize| #[trigger] t1.has(q) == t0.has(q),
        t1.get_spec(p.pid) == p,
        forall|q: usize| q != p.pid && t0.has(q) ==> #[trigger] t1.get_spec(q) == t0.get_spec(q),
{
    assert forall|a: int, b: int| 0 <= a < b < t1.procs@.len() implies #[trigger] t1.procs@[a].pid < #[trigger] t1.procs@[b].pid by {
        assert(t0.procs@[a].pid < t0.procs@[b].pid);
    }
    assert forall|a: int| 0 <= a < t1.procs@.len() implies #[trigger] t1.procs@[a].pid < t1.next_pid by {
        assert(t0.procs@[a].pid < t0.next_pid);
    }
    t1.lemma_index_of(i);
    assert forall|q: usize| #[trigger] t1.has(q) == t0.has(q) by {
        if t0.has(q) {
            assert(t1.procs@[t0.index_of(q)].pid == q);
        }
        if t1.has(q) {
            assert(t0.procs@[t1.index_of(q)].pid == q);
        }
    }
    assert forall|q: usize| q != p.pid && t0.has(q) implies #[trigger] t1.get_spec(q) == t0.get_spec(q) by {
        let k = t0.index_of(q);
        t0.lemma_index_of(k);
        t1.lemma_index_of(k);
    }
}

/// Stops the running process, its registers `tf` saved in its entry, and
/// runs process `next`: the stopped one is ready again (unless it is a
/// zombie), `next` is running. Returns the registers saved for `next`.
pub fn switch_process(table: &mut ProcTable, tf: &TrapFrame, next: usize) -> (r: TrapFrame)
    requires
        old(table).wf(),
        old(table).has(next),
        next != old(table).current(),
    ensures
        final(table).wf(),
        final(table).current() == next,
        final(table).next() == old(table).next(),
        r == old(table).get_spec(next).trap_frame,
        forall|q: usize| #[trigger] final(table).has(q) == old(table).has(q),
        old(table).has(old(table).current()) ==> final(table).get_spec(old(table).current())
            == parked(old(table).get_spec(old(table).current()), *tf),
        final(table).get_spec(next) == (Process { state: ProcState::Running, ..old(table).get_spec(next) }),
        forall|q: usize| q != old(table).current() && q != next && old(table).has(q)
            ==> #[trigger] final(table).get_spec(q) == old(table).get_spec(q),
{
    let cur = table.current_pid();
    let ghost t0 = *table;
    match table.get_mut(cur) {
        Some(p) => {
            p.trap_frame = *tf;
            if p.state == ProcState::Running {
                p.state = ProcState::Ready;
            }
        },
        None => {},
    }
    proof {
        if t0.has(cur) {
            let i = t0.index_of(cur);
            t0.lemma_index_of(i);
            lemma_entry_replaced(t0, *table, i, parked(t0.get_spec(cur), *tf));
        }
    }
    let ghost t1 = *table;
    let mut out = *tf;
    match table.get_mut(next) {
        Some(p) => {
            out = p.trap_frame;
            p.state = ProcState::Running;
        },
        None => {},
    }
    proof {
        let i = t1.index_of(next);
        t1.lemma_index_of(i);
        lemma_entry_replaced(t1, *table, i, Process { state: ProcState::Running, ..t1.get_spec(next) });
    }
    let ghost t2 = *table;
    table.set_current(next);
    proof {
        assert(table.procs() == t2.procs());
        assert forall|q: usize| #[trigger] table.has(q) == t0.has(q) by {
            assert(table.has(q) == t2.has(q));
            assert(t2.has(q) == t1.has(q));
        }
        assert forall|q: usize| #[trigger] table.get_spec(q) == t2.get_spec(q) by {
            assert(table.index_of(q) == t2.index_of(q));
        }
        if t0.has(cur) {
            assert(t1.has(cur));
            assert(t2.get_spec(cur) == t1.get_spec(cur));
        }
        assert forall|q: usize| q != cur && q != next && t0.has(q) implies #[trigger] table.get_spec(q) == t0.get_spec(q) by {
            assert(t1.has(q));
            assert(t2.get_spec(q) == t1.get_spec(q));
        }
    }
    out
}

/// A copy of the running process's saved registers.
pub fn current_trap_frame(table: &ProcTable) -> (r: Option<TrapFrame>)
    requires
        table.wf(),
    ensures
        r is Some <==> table.has(table.current()),
        r is Some ==> r->0 == table.get_spec(table.current()).trap_frame,
{
    match table.get(table.current_pid()) {
        Some(p) => Some(p.trap_frame),
        None => None,
    }
}

/// Replaces the running process's saved registers.
pub fn set_current_trap_frame(table: &mut ProcTable, tf: &TrapFrame)
    requires
        old(table).wf(),
    ensures
        final(table).wf(),
        forall|q: usize| #[trigger] final(table).has(q) == old(table).has(q),
        final(table).current() == old(table).current(),
        final(table).next() == old(table).next(),
        old(table).has(old(table).current()) ==> {
            let p = final(table).get_spec(old(table).current());
            let o = old(table).get_spec(old(table).current());
            &&& p.trap_frame == *tf
            &&& p.pid == o.pid && p.ppid == o.ppid && p.state == o.state && p.brk == o.brk && p.exit_code == o.exit_code
            &&& p.page_table == o.page_table && p.kernel_stack == o.kernel_stack && p.fd_table == o.fd_table
        },
        forall|q: usize| q != old(table).current() && old(table).has(q)
            ==> #[trigger] final(table).get_spec(q) == old(table).get_spec(q),
{
    let pid = table.current_pid();
    let ghost t0 = *table;
    match table.get_mut(pid) {
        Some(p) => {
            p.trap_frame = *tf;
        },
        None => {},
    }
    proof {
        if t0.has(pid) {
            let i = t0.index_of(pid);
            assert forall|a: int, b: int| 0 <= a < b < table.procs@.len() implies #[trigger] table.procs@[a].pid < #[trigger] table.procs@[b].pid by {
                assert(t0.procs@[a].pid < t0.procs@[b].pid);
            }
            assert forall|a: int| 0 <= a < table.procs@.len() implies #[trigger] table.procs@[a].pid < table.next_pid by {
                assert(t0.procs@[a].pid < t0.next_pid);
            }
            table.lemma_index_of(i);
            assert forall|q: usize| #[trigger] table.has(q) == t0.has(q) by {
                if t0.has(q) {
                    assert(table.procs@[t0.index_of(q)].pid == q);
                }
                if table.has(q) {
                    assert(t0.procs@[table.index_of(q)].pid == q);
                }
            }
            assert forall|q: usize| q != pid && t0.has(q) implies #[trigger] table.get_spec(q) == t0.get_spec(q) by {
                let k = t0.index_of(q);
                t0.lemma_index_of(k);
                table.lemma_index_of(k);
            }
        }
    }
}

/// Calls `f` on the running process, if there is one.
pub fn with_current_proc_ref<F, R>(table: &ProcTable, f: F) -> (r: Option<R>)
    where
        F: FnOnce(&Process) -> R,
    requires
        table.wf(),
        table.has(table.current()) ==> f.requires((&table.get_spec(table.current()),)),
    ensures
        r is Some <==> table.has(table.current()),
        r is Some ==> f.ensures((&table.get_spec(table.current()),), r->0),
{
    match table.get(table.current_pid()) {
        Some(p) => Some(f(p)),
        None => None,
    }
}

/// Creates a child of the running process: a copy of its address space,
/// a new kernel stack, its break and descriptors, and the registers
/// `parent_tf` with `a0` set to 0 and `sepc` past the `ecall`. Returns the
/// child's pid; `Ok(None)` when there is no running process or memory runs
/// out; `Err` where the kernel stops. It succeeds where the parent's user
/// pages can be copied (`clone_fits`) and memory holds the new table, the
/// kernel's regions, three pages for each user page and the kernel stack.
pub fn fork_process(table: &mut ProcTable, mem: &mut PhysMem, parent_tf: &TrapFrame) -> (r: Result<Option<usize>, KernelPanic>)
    requires
        old(table).wf(),
        old(mem).wf(),
        old(table).next() < usize::MAX,
        forall|i: int| 0 <= i < old(table).procs().len() ==> old(mem).is_frame(#[trigger] old(table).procs()[i].page_table.root()),
    ensures
        final(table).wf(),
        final(mem).wf(),
        final(mem).first_ppn() == old(mem).first_ppn(),
        forall|p: int| old(mem).is_frame(p) ==> final(mem).is_frame(p),
        final(table).current() == old(table).current(),
        forall|i: int| 0 <= i < final(table).procs().len() ==> final(mem).is_frame(#[trigger] final(table).procs()[i].page_table.root()),
        forall|p: int, x: int| old(mem).is_frame(p) ==> #[trigger] final(mem).word(p, x) == old(mem).word(p, x),
        !old(table).has(old(table).current()) ==> (r matches Ok(None)) && *final(table) == *old(table),
        r matches Ok(None) ==> *final(table) == *old(table),
        r matches Ok(Some(pid)) ==> {
            let parent = old(table).get_spec(old(table).current());
            let child = final(table).get_spec(pid);
            &&& old(table).has(old(table).current())
            &&& pid == old(table).next()
            &&& final(table).next() == old(table).next() + 1
            &&& final(table).has(pid)
            &&& child.pid == pid
            &&& child.ppid == old(table).current()
            &&& child.state == ProcState::Ready
            &&& child.brk == parent.brk
            &&& child.exit_code == 0
            &&& child.fd_table@ == parent.fd_table@
            &&& child.page_table.wf(*final(mem))
            &&& !old(mem).is_frame(child.page_table.root())
            &&& child.trap_frame.regs@ == parent_tf.regs@.update(10, 0usize)
            &&& child.trap_frame.sepc == parent_tf.sepc.wrapping_add(4)
            &&& child.trap_frame.sstatus == parent_tf.sstatus
            &&& child.trap_frame.fregs == parent_tf.fregs
            &&& child.trap_frame.satp == parent_tf.satp
            &&& child.trap_frame.scause == parent_tf.scause
            &&& child.trap_frame.stval == parent_tf.stval
            &&& parent.page_table.wf(*old(mem)) ==> {
                &&& forall|v: int| !user_page(parent.page_table, *old(mem), v)
                    ==> #[trigger] child.page_table.lookup(*final(mem), v) == kernel_lookup(slot_key(v))
                &&& forall|v: int| #[trigger] user_page(parent.page_table, *old(mem), v)
                    ==> page_copied(parent.page_table, *old(mem), child.page_table, *final(mem), v)
            }
            &&& forall|q: usize| q != pid ==> (#[trigger] final(table).has(q) == old(table).has(q))
            &&& forall|q: usize| q != pid && old(table).has(q) ==> #[trigger] final(table).get_spec(q) == old(table).get_spec(q)
        },
        old(table).has(old(table).current()) && ({
            let ppt = old(table).get_spec(old(table).current()).page_table;
            &&& ppt.wf(*old(mem))
            &&& clone_fits(ppt, *old(mem))
            &&& 3 + KERNEL_REGION_PAGES + 3 * user_pages_from(ppt, *old(mem), 0) <= old(mem).free_pages()
        }) ==> r matches Ok(Some(_)),
{
    let parent_pid = table.current_pid();
    let (child_pt, child_kstack, child_brk, child_fd_table) = {
        let parent = match table.get(parent_pid) {
            Some(p) => p,
            None => return Ok(None),
        };
        let child_pt = match parent.page_table.clone_user_space(mem) {
            Ok(Some(pt)) => pt,
            Ok(None) => return Ok(None),
            Err(e) => return Err(e),
        };
        let ghost m1 = *mem;
        let kstack = match mem.alloc_pages(2) {
            Some(k) => k,
            None => return Ok(None),
        };
        proof {
            assert forall|p: int, i: int| #[trigger] mem.entry(p, i) == m1.entry(p, i) by {
                m1.lemma_word_outside(p, i);
            }
            lemma_same_entries(child_pt, m1, *mem);
            m1.lemma_wf_facts();
            let ppt = parent.page_table;
            if ppt.wf(*old(mem)) {
                assert forall|v: int| #[trigger] user_page(ppt, *old(mem), v)
                    implies page_copied(ppt, *old(mem), child_pt, *mem, v) by {
                    assert(page_copied(ppt, *old(mem), child_pt, m1, v));
                    let f = pte_ppn(child_pt.lookup(m1, v)->0) as int;
                    if old(mem).is_frame(pte_ppn(ppt.lookup(*old(mem), v)->0) as int) {
                        assert forall|x: int| 0 <= x < 512 implies #[trigger] mem.word(f, x) == m1.word(f, x) by {
                            m1.lemma_word_outside(f, x);
                        }
                        mem.lemma_frame_bytes(m1, f);
                        assert forall|j: int| 0 <= j < 4096 implies #[trigger] page_byte(child_pt, *mem, v, j) == page_byte(ppt, *old(mem), v, j) by {
                            assert(page_byte(child_pt, m1, v, j) == page_byte(ppt, *old(mem), v, j));
                        }
                    }
                }
            }
        }
        (child_pt, kstack, parent.brk, parent.fd_table.clone())
    };
    let mut child_tf = *parent_tf;
    child_tf.regs[10] = 0;
    child_tf.sepc = parent_tf.sepc.wrapping_add(4);
    let pid = table.take_pid();
    let child = Process {
        pid,
        ppid: parent_pid,
        state: ProcState::Ready,
        page_table: child_pt,
        trap_frame: child_tf,
        kernel_stack: child_kstack.wrapping_add(2 * PAGE_SIZE),
        brk: child_brk,
        exit_code: 0,
        fd_table: child_fd_table,
    };
    let ghost t1 = *table;
    proof {
        assert(mem.is_frame(child.page_table.root()));
        assert forall|i: int| 0 <= i < t1.procs().len() implies mem.is_frame(#[trigger] t1.procs()[i].page_table.root()) by {
            assert(old(table).procs()[i] == t1.procs()[i]);
            assert(old(mem).is_frame(old(table).procs()[i].page_table.root()));
        }
    }
    table.insert(child);
    proof {
        assert forall|i: int| 0 <= i < table.procs().len() implies mem.is_frame(#[trigger] table.procs()[i].page_table.root()) by {
            let q = table.procs()[i].pid;
            table.lemma_index_of(i);
            assert(table.procs()[i] == table.get_spec(q));
            if q != pid {
                assert(table.has(q));
                assert(t1.has(q));
                let k = t1.index_of(q);
                assert(table.get_spec(q) == t1.get_spec(q));
                assert(mem.is_frame(t1.procs()[k].page_table.root()));
            }
        }
    }
    Ok(Some(pid))
}

/// The value of `sstatus` a process enters user mode with: interrupts
/// enabled on return, and user memory reachable from the kernel.
pub const USER_SSTATUS: usize = 0x2020;

/// What replacing the image of process `op` (giving `np`) with the
/// executable `e`, whose file is `data`, with arguments `argv` and
/// environment `envp`, leaves, where it succeeds with stack pointer `sp`,
/// from memory `m0` to memory `m1`.
pub open spec fn exec_done(op: Process, np: Process, m0: PhysMem, m1: PhysMem, data: Seq<u8>, e: ElfImage,
    argv: Seq<Seq<u8>>, envp: Seq<Seq<u8>>, sp: usize) -> bool {
    &&& e.all_known()
    &&& sp == STACK_TOP
    &&& !m0.is_frame(np.page_table.root())
    &&& m1.is_frame(np.page_table.root())
    &&& np.brk == brk_after(max_end(e.segments@))
    &&& np.trap_frame.sepc == e.entry
    &&& np.trap_frame.sstatus == USER_SSTATUS
    &&& np.trap_frame.regs@ == op.trap_frame.regs@.update(2, sp)
    &&& np.trap_frame.fregs == op.trap_frame.fregs
    &&& np.trap_frame.satp == op.trap_frame.satp
    &&& np.trap_frame.scause == op.trap_frame.scause
    &&& np.trap_frame.stval == op.trap_frame.stval
    &&& np.pid == op.pid && np.ppid == op.ppid && np.state == op.state
    &&& np.kernel_stack == op.kernel_stack && np.exit_code == op.exit_code
    &&& np.fd_table@ == op.fd_table@
    &&& exists|tp: usize| #![trigger stack_writes(tp, STACK_TOP, argv, envp, at_phdr_spec(&e), e.ph_entry_size, e.ph_count, e.entry)]
        !m0.is_frame(tp as int / 4096)
        && writes_hold(m1, stack_writes(tp, STACK_TOP, argv, envp, at_phdr_spec(&e), e.ph_entry_size, e.ph_count, e.entry))
        && (stack_in_page(argv + envp)
            ==> crate::mm::pte_ppn(np.page_table.lookup(m1, STACK_TOP as int / 4096)->0) == tp / 4096)
    &&& stack_in_page(argv + envp) ==> {
        &&& np.page_table.wf(m1)
        &&& stack_mapped(np.page_table, m1)
        &&& forall|v: int| #[trigger] kernel_lookup(slot_key(v)) is Some
            ==> np.page_table.lookup(m1, v) == kernel_lookup(slot_key(v))
        &&& forall|i: int| 0 <= i < e.segments@.len() && #[trigger] e.segments@[i].kind == SegmentKind::Load
            ==> seg_mapped(np.page_table, m1, e.segments@[i]) && seg_loaded(np.page_table, m1, data, e.segments@[i])
    }
}

/// Memory `m0` holds all that loading `e` into a fresh address space
/// needs, and `e` fits one: the table, the kernel's regions, the stack and
/// three pages for each page to load.
pub open spec fn exec_room(m0: PhysMem, e: ElfImage) -> bool {
    &&& e.all_known()
    &&& fits_user_space(e.segments@)
    &&& 1 + KERNEL_REGION_PAGES + 27 + 3 * load_pages(e.segments@) <= m0.free_pages()
}

/// Replaces the image of `proc` with the executable `elf`, whose file is
/// `data` (`None` when the file is no executable): a fresh address space
/// with the kernel, a nine-page stack and the loaded segments, the initial
/// stack laid out with `argv` and `envp`, the break past the segments and
/// the registers set to start at the entry point. Returns the new user
/// stack pointer. `Ok(None)` when memory runs out or the file is no
/// executable, with `proc` unchanged; `Err` where the kernel stops. It
/// succeeds where the program fits a fresh address space and memory holds
/// the table, the kernel's regions, the stack and three pages for each page
/// to load.
pub fn exec_image(proc: &mut Process, mem: &mut PhysMem, data: &[u8], elf: Option<&ElfImage>,
    argv: &Vec<Vec<u8>>, envp: &Vec<Vec<u8>>) -> (r: Result<Option<usize>, KernelPanic>)
    requires
        old(mem).wf(),
        elf matches Some(e) ==> e.fits(data@.len()),
        stack_fits(PHYS_END as int, strs_view(argv@) + strs_view(envp@)),
    ensures
        final(mem).wf(),
        final(mem).first_ppn() == old(mem).first_ppn(),
        forall|p: int| old(mem).is_frame(p) ==> final(mem).is_frame(p),
        !(r matches Ok(Some(_))) ==> *final(proc) == *old(proc),
        elf is None ==> !(r matches Ok(Some(_))),
        r matches Ok(Some(sp)) ==> exec_done(*old(proc), *final(proc), *old(mem), *final(mem), data@, *elf->0,
            strs_view(argv@), strs_view(envp@), sp),
        elf matches Some(e) && exec_room(*old(mem), *e) ==> r matches Ok(Some(_)),
{
    proof {
        old(mem).lemma_wf_facts();
        match elf {
            Some(e) => lemma_load_pages_nonneg(e.segments@),
            None => {},
        }
    }
    let new_pt = match PageTable::new(mem) {
        Some(pt) => pt,
        None => return Ok(None),
    };
    if mem.free_page_count() < KERNEL_REGION_PAGES {
        return Err(KernelPanic);
    }
    new_pt.map_kernel_regions(mem);
    let ghost m1 = *mem;
    proof {
        lemma_stack_outside_kernel(new_pt, m1);
    }
    let tp = match map_user_stack(&new_pt, mem) {
        Ok(Some(tp)) => tp,
        Ok(None) => return Ok(None),
        Err(e) => return Err(e),
    };
    let ghost m2 = *mem;
    let e = match elf {
        Some(e) => e,
        None => return Ok(None),
    };
    proof {
        if fits_user_space(e.segments@) {
            lemma_fits_loadable(new_pt, m1, m2, e.segments@);
        }
    }
    let (sp, max_end_v) = match load_program(&new_pt, mem, data, e, argv, envp, tp) {
        Ok(Some(x)) => x,
        Ok(None) => return Ok(None),
        Err(err) => return Err(err),
    };
    proof {
        if stack_in_page(strs_view(argv@) + strs_view(envp@)) {
            let t = STACK_TOP as int / 4096;
            assert(new_pt.lookup(m2, t) is Some);
            assert forall|v: int| STACK_TOP / 4096 - 9 < v <= STACK_TOP / 4096
                implies #[trigger] new_pt.lookup(*mem, v) is Some
                    && new_pt.lookup(*mem, v)->0 & 0xffusize == crate::elf::stack_flags() | 0xc1usize by {
                assert(new_pt.lookup(m2, v) is Some);
            }
            assert forall|v: int| #[trigger] kernel_lookup(slot_key(v)) is Some
                implies new_pt.lookup(*mem, v) == kernel_lookup(slot_key(v)) by {
                assert(new_pt.lookup(m1, v) is Some);
                assert(new_pt.lookup(m2, v) == new_pt.lookup(m1, v));
            }
        }
    }
    proc.page_table = new_pt;
    proc.brk = initial_brk(max_end_v);
    proc.trap_frame.sepc = e.entry;
    proc.trap_frame.sstatus = USER_SSTATUS;
    proc.trap_frame.regs[2] = sp;
    proof {
        assert(!old(mem).is_frame(tp as int / 4096));
    }
    Ok(Some(sp))
}

/// Replaces the image of `proc` with the executable held in `data`, as
/// `exec_image` does with the image that `parse_elf` reads from it.
/// `Ok(None)`, with `proc` unchanged, also when `data` holds no executable or
/// its segments reach past its end; `Err` also where reading its program
/// headers would stop the kernel.
pub fn exec_process(proc: &mut Process, mem: &mut PhysMem, data: &[u8],
    argv: &Vec<Vec<u8>>, envp: &Vec<Vec<u8>>) -> (r: Result<Option<usize>, KernelPanic>)
    requires
        old(mem).wf(),
        stack_fits(PHYS_END as int, strs_view(argv@) + strs_view(envp@)),
    ensures
        final(mem).wf(),
        final(mem).first_ppn() == old(mem).first_ppn(),
        forall|p: int| old(mem).is_frame(p) ==> final(mem).is_frame(p),
        !(r matches Ok(Some(_))) ==> *final(proc) == *old(proc),
        elf_no_image(data@) ==> r == Ok::<Option<usize>, KernelPanic>(None) && *final(mem) == *old(mem),
        elf_parse_stops(data@) ==> r is Err && *final(mem) == *old(mem),
        forall|e: ElfImage| #[trigger] image_parsed(data@, e) && !e.fits(data@.len())
            ==> r == Ok::<Option<usize>, KernelPanic>(None) && *final(mem) == *old(mem),
        r matches Ok(Some(sp)) ==> exists|e: ElfImage| #[trigger] image_parsed(data@, e) && e.fits(data@.len())
            && exec_done(*old(proc), *final(proc), *old(mem), *final(mem), data@, e, strs_view(argv@), strs_view(envp@), sp),
        forall|e: ElfImage| #[trigger] image_parsed(data@, e) && e.fits(data@.len()) && exec_room(*old(mem), e)
            ==> r matches Ok(Some(_)),
{
    let e = match parse_elf(data) {
        Err(x) => return Err(x),
        Ok(None) => return Ok(None),
        Ok(Some(e)) => e,
    };
    if !e.fits_in(data.len()) {
        return Ok(None);
    }
    let r = exec_image(proc, mem, data, Some(&e), argv, envp);
    proof {
        assert(image_parsed(data@, e));
    }
    r
}

/// The environment the first process starts with.
pub open spec fn init_env() -> Seq<u8> {
    seq![0x50u8, 0x41u8, 0x54u8, 0x48u8, 0x3du8, 0x2fu8, 0x62u8, 0x69u8, 0x6eu8]
}

/// `PATH=/bin`.
fn init_env_string() -> (v: Vec<u8>)
    ensures
        v@ == init_env(),
{
    let mut v: Vec<u8> = Vec::new();
    v.push(0x50);
    v.push(0x41);
    v.push(0x54);
    v.push(0x48);
    v.push(0x3d);
    v.push(0x2f);
    v.push(0x62);
    v.push(0x69);
    v.push(0x6e);
    proof {
        assert(v@ =~= init_env());
    }
    v
}

/// What creating the first process with the executable `e`, whose file is
/// `data`, and arguments `argv` leaves, where it succeeds: from table `t0`
/// to table `t1` and from memory `m0` to memory `m1`.
pub open spec fn init_done(t0: ProcTable, t1: ProcTable, m0: PhysMem, m1: PhysMem, data: Seq<u8>, e: ElfImage,
    argv: Seq<Seq<u8>>) -> bool {
    let p = t1.get_spec(1);
    &&& e.all_known()
    &&& t1.has(1)
    &&& t1.current() == 1
    &&& t1.next() == 2
    &&& forall|q: usize| q != 1 ==> (#[trigger] t1.has(q) == t0.has(q))
    &&& p.pid == 1 && p.ppid == 0
    &&& p.state == ProcState::Running
    &&& p.exit_code == 0
    &&& p.brk == brk_after(max_end(e.segments@))
    &&& p.trap_frame.sepc == e.entry
    &&& p.trap_frame.sstatus == USER_SSTATUS
    &&& p.trap_frame.regs@ == Seq::new(32, |i: int| 0usize).update(2, STACK_TOP).update(10, argv.len() as usize)
    &&& p.fd_table@ == seq![Some(stdio_file()), Some(stdio_file()), Some(stdio_file())]
    &&& !m0.is_frame(p.page_table.root())
    &&& m1.is_frame(p.page_table.root())
    &&& exists|tp: usize| #![trigger stack_writes(tp, STACK_TOP, argv, seq![init_env()], at_phdr_spec(&e), e.ph_entry_size, e.ph_count, e.entry)]
        !m0.is_frame(tp as int / 4096)
        && writes_hold(m1, stack_writes(tp, STACK_TOP, argv, seq![init_env()],
            at_phdr_spec(&e), e.ph_entry_size, e.ph_count, e.entry))
        && (stack_in_page(argv + seq![init_env()])
            ==> crate::mm::pte_ppn(p.page_table.lookup(m1, STACK_TOP as int / 4096)->0) == tp / 4096)
    &&& stack_in_page(argv + seq![init_env()]) ==> {
        &&& p.page_table.wf(m1)
        &&& stack_mapped(p.page_table, m1)
        &&& forall|v: int| #[trigger] kernel_lookup(slot_key(v)) is Some
            ==> p.page_table.lookup(m1, v) == kernel_lookup(slot_key(v))
        &&& forall|i: int| 0 <= i < e.segments@.len() && #[trigger] e.segments@[i].kind == SegmentKind::Load
            ==> seg_mapped(p.page_table, m1, e.segments@[i]) && seg_loaded(p.page_table, m1, data, e.segments@[i])
    }
}

/// Memory `m0` holds all that creating the first process with `e` needs,
/// and `e` fits a fresh address space.
pub open spec fn init_room(m0: PhysMem, e: ElfImage) -> bool {
    &&& e.all_known()
    &&& fits_user_space(e.segments@)
    &&& NEW_PROCESS_PAGES + 27 + 3 * load_pages(e.segments@) <= m0.free_pages()
}

/// Creates the first process, pid 1, running the executable `elf` (file
/// `data`) with arguments `argv` and the environment `PATH=/bin`, makes it
/// the running process and sets the next pid to 2. `Ok(None)` when memory
/// runs out or the file is no executable, with the table unchanged; `Err`
/// where the kernel stops. It succeeds where the program fits a fresh
/// address space and memory holds the new process, the stack and three
/// pages for each page to load.
pub fn init_user_image(table: &mut ProcTable, mem: &mut PhysMem, data: &[u8], elf: Option<&ElfImage>,
    argv: &Vec<Vec<u8>>) -> (r: Result<Option<()>, KernelPanic>)
    requires
        old(table).wf(),
        forall|i: int| 0 <= i < old(table).procs().len() ==> #[trigger] old(table).procs()[i].pid < 2,
        old(mem).wf(),
        elf matches Some(e) ==> e.fits(data@.len()),
        stack_fits(PHYS_END as int, strs_view(argv@) + seq![init_env()]),
    ensures
        final(table).wf(),
        final(mem).wf(),
        final(mem).first_ppn() == old(mem).first_ppn(),
        forall|p: int| old(mem).is_frame(p) ==> final(mem).is_frame(p),
        !(r matches Ok(Some(_))) ==> *final(table) == *old(table),
        elf is None ==> !(r matches Ok(Some(_))),
        r matches Ok(Some(_)) ==> init_done(*old(table), *final(table), *old(mem), *final(mem), data@, *elf->0, strs_view(argv@)),
        elf matches Some(e) && init_room(*old(mem), *e) ==> r matches Ok(Some(_)),
{
    proof {
        old(mem).lemma_wf_facts();
        match elf {
            Some(e) => lemma_load_pages_nonneg(e.segments@),
            None => {},
        }
    }
    if mem.free_page_count() < NEW_PROCESS_PAGES && mem.free_page_count() >= 3 {
        return Err(KernelPanic);
    }
    let mut proc = match Process::new(1, mem) {
        Some(p) => p,
        None => return Ok(None),
    };
    let ghost m1 = *mem;
    proof {
        lemma_stack_outside_kernel(proc.page_table, m1);
    }
    let tp = match map_user_stack(&proc.page_table, mem) {
        Ok(Some(tp)) => tp,
        Ok(None) => return Ok(None),
        Err(e) => return Err(e),
    };
    let ghost m2 = *mem;
    let e = match elf {
        Some(e) => e,
        None => return Ok(None),
    };
    proof {
        if fits_user_space(e.segments@) {
            lemma_fits_loadable(proc.page_table, m1, m2, e.segments@);
        }
    }
    let mut envp: Vec<Vec<u8>> = Vec::new();
    envp.push(init_env_string());
    proof {
        assert(strs_view(envp@) =~= seq![init_env()]);
    }
    let (sp, max_end_v) = match load_program(&proc.page_table, mem, data, e, argv, &envp, tp) {
        Ok(Some(x)) => x,
        Ok(None) => return Ok(None),
        Err(err) => return Err(err),
    };
    proof {
        let pt = proc.page_table;
        if stack_in_page(strs_view(argv@) + seq![init_env()]) {
            let t = STACK_TOP as int / 4096;
            assert(pt.lookup(m2, t) is Some);
            assert forall|v: int| STACK_TOP / 4096 - 9 < v <= STACK_TOP / 4096
                implies #[trigger] pt.lookup(*mem, v) is Some
                    && pt.lookup(*mem, v)->0 & 0xffusize == crate::elf::stack_flags() | 0xc1usize by {
                assert(pt.lookup(m2, v) is Some);
            }
            assert forall|v: int| #[trigger] kernel_lookup(slot_key(v)) is Some
                implies pt.lookup(*mem, v) == kernel_lookup(slot_key(v)) by {
                assert(pt.lookup(m1, v) is Some);
                assert(pt.lookup(m2, v) == pt.lookup(m1, v));
            }
        }
    }
    proc.brk = initial_brk(max_end_v);
    proc.trap_frame.sepc = e.entry;
    proc.trap_frame.sstatus = USER_SSTATUS;
    proc.trap_frame.regs[2] = sp;
    proc.trap_frame.regs[10] = argv.len();
    proc.state = ProcState::Running;
    proof {
        assert(proc.trap_frame.regs@ =~= Seq::new(32, |i: int| 0usize).update(2, STACK_TOP).update(10, argv@.len() as usize));
        assert(!old(mem).is_frame(tp as int / 4096));
    }
    let ghost pr = proc;
    let ghost mf = *mem;
    table.set_next_pid(2);
    let ghost t1 = *table;
    table.insert(proc);
    let ghost t2 = *table;
    table.set_current(1);
    proof {
        assert(table.procs() == t2.procs());
        assert(table.get_spec(1) == t2.get_spec(1));
        assert(t2.get_spec(1) == pr);
        assert(e.all_known());
        assert(!old(mem).is_frame(pr.page_table.root()));
        assert(mf.is_frame(pr.page_table.root()));
        assert(writes_hold(mf, stack_writes(tp, STACK_TOP, strs_view(argv@), seq![init_env()], at_phdr_spec(e), e.ph_entry_size, e.ph_count, e.entry)));
        assert forall|q: usize| q != 1 implies (#[trigger] table.has(q) == old(table).has(q)) by {
            assert(t2.has(q) == t1.has(q));
        }
    }
    Ok(Some(()))
}

/// Creates the first process as `init_user_image` does, with the image
/// that `parse_elf` reads from `data`. `Ok(None)`, with the table
/// unchanged, also when `data` holds no executable or its segments reach
/// past its end; `Err` also where reading its program headers would stop
/// the kernel.
pub fn init_user_proc(table: &mut ProcTable, mem: &mut PhysMem, data: &[u8], argv: &Vec<Vec<u8>>)
    -> (r: Result<Option<()>, KernelPanic>)
    requires
        old(table).wf(),
        forall|i: int| 0 <= i < old(table).procs().len() ==> #[trigger] old(table).procs()[i].pid < 2,
        old(mem).wf(),
        stack_fits(PHYS_END as int, strs_view(argv@) + seq![init_env()]),
    ensures
        final(table).wf(),
        final(mem).wf(),
        final(mem).first_ppn() == old(mem).first_ppn(),
        forall|p: int| old(mem).is_frame(p) ==> final(mem).is_frame(p),
        !(r matches Ok(Some(_))) ==> *final(table) == *old(table),
        elf_no_image(data@) ==> r == Ok::<Option<()>, KernelPanic>(None) && *final(mem) == *old(mem),
        elf_parse_stops(data@) ==> r is Err && *final(mem) == *old(mem),
        forall|e: ElfImage| #[trigger] image_parsed(data@, e) && !e.fits(data@.len())
            ==> r == Ok::<Option<()>, KernelPanic>(None) && *final(mem) == *old(mem),
        r matches Ok(Some(_)) ==> exists|e: ElfImage| #[trigger] image_parsed(data@, e) && e.fits(data@.len())
            && init_done(*old(table), *final(table), *old(mem), *final(mem), data@, e, strs_view(argv@)),
        forall|e: ElfImage| #[trigger] image_parsed(data@, e) && e.fits(data@.len()) && init_room(*old(mem), e)
            ==> r matches Ok(Some(_)),
{
    let e = match parse_elf(data) {
        Err(x) => return Err(x),
        Ok(None) => return Ok(None),
        Ok(Some(e)) => e,
    };
    if !e.fits_in(data.len()) {
        return Ok(None);
    }
    let r = init_user_image(table, mem, data, Some(&e), argv);
    proof {
        assert(image_parsed(data@, e));
    }
    r
}

} // verus!

verus! {

/// Calls `f` on the running process, which it may change, if there is one;
/// the process it gives back takes the running process's place, under the
/// running pid.
pub fn with_current_proc<F, R>(table: &mut ProcTable, f: F) -> (r: Option<R>)
    where
        F: FnOnce(Process) -> (Process, R),
    requires
        old(table).wf(),
        old(table).has(old(table).current()) ==> f.requires((old(table).get_spec(old(table).current()),)),
    ensures
        final(table).wf(),
        r is Some <==> old(table).has(old(table).current()),
        r is None ==> *final(table) == *old(table),
        final(table).current() == old(table).current(),
        final(table).next() == old(table).next(),
        forall|q: usize| #[trigger] final(table).has(q) == old(table).has(q),
        forall|q: usize| q != old(table).current() && old(table).has(q) ==> #[trigger] final(table).get_spec(q) == old(table).get_spec(q),
        r is Some ==> exists|np: Process| #[trigger] f.ensures((old(table).get_spec(old(table).current()),), (np, r->0))
            && final(table).get_spec(old(table).current()) == np.with_pid(old(table).current()),
{
    let pid = table.current_pid();
    if table.get(pid).is_none() {
        return None;
    }
    proof {
        table.lemma_has_pid(pid);
    }
    let p = match table.remove(pid) {
        Some(p) => p,
        None => return None,
    };
    let ghost p0 = p;
    let (mut np, r) = f(p);
    let ghost np0 = np;
    np.pid = pid;
    table.insert(np);
    proof {
        assert(np == np0.with_pid(pid));
        assert(p0 == old(table).get_spec(pid));
        assert(f.ensures((old(table).get_spec(old(table).current()),), (np0, r)));
        assert(table.get_spec(old(table).current()) == np0.with_pid(old(table).current()));
        let rr = Some(r);
        assert(rr->0 == r);
        assert(exists|n: Process| #[trigger] f.ensures((old(table).get_spec(old(table).current()),), (n, rr->0))
            && table.get_spec(old(table).current()) == n.with_pid(old(table).current()));
    }
    Some(r)
}

/// What entering user mode in the running process loads: `satp` for its
/// page table, `sepc`, `sstatus`, the user stack pointer and the top of its
/// kernel stack; `None` when there is no running process.
pub fn run_user(table: &ProcTable) -> (r: Option<(u64, usize, usize, usize, usize)>)
    requires
        table.wf(),
    ensures
        r is Some <==> table.has(table.current()),
        r matches Some(x) ==> {
            let p = table.get_spec(table.current());
            &&& x.0 == crate::pagetable::satp_for(p.page_table.root())
            &&& x.1 == p.trap_frame.sepc
            &&& x.2 == p.trap_frame.sstatus
            &&& x.3 == p.trap_frame.regs[2]
            &&& x.4 == p.kernel_stack
        },
{
    match table.get(table.current_pid()) {
        Some(p) => {
            let satp = (8u64 << 60) | (p.page_table.root_ppn() as u64);
            Some((satp, p.trap_frame.sepc, p.trap_frame.sstatus, p.trap_frame.regs[2], p.kernel_stack))
        },
        None => None,
    }
}

} // verus!
