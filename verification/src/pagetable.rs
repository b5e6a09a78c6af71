//! SV39 page tables kept in `PhysMem`: walking, creating, mapping,
//! unmapping and translating.
use vstd::prelude::*;
use crate::mm::{KernelPanic, PhysMem, PageTableEntry, PTEFlags, PAGE_SIZE, PAGE_SIZE_BITS, pte_bits, pte_ppn, pte_valid, lemma_pte_fields, lemma_shr12};

verus! {

/// Index into the root table for a virtual page number.
pub open spec fn idx0(vpn: int) -> int {
    (vpn / 0x40000) % 512
}

/// Index into the middle table.
pub open spec fn idx1(vpn: int) -> int {
    (vpn / 512) % 512
}

/// Index into the leaf table.
pub open spec fn idx2(vpn: int) -> int {
    vpn % 512
}

/// Two page numbers that select the same three table slots.
pub open spec fn same_slot(a: int, b: int) -> bool {
    idx0(a) == idx0(b) && idx1(a) == idx1(b) && idx2(a) == idx2(b)
}

pub proof fn lemma_indices(vpn: usize)
    ensures
        (vpn >> 18usize) & 0x1ffusize == idx0(vpn as int),
        (vpn >> 9usize) & 0x1ffusize == idx1(vpn as int),
        vpn & 0x1ffusize == idx2(vpn as int),
        0 <= idx0(vpn as int) < 512,
        0 <= idx1(vpn as int) < 512,
        0 <= idx2(vpn as int) < 512,
{
    assert((vpn >> 18usize) & 0x1ffusize == (vpn / 0x40000usize) % 512usize) by (bit_vector);
    assert((vpn >> 9usize) & 0x1ffusize == (vpn / 512usize) % 512usize) by (bit_vector);
    assert(vpn & 0x1ffusize == vpn % 512usize) by (bit_vector);
}

/// The entry bits that point at a next-level table in page `ppn`.
pub open spec fn table_pointer(ppn: int) -> usize {
    pte_bits(ppn as usize, 1)
}

proof fn lemma_table_pointer(ppn: usize)
    requires
        ppn < 0x100000,
    ensures
        pte_valid(table_pointer(ppn as int)),
        pte_ppn(table_pointer(ppn as int)) == ppn,
{
    assert(ppn < 0x100000 ==> (ppn << 10usize) >> 10usize == ppn) by (bit_vector);
    lemma_pte_fields(ppn, 1);
    assert(1usize & 1usize != 0) by (bit_vector);
}

/// Where a leaf entry lives: page `table_ppn`, entry `index`.
#[derive(Clone, Copy)]
pub struct PteSlot {
    pub table_ppn: usize,
    pub index: usize,
}

/// An SV39 page table, named by the page number of its root table.
#[derive(Clone, Copy)]
pub struct PageTable {
    root_ppn: usize,
}

impl PageTable {
    pub closed spec fn root(self) -> int {
        self.root_ppn as int
    }

    /// Whether root entry `i` is valid.
    pub open spec fn v0(self, mem: PhysMem, i: int) -> bool {
        pte_valid(mem.entry(self.root(), i))
    }

    /// The middle table that root entry `i` points at.
    pub open spec fn l1(self, mem: PhysMem, i: int) -> int {
        pte_ppn(mem.entry(self.root(), i)) as int
    }

    /// Whether the path through root entry `i` and middle entry `j` is valid.
    pub open spec fn v1(self, mem: PhysMem, i: int, j: int) -> bool {
        self.v0(mem, i) && pte_valid(mem.entry(self.l1(mem, i), j))
    }

    /// The leaf table that root entry `i` and middle entry `j` lead to.
    pub open spec fn l2(self, mem: PhysMem, i: int, j: int) -> int {
        pte_ppn(mem.entry(self.l1(mem, i), j)) as int
    }

    /// The tables form a tree of distinct frames: the root and every
    /// table it reaches are frames of `mem`, and no frame serves twice.
    pub open spec fn wf(self, mem: PhysMem) -> bool {
        &&& mem.is_frame(self.root())
        &&& forall|i: int| 0 <= i < 512 && #[trigger] self.v0(mem, i) ==> {
            &&& mem.is_frame(self.l1(mem, i))
            &&& self.l1(mem, i) != self.root()
        }
        &&& forall|i: int, k: int| 0 <= i < 512 && 0 <= k < 512 && i != k
            && #[trigger] self.v0(mem, i) && #[trigger] self.v0(mem, k) ==> self.l1(mem, i) != self.l1(mem, k)
        &&& forall|i: int, j: int| 0 <= i < 512 && 0 <= j < 512 && #[trigger] self.v1(mem, i, j) ==> {
            &&& mem.is_frame(self.l2(mem, i, j))
            &&& self.l2(mem, i, j) != self.root()
        }
        &&& forall|i: int, j: int, k: int| 0 <= i < 512 && 0 <= j < 512 && 0 <= k < 512
            && #[trigger] self.v1(mem, i, j) && #[trigger] self.v0(mem, k) ==> self.l2(mem, i, j) != self.l1(mem, k)
        &&& forall|i: int, j: int, k: int, l: int| 0 <= i < 512 && 0 <= j < 512 && 0 <= k < 512 && 0 <= l < 512
            && (i != k || j != l) && #[trigger] self.v1(mem, i, j) && #[trigger] self.v1(mem, k, l)
            ==> self.l2(mem, i, j) != self.l2(mem, k, l)
    }

    /// The leaf entry that virtual page `vpn` maps to, if its walk finds a
    /// valid entry at all three levels.
    pub open spec fn lookup(self, mem: PhysMem, vpn: int) -> Option<usize> {
        if !self.v1(mem, idx0(vpn), idx1(vpn)) {
            None
        } else {
            let e = mem.entry(self.l2(mem, idx0(vpn), idx1(vpn)), idx2(vpn));
            if pte_valid(e) {
                Some(e)
            } else {
                None
            }
        }
    }

    /// The physical address that `va` translates to.
    pub open spec fn translate_spec(self, mem: PhysMem, va: usize) -> Option<usize> {
        match self.lookup(mem, (va / 4096) as int) {
            Some(e) => Some(((pte_ppn(e) << 12usize) | (va & 0xfffusize)) as usize),
            None => None,
        }
    }

    pub fn from_ppn(ppn: usize) -> (pt: PageTable)
        ensures
            pt.root() == ppn,
    {
        PageTable { root_ppn: ppn }
    }

    pub fn root_ppn(&self) -> (r: usize)
        ensures
            r == self.root(),
    {
        self.root_ppn
    }

    /// The slot of the valid leaf entry for `vpn`, if there is one.
    pub fn find_pte(&self, mem: &PhysMem, vpn: usize) -> (r: Option<PteSlot>)
        requires
            mem.wf(),
        ensures
            r is Some <==> self.lookup(*mem, vpn as int) is Some,
            r is Some ==> {
                &&& r->0.table_ppn == self.l2(*mem, idx0(vpn as int), idx1(vpn as int))
                &&& r->0.index == idx2(vpn as int)
                &&& mem.entry(r->0.table_ppn as int, r->0.index as int) == self.lookup(*mem, vpn as int)->0
            },
    {
        proof {
            lemma_indices(vpn);
        }
        let i0 = (vpn >> 18) & 0x1ff;
        let i1 = (vpn >> 9) & 0x1ff;
        let i2 = vpn & 0x1ff;
        let e0 = PageTableEntry { bits: mem.read_entry(self.root_ppn, i0) };
        if !e0.is_valid() {
            return None;
        }
        let p1 = e0.ppn();
        let e1 = PageTableEntry { bits: mem.read_entry(p1, i1) };
        if !e1.is_valid() {
            return None;
        }
        let p2 = e1.ppn();
        let e2 = PageTableEntry { bits: mem.read_entry(p2, i2) };
        if e2.is_valid() {
            Some(PteSlot { table_ppn: p2, index: i2 })
        } else {
            None
        }
    }

    /// The physical address that `va` maps to, keeping its page offset.
    pub fn translate(&self, mem: &PhysMem, va: usize) -> (r: Option<usize>)
        requires
            mem.wf(),
        ensures
            r == self.translate_spec(*mem, va),
    {
        let vpn = va >> PAGE_SIZE_BITS;
        let offset = va & (PAGE_SIZE - 1);
        proof {
            lemma_shr12(va);
        }
        match self.find_pte(mem, vpn) {
            Some(slot) => {
                let pte = PageTableEntry { bits: mem.read_entry(slot.table_ppn, slot.index) };
                Some((pte.ppn() << PAGE_SIZE_BITS) | offset)
            },
            None => None,
        }
    }
}

/// Installing an empty middle table under an invalid root entry keeps the
/// tree well formed and changes no lookup.
proof fn lemma_install0(pt: PageTable, old: PhysMem, new: PhysMem, i: int, f: int)
    requires
        pt.wf(old),
        0 <= i < 512,
        !pt.v0(old, i),
        f == old.next_ppn(),
        f < 0x100000,
        new.is_frame(f),
        forall|p: int| old.is_frame(p) ==> new.is_frame(p),
        forall|p: int, x: int| #[trigger] new.entry(p, x)
            == if p == pt.root() && x == i { table_pointer(f) } else { old.entry(p, x) },
    ensures
        pt.wf(new),
        pt.v0(new, i),
        pt.l1(new, i) == f,
        forall|j: int| !#[trigger] pt.v1(new, i, j),
        forall|k: int| #[trigger] pt.v0(new, k) == (pt.v0(old, k) || k == i),
        forall|k: int, l: int| 0 <= k < 512 ==> #[trigger] pt.v1(new, k, l) == pt.v1(old, k, l),
        forall|vpn: int| #[trigger] pt.lookup(new, vpn) == pt.lookup(old, vpn),
        pt.tables_kept(old, new),
{
    lemma_table_pointer(f as usize);
    assert forall|p: int, x: int| !old.is_frame(p) implies old.entry(p, x) == 0 by {
        old.lemma_word_outside(p, x);
    }
    assert forall|k: int| k != i implies #[trigger] pt.v0(new, k) == pt.v0(old, k) && pt.l1(new, k) == pt.l1(old, k) by {
        assert(new.entry(pt.root(), k) == old.entry(pt.root(), k));
    }
    assert(pt.l1(new, i) == f);
    assert forall|k: int, j: int| 0 <= k < 512 implies
        #[trigger] pt.v1(new, k, j) == pt.v1(old, k, j) && (pt.v1(old, k, j) ==> pt.l2(new, k, j) == pt.l2(old, k, j)) by {
        if k == i {
            assert(new.entry(f, j) == old.entry(f, j));
            assert(old.entry(f, j) == 0);
            assert(!pte_valid(0usize)) by (bit_vector);
        } else if pt.v0(old, k) {
            assert(pt.l1(old, k) != pt.root());
            assert(new.entry(pt.l1(new, k), j) == old.entry(pt.l1(old, k), j));
        }
    }
    assert forall|vpn: int| #[trigger] pt.lookup(new, vpn) == pt.lookup(old, vpn) by {
        let a = idx0(vpn);
        let b = idx1(vpn);
        assert(0 <= a < 512);
        if pt.v1(old, a, b) {
            assert(pt.l2(old, a, b) != pt.root());
            assert(new.entry(pt.l2(new, a, b), idx2(vpn)) == old.entry(pt.l2(old, a, b), idx2(vpn)));
        }
    }
}

/// Installing an empty leaf table under an invalid middle entry keeps the
/// tree well formed and changes no lookup.
proof fn lemma_install1(pt: PageTable, old: PhysMem, new: PhysMem, i: int, j: int, g: int)
    requires
        pt.wf(old),
        0 <= i < 512,
        0 <= j < 512,
        pt.v0(old, i),
        !pt.v1(old, i, j),
        g == old.next_ppn(),
        g < 0x100000,
        new.is_frame(g),
        forall|p: int| old.is_frame(p) ==> new.is_frame(p),
        forall|p: int, x: int| #[trigger] new.entry(p, x)
            == if p == pt.l1(old, i) && x == j { table_pointer(g) } else { old.entry(p, x) },
    ensures
        pt.wf(new),
        pt.v1(new, i, j),
        pt.l2(new, i, j) == g,
        forall|k: int| #[trigger] pt.v0(new, k) == pt.v0(old, k),
        forall|k: int, l: int| 0 <= k < 512 ==> #[trigger] pt.v1(new, k, l) == (pt.v1(old, k, l) || (k == i && l == j)),
        forall|vpn: int| #[trigger] pt.lookup(new, vpn) == pt.lookup(old, vpn),
        pt.tables_kept(old, new),
{
    lemma_table_pointer(g as usize);
    assert forall|p: int, x: int| !old.is_frame(p) implies old.entry(p, x) == 0 by {
        old.lemma_word_outside(p, x);
    }
    let t = pt.l1(old, i);
    assert(t != pt.root());
    assert forall|k: int| #[trigger] pt.v0(new, k) == pt.v0(old, k) && pt.l1(new, k) == pt.l1(old, k) by {
        assert(new.entry(pt.root(), k) == old.entry(pt.root(), k));
    }
    assert forall|k: int, l: int| 0 <= k < 512 implies
        #[trigger] pt.v1(new, k, l) == (pt.v1(old, k, l) || (k == i && l == j))
        && (pt.v1(old, k, l) ==> pt.l2(new, k, l) == pt.l2(old, k, l))
        && (k == i && l == j ==> pt.l2(new, k, l) == g) by {
        if pt.v0(old, k) {
            if k != i {
                assert(pt.l1(old, k) != t);
            }
            assert(new.entry(pt.l1(new, k), l) == if k == i && l == j { table_pointer(g) } else { old.entry(pt.l1(old, k), l) });
        }
    }
    assert forall|vpn: int| #[trigger] pt.lookup(new, vpn) == pt.lookup(old, vpn) by {
        let a = idx0(vpn);
        let b = idx1(vpn);
        assert(0 <= a < 512);
        if a == i && b == j {
            assert(new.entry(g, idx2(vpn)) == old.entry(g, idx2(vpn)));
            assert(old.entry(g, idx2(vpn)) == 0);
            assert(!pte_valid(0usize)) by (bit_vector);
        } else if pt.v1(old, a, b) {
            let q = pt.l2(old, a, b);
            assert(q != t);
            assert(new.entry(pt.l2(new, a, b), idx2(vpn)) == old.entry(q, idx2(vpn)));
        }
    }
    assert forall|k: int, l: int, m: int| 0 <= k < 512 && 0 <= l < 512 && 0 <= m < 512
        && #[trigger] pt.v1(new, k, l) && #[trigger] pt.v0(new, m) implies pt.l2(new, k, l) != pt.l1(new, m) by {
        if k == i && l == j {
            assert(old.is_frame(pt.l1(old, m)));
        }
    }
    assert forall|k: int, l: int, m: int, n: int| 0 <= k < 512 && 0 <= l < 512 && 0 <= m < 512 && 0 <= n < 512
        && (k != m || l != n) && #[trigger] pt.v1(new, k, l) && #[trigger] pt.v1(new, m, n)
        implies pt.l2(new, k, l) != pt.l2(new, m, n) by {
        if k == i && l == j {
            assert(old.is_frame(pt.l2(old, m, n)));
        } else if m == i && n == j {
            assert(old.is_frame(pt.l2(old, k, l)));
        }
    }
}

/// Writing the leaf entry of one slot changes that slot's lookup and no
/// other, and keeps the tree well formed.
proof fn lemma_set_leaf(pt: PageTable, old: PhysMem, new: PhysMem, vpn: int, e: usize)
    requires
        pt.wf(old),
        pt.v1(old, idx0(vpn), idx1(vpn)),
        forall|p: int| old.is_frame(p) <==> new.is_frame(p),
        forall|p: int, x: int| #[trigger] new.entry(p, x)
            == if p == pt.l2(old, idx0(vpn), idx1(vpn)) && x == idx2(vpn) { e } else { old.entry(p, x) },
    ensures
        pt.wf(new),
        forall|k: int| #[trigger] pt.v0(new, k) == pt.v0(old, k),
        forall|k: int, l: int| 0 <= k < 512 ==> #[trigger] pt.v1(new, k, l) == pt.v1(old, k, l),
        forall|v: int| #[trigger] pt.lookup(new, v)
            == if same_slot(v, vpn) { if pte_valid(e) { Some(e) } else { None } } else { pt.lookup(old, v) },
        pt.tables_kept(old, new),
{
    let i = idx0(vpn);
    let j = idx1(vpn);
    assert(0 <= i < 512 && 0 <= j < 512);
    let t = pt.l2(old, i, j);
    assert(t != pt.root());
    assert forall|k: int| #[trigger] pt.v0(new, k) == pt.v0(old, k) && pt.l1(new, k) == pt.l1(old, k) by {
        assert(new.entry(pt.root(), k) == old.entry(pt.root(), k));
    }
    assert forall|k: int, l: int| 0 <= k < 512 implies
        #[trigger] pt.v1(new, k, l) == pt.v1(old, k, l) && (pt.v0(old, k) ==> pt.l2(new, k, l) == pt.l2(old, k, l)) by {
        if pt.v0(old, k) {
            assert(pt.v1(old, i, j));
            assert(pt.l1(old, k) != t);
            assert(new.entry(pt.l1(new, k), l) == old.entry(pt.l1(old, k), l));
        }
    }
    assert forall|v: int| #[trigger] pt.lookup(new, v)
        == if same_slot(v, vpn) { if pte_valid(e) { Some(e) } else { None } } else { pt.lookup(old, v) } by {
        let a = idx0(v);
        let b = idx1(v);
        assert(0 <= a < 512);
        if pt.v1(old, a, b) {
            if !(a == i && b == j) {
                assert(pt.l2(old, a, b) != t);
            }
        }
    }
}

impl PageTable {
    /// How many pages `find_pte_create` allocates for `vpn`: one for each
    /// missing table on its path.
    pub open spec fn pages_needed(self, mem: PhysMem, vpn: int) -> nat {
        if !self.v0(mem, idx0(vpn)) {
            2
        } else if !self.v1(mem, idx0(vpn), idx1(vpn)) {
            1
        } else {
            0
        }
    }

    /// The slot of the leaf entry for `vpn`, creating the missing tables on
    /// its path; `None` when memory runs out on the way.
    pub fn find_pte_create(&self, mem: &mut PhysMem, vpn: usize) -> (r: Option<PteSlot>)
        requires
            old(mem).wf(),
        ensures
            final(mem).wf(),
            final(mem).first_ppn() == old(mem).first_ppn(),
            forall|p: int| old(mem).is_frame(p) ==> final(mem).is_frame(p),
            r is Some ==> r->0.index == idx2(vpn as int) && r->0.index < 512,
            self.wf(*old(mem)) ==> {
                &&& self.wf(*final(mem))
                &&& forall|v: int| #[trigger] self.lookup(*final(mem), v) == self.lookup(*old(mem), v)
                &&& forall|k: int| #[trigger] self.v0(*final(mem), k) ==> (self.v0(*old(mem), k) || k == idx0(vpn as int))
                &&& forall|k: int| #[trigger] self.v0(*old(mem), k) ==> self.v0(*final(mem), k)
                &&& forall|k: int, l: int| 0 <= k < 512 && #[trigger] self.v1(*final(mem), k, l)
                    ==> (self.v1(*old(mem), k, l) || (k == idx0(vpn as int) && l == idx1(vpn as int)))
                &&& forall|k: int, l: int| 0 <= k < 512 && #[trigger] self.v1(*old(mem), k, l) ==> self.v1(*final(mem), k, l)
                &&& (r is Some <==> self.pages_needed(*old(mem), vpn as int) <= old(mem).free_pages())
                &&& self.grows(*old(mem), *final(mem))
                &&& (r is Some ==> {
                    &&& final(mem).free_pages() == old(mem).free_pages() - self.pages_needed(*old(mem), vpn as int)
                    &&& self.v1(*final(mem), idx0(vpn as int), idx1(vpn as int))
                    &&& r->0.table_ppn == self.l2(*final(mem), idx0(vpn as int), idx1(vpn as int))
                })
            },
    {
        proof {
            lemma_indices(vpn);
            old(mem).lemma_wf_facts();
            assert forall|x: usize| #[trigger] (x >> 12usize) == x / 4096 by {
                lemma_shr12(x);
            }
        }
        let ghost m0 = *mem;
        let i0 = (vpn >> 18) & 0x1ff;
        let i1 = (vpn >> 9) & 0x1ff;
        let i2 = vpn & 0x1ff;
        let e0 = PageTableEntry { bits: mem.read_entry(self.root_ppn, i0) };
        let p1 = if e0.is_valid() {
            e0.ppn()
        } else {
            let page = match mem.alloc_page() {
                Some(p) => p,
                None => {
                    proof {
                        if self.wf(m0) {
                            lemma_grows_old_words(*self, m0, *mem);
                        }
                    }
                    return None;
                },
            };
            let ppn = page >> PAGE_SIZE_BITS;
            let e = PageTableEntry::new(ppn, PTEFlags::V());
            let ghost m1 = *mem;
            proof {
                m0.lemma_word_outside(ppn as int, 0);
                assert forall|p: int, x: int| #[trigger] m1.entry(p, x) == m0.entry(p, x) by {
                    m0.lemma_word_outside(p, x);
                }
            }
            mem.write_entry(self.root_ppn, i0, e.bits);
            proof {
                if self.wf(m0) {
                    lemma_install0(*self, m0, *mem, i0 as int, ppn as int);
                    assert forall|p: int, x: int| p != self.root() implies #[trigger] mem.word(p, x) == m0.word(p, x) by {
                        m0.lemma_word_outside(p, x);
                        assert(m1.word(p, x) == m0.word(p, x));
                    }
                    lemma_grows_write(*self, m0, *mem, self.root());
                }
            }
            ppn
        };
        let ghost m2 = *mem;
        proof {
            if self.wf(m0) && self.v0(m0, i0 as int) {
                lemma_grows_old_words(*self, m0, m2);
            }
        }
        assert(self.wf(m0) ==> self.grows(m0, m2));
        assert(self.wf(m0) ==> self.v0(m2, i0 as int) && self.l1(m2, i0 as int) == p1);
        assert(self.v0(m0, i0 as int) ==> m2 == m0);
        assert(self.wf(m0) && !self.v0(m0, i0 as int) ==> !self.v1(m2, i0 as int, i1 as int)
            && m2.free_pages() + 1 == m0.free_pages());
        let e1 = PageTableEntry { bits: mem.read_entry(p1, i1) };
        let p2 = if e1.is_valid() {
            e1.ppn()
        } else {
            let page = match mem.alloc_page() {
                Some(p) => p,
                None => return None,
            };
            proof {
                m2.lemma_wf_facts();
            }
            let ppn = page >> PAGE_SIZE_BITS;
            let e = PageTableEntry::new(ppn, PTEFlags::V());
            let ghost m3 = *mem;
            proof {
                assert forall|p: int, x: int| #[trigger] m3.entry(p, x) == m2.entry(p, x) by {
                    m2.lemma_word_outside(p, x);
                }
            }
            mem.write_entry(p1, i1, e.bits);
            proof {
                if self.wf(m0) {
                    lemma_install1(*self, m2, *mem, i0 as int, i1 as int, ppn as int);
                    assert forall|p: int, x: int| p != p1 implies #[trigger] mem.word(p, x) == m2.word(p, x) by {
                        m2.lemma_word_outside(p, x);
                        assert(m3.word(p, x) == m2.word(p, x));
                    }
                    assert(!self.not_table(m2, p1 as int)) by {
                        assert(self.v0(m2, i0 as int));
                    }
                    lemma_grows_write(*self, m2, *mem, p1 as int);
                    lemma_grows_trans(*self, m0, m2, *mem);
                }
            }
            ppn
        };
        proof {
            if self.wf(m0) && self.v1(m2, i0 as int, i1 as int) {
                assert(*mem == m2);
            }
        }
        Some(PteSlot { table_ppn: p2, index: i2 })
    }
}

/// The entry bits that `map` writes for physical address `pa`.
pub open spec fn leaf_bits(pa: usize, flags: usize) -> usize {
    pte_bits(pa >> 12usize, flags | 0xc1usize)
}

pub proof fn lemma_leaf_bits(pa: usize, flags: usize)
    requires
        flags <= 0xff,
    ensures
        pte_valid(leaf_bits(pa, flags)),
        pte_ppn(leaf_bits(pa, flags)) == pa >> 12usize,
        leaf_bits(pa, flags) & 0xff == flags | 0xc1usize,
{
    let p = pa >> 12usize;
    let f = flags | 0xc1usize;
    assert(((pa >> 12usize) << 10usize) >> 10usize == pa >> 12usize) by (bit_vector);
    assert(flags <= 0xff ==> flags | 0xc1usize <= 0xff) by (bit_vector);
    lemma_pte_fields(p, f);
    assert(f == flags | 0xc1usize ==> f & 1 != 0) by (bit_vector);
}

impl PageTable {
    /// Maps the page of `va` to the frame of `pa` with `flags` plus the
    /// valid, accessed and dirty bits.
    pub fn map(&self, mem: &mut PhysMem, va: usize, pa: usize, flags: PTEFlags)
        requires
            old(mem).wf(),
            self.wf(*old(mem)),
            flags.wf(),
            self.lookup(*old(mem), (va / 4096) as int) is None,
            self.pages_needed(*old(mem), (va / 4096) as int) <= old(mem).free_pages(),
        ensures
            final(mem).wf(),
            self.wf(*final(mem)),
            final(mem).first_ppn() == old(mem).first_ppn(),
            forall|p: int| old(mem).is_frame(p) ==> final(mem).is_frame(p),
            final(mem).free_pages() == old(mem).free_pages() - self.pages_needed(*old(mem), (va / 4096) as int),
            forall|v: int| #[trigger] self.lookup(*final(mem), v)
                == if same_slot(v, (va / 4096) as int) { Some(leaf_bits(pa, flags.bits)) } else { self.lookup(*old(mem), v) },
            forall|k: int| #[trigger] self.v0(*final(mem), k) == (self.v0(*old(mem), k) || k == idx0((va / 4096) as int)),
            forall|k: int, l: int| 0 <= k < 512 ==> #[trigger] self.v1(*final(mem), k, l)
                == (self.v1(*old(mem), k, l) || (k == idx0((va / 4096) as int) && l == idx1((va / 4096) as int))),
            self.grows(*old(mem), *final(mem)),
    {
        let vpn = va >> PAGE_SIZE_BITS;
        let ppn = pa >> PAGE_SIZE_BITS;
        proof {
            lemma_shr12(va);
        }
        let ghost m0 = *mem;
        let slot = match self.find_pte_create(mem, vpn) {
            Some(s) => s,
            None => {
                assert(false);
                return;
            },
        };
        let ghost m1 = *mem;
        let pte = PageTableEntry { bits: mem.read_entry(slot.table_ppn, slot.index) };
        assert(!pte_valid(pte.bits)) by {
            assert(self.lookup(m1, vpn as int) is None);
        }
        let f = flags.union(PTEFlags::V()).union(PTEFlags::A()).union(PTEFlags::D());
        proof {
            let b = flags.bits;
            assert(((b | 1usize) | 64usize) | 128usize == b | 0xc1usize) by (bit_vector);
            lemma_leaf_bits(pa, flags.bits);
            m1.lemma_wf_facts();
        }
        let e = PageTableEntry::new(ppn, f);
        assert(mem.is_frame(slot.table_ppn as int));
        mem.write_entry(slot.table_ppn, slot.index, e.bits);
        proof {
            lemma_set_leaf(*self, m1, *mem, vpn as int, e.bits);
            self.lemma_leaf_write_grows(m0, m1, *mem, vpn as int, slot.table_ppn as int);
        }
    }

    /// Maps like `map`, but returns false where `map` cannot proceed: when
    /// the page is mapped already or memory for its tables runs out.
    pub fn map_checked(&self, mem: &mut PhysMem, va: usize, pa: usize, flags: PTEFlags) -> (ok: bool)
        requires
            old(mem).wf(),
            flags.wf(),
        ensures
            final(mem).wf(),
            final(mem).first_ppn() == old(mem).first_ppn(),
            forall|p: int| old(mem).is_frame(p) ==> final(mem).is_frame(p),
            self.wf(*old(mem)) ==> {
                &&& self.wf(*final(mem))
                &&& (ok <==> self.lookup(*old(mem), (va / 4096) as int) is None
                    && self.pages_needed(*old(mem), (va / 4096) as int) <= old(mem).free_pages())
                &&& (ok ==> final(mem).free_pages() == old(mem).free_pages() - self.pages_needed(*old(mem), (va / 4096) as int))
                &&& forall|v: int| #[trigger] self.lookup(*final(mem), v)
                    == if ok && same_slot(v, (va / 4096) as int) { Some(leaf_bits(pa, flags.bits)) } else { self.lookup(*old(mem), v) }
                &&& self.grows(*old(mem), *final(mem))
            },
    {
        let vpn = va >> PAGE_SIZE_BITS;
        let ppn = pa >> PAGE_SIZE_BITS;
        proof {
            lemma_shr12(va);
        }
        let ghost m0 = *mem;
        let slot = match self.find_pte_create(mem, vpn) {
            Some(s) => s,
            None => return false,
        };
        let ghost m1 = *mem;
        let pte = PageTableEntry { bits: mem.read_entry(slot.table_ppn, slot.index) };
        if pte.is_valid() {
            proof {
                if self.wf(m0) {
                    assert(self.lookup(m1, vpn as int) is Some);
                }
            }
            return false;
        }
        proof {
            if self.wf(m0) {
                assert(self.lookup(m1, vpn as int) is None);
                assert(self.lookup(m0, vpn as int) is None);
            }
        }
        let f = flags.union(PTEFlags::V()).union(PTEFlags::A()).union(PTEFlags::D());
        proof {
            let b = flags.bits;
            assert(((b | 1usize) | 64usize) | 128usize == b | 0xc1usize) by (bit_vector);
            lemma_leaf_bits(pa, flags.bits);
        }
        let e = PageTableEntry::new(ppn, f);
        mem.write_entry(slot.table_ppn, slot.index, e.bits);
        proof {
            if self.wf(m0) {
                assert(mem.is_frame(slot.table_ppn as int) == m1.is_frame(slot.table_ppn as int));
                lemma_set_leaf(*self, m1, *mem, vpn as int, e.bits);
                self.lemma_leaf_write_grows(m0, m1, *mem, vpn as int, slot.table_ppn as int);
            }
        }
        true
    }

    /// Clears the leaf entry of the page of `va`, if it is mapped.
    pub fn unmap(&self, mem: &mut PhysMem, va: usize)
        requires
            old(mem).wf(),
            self.wf(*old(mem)),
        ensures
            final(mem).wf(),
            self.wf(*final(mem)),
            final(mem).first_ppn() == old(mem).first_ppn(),
            forall|p: int| old(mem).is_frame(p) <==> final(mem).is_frame(p),
            final(mem).free_pages() == old(mem).free_pages(),
            forall|v: int| #[trigger] self.lookup(*final(mem), v)
                == if same_slot(v, (va / 4096) as int) { None } else { self.lookup(*old(mem), v) },
            self.tables_kept(*old(mem), *final(mem)),
            forall|k: int| #[trigger] self.v0(*final(mem), k) == self.v0(*old(mem), k),
            forall|k: int, l: int| 0 <= k < 512 ==> #[trigger] self.v1(*final(mem), k, l) == self.v1(*old(mem), k, l),
            forall|v: int| #[trigger] self.pages_needed(*final(mem), v) == self.pages_needed(*old(mem), v),
            forall|p: int, x: int| #[trigger] final(mem).entry(p, x) == old(mem).entry(p, x)
                || (p == self.l2(*old(mem), idx0((va / 4096) as int), idx1((va / 4096) as int))
                    && x == idx2((va / 4096) as int)),
    {
        let vpn = va >> PAGE_SIZE_BITS;
        proof {
            lemma_shr12(va);
        }
        let ghost m0 = *mem;
        if let Some(slot) = self.find_pte(mem, vpn) {
            let e = PageTableEntry::empty();
            mem.write_entry(slot.table_ppn, slot.index, e.bits);
            proof {
                assert(!pte_valid(0usize)) by (bit_vector);
                lemma_set_leaf(*self, m0, *mem, vpn as int, 0);
            }
        } else {
            assert forall|v: int| #[trigger] self.lookup(*mem, v)
                == if same_slot(v, vpn as int) { None } else { self.lookup(*old(mem), v) } by {
                if same_slot(v, vpn as int) {
                    assert(self.lookup(*mem, v) == self.lookup(*mem, vpn as int));
                }
            }
        }
    }
}

/// The page number that the three indices of `v` select.
pub open spec fn slot_key(v: int) -> int {
    idx0(v) * 0x40000 + idx1(v) * 512 + idx2(v)
}

pub proof fn lemma_slot_key(a: int, b: int)
    ensures
        0 <= slot_key(a) < 0x8000000,
        same_slot(a, b) <==> slot_key(a) == slot_key(b),
        0 <= a < 0x8000000 ==> slot_key(a) == a,
{
    let (a0, a1, a2) = (idx0(a), idx1(a), idx2(a));
    let (b0, b1, b2) = (idx0(b), idx1(b), idx2(b));
    assert(0 <= a0 < 512 && 0 <= a1 < 512 && 0 <= a2 < 512);
    assert(0 <= b0 < 512 && 0 <= b1 < 512 && 0 <= b2 < 512);
    assert(0 <= slot_key(a) < 0x8000000);
    if slot_key(a) == slot_key(b) {
        assert(a0 == b0 && a1 == b1 && a2 == b2) by (nonlinear_arith)
            requires
                a0 * 0x40000 + a1 * 512 + a2 == b0 * 0x40000 + b1 * 512 + b2,
                0 <= a0 < 512, 0 <= a1 < 512, 0 <= a2 < 512,
                0 <= b0 < 512, 0 <= b1 < 512, 0 <= b2 < 512,
        ;
    }
    if 0 <= a < 0x8000000 {
        let q = a / 512;
        assert(a == q * 512 + a2);
        assert(q == (q / 512) * 512 + a1);
        assert(q / 512 == a / 0x40000) by {
            vstd::arithmetic::div_mod::lemma_div_denominator(a, 512, 512);
        }
        assert(a / 0x40000 < 512);
        assert(a0 == a / 0x40000);
    }
}

impl PageTable {
    /// Leaf tables missing under root entry `i` among middle entries
    /// `lo..hi`.
    pub open spec fn missing_l2(self, mem: PhysMem, i: int, lo: int, hi: int) -> nat
        decreases hi - lo,
    {
        if lo >= hi {
            0
        } else {
            (if self.v1(mem, i, lo) { 0nat } else { 1nat }) + self.missing_l2(mem, i, lo + 1, hi)
        }
    }

    /// Pages that mapping the pages `s..e` (all under one root entry)
    /// allocates: a middle table if the root entry is missing, and one leaf
    /// table for each 2 MiB region that lacks one.
    pub open spec fn range_needed(self, mem: PhysMem, s: int, e: int) -> nat {
        if s >= e {
            0
        } else {
            (if self.v0(mem, idx0(s)) { 0nat } else { 1nat }) + self.missing_l2(mem, idx0(s), idx1(s), idx1(e - 1) + 1)
        }
    }

    pub proof fn lemma_missing_same(self, m1: PhysMem, m2: PhysMem, i: int, lo: int, hi: int)
        requires
            forall|j: int| lo <= j < hi ==> #[trigger] self.v1(m1, i, j) == self.v1(m2, i, j),
        ensures
            self.missing_l2(m1, i, lo, hi) == self.missing_l2(m2, i, lo, hi),
        decreases hi - lo,
    {
        if lo < hi {
            self.lemma_missing_same(m1, m2, i, lo + 1, hi);
        }
    }

    pub proof fn lemma_missing_all(self, mem: PhysMem, i: int, lo: int, hi: int)
        requires
            !self.v0(mem, i),
            lo <= hi,
        ensures
            self.missing_l2(mem, i, lo, hi) == hi - lo,
        decreases hi - lo,
    {
        if lo < hi {
            self.lemma_missing_all(mem, i, lo + 1, hi);
        }
    }
}

/// Facts about consecutive page numbers under one root entry.
proof fn lemma_range_indices(s: int, e: int, c: int)
    requires
        0 <= s <= c,
        c + 1 < e,
        e <= 0x8000000,
        s / 0x40000 == (e - 1) / 0x40000,
    ensures
        idx0(c) == idx0(s),
        idx0(c + 1) == idx0(s),
        idx0(e - 1) == idx0(s),
        idx1(c + 1) == idx1(c) || idx1(c + 1) == idx1(c) + 1,
        idx1(c + 1) == idx1(c) <==> (c + 1) % 512 != 0,
        idx1(s) <= idx1(c) <= idx1(e - 1),
        idx1(c + 1) <= idx1(e - 1),
{
    let k = s / 0x40000;
    assert(c / 0x40000 == k);
    assert((c + 1) / 0x40000 == k);
    assert(k < 512);
    assert forall|x: int| 0 <= x < 0x8000000 && #[trigger] (x / 0x40000) == k implies idx1(x) == x / 512 - k * 512 by {
        vstd::arithmetic::div_mod::lemma_div_denominator(x, 512, 512);
        assert((x / 512) / 512 == k);
    }
    assert(idx1(c) == c / 512 - k * 512);
    assert(idx1(c + 1) == (c + 1) / 512 - k * 512);
    assert(idx1(s) == s / 512 - k * 512);
    assert(idx1(e - 1) == (e - 1) / 512 - k * 512);
}

proof fn lemma_range_indices_last(s: int, e: int, c: int)
    requires
        0 <= s <= c,
        c < e,
        e <= 0x8000000,
        s / 0x40000 == (e - 1) / 0x40000,
    ensures
        idx0(c) == idx0(s),
        idx0(e - 1) == idx0(s),
        idx1(s) <= idx1(c) <= idx1(e - 1),
        c + 1 == e ==> idx1(c) == idx1(e - 1),
{
    let k = s / 0x40000;
    assert(c / 0x40000 == k);
    assert(k < 512);
    assert forall|x: int| 0 <= x < 0x8000000 && #[trigger] (x / 0x40000) == k implies idx1(x) == x / 512 - k * 512 by {
        vstd::arithmetic::div_mod::lemma_div_denominator(x, 512, 512);
        assert((x / 512) / 512 == k);
    }
    assert(idx1(c) == c / 512 - k * 512);
    assert(idx1(s) == s / 512 - k * 512);
    assert(idx1(e - 1) == (e - 1) / 512 - k * 512);
}

/// The state of `map_identity` after mapping the pages `s..c`.
#[verifier::opaque]
pub open spec fn identity_progress(pt: PageTable, m0: PhysMem, m: PhysMem, s: int, e: int, c: int, f: usize) -> bool {
    &&& forall|v: int| #[trigger] pt.lookup(m, v)
        == if s <= slot_key(v) < c { Some(leaf_bits((slot_key(v) * 4096) as usize, f)) } else { pt.lookup(m0, v) }
    &&& c > s ==> pt.v0(m, idx0(s))
    &&& c > s && c < e ==> pt.v1(m, idx0(s), idx1(c - 1))
    &&& forall|k: int| #[trigger] pt.v0(m, k) == (pt.v0(m0, k) || (k == idx0(s) && c > s))
    &&& forall|k: int, l: int| 0 <= k < 512 ==> #[trigger] pt.v1(m, k, l)
        == (pt.v1(m0, k, l) || (k == idx0(s) && c > s && idx1(s) <= l <= idx1(c - 1)))
}

proof fn lemma_identity_before(pt: PageTable, m0: PhysMem, m1: PhysMem, s: int, e: int, c: int, f: usize)
    requires
        0 <= s <= c < e <= 0x8000000,
        s / 0x40000 == (e - 1) / 0x40000,
        forall|v: int| s <= v < e ==> #[trigger] pt.lookup(m0, v) is None,
        identity_progress(pt, m0, m1, s, e, c, f),
    ensures
        pt.lookup(m1, c) is None,
        pt.pages_needed(m1, c) <= pt.range_needed(m1, c, e),
{
    reveal(identity_progress);
    lemma_range_indices_last(s, e, c);
    lemma_slot_key(c, c);
    assert(pt.lookup(m1, c) == pt.lookup(m0, c));
    if c > s && c % 512 != 0 {
        lemma_range_indices(s, e, c - 1);
        assert(pt.v1(m1, idx0(s), idx1(c)));
    }
    if !pt.v0(m1, idx0(s)) {
        assert(!pt.v1(m1, idx0(s), idx1(c)));
    }
}

proof fn lemma_identity_count(pt: PageTable, m0: PhysMem, m1: PhysMem, m2: PhysMem, s: int, e: int, c: int, f: usize)
    requires
        0 <= s <= c < e <= 0x8000000,
        s / 0x40000 == (e - 1) / 0x40000,
        c > s && c % 512 != 0 ==> pt.v1(m1, idx0(s), idx1(c)),
        forall|k: int| #[trigger] pt.v0(m2, k) == (pt.v0(m1, k) || k == idx0(c)),
        forall|k: int, l: int| 0 <= k < 512 ==> #[trigger] pt.v1(m2, k, l)
            == (pt.v1(m1, k, l) || (k == idx0(c) && l == idx1(c))),
    ensures
        pt.pages_needed(m1, c) + pt.range_needed(m2, c + 1, e) == pt.range_needed(m1, c, e),
{
    lemma_range_indices_last(s, e, c);
    if !pt.v0(m1, idx0(s)) {
        assert(!pt.v1(m1, idx0(s), idx1(c)));
    }
    if c + 1 < e {
        lemma_range_indices(s, e, c);
        let j = idx1(c);
        let jj = idx1(e - 1) + 1;
        assert forall|l: int| j + 1 <= l < jj implies #[trigger] pt.v1(m1, idx0(s), l) == pt.v1(m2, idx0(s), l) by {
            assert(0 <= idx0(s) < 512);
        }
        pt.lemma_missing_same(m1, m2, idx0(s), j + 1, jj);
        assert(pt.v1(m2, idx0(s), j));
        assert(pt.v0(m2, idx0(s)));
        if idx1(c + 1) == j {
            assert(pt.missing_l2(m2, idx0(s), j, jj) == pt.missing_l2(m2, idx0(s), j + 1, jj));
        }
        assert(pt.range_needed(m2, c + 1, e) == pt.missing_l2(m2, idx0(s), j + 1, jj));
        assert(pt.range_needed(m1, c, e) == (if pt.v0(m1, idx0(s)) { 0nat } else { 1nat })
            + (if pt.v1(m1, idx0(s), j) { 0nat } else { 1nat }) + pt.missing_l2(m1, idx0(s), j + 1, jj));
    } else {
        let j = idx1(c);
        assert(idx1(e - 1) == j);
        assert(pt.missing_l2(m1, idx0(s), j + 1, j + 1) == 0);
        assert(pt.missing_l2(m1, idx0(s), j, j + 1) == (if pt.v1(m1, idx0(s), j) { 0nat } else { 1nat }));
        assert(pt.range_needed(m1, c, e) == (if pt.v0(m1, idx0(s)) { 0nat } else { 1nat })
            + (if pt.v1(m1, idx0(s), idx1(c)) { 0nat } else { 1nat }));
    }
}

#[verifier::rlimit(40)]
proof fn lemma_identity_step(pt: PageTable, m0: PhysMem, m1: PhysMem, m2: PhysMem, s: int, e: int, c: int, f: usize)
    requires
        0 <= s <= c < e <= 0x8000000,
        s / 0x40000 == (e - 1) / 0x40000,
        identity_progress(pt, m0, m1, s, e, c, f),
        forall|v: int| #[trigger] pt.lookup(m2, v)
            == if same_slot(v, c) { Some(leaf_bits((c * 4096) as usize, f)) } else { pt.lookup(m1, v) },
        forall|k: int| #[trigger] pt.v0(m2, k) == (pt.v0(m1, k) || k == idx0(c)),
        forall|k: int, l: int| 0 <= k < 512 ==> #[trigger] pt.v1(m2, k, l)
            == (pt.v1(m1, k, l) || (k == idx0(c) && l == idx1(c))),
    ensures
        pt.pages_needed(m1, c) + pt.range_needed(m2, c + 1, e) == pt.range_needed(m1, c, e),
        identity_progress(pt, m0, m2, s, e, c + 1, f),
{
    reveal(identity_progress);
    lemma_range_indices_last(s, e, c);
    lemma_slot_key(c, c);
    if c > s && c % 512 != 0 {
        lemma_range_indices(s, e, c - 1);
    }
    lemma_identity_count(pt, m0, m1, m2, s, e, c, f);
    if c + 1 < e {
        lemma_range_indices(s, e, c);
    }
    assert forall|v: int| #[trigger] pt.lookup(m2, v)
        == if s <= slot_key(v) < c + 1 { Some(leaf_bits((slot_key(v) * 4096) as usize, f)) } else { pt.lookup(m0, v) } by {
        lemma_slot_key(v, c);
    }
}

impl PageTable {
    /// Maps every page of `[start, end)` to the same physical address.
    pub fn map_identity(&self, mem: &mut PhysMem, start: usize, end: usize, flags: PTEFlags)
        requires
            old(mem).wf(),
            self.wf(*old(mem)),
            flags.wf(),
            start % 4096 == 0,
            end % 4096 == 0,
            start < end,
            end / 4096 <= 0x8000000,
            ((start / 4096) as int) / 0x40000 == ((end / 4096) as int - 1) / 0x40000,
            forall|v: int| (start / 4096) as int <= v < (end / 4096) as int ==> #[trigger] self.lookup(*old(mem), v) is None,
            self.range_needed(*old(mem), (start / 4096) as int, (end / 4096) as int) <= old(mem).free_pages(),
        ensures
            final(mem).wf(),
            self.wf(*final(mem)),
            final(mem).first_ppn() == old(mem).first_ppn(),
            forall|p: int| old(mem).is_frame(p) ==> final(mem).is_frame(p),
            final(mem).free_pages() == old(mem).free_pages() - self.range_needed(*old(mem), (start / 4096) as int, (end / 4096) as int),
            identity_progress(*self, *old(mem), *final(mem), (start / 4096) as int, (end / 4096) as int, (end / 4096) as int, flags.bits),
            self.grows(*old(mem), *final(mem)),
    {
        let ghost s: int = (start / 4096) as int;
        let ghost e: int = (end / 4096) as int;
        let ghost m0 = *mem;
        let mut addr = start;
        proof {
            lemma_grows_old_words(*self, m0, m0);
        }
        assert(identity_progress(*self, m0, *mem, s, e, s, flags.bits)) by {
            reveal(identity_progress);
            assert forall|v: int| #[trigger] self.lookup(*mem, v)
                == if s <= slot_key(v) < s { Some(leaf_bits((slot_key(v) * 4096) as usize, flags.bits)) } else { self.lookup(m0, v) } by {
            }
        }
        while addr < end
            invariant
                start <= addr <= end,
                addr % 4096 == 0,
                s == (start / 4096) as int,
                e == (end / 4096) as int,
                s < e <= 0x8000000,
                s / 0x40000 == (e - 1) / 0x40000,
                flags.wf(),
                end % 4096 == 0,
                mem.wf(),
                self.wf(*mem),
                mem.first_ppn() == m0.first_ppn(),
                forall|p: int| m0.is_frame(p) ==> mem.is_frame(p),
                forall|v: int| s <= v < e ==> #[trigger] self.lookup(m0, v) is None,
                mem.free_pages() + self.range_needed(m0, s, e) == m0.free_pages() + self.range_needed(*mem, (addr / 4096) as int, e),
                self.range_needed(*mem, (addr / 4096) as int, e) <= mem.free_pages(),
                identity_progress(*self, m0, *mem, s, e, (addr / 4096) as int, flags.bits),
                self.grows(m0, *mem),
            decreases end - addr,
        {
            let ghost c: int = (addr / 4096) as int;
            let ghost m1 = *mem;
            proof {
                lemma_identity_before(*self, m0, m1, s, e, c, flags.bits);
                assert(addr as int == c * 4096);
            }
            self.map(mem, addr, addr, flags);
            proof {
                lemma_identity_step(*self, m0, m1, *mem, s, e, c, flags.bits);
                lemma_grows_trans(*self, m0, m1, *mem);
            }
            addr = addr + PAGE_SIZE;
        }
    }
}

impl PageTable {
    /// A page table with a fresh, empty root; `None` when no page is free.
    pub fn new(mem: &mut PhysMem) -> (r: Option<PageTable>)
        requires
            old(mem).wf(),
        ensures
            final(mem).wf(),
            r is Some <==> 1 <= old(mem).free_pages(),
            r is None ==> *final(mem) == *old(mem),
            r is Some ==> {
                &&& r->0.wf(*final(mem))
                &&& r->0.root() == old(mem).next_ppn()
                &&& final(mem).free_pages() == old(mem).free_pages() - 1
                &&& final(mem).first_ppn() == old(mem).first_ppn()
                &&& forall|p: int| old(mem).is_frame(p) ==> final(mem).is_frame(p)
                &&& forall|p: int, i: int| #[trigger] final(mem).entry(p, i) == old(mem).entry(p, i)
                &&& forall|p: int, i: int| old(mem).is_frame(p) ==> #[trigger] final(mem).word(p, i) == old(mem).word(p, i)
                &&& forall|k: int| !#[trigger] r->0.v0(*final(mem), k)
                &&& forall|v: int| #[trigger] r->0.lookup(*final(mem), v) is None
            },
    {
        proof {
            old(mem).lemma_wf_facts();
        }
        let root = match mem.alloc_page() {
            Some(p) => p,
            None => return None,
        };
        proof {
            lemma_shr12(root);
            assert forall|p: int, i: int| #[trigger] mem.entry(p, i) == old(mem).entry(p, i) by {
                old(mem).lemma_word_outside(p, i);
            }
        }
        let pt = PageTable { root_ppn: root >> PAGE_SIZE_BITS };
        proof {
            assert forall|k: int| !#[trigger] pt.v0(*mem, k) by {
                old(mem).lemma_word_outside(pt.root(), k);
                assert(!pte_valid(0usize)) by (bit_vector);
            }
        }
        Some(pt)
    }
}

/// Law: after `map(va, pa, flags)` on a page that was not mapped, every
/// address of that page translates to the frame of `pa` at the same offset,
/// and every other address translates as before.
pub proof fn law_map_translate(pt: PageTable, before: PhysMem, after: PhysMem, va: usize, pa: usize, flags: usize)
    requires
        flags <= 0xff,
        forall|v: int| #[trigger] pt.lookup(after, v)
            == if same_slot(v, (va / 4096) as int) { Some(leaf_bits(pa, flags)) } else { pt.lookup(before, v) },
    ensures
        forall|va2: usize| #[trigger] pt.translate_spec(after, va2)
            == if same_slot((va2 / 4096) as int, (va / 4096) as int) {
                Some(((pa & !0xfffusize) | (va2 & 0xfffusize)) as usize)
            } else {
                pt.translate_spec(before, va2)
            },
{
    lemma_leaf_bits(pa, flags);
    assert forall|va2: usize| #[trigger] pt.translate_spec(after, va2)
        == if same_slot((va2 / 4096) as int, (va / 4096) as int) {
            Some(((pa & !0xfffusize) | (va2 & 0xfffusize)) as usize)
        } else {
            pt.translate_spec(before, va2)
        } by {
        assert(((pa >> 12usize) << 12usize) | (va2 & 0xfffusize) == (pa & !0xfffusize) | (va2 & 0xfffusize))
            by (bit_vector);
    }
}

/// Law: `unmap` undoes `map`: mapping a page that was not mapped and then
/// unmapping it leaves every lookup as it was before.
pub proof fn law_unmap_undoes_map(pt: PageTable, before: PhysMem, mapped: PhysMem, after: PhysMem, va: usize, bits: usize)
    requires
        pt.lookup(before, (va / 4096) as int) is None,
        forall|v: int| #[trigger] pt.lookup(mapped, v)
            == if same_slot(v, (va / 4096) as int) { Some(bits) } else { pt.lookup(before, v) },
        forall|v: int| #[trigger] pt.lookup(after, v)
            == if same_slot(v, (va / 4096) as int) { None } else { pt.lookup(mapped, v) },
    ensures
        forall|v: int| #[trigger] pt.lookup(after, v) == pt.lookup(before, v),
{
    assert forall|v: int| #[trigger] pt.lookup(after, v) == pt.lookup(before, v) by {
        if same_slot(v, (va / 4096) as int) {
            assert(pt.lookup(before, v) == pt.lookup(before, (va / 4096) as int));
        }
    }
}

/// Law: mapping a page again after `unmap` needs no new table: the tables
/// on the path of a page that was mapped stay, so mapping it again takes
/// no page for them.
pub proof fn law_remap_after_unmap(pt: PageTable, mapped: PhysMem, after: PhysMem, va: usize)
    requires
        pt.lookup(mapped, (va / 4096) as int) is Some,
        forall|v: int| #[trigger] pt.pages_needed(after, v) == pt.pages_needed(mapped, v),
    ensures
        pt.pages_needed(after, (va / 4096) as int) == 0,
{
    let w = (va / 4096) as int;
    assert(pt.v1(mapped, idx0(w), idx1(w)));
}

/// Law: `map` then `unmap` of a page that was not mapped is a round trip:
/// every address translates as it did before, and the tables the map made
/// stay, so that mapping the page again needs no page for tables.
pub proof fn law_map_unmap_round_trip(pt: PageTable, before: PhysMem, mapped: PhysMem, after: PhysMem, va: usize, bits: usize)
    requires
        pt.lookup(before, (va / 4096) as int) is None,
        forall|v: int| #[trigger] pt.lookup(mapped, v)
            == if same_slot(v, (va / 4096) as int) { Some(bits) } else { pt.lookup(before, v) },
        forall|v: int| #[trigger] pt.lookup(after, v)
            == if same_slot(v, (va / 4096) as int) { None } else { pt.lookup(mapped, v) },
        forall|v: int| #[trigger] pt.pages_needed(after, v) == pt.pages_needed(mapped, v),
    ensures
        forall|x: usize| #[trigger] pt.translate_spec(after, x) == pt.translate_spec(before, x),
        pt.pages_needed(after, (va / 4096) as int) == 0,
{
    law_unmap_undoes_map(pt, before, mapped, after, va, bits);
    assert(same_slot((va / 4096) as int, (va / 4096) as int));
    law_remap_after_unmap(pt, mapped, after, va);
}

/// Law: after `unmap(va)` no address of that page translates.
pub proof fn law_unmap_translate(pt: PageTable, before: PhysMem, after: PhysMem, va: usize)
    requires
        forall|v: int| #[trigger] pt.lookup(after, v)
            == if same_slot(v, (va / 4096) as int) { None } else { pt.lookup(before, v) },
    ensures
        forall|va2: usize| #[trigger] pt.translate_spec(after, va2)
            == if same_slot((va2 / 4096) as int, (va / 4096) as int) { None } else { pt.translate_spec(before, va2) },
{
}

/// What a page table holds right after `map_kernel_regions`: the kernel and
/// all of RAM (read, write, execute), the UART, the virtio MMIO windows
/// and the PLIC (read, write), each mapped to itself.
pub open spec fn kernel_lookup(key: int) -> Option<usize> {
    if 0x80000 <= key < 0x88000 {
        Some(leaf_bits((key * 4096) as usize, 14))
    } else if key == 0x10000 || (0x10001 <= key < 0x10009) || (0xc000 <= key < 0xc200) {
        Some(leaf_bits((key * 4096) as usize, 6))
    } else {
        None
    }
}

/// Pages that `map_kernel_regions` allocates in a fresh table.
pub const KERNEL_REGION_PAGES: usize = 68;

impl PageTable {
    /// Maps the kernel, RAM and the device windows to themselves, as every
    /// address space of the kernel does.
    pub fn map_kernel_regions(&self, mem: &mut PhysMem)
        requires
            old(mem).wf(),
            self.wf(*old(mem)),
            forall|k: int| !#[trigger] self.v0(*old(mem), k),
            KERNEL_REGION_PAGES <= old(mem).free_pages(),
        ensures
            final(mem).wf(),
            self.wf(*final(mem)),
            final(mem).first_ppn() == old(mem).first_ppn(),
            forall|p: int| old(mem).is_frame(p) ==> final(mem).is_frame(p),
            final(mem).free_pages() == old(mem).free_pages() - KERNEL_REGION_PAGES,
            forall|v: int| #[trigger] self.lookup(*final(mem), v) == kernel_lookup(slot_key(v)),
            forall|k: int| #[trigger] self.v0(*final(mem), k) == (k == 0 || k == 2),
            forall|l: int| #[trigger] self.v1(*final(mem), 0, l) == (l == 128 || l == 96),
            self.grows(*old(mem), *final(mem)),
    {
        let ghost m0 = *mem;
        assert(forall|v: int| #[trigger] self.lookup(m0, v) is None);
        proof {
            self.lemma_missing_all(m0, 2, 0, 64);
        }
        let rwx = PTEFlags::R().union(PTEFlags::W()).union(PTEFlags::X());
        let rw = PTEFlags::R().union(PTEFlags::W());
        proof {
            assert((2usize | 4usize) | 8usize == 14usize) by (bit_vector);
            assert(2usize | 4usize == 6usize) by (bit_vector);
        }
        self.map_identity(mem, 0x8000_0000, 0x8800_0000, rwx);
        let ghost m1 = *mem;
        proof {
            reveal(identity_progress);
        }
        self.map(mem, 0x1000_0000, 0x1000_0000, rw);
        let ghost m2 = *mem;
        proof {
            lemma_grows_trans(*self, m0, m1, m2);
        }
        assert(self.v0(m2, 0));
        assert(self.v1(m2, 0, 128));
        assert(self.missing_l2(m2, 0, 129, 129) == 0);
        assert(self.missing_l2(m2, 0, 128, 129) == 0);
        assert(self.range_needed(m2, 0x10001, 0x10009) == 0);
        assert forall|v: int| 0x10001 <= v < 0x10009 implies #[trigger] self.lookup(m2, v) is None by {
            lemma_slot_key(v, 0x10000);
            lemma_slot_key(v, v);
        }
        self.map_identity(mem, 0x1000_1000, 0x1000_9000, rw);
        let ghost m3 = *mem;
        proof {
            reveal(identity_progress);
        }
        assert(!self.v1(m3, 0, 96));
        assert(self.missing_l2(m3, 0, 97, 97) == 0);
        assert(self.missing_l2(m3, 0, 96, 97) == 1);
        assert(self.range_needed(m3, 0xc000, 0xc200) == 1);
        assert forall|v: int| 0xc000 <= v < 0xc200 implies #[trigger] self.lookup(m3, v) is None by {
            lemma_slot_key(v, 0x10000);
            lemma_slot_key(v, v);
        }
        self.map_identity(mem, 0x0c00_0000, 0x0c20_0000, rw);
        proof {
            lemma_grows_trans(*self, m0, m2, m3);
            lemma_grows_trans(*self, m0, m3, *mem);
            reveal(identity_progress);
            assert forall|v: int| #[trigger] self.lookup(*mem, v) == kernel_lookup(slot_key(v)) by {
                lemma_slot_key(v, 0x10000);
            }
        }
    }
}

/// The low flags of a user page: the user bit, plus read, write and
/// execute as asked.
pub open spec fn user_perm_bits(r: bool, w: bool, x: bool) -> usize {
    let a = if r { 16usize | 2usize } else { 16usize };
    let b = if w { a | 4usize } else { a };
    if x { b | 8usize } else { b }
}

/// A user page's flags fit the low byte, and an entry whose low byte is
/// those flags plus valid, accessed and dirty has exactly the asked
/// permission bits, the user bit and the valid bit.
pub proof fn lemma_user_leaf_perms(e: usize, r: bool, w: bool, x: bool)
    by (bit_vector)
    ensures
        user_perm_bits(r, w, x) <= 0x1f,
        user_perm_bits(true, true, false) == 0x16usize,
        e & 0xffusize == user_perm_bits(r, w, x) | 0xc1usize ==> {
            &&& (e & 2usize != 0) == r
            &&& (e & 4usize != 0) == w
            &&& (e & 8usize != 0) == x
            &&& e & 16usize != 0
            &&& e & 1usize != 0
        },
{
}

proof fn lemma_kernel_leaf_perms(e: usize)
    by (bit_vector)
    ensures
        e & 0xffusize == 14usize | 0xc1usize ==> e & 1usize != 0 && e & 2usize != 0 && e & 4usize != 0
            && e & 8usize != 0 && e & 16usize == 0,
        e & 0xffusize == 6usize | 0xc1usize ==> e & 1usize != 0 && e & 2usize != 0 && e & 4usize != 0
            && e & 8usize == 0 && e & 16usize == 0,
{
}

/// Law: in a table as `map_kernel_regions` leaves it, every page of RAM,
/// 0x8000_0000..0x8800_0000, maps to itself with the read, write and
/// execute bits (kernel only: no user bit); the UART, virtio and PLIC
/// windows map to themselves with read and write, without execute; every
/// other page of the address space is unmapped.
pub proof fn law_kernel_regions_identity(pt: PageTable, mem: PhysMem, v: int)
    requires
        forall|u: int| #[trigger] pt.lookup(mem, u) == kernel_lookup(slot_key(u)),
        0 <= v < 0x8000000,
    ensures
        0x80000 <= v < 0x88000 ==> {
            &&& pt.lookup(mem, v) is Some
            &&& pte_ppn(pt.lookup(mem, v)->0) == v
            &&& pt.lookup(mem, v)->0 & 1usize != 0
            &&& pt.lookup(mem, v)->0 & 2usize != 0
            &&& pt.lookup(mem, v)->0 & 4usize != 0
            &&& pt.lookup(mem, v)->0 & 8usize != 0
            &&& pt.lookup(mem, v)->0 & 16usize == 0
        },
        v == 0x10000 || 0x10001 <= v < 0x10009 || 0xc000 <= v < 0xc200 ==> {
            &&& pt.lookup(mem, v) is Some
            &&& pte_ppn(pt.lookup(mem, v)->0) == v
            &&& pt.lookup(mem, v)->0 & 1usize != 0
            &&& pt.lookup(mem, v)->0 & 2usize != 0
            &&& pt.lookup(mem, v)->0 & 4usize != 0
            &&& pt.lookup(mem, v)->0 & 8usize == 0
            &&& pt.lookup(mem, v)->0 & 16usize == 0
        },
        !(0x80000 <= v < 0x88000 || v == 0x10000 || 0x10001 <= v < 0x10009 || 0xc000 <= v < 0xc200)
            ==> pt.lookup(mem, v) is None,
{
    lemma_slot_key(v, v);
    assert(slot_key(v) == v);
    let e = pt.lookup(mem, v);
    if 0x80000 <= v < 0x88000 || v == 0x10000 || 0x10001 <= v < 0x10009 || 0xc000 <= v < 0xc200 {
        let pa = (v * 4096) as usize;
        assert(v * 4096 <= 0x88000000);
        assert(pa == v * 4096);
        lemma_shr12(pa);
        assert(pa / 4096usize == v) by (nonlinear_arith)
            requires
                pa == v * 4096,
        ;
        let f: usize = if 0x80000 <= v < 0x88000 { 14 } else { 6 };
        lemma_leaf_bits(pa, f);
        assert(e == Some(leaf_bits(pa, f)));
        lemma_kernel_leaf_perms(e->0);
    }
}

/// A page table reads the same from two memories that agree on every
/// entry and on every frame of the first.
pub proof fn lemma_same_entries(pt: PageTable, m0: PhysMem, m1: PhysMem)
    requires
        forall|p: int, i: int| #[trigger] m1.entry(p, i) == m0.entry(p, i),
        forall|p: int| m0.is_frame(p) ==> m1.is_frame(p),
    ensures
        pt.wf(m0) ==> pt.wf(m1),
        forall|v: int| #[trigger] pt.lookup(m1, v) == pt.lookup(m0, v),
        forall|k: int| #[trigger] pt.v0(m1, k) == pt.v0(m0, k),
        forall|k: int, l: int| #[trigger] pt.v1(m1, k, l) == pt.v1(m0, k, l),
{
    assert forall|k: int| #[trigger] pt.v0(m1, k) == pt.v0(m0, k) && pt.l1(m1, k) == pt.l1(m0, k) by {
        assert(m1.entry(pt.root(), k) == m0.entry(pt.root(), k));
    }
    assert forall|k: int, l: int| #[trigger] pt.v1(m1, k, l) == pt.v1(m0, k, l) && pt.l2(m1, k, l) == pt.l2(m0, k, l) by {
        assert(m1.entry(pt.l1(m1, k), l) == m0.entry(pt.l1(m0, k), l));
    }
    assert forall|v: int| #[trigger] pt.lookup(m1, v) == pt.lookup(m0, v) by {
        let a = idx0(v);
        let b = idx1(v);
        assert(m1.entry(pt.l2(m1, a, b), idx2(v)) == m0.entry(pt.l2(m0, a, b), idx2(v)));
    }
}

/// Byte `j` of the frame that virtual page `v` maps to.
pub open spec fn page_byte(pt: PageTable, mem: PhysMem, v: int, j: int) -> u8 {
    mem.byte(pte_ppn(pt.lookup(mem, v)->0) * 4096 + j)
}

/// Page `v` of `pt` is a user page: mapped, with the user flag.
pub open spec fn user_page(pt: PageTable, mem: PhysMem, v: int) -> bool {
    pt.lookup(mem, v) is Some && (pt.lookup(mem, v)->0 & 0xffusize) & 16usize == 16usize
}

/// Page `v` of `child` over `cm` maps a frame of its own, one that `pm`
/// did not have, with the flags of page `v` of `parent` over `pm` plus the
/// valid, accessed and dirty bits; the frame holds the bytes of the
/// parent's frame where that is a frame of `pm`.
pub open spec fn page_copied(parent: PageTable, pm: PhysMem, child: PageTable, cm: PhysMem, v: int) -> bool {
    &&& child.lookup(cm, v) is Some
    &&& child.lookup(cm, v)->0 & 0xffusize == (parent.lookup(pm, v)->0 & 0xffusize) | 0xc1usize
    &&& !pm.is_frame(pte_ppn(child.lookup(cm, v)->0) as int)
    &&& pm.is_frame(pte_ppn(parent.lookup(pm, v)->0) as int) ==>
        forall|j: int| 0 <= j < 4096 ==> #[trigger] page_byte(child, cm, v, j) == page_byte(parent, pm, v, j)
}

/// The copy of page `v` is in place, in a frame that holds no table.
spec fn copy_held(parent: PageTable, pm: PhysMem, child: PageTable, cm: PhysMem, v: int) -> bool {
    &&& page_copied(parent, pm, child, cm, v)
    &&& cm.is_frame(pte_ppn(child.lookup(cm, v)->0) as int)
    &&& child.not_table(cm, pte_ppn(child.lookup(cm, v)->0) as int)
}

/// The number of user pages of `pt` over `mem` in the slots from `c` on.
pub open spec fn user_pages_from(pt: PageTable, mem: PhysMem, c: int) -> int
    decreases 0x8000000 - c,
{
    if c >= 0x8000000 {
        0
    } else {
        (if user_page(pt, mem, c) { 1int } else { 0int }) + user_pages_from(pt, mem, c + 1)
    }
}

/// The user pages of `pt` over `mem` can be copied into a fresh table: none
/// lies where the kernel's pages are, and each has an address.
pub open spec fn clone_fits(pt: PageTable, mem: PhysMem) -> bool {
    forall|v: int| #[trigger] user_page(pt, mem, v)
        ==> kernel_lookup(slot_key(v)) is None && slot_key(v) * 4096 <= usize::MAX
}

/// No table has a negative number of user pages.
pub proof fn lemma_user_pages_nonneg(pt: PageTable, mem: PhysMem, c: int)
    ensures
        user_pages_from(pt, mem, c) >= 0,
    decreases 0x8000000 - c,
{
    if c < 0x8000000 {
        lemma_user_pages_nonneg(pt, mem, c + 1);
    }
}

/// Slots without user pages add none to the count.
proof fn lemma_user_pages_skip(pt: PageTable, mem: PhysMem, c: int, d: int)
    requires
        0 <= c <= d <= 0x8000000,
        forall|v: int| c <= slot_key(v) < d ==> !user_page(pt, mem, v),
    ensures
        user_pages_from(pt, mem, c) == user_pages_from(pt, mem, d),
    decreases d - c,
{
    if c < d {
        lemma_slot_key(c, c);
        assert(!user_page(pt, mem, c));
        lemma_user_pages_skip(pt, mem, c + 1, d);
    }
}

/// The user pages of the slots before `c` are copied; every other page
/// maps as the kernel's pages do.
spec fn clone_upto(parent: PageTable, pm: PhysMem, child: PageTable, cm: PhysMem, c: int) -> bool {
    &&& forall|v: int| !(user_page(parent, pm, v) && slot_key(v) < c) ==> #[trigger] child.lookup(cm, v) == kernel_lookup(slot_key(v))
    &&& forall|v: int| user_page(parent, pm, v) && slot_key(v) < c ==> #[trigger] copy_held(parent, pm, child, cm, v)
}

/// A copied page stays copied while the child's table grows around it.
proof fn lemma_copy_held_kept(parent: PageTable, pm: PhysMem, child: PageTable, m0: PhysMem, m1: PhysMem, v: int)
    requires
        copy_held(parent, pm, child, m0, v),
        child.grows(m0, m1),
        child.lookup(m1, v) == child.lookup(m0, v),
    ensures
        copy_held(parent, pm, child, m1, v),
{
    let f = pte_ppn(child.lookup(m0, v)->0) as int;
    lemma_not_table_kept(child, m0, m1, f);
    assert forall|x: int| 0 <= x < 512 implies #[trigger] m1.word(f, x) == m0.word(f, x) by {
    }
    m1.lemma_frame_bytes(m0, f);
    if pm.is_frame(pte_ppn(parent.lookup(pm, v)->0) as int) {
        assert forall|j: int| 0 <= j < 4096 implies #[trigger] page_byte(child, m1, v, j) == page_byte(parent, pm, v, j) by {
            assert(page_byte(child, m0, v, j) == page_byte(parent, pm, v, j));
        }
    }
}

/// Slot `(i, j, k)` is the page number `i * 0x40000 + j * 512 + k`.
proof fn lemma_slot_parts(i: int, j: int, k: int)
    requires
        0 <= i < 512,
        0 <= j < 512,
        0 <= k < 512,
    ensures
        idx0(i * 0x40000 + j * 512 + k) == i,
        idx1(i * 0x40000 + j * 512 + k) == j,
        idx2(i * 0x40000 + j * 512 + k) == k,
        slot_key(i * 0x40000 + j * 512 + k) == i * 0x40000 + j * 512 + k,
{
    let v = i * 0x40000 + j * 512 + k;
    lemma_slot_key(v, v);
    let (a0, a1, a2) = (idx0(v), idx1(v), idx2(v));
    assert(0 <= a0 < 512 && 0 <= a1 < 512 && 0 <= a2 < 512);
    assert(a0 == i && a1 == j && a2 == k) by (nonlinear_arith)
        requires
            a0 * 0x40000 + a1 * 512 + a2 == i * 0x40000 + j * 512 + k,
            0 <= a0 < 512, 0 <= a1 < 512, 0 <= a2 < 512,
            0 <= i < 512, 0 <= j < 512, 0 <= k < 512,
    ;
}

impl PageTable {
    /// Copies the physical page `src` to `dst`, word by word.
    fn copy_page(mem: &mut PhysMem, src: usize, dst: usize)
        requires
            old(mem).wf(),
            old(mem).is_frame(dst as int),
        ensures
            final(mem).wf(),
            final(mem).num_frames() == old(mem).num_frames(),
            final(mem).first_ppn() == old(mem).first_ppn(),
            final(mem).free_pages() == old(mem).free_pages(),
            forall|p: int, i: int| p != dst ==> #[trigger] final(mem).entry(p, i) == old(mem).entry(p, i),
            forall|p: int, i: int| p != dst ==> #[trigger] final(mem).word(p, i) == old(mem).word(p, i),
            forall|i: int| 0 <= i < 512 ==> #[trigger] final(mem).word(dst as int, i) == old(mem).word(src as int, i),
    {
        let mut i: usize = 0;
        while i < 512
            invariant
                i <= 512,
                mem.wf(),
                old(mem).is_frame(dst as int),
                mem.num_frames() == old(mem).num_frames(),
                mem.first_ppn() == old(mem).first_ppn(),
                mem.free_pages() == old(mem).free_pages(),
                forall|p: int, x: int| p != dst ==> #[trigger] mem.entry(p, x) == old(mem).entry(p, x),
                forall|p: int, x: int| p != dst ==> #[trigger] mem.word(p, x) == old(mem).word(p, x),
                forall|x: int| 0 <= x < i ==> #[trigger] mem.word(dst as int, x) == old(mem).word(src as int, x),
                forall|x: int| i <= x < 512 ==> #[trigger] mem.word(dst as int, x) == old(mem).word(dst as int, x),
            decreases 512 - i,
        {
            let w = mem.read_word(src, i);
            assert(w == old(mem).word(src as int, i as int));
            mem.write_word(dst, i, w);
            i = i + 1;
        }
    }

    /// A new address space with the kernel's mappings and a private copy of
    /// every user page (entries with the U flag) of this one, mapped at the
    /// same address with the same flags. `Ok(None)` when a page cannot be
    /// allocated for the root or a copy; `Err` where the kernel stops: when
    /// the tables of the new space cannot be allocated, or a user page lies
    /// where the kernel's pages are. It succeeds where the user pages can be
    /// copied (`clone_fits`) and memory holds the root, the kernel's regions
    /// and three pages for each user page.
    #[verifier::spinoff_prover]
    #[verifier::rlimit(80)]
    pub fn clone_user_space(&self, mem: &mut PhysMem) -> (r: Result<Option<PageTable>, KernelPanic>)
        requires
            old(mem).wf(),
        ensures
            final(mem).wf(),
            final(mem).first_ppn() == old(mem).first_ppn(),
            forall|p: int| old(mem).is_frame(p) ==> final(mem).is_frame(p),
            forall|p: int, x: int| old(mem).is_frame(p) ==> #[trigger] final(mem).word(p, x) == old(mem).word(p, x),
            old(mem).free_pages() == 0 ==> r matches Ok(None),
            1 <= old(mem).free_pages() < 1 + KERNEL_REGION_PAGES ==> r is Err,
            r matches Ok(Some(npt)) ==> {
                &&& npt.wf(*final(mem))
                &&& !old(mem).is_frame(npt.root())
                &&& final(mem).is_frame(npt.root())
            },
            (r matches Ok(Some(_))) && self.wf(*old(mem)) ==> {
                let npt = r->Ok_0->0;
                &&& forall|v: int| !user_page(*self, *old(mem), v)
                    ==> #[trigger] npt.lookup(*final(mem), v) == kernel_lookup(slot_key(v))
                &&& forall|v: int| #[trigger] user_page(*self, *old(mem), v)
                    ==> page_copied(*self, *old(mem), npt, *final(mem), v)
                &&& final(mem).free_pages() + 1 + KERNEL_REGION_PAGES + 3 * user_pages_from(*self, *old(mem), 0)
                    >= old(mem).free_pages()
            },
            self.wf(*old(mem)) && clone_fits(*self, *old(mem))
                && 1 + KERNEL_REGION_PAGES + 3 * user_pages_from(*self, *old(mem), 0) <= old(mem).free_pages()
                ==> r matches Ok(Some(_)),
    {
        let ghost pm = *mem;
        let ghost pw = self.wf(pm);
        let ghost enough = pw && clone_fits(*self, pm)
            && 1 + KERNEL_REGION_PAGES + 3 * user_pages_from(*self, pm, 0) <= pm.free_pages();
        proof {
            lemma_user_pages_nonneg(*self, pm, 0);
        }
        let new_pt = match PageTable::new(mem) {
            Some(pt) => pt,
            None => return Ok(None),
        };
        let ghost m_new = *mem;
        if mem.free_page_count() < KERNEL_REGION_PAGES {
            return Err(KernelPanic);
        }
        new_pt.map_kernel_regions(mem);
        proof {
            assert forall|p: int| pm.is_frame(p) implies #[trigger] new_pt.not_table(*mem, p) by {
                assert(new_pt.not_table(m_new, p));
                lemma_not_table_kept(new_pt, m_new, *mem, p);
            }
            assert forall|p: int, x: int| pm.is_frame(p) implies #[trigger] mem.word(p, x) == pm.word(p, x) by {
                assert(new_pt.not_table(m_new, p));
                assert(mem.word(p, x) == m_new.word(p, x));
            }
            assert forall|v: int| !(user_page(*self, pm, v) && slot_key(v) < 0)
                implies #[trigger] new_pt.lookup(*mem, v) == kernel_lookup(slot_key(v)) by {
            }
            assert forall|v: int| user_page(*self, pm, v) && slot_key(v) < 0
                implies #[trigger] copy_held(*self, pm, new_pt, *mem, v) by {
                lemma_slot_key(v, v);
            }
        }
        let mut i: usize = 0;
        while i < 512
            invariant
                i <= 512,
                mem.wf(),
                new_pt.wf(*mem),
                mem.first_ppn() == pm.first_ppn(),
                forall|p: int| pm.is_frame(p) ==> mem.is_frame(p),
                !pm.is_frame(new_pt.root()),
                mem.is_frame(new_pt.root()),
                pm.free_pages() >= 1 + KERNEL_REGION_PAGES,
                forall|p: int, x: int| pm.is_frame(p) ==> #[trigger] mem.word(p, x) == pm.word(p, x),
                forall|p: int| pm.is_frame(p) ==> #[trigger] new_pt.not_table(*mem, p),
                pw == self.wf(pm),
                pm == *old(mem),
                pw ==> clone_upto(*self, pm, new_pt, *mem, i * 0x40000),
                enough == (pw && clone_fits(*self, pm)
                    && 1 + KERNEL_REGION_PAGES + 3 * user_pages_from(*self, pm, 0) <= pm.free_pages()),
                pw ==> mem.free_pages() + 1 + KERNEL_REGION_PAGES + 3 * (user_pages_from(*self, pm, 0)
                    - user_pages_from(*self, pm, i * 0x40000)) >= pm.free_pages(),
            decreases 512 - i,
        {
            let e0 = PageTableEntry { bits: mem.read_entry(self.root_ppn, i) };
            proof {
                if pw {
                    mem.lemma_same_word_entry(pm, self.root(), i as int);
                }
            }
            if e0.is_valid() {
                let p1 = e0.ppn();
                let mut j: usize = 0;
                while j < 512
                    invariant
                        j <= 512,
                        i < 512,
                        mem.wf(),
                        new_pt.wf(*mem),
                        mem.first_ppn() == pm.first_ppn(),
                        forall|p: int| pm.is_frame(p) ==> mem.is_frame(p),
                        !pm.is_frame(new_pt.root()),
                        mem.is_frame(new_pt.root()),
                        pm.free_pages() >= 1 + KERNEL_REGION_PAGES,
                        forall|p: int, x: int| pm.is_frame(p) ==> #[trigger] mem.word(p, x) == pm.word(p, x),
                        forall|p: int| pm.is_frame(p) ==> #[trigger] new_pt.not_table(*mem, p),
                        pw == self.wf(pm),
                        pm == *old(mem),
                        pw ==> self.v0(pm, i as int) && p1 == self.l1(pm, i as int),
                        pw ==> clone_upto(*self, pm, new_pt, *mem, i * 0x40000 + j * 512),
                        enough == (pw && clone_fits(*self, pm)
                            && 1 + KERNEL_REGION_PAGES + 3 * user_pages_from(*self, pm, 0) <= pm.free_pages()),
                        pw ==> mem.free_pages() + 1 + KERNEL_REGION_PAGES + 3 * (user_pages_from(*self, pm, 0)
                            - user_pages_from(*self, pm, i * 0x40000 + j * 512)) >= pm.free_pages(),
                    decreases 512 - j,
                {
                    let e1 = PageTableEntry { bits: mem.read_entry(p1, j) };
                    proof {
                        if pw {
                            mem.lemma_same_word_entry(pm, p1 as int, j as int);
                        }
                    }
                    if e1.is_valid() {
                        let p2 = e1.ppn();
                        let mut k: usize = 0;
                        while k < 512
                            invariant
                                k <= 512,
                                i < 512,
                                j < 512,
                                mem.wf(),
                                new_pt.wf(*mem),
                                mem.first_ppn() == pm.first_ppn(),
                                forall|p: int| pm.is_frame(p) ==> mem.is_frame(p),
                                !pm.is_frame(new_pt.root()),
                                mem.is_frame(new_pt.root()),
                                pm.free_pages() >= 1 + KERNEL_REGION_PAGES,
                                forall|p: int, x: int| pm.is_frame(p) ==> #[trigger] mem.word(p, x) == pm.word(p, x),
                                forall|p: int| pm.is_frame(p) ==> #[trigger] new_pt.not_table(*mem, p),
                                pw == self.wf(pm),
                                pm == *old(mem),
                                pw ==> self.v1(pm, i as int, j as int) && p2 == self.l2(pm, i as int, j as int),
                                pw ==> clone_upto(*self, pm, new_pt, *mem, i * 0x40000 + j * 512 + k),
                                enough == (pw && clone_fits(*self, pm)
                                    && 1 + KERNEL_REGION_PAGES + 3 * user_pages_from(*self, pm, 0) <= pm.free_pages()),
                                pw ==> mem.free_pages() + 1 + KERNEL_REGION_PAGES + 3 * (user_pages_from(*self, pm, 0)
                                    - user_pages_from(*self, pm, i * 0x40000 + j * 512 + k)) >= pm.free_pages(),
                            decreases 512 - k,
                        {
                            let e2 = PageTableEntry { bits: mem.read_entry(p2, k) };
                            proof {
                                if pw {
                                    mem.lemma_same_word_entry(pm, p2 as int, k as int);
                                }
                                lemma_slot_parts(i as int, j as int, k as int);
                            }
                            let flags = e2.flags();
                            let vpn = i * 0x40000 + j * 512 + k;
                            let ghost c: int = vpn as int;
                            if e2.is_valid() && flags.contains(PTEFlags::U()) {
                                proof {
                                    if pw {
                                        assert(self.lookup(pm, c) == Some(e2.bits));
                                        assert(user_page(*self, pm, c));
                                    }
                                }
                                let ghost mc = *mem;
                                proof {
                                    if pw {
                                        lemma_slot_key(c, c);
                                        lemma_user_pages_nonneg(*self, pm, c + 1);
                                        assert(user_pages_from(*self, pm, c) == 1 + user_pages_from(*self, pm, c + 1));
                                        assert(new_pt.lookup(mc, c) == kernel_lookup(slot_key(c)));
                                        assert(new_pt.pages_needed(mc, c) <= 2);
                                    }
                                }
                                let res = self.copy_one(&new_pt, mem, vpn, e2, Ghost(pm));
                                assert(mem.first_ppn() == mc.first_ppn());
                                assert(forall|p: int| mc.is_frame(p) ==> mem.is_frame(p));
                                match res {
                                    Ok(Some(())) => {},
                                    Ok(None) => return Ok(None),
                                    Err(e) => return Err(e),
                                }
                            } else {
                                proof {
                                    if pw {
                                        assert forall|v: int| c <= slot_key(v) < c + 1 implies !user_page(*self, pm, v) by {
                                            lemma_slot_key(v, c);
                                        }
                                        lemma_clone_skip(*self, pm, new_pt, *mem, c, c + 1);
                                        lemma_user_pages_skip(*self, pm, c, c + 1);
                                    }
                                }
                            }
                            k = k + 1;
                        }
                    } else {
                        proof {
                            if pw {
                                let c = i * 0x40000 + j * 512;
                                assert forall|v: int| c <= slot_key(v) < c + 512 implies !user_page(*self, pm, v) by {
                                    lemma_slot_key(v, v);
                                    assert(idx0(v) == i && idx1(v) == j);
                                }
                                lemma_clone_skip(*self, pm, new_pt, *mem, c, c + 512);
                                lemma_user_pages_skip(*self, pm, c, c + 512);
                            }
                        }
                    }
                    j = j + 1;
                }
            } else {
                proof {
                    if pw {
                        let c = i * 0x40000;
                        assert forall|v: int| c <= slot_key(v) < c + 0x40000 implies !user_page(*self, pm, v) by {
                            lemma_slot_key(v, v);
                            assert(idx0(v) == i);
                        }
                        lemma_clone_skip(*self, pm, new_pt, *mem, c, c + 0x40000);
                        lemma_user_pages_skip(*self, pm, c, c + 0x40000);
                    }
                }
            }
            i = i + 1;
        }
        proof {
            if pw {
                assert forall|v: int| !user_page(*self, pm, v) implies #[trigger] new_pt.lookup(*mem, v) == kernel_lookup(slot_key(v)) by {
                    lemma_slot_key(v, v);
                }
                assert forall|v: int| #[trigger] user_page(*self, pm, v) implies page_copied(*self, pm, new_pt, *mem, v) by {
                    lemma_slot_key(v, v);
                    assert(copy_held(*self, pm, new_pt, *mem, v));
                }
            }
        }
        Ok(Some(new_pt))
    }
}

impl PageTable {
    /// Copies user page `vpn`, whose leaf entry in this table is `e2`, into
    /// `child`: a fresh frame with the words of the page's frame, mapped
    /// with the page's flags. `Ok(None)` when no page is free; `Err` where
    /// the kernel stops: when the page is mapped in `child` already or its
    /// tables cannot be allocated. Otherwise it maps the copy in the page's
    /// slot and leaves every other slot as it was.
    #[verifier::spinoff_prover]
    #[verifier::rlimit(80)]
    fn copy_one(&self, child: &PageTable, mem: &mut PhysMem, vpn: usize, e2: PageTableEntry, Ghost(pm): Ghost<PhysMem>)
        -> (r: Result<Option<()>, KernelPanic>)
        requires
            old(mem).wf(),
            child.wf(*old(mem)),
            vpn < 0x8000000,
            forall|p: int| pm.is_frame(p) ==> old(mem).is_frame(p),
            forall|p: int, x: int| pm.is_frame(p) ==> #[trigger] old(mem).word(p, x) == pm.word(p, x),
            forall|p: int| pm.is_frame(p) ==> #[trigger] child.not_table(*old(mem), p),
            self.wf(pm) ==> {
                &&& clone_upto(*self, pm, *child, *old(mem), vpn as int)
                &&& user_page(*self, pm, vpn as int)
                &&& self.lookup(pm, vpn as int) == Some(e2.bits)
            },
        ensures
            final(mem).wf(),
            child.wf(*final(mem)),
            final(mem).first_ppn() == old(mem).first_ppn(),
            forall|p: int| old(mem).is_frame(p) ==> final(mem).is_frame(p),
            forall|p: int, x: int| pm.is_frame(p) ==> #[trigger] final(mem).word(p, x) == pm.word(p, x),
            forall|p: int| pm.is_frame(p) ==> #[trigger] child.not_table(*final(mem), p),
            r matches Ok(Some(_)) && self.wf(pm) ==> clone_upto(*self, pm, *child, *final(mem), vpn + 1),
            r matches Ok(None) <==> vpn * 4096 <= usize::MAX && old(mem).free_pages() == 0,
            r is Err <==> vpn * 4096 > usize::MAX || (old(mem).free_pages() >= 1 && (child.lookup(*old(mem), vpn as int) is Some
                || child.pages_needed(*old(mem), vpn as int) + 1 > old(mem).free_pages())),
            r matches Ok(None) ==> *final(mem) == *old(mem),
            r matches Ok(Some(_)) ==> {
                &&& final(mem).free_pages() == old(mem).free_pages() - 1 - child.pages_needed(*old(mem), vpn as int)
                &&& forall|v: int| #[trigger] child.lookup(*final(mem), v)
                    == if same_slot(v, vpn as int) {
                        Some(leaf_bits((old(mem).next_ppn() * 4096) as usize, e2.bits & 0xff))
                    } else {
                        child.lookup(*old(mem), v)
                    }
                &&& old(mem).is_frame(pte_ppn(e2.bits) as int) ==> forall|j: int| 0 <= j < 4096
                    ==> #[trigger] final(mem).byte(old(mem).next_ppn() * 4096 + j) == old(mem).byte(pte_ppn(e2.bits) * 4096 + j)
            },
    {
        let ghost m0 = *mem;
        let ghost pw = self.wf(pm);
        proof {
            m0.lemma_wf_facts();
            lemma_slot_key(vpn as int, vpn as int);
        }
        let va = match vpn.checked_mul(PAGE_SIZE) {
            Some(a) => a,
            None => return Err(KernelPanic),
        };
        let new_pa = match mem.alloc_page() {
            Some(p) => p,
            None => return Ok(None),
        };
        let ghost f: int = new_pa as int / 4096;
        proof {
            lemma_shr12(new_pa);
            assert forall|p: int, x: int| #[trigger] mem.entry(p, x) == m0.entry(p, x) by {
                m0.lemma_word_outside(p, x);
            }
            lemma_same_entries(*child, m0, *mem);
            assert(f == m0.next_ppn());
            assert forall|a: int| 0 <= a < 512 && #[trigger] child.v0(*mem, a) implies child.l1(*mem, a) != f by {
                assert(child.v0(m0, a));
                assert(m0.is_frame(child.l1(m0, a)));
            }
            assert forall|a: int, b: int| 0 <= a < 512 && 0 <= b < 512 && #[trigger] child.v1(*mem, a, b)
                implies child.l2(*mem, a, b) != f by {
                assert(child.v1(m0, a, b));
                assert(m0.is_frame(child.l2(m0, a, b)));
            }
            assert(child.not_table(*mem, f));
        }
        let ghost m1 = *mem;
        let src = e2.ppn();
        PageTable::copy_page(mem, src, new_pa >> PAGE_SIZE_BITS);
        let ghost m2 = *mem;
        proof {
            lemma_untouched_tables(*child, m1, m2, f);
            assert forall|p: int, x: int| m0.is_frame(p) implies #[trigger] m2.word(p, x) == m0.word(p, x) by {
                assert(p != f);
                assert(m1.word(p, x) == m0.word(p, x));
            }
            lemma_grows_old_words(*child, m0, m2);
        }
        let flags = e2.flags();
        let ok = child.map_checked(mem, va, new_pa, flags);
        proof {
            lemma_grows_trans(*child, m0, m2, *mem);
            assert forall|p: int| pm.is_frame(p) implies #[trigger] child.not_table(*mem, p) by {
                lemma_not_table_kept(*child, m0, *mem, p);
            }
            assert forall|p: int, x: int| pm.is_frame(p) implies #[trigger] mem.word(p, x) == pm.word(p, x) by {
                assert(child.not_table(m0, p));
                assert(mem.word(p, x) == m0.word(p, x));
            }
        }
        proof {
            assert(child.pages_needed(m2, vpn as int) == child.pages_needed(m0, vpn as int));
            assert(child.lookup(m2, vpn as int) == child.lookup(m0, vpn as int));
            assert(va / 4096 == vpn);
        }
        if !ok {
            return Err(KernelPanic);
        }
        proof {
            let m3 = *mem;
            lemma_not_table_kept(*child, m2, m3, f);
            assert forall|x: int| 0 <= x < 512 implies #[trigger] m3.word(f, x) == m2.word(f, x) by {
            }
            if m0.is_frame(src as int) {
                assert forall|x: int| 0 <= x < 512 implies #[trigger] m3.word(f, x) == m0.word(src as int, x) by {
                    assert(m2.word(f, x) == m1.word(src as int, x));
                }
                m3.lemma_copied_frame_bytes(m0, f, src as int);
            }
            if pw {
                let m3 = *mem;
                assert(va / 4096 == vpn);
                lemma_leaf_bits(new_pa, flags.bits);
                lemma_not_table_kept(*child, m2, m3, f);
                assert forall|x: int| 0 <= x < 512 implies #[trigger] m3.word(f, x) == m2.word(f, x) by {
                }
                if pm.is_frame(src as int) {
                    assert forall|x: int| 0 <= x < 512 implies #[trigger] m3.word(f, x) == pm.word(src as int, x) by {
                        assert(m2.word(f, x) == m1.word(src as int, x));
                        assert(m1.word(src as int, x) == m0.word(src as int, x));
                    }
                    m3.lemma_copied_frame_bytes(pm, f, src as int);
                }
                assert forall|v: int| !(user_page(*self, pm, v) && slot_key(v) < vpn + 1)
                    implies #[trigger] child.lookup(m3, v) == kernel_lookup(slot_key(v)) by {
                    lemma_slot_key(v, vpn as int);
                    if same_slot(v, vpn as int) {
                        assert(self.lookup(pm, v) == self.lookup(pm, vpn as int));
                    }
                }
                assert forall|v: int| user_page(*self, pm, v) && slot_key(v) < vpn + 1
                    implies #[trigger] copy_held(*self, pm, *child, m3, v) by {
                    lemma_slot_key(v, vpn as int);
                    if same_slot(v, vpn as int) {
                        assert(self.lookup(pm, v) == Some(e2.bits));
                        assert(child.lookup(m3, v) == Some(leaf_bits(new_pa, flags.bits)));
                        assert(pte_ppn(child.lookup(m3, v)->0) == f);
                        if pm.is_frame(pte_ppn(self.lookup(pm, v)->0) as int) {
                            assert forall|j: int| 0 <= j < 4096 implies #[trigger] page_byte(*child, m3, v, j) == page_byte(*self, pm, v, j) by {
                                assert(m3.byte(f * 4096 + j) == pm.byte(src * 4096 + j));
                            }
                        }
                    } else {
                        assert(copy_held(*self, pm, *child, m0, v));
                        lemma_copy_held_kept(*self, pm, *child, m0, m3, v);
                    }
                }
            }
        }
        Ok(Some(()))
    }
}

/// Slots `c..d` hold no user page: the copy stands before `d` as it did
/// before `c`.
proof fn lemma_clone_skip(parent: PageTable, pm: PhysMem, child: PageTable, cm: PhysMem, c: int, d: int)
    requires
        clone_upto(parent, pm, child, cm, c),
        c <= d,
        forall|v: int| c <= slot_key(v) < d ==> !user_page(parent, pm, v),
    ensures
        clone_upto(parent, pm, child, cm, d),
{
    assert forall|v: int| !(user_page(parent, pm, v) && slot_key(v) < d)
        implies #[trigger] child.lookup(cm, v) == kernel_lookup(slot_key(v)) by {
        assert(!(user_page(parent, pm, v) && slot_key(v) < c));
    }
    assert forall|v: int| user_page(parent, pm, v) && slot_key(v) < d
        implies #[trigger] copy_held(parent, pm, child, cm, v) by {
        assert(slot_key(v) < c);
    }
}

} // verus!

verus! {

impl PageTable {
    /// Frame `f` is neither the root nor a table that the root reaches.
    pub open spec fn not_table(self, mem: PhysMem, f: int) -> bool {
        &&& f != self.root()
        &&& forall|i: int| 0 <= i < 512 && #[trigger] self.v0(mem, i) ==> self.l1(mem, i) != f
        &&& forall|i: int, j: int| 0 <= i < 512 && 0 <= j < 512 && #[trigger] self.v1(mem, i, j) ==> self.l2(mem, i, j) != f
    }
}

/// Changing the words of one frame that holds none of a table's pages
/// keeps the table well formed and every lookup as it was.
pub proof fn lemma_untouched_tables(pt: PageTable, m0: PhysMem, m1: PhysMem, f: int)
    requires
        pt.wf(m0),
        pt.not_table(m0, f),
        forall|p: int| m0.is_frame(p) <==> m1.is_frame(p),
        forall|p: int, x: int| p != f ==> #[trigger] m1.entry(p, x) == m0.entry(p, x),
    ensures
        pt.wf(m1),
        pt.not_table(m1, f),
        forall|v: int| #[trigger] pt.lookup(m1, v) == pt.lookup(m0, v),
        forall|k: int| #[trigger] pt.v0(m1, k) == pt.v0(m0, k),
        forall|k: int, l: int| 0 <= k < 512 ==> #[trigger] pt.v1(m1, k, l) == pt.v1(m0, k, l),
{
    assert forall|k: int| #[trigger] pt.v0(m1, k) == pt.v0(m0, k) && pt.l1(m1, k) == pt.l1(m0, k) by {
        assert(m1.entry(pt.root(), k) == m0.entry(pt.root(), k));
    }
    assert forall|k: int, l: int| 0 <= k < 512 implies
        #[trigger] pt.v1(m1, k, l) == pt.v1(m0, k, l) && (pt.v0(m0, k) ==> pt.l2(m1, k, l) == pt.l2(m0, k, l)) by {
        if pt.v0(m0, k) {
            assert(m1.entry(pt.l1(m0, k), l) == m0.entry(pt.l1(m0, k), l));
        }
    }
    assert forall|v: int| #[trigger] pt.lookup(m1, v) == pt.lookup(m0, v) by {
        let a = idx0(v);
        let b = idx1(v);
        assert(0 <= a < 512);
        if pt.v1(m0, a, b) {
            assert(m1.entry(pt.l2(m0, a, b), idx2(v)) == m0.entry(pt.l2(m0, a, b), idx2(v)));
        }
    }
}

} // verus!

verus! {

impl PageTable {
    /// Every table that `m0` holds is reached in `m1` through the same
    /// entries, every table added since is a frame `m0` did not have, and
    /// every frame of `m0` is still a frame.
    pub open spec fn tables_kept(self, m0: PhysMem, m1: PhysMem) -> bool {
        &&& forall|p: int| m0.is_frame(p) ==> m1.is_frame(p)
        &&& forall|k: int| 0 <= k < 512 && #[trigger] self.v0(m0, k) ==> self.v0(m1, k) && self.l1(m1, k) == self.l1(m0, k)
        &&& forall|k: int, l: int| 0 <= k < 512 && 0 <= l < 512 && #[trigger] self.v1(m0, k, l)
            ==> self.v1(m1, k, l) && self.l2(m1, k, l) == self.l2(m0, k, l)
        &&& forall|k: int| 0 <= k < 512 && #[trigger] self.v0(m1, k) && !self.v0(m0, k) ==> !m0.is_frame(self.l1(m1, k))
        &&& forall|k: int, l: int| 0 <= k < 512 && 0 <= l < 512 && #[trigger] self.v1(m1, k, l) && !self.v1(m0, k, l)
            ==> !m0.is_frame(self.l2(m1, k, l))
    }

    /// `m1` grows the table of `m0`: its tables are kept, and no word of a
    /// frame of `m0` that holds none of them changed.
    pub open spec fn grows(self, m0: PhysMem, m1: PhysMem) -> bool {
        &&& self.tables_kept(m0, m1)
        &&& forall|p: int, x: int| m0.is_frame(p) && self.not_table(m0, p) ==> #[trigger] m1.word(p, x) == m0.word(p, x)
    }
}

/// A frame of `m0` that holds no table still holds none once the tables
/// are kept.
pub proof fn lemma_not_table_kept(pt: PageTable, m0: PhysMem, m1: PhysMem, f: int)
    requires
        pt.tables_kept(m0, m1),
        m0.is_frame(f),
        pt.not_table(m0, f),
    ensures
        m1.is_frame(f),
        pt.not_table(m1, f),
{
    assert forall|i: int| 0 <= i < 512 && #[trigger] pt.v0(m1, i) implies pt.l1(m1, i) != f by {
        if pt.v0(m0, i) {
            assert(pt.l1(m0, i) != f);
        }
    }
    assert forall|i: int, j: int| 0 <= i < 512 && 0 <= j < 512 && #[trigger] pt.v1(m1, i, j) implies pt.l2(m1, i, j) != f by {
        if pt.v1(m0, i, j) {
            assert(pt.l2(m0, i, j) != f);
        }
    }
}

/// Growing twice is growing.
pub proof fn lemma_grows_trans(pt: PageTable, m0: PhysMem, m1: PhysMem, m2: PhysMem)
    requires
        pt.grows(m0, m1),
        pt.grows(m1, m2),
    ensures
        pt.grows(m0, m2),
{
    assert forall|k: int| 0 <= k < 512 && #[trigger] pt.v0(m2, k) && !pt.v0(m0, k) implies !m0.is_frame(pt.l1(m2, k)) by {
        if pt.v0(m1, k) {
            assert(pt.l1(m2, k) == pt.l1(m1, k));
        }
    }
    assert forall|k: int, l: int| 0 <= k < 512 && 0 <= l < 512 && #[trigger] pt.v1(m2, k, l) && !pt.v1(m0, k, l)
        implies !m0.is_frame(pt.l2(m2, k, l)) by {
        if pt.v1(m1, k, l) {
            assert(pt.l2(m2, k, l) == pt.l2(m1, k, l));
        }
    }
    assert forall|p: int, x: int| m0.is_frame(p) && pt.not_table(m0, p) implies #[trigger] m2.word(p, x) == m0.word(p, x) by {
        lemma_not_table_kept(pt, m0, m1, p);
        assert(m1.word(p, x) == m0.word(p, x));
    }
}

/// Where no word of a frame of `m0` changes, a table of `m0` grows.
pub proof fn lemma_grows_old_words(pt: PageTable, m0: PhysMem, m1: PhysMem)
    requires
        pt.wf(m0),
        forall|p: int| m0.is_frame(p) ==> m1.is_frame(p),
        forall|p: int, x: int| m0.is_frame(p) ==> #[trigger] m1.word(p, x) == m0.word(p, x),
    ensures
        pt.grows(m0, m1),
        pt.wf(m1),
        forall|v: int| #[trigger] pt.lookup(m1, v) == pt.lookup(m0, v),
{
    assert forall|p: int, x: int| m0.is_frame(p) implies #[trigger] m1.entry(p, x) == m0.entry(p, x) by {
        m1.lemma_same_word_entry(m0, p, x);
        assert(m1.word(p, x) == m0.word(p, x));
    }
    assert forall|k: int| #[trigger] pt.v0(m1, k) == pt.v0(m0, k) && pt.l1(m1, k) == pt.l1(m0, k) by {
        assert(m1.entry(pt.root(), k) == m0.entry(pt.root(), k));
    }
    assert forall|k: int, l: int| 0 <= k < 512 implies
        #[trigger] pt.v1(m1, k, l) == pt.v1(m0, k, l) && (pt.v0(m0, k) ==> pt.l2(m1, k, l) == pt.l2(m0, k, l)) by {
        if pt.v0(m0, k) {
            assert(m1.entry(pt.l1(m0, k), l) == m0.entry(pt.l1(m0, k), l));
        }
    }
    assert forall|v: int| #[trigger] pt.lookup(m1, v) == pt.lookup(m0, v) by {
        let a = idx0(v);
        let b = idx1(v);
        assert(0 <= a < 512);
        if pt.v1(m0, a, b) {
            assert(m1.entry(pt.l2(m0, a, b), idx2(v)) == m0.entry(pt.l2(m0, a, b), idx2(v)));
        }
    }
}

impl PageTable {
    /// Writing a leaf entry into the leaf table of `vpn` after creating the
    /// tables on its path grows the table.
    proof fn lemma_leaf_write_grows(self, m0: PhysMem, m1: PhysMem, m2: PhysMem, vpn: int, t: int)
        requires
            self.grows(m0, m1),
            self.tables_kept(m1, m2),
            self.v1(m1, idx0(vpn), idx1(vpn)),
            t == self.l2(m1, idx0(vpn), idx1(vpn)),
            0 <= idx0(vpn) < 512,
            0 <= idx1(vpn) < 512,
            forall|p: int, x: int| p != t ==> #[trigger] m2.word(p, x) == m1.word(p, x),
        ensures
            self.grows(m0, m2),
    {
        assert(!self.not_table(m1, t));
        lemma_grows_write(self, m1, m2, t);
        lemma_grows_trans(self, m0, m1, m2);
    }
}

/// Where no word of a table of `m0` changes, every lookup stays.
pub proof fn lemma_tables_untouched(pt: PageTable, m0: PhysMem, m1: PhysMem)
    requires
        pt.wf(m0),
        forall|p: int| m0.is_frame(p) <==> m1.is_frame(p),
        forall|p: int, x: int| !pt.not_table(m0, p) ==> #[trigger] m1.word(p, x) == m0.word(p, x),
    ensures
        pt.wf(m1),
        forall|v: int| #[trigger] pt.lookup(m1, v) == pt.lookup(m0, v),
        forall|v: usize| #[trigger] pt.translate_spec(m1, v) == pt.translate_spec(m0, v),
{
    assert(!pt.not_table(m0, pt.root()));
    assert forall|k: int| #[trigger] pt.v0(m1, k) == pt.v0(m0, k) && pt.l1(m1, k) == pt.l1(m0, k) by {
        m1.lemma_same_word_entry(m0, pt.root(), k);
    }
    assert forall|k: int, l: int| 0 <= k < 512 && pt.v0(m0, k) implies
        #[trigger] m1.entry(pt.l1(m0, k), l) == m0.entry(pt.l1(m0, k), l) by {
        assert(!pt.not_table(m0, pt.l1(m0, k)));
        m1.lemma_same_word_entry(m0, pt.l1(m0, k), l);
    }
    assert forall|k: int, l: int| 0 <= k < 512 implies #[trigger] pt.v1(m1, k, l) == pt.v1(m0, k, l) by {
        if pt.v0(m0, k) {
            assert(m1.entry(pt.l1(m0, k), l) == m0.entry(pt.l1(m0, k), l));
        }
    }
    assert forall|v: int| #[trigger] pt.lookup(m1, v) == pt.lookup(m0, v) by {
        let a = idx0(v);
        let b = idx1(v);
        assert(0 <= a < 512);
        if pt.v1(m0, a, b) {
            assert(0 <= b < 512);
            assert(m1.entry(pt.l1(m0, a), b) == m0.entry(pt.l1(m0, a), b));
            assert(pt.l2(m1, a, b) == pt.l2(m0, a, b));
            assert(!pt.not_table(m0, pt.l2(m0, a, b)));
            m1.lemma_same_word_entry(m0, pt.l2(m0, a, b), idx2(v));
        }
    }
    assert forall|v: usize| #[trigger] pt.translate_spec(m1, v) == pt.translate_spec(m0, v) by {
        assert(pt.lookup(m1, (v / 4096) as int) == pt.lookup(m0, (v / 4096) as int));
    }
}

/// Writing only into a table of `m0`, with its tables kept, grows it.
proof fn lemma_grows_write(pt: PageTable, m0: PhysMem, m1: PhysMem, w: int)
    requires
        pt.tables_kept(m0, m1),
        !pt.not_table(m0, w),
        forall|p: int, x: int| p != w ==> #[trigger] m1.word(p, x) == m0.word(p, x),
    ensures
        pt.grows(m0, m1),
{
}

} // verus!

verus! {

/// The `satp` value that turns on SV39 translation through the table with
/// root page `root`.
pub open spec fn satp_for(root: int) -> u64 {
    (8u64 << 60u64) | (root as u64)
}

/// The kernel's own page table: the kernel's regions as `map_kernel_regions`
/// maps them and the page at 0x100000 (read, write) mapped to itself, with
/// the `satp` value that enables it. `Err` where the kernel stops: when
/// memory for the tables runs out.
pub fn init_kernel_page_table(mem: &mut PhysMem) -> (r: Result<(PageTable, u64), KernelPanic>)
    requires
        old(mem).wf(),
    ensures
        final(mem).wf(),
        final(mem).first_ppn() == old(mem).first_ppn(),
        forall|p: int| old(mem).is_frame(p) ==> final(mem).is_frame(p),
        r is Ok <==> old(mem).free_pages() >= 2 + KERNEL_REGION_PAGES,
        r matches Ok(x) ==> {
            &&& x.0.wf(*final(mem))
            &&& !old(mem).is_frame(x.0.root())
            &&& x.1 == satp_for(x.0.root())
            &&& forall|v: int| #[trigger] x.0.lookup(*final(mem), v)
                == if same_slot(v, 0x100) { Some(leaf_bits(0x100000, 6)) } else { kernel_lookup(slot_key(v)) }
        },
{
    proof {
        old(mem).lemma_wf_facts();
    }
    let pt = match PageTable::new(mem) {
        Some(pt) => pt,
        None => return Err(KernelPanic),
    };
    if mem.free_page_count() < KERNEL_REGION_PAGES {
        return Err(KernelPanic);
    }
    pt.map_kernel_regions(mem);
    let rw = PTEFlags::R().union(PTEFlags::W());
    proof {
        assert(2usize | 4usize == 6usize) by (bit_vector);
    }
    proof {
        lemma_slot_key(0x100, 0x100);
        assert(idx0(0x100) == 0 && idx1(0x100) == 0);
        assert(pt.lookup(*mem, 0x100) is None);
        assert(pt.pages_needed(*mem, 0x100) == 1);
    }
    if !pt.map_checked(mem, 0x100000, 0x100000, rw) {
        return Err(KernelPanic);
    }
    let satp = (8u64 << 60) | (pt.root_ppn() as u64);
    Ok((pt, satp))
}

} // verus!

verus! {

/// One step of a page walk: the level, the index into that level's table,
/// the physical address of the entry and its bits.
#[derive(Clone, Copy, Debug)]
pub struct PteLevel {
    pub level: usize,
    pub index: usize,
    pub pte_addr: usize,
    pub bits: usize,
    pub valid: bool,
}

/// The step of a walk at `level` through table `table` and entry `index`.
pub open spec fn walk_step(mem: PhysMem, level: usize, table: int, index: int) -> PteLevel {
    let bits = mem.entry(table, index);
    PteLevel {
        level,
        index: index as usize,
        pte_addr: ((table as usize).wrapping_mul(4096)).wrapping_add((index as usize).wrapping_mul(8)),
        bits,
        valid: pte_valid(bits),
    }
}

impl PageTable {
    /// The walk for `va`, level by level, stopping after an invalid entry.
    pub open spec fn walk(self, mem: PhysMem, va: usize) -> Seq<PteLevel> {
        let vpn = (va / 4096) as int;
        let s0 = walk_step(mem, 0, self.root(), idx0(vpn));
        if !s0.valid {
            seq![s0]
        } else {
            let s1 = walk_step(mem, 1, self.l1(mem, idx0(vpn)), idx1(vpn));
            if !s1.valid {
                seq![s0, s1]
            } else {
                seq![s0, s1, walk_step(mem, 2, self.l2(mem, idx0(vpn), idx1(vpn)), idx2(vpn))]
            }
        }
    }

    /// The steps of the walk for `va`, to report.
    pub fn dump_pte(&self, mem: &PhysMem, va: usize) -> (r: Vec<PteLevel>)
        requires
            mem.wf(),
        ensures
            r@ == self.walk(*mem, va),
    {
        let vpn = va >> PAGE_SIZE_BITS;
        proof {
            lemma_indices(vpn);
            lemma_shr12(va);
        }
        let idx = [(vpn >> 18) & 0x1ff, (vpn >> 9) & 0x1ff, vpn & 0x1ff];
        let mut out: Vec<PteLevel> = Vec::new();
        let mut ppn = self.root_ppn;
        let mut i: usize = 0;
        while i < 3
            invariant
                i <= 2,
                mem.wf(),
                vpn == va / 4096,
                idx@ == seq![idx0(vpn as int) as usize, idx1(vpn as int) as usize, idx2(vpn as int) as usize],
                0 <= idx0(vpn as int) < 512 && 0 <= idx1(vpn as int) < 512 && 0 <= idx2(vpn as int) < 512,
                out@.len() == i,
                i >= 1 ==> out@[0] == walk_step(*mem, 0, self.root(), idx0(vpn as int)),
                i >= 2 ==> out@[1] == walk_step(*mem, 1, self.l1(*mem, idx0(vpn as int)), idx1(vpn as int)),
                i >= 1 ==> out@[0].valid,
                i >= 2 ==> out@[1].valid,
                i == 0 ==> ppn == self.root(),
                i == 1 ==> ppn == self.l1(*mem, idx0(vpn as int)),
                i == 2 ==> ppn == self.l2(*mem, idx0(vpn as int), idx1(vpn as int)),
            decreases 3 - i,
        {
            let bits = mem.read_entry(ppn, idx[i]);
            let valid = bits & 1 != 0;
            let step = PteLevel {
                level: i,
                index: idx[i],
                pte_addr: ppn.wrapping_mul(PAGE_SIZE).wrapping_add(idx[i].wrapping_mul(8)),
                bits,
                valid,
            };
            out.push(step);
            if i == 2 || !valid {
                proof {
                    assert(out@ =~= self.walk(*mem, va));
                }
                return out;
            }
            ppn = bits >> 10;
            i = i + 1;
        }
        out
    }
}

} // verus!
