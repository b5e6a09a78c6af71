//! Physical memory: page-table entry encoding, the bump allocators and the
//! frames that the page allocator hands out.
use vstd::prelude::*;

verus! {

pub const PAGE_SIZE: usize = 4096;

pub const PAGE_SIZE_BITS: usize = 12;

/// Number of 8-byte words in a page (and entries in a page table).
pub const PAGE_WORDS: usize = 512;

/// Upper end of the memory that the page allocator hands out.
pub const PHYS_END: usize = 0x8800_0000;

/// The permission and status bits of an SV39 page-table entry.
#[derive(Clone, Copy)]
pub struct PTEFlags {
    pub bits: usize,
}

impl PTEFlags {
    /// Every flag value keeps to the eight defined bits.
    pub open spec fn wf(self) -> bool {
        self.bits <= 0xff
    }

    #[allow(non_snake_case)]
    pub fn V() -> (f: PTEFlags)
        ensures f.bits == 1,
    {
        PTEFlags { bits: 1 }
    }

    #[allow(non_snake_case)]
    pub fn R() -> (f: PTEFlags)
        ensures f.bits == 2,
    {
        PTEFlags { bits: 2 }
    }

    #[allow(non_snake_case)]
    pub fn W() -> (f: PTEFlags)
        ensures f.bits == 4,
    {
        PTEFlags { bits: 4 }
    }

    #[allow(non_snake_case)]
    pub fn X() -> (f: PTEFlags)
        ensures f.bits == 8,
    {
        PTEFlags { bits: 8 }
    }

    #[allow(non_snake_case)]
    pub fn U() -> (f: PTEFlags)
        ensures f.bits == 16,
    {
        PTEFlags { bits: 16 }
    }

    #[allow(non_snake_case)]
    pub fn G() -> (f: PTEFlags)
        ensures f.bits == 32,
    {
        PTEFlags { bits: 32 }
    }

    #[allow(non_snake_case)]
    pub fn A() -> (f: PTEFlags)
        ensures f.bits == 64,
    {
        PTEFlags { bits: 64 }
    }

    #[allow(non_snake_case)]
    pub fn D() -> (f: PTEFlags)
        ensures f.bits == 128,
    {
        PTEFlags { bits: 128 }
    }

    pub fn empty() -> (f: PTEFlags)
        ensures f.bits == 0,
    {
        PTEFlags { bits: 0 }
    }

    pub fn bits(&self) -> (b: usize)
        ensures b == self.bits,
    {
        self.bits
    }

    /// Keeps the defined bits of `bits` and drops the others.
    pub fn from_bits_truncate(bits: usize) -> (f: PTEFlags)
        ensures
            f.bits == bits & 0xff,
            f.wf(),
    {
        proof {
            assert(bits & 0xff <= 0xff) by (bit_vector);
        }
        PTEFlags { bits: bits & 0xff }
    }

    /// The flags set in either operand.
    pub fn union(self, other: PTEFlags) -> (f: PTEFlags)
        ensures
            f.bits == self.bits | other.bits,
            self.wf() && other.wf() ==> f.wf(),
    {
        proof {
            let a = self.bits;
            let b = other.bits;
            assert(a <= 0xff && b <= 0xff ==> a | b <= 0xff) by (bit_vector);
        }
        PTEFlags { bits: self.bits | other.bits }
    }

    /// Whether every flag of `other` is set in `self`.
    pub fn contains(&self, other: PTEFlags) -> (r: bool)
        ensures r == (self.bits & other.bits == other.bits),
    {
        self.bits & other.bits == other.bits
    }
}

/// Shifting right by twelve divides by the page size.
pub proof fn lemma_shr12(x: usize)
    ensures
        x >> 12usize == x / 4096usize,
{
    assert(x >> 12usize == x / 4096usize) by (bit_vector);
}

/// The physical page number held in an entry's bits.
pub open spec fn pte_ppn(bits: usize) -> usize {
    bits >> 10
}

/// Whether an entry's bits have the valid flag.
pub open spec fn pte_valid(bits: usize) -> bool {
    bits & 1 != 0
}

/// The bits of an entry made from a page number and flags.
pub open spec fn pte_bits(ppn: usize, flags: usize) -> usize {
    (ppn << 10) | flags
}

/// Law: an entry made from a page number and flags gives both back, and is
/// valid when the flags have the valid bit, wherever the page number
/// shifted into place fits the word; the empty entry is not valid.
pub proof fn law_pte_round_trip(ppn: usize, flags: usize)
    requires
        ppn * 1024 <= usize::MAX,
        flags <= 0xff,
    ensures
        pte_ppn(pte_bits(ppn, flags)) == ppn,
        pte_bits(ppn, flags) & 0xff == flags,
        pte_valid(pte_bits(ppn, flags)) == (flags & 1 != 0),
        !pte_valid(0usize),
{
    assert((ppn * 1024) as usize == ppn * 1024);
    assert((ppn << 10usize) >> 10usize == ppn) by (bit_vector)
        requires
            (ppn * 1024) as usize == ppn * 1024;
    lemma_pte_fields(ppn, flags);
    assert(!pte_valid(0usize)) by (bit_vector);
}

/// Law: on a machine with 64-bit words, as the kernel's is, an entry made
/// from a page number below 2^54 and flags gives both back, and is valid
/// when the flags have the valid bit; the empty entry is not valid.
pub proof fn law_pte_round_trip_rv64(ppn: usize, flags: usize)
    requires
        usize::BITS == 64,
        ppn < 0x40_0000_0000_0000,
        flags <= 0xff,
    ensures
        pte_ppn(pte_bits(ppn, flags)) == ppn,
        pte_bits(ppn, flags) & 0xff == flags,
        pte_valid(pte_bits(ppn, flags)) == (flags & 1 != 0),
        !pte_valid(0usize),
{
    law_pte_round_trip(ppn, flags);
}

pub proof fn lemma_pte_fields(ppn: usize, flags: usize)
    requires
        (ppn << 10usize) >> 10usize == ppn,
        flags <= 0xff,
    ensures
        pte_ppn(pte_bits(ppn, flags)) == ppn,
        pte_bits(ppn, flags) & 0xff == flags,
        pte_valid(pte_bits(ppn, flags)) == (flags & 1 != 0),
{
    assert(((ppn << 10usize) >> 10usize == ppn && flags <= 0xff ==> ((ppn << 10) | flags) >> 10 == ppn)
        && (flags <= 0xff ==> ((ppn << 10) | flags) & 0xff == flags)
        && (flags <= 0xff ==> (((ppn << 10) | flags) & 1 != 0) == (flags & 1 != 0)))
        by (bit_vector);
}

/// One SV39 page-table entry.
#[derive(Clone, Copy)]
pub struct PageTableEntry {
    pub bits: usize,
}

impl PageTableEntry {
    pub fn new(ppn: usize, flags: PTEFlags) -> (e: PageTableEntry)
        ensures e.bits == pte_bits(ppn, flags.bits),
    {
        PageTableEntry { bits: (ppn << 10) | flags.bits() }
    }

    pub fn empty() -> (e: PageTableEntry)
        ensures e.bits == 0,
    {
        PageTableEntry { bits: 0 }
    }

    pub fn ppn(&self) -> (p: usize)
        ensures p == pte_ppn(self.bits),
    {
        self.bits >> 10
    }

    pub fn flags(&self) -> (f: PTEFlags)
        ensures
            f.bits == self.bits & 0xff,
            f.wf(),
    {
        PTEFlags::from_bits_truncate(self.bits)
    }

    pub fn is_valid(&self) -> (r: bool)
        ensures r == pte_valid(self.bits),
    {
        let f = self.flags();
        let v = PTEFlags::V();
        let r = f.contains(v);
        proof {
            let b = self.bits;
            assert((b & 0xff) & 1 == 1 <==> b & 1 != 0) by (bit_vector);
        }
        r
    }
}

/// Rounds `x` up to a multiple of the power of two `align`.
pub open spec fn align_up_spec(x: usize, align: usize) -> usize {
    ((x + align - 1) as usize) & !((align - 1) as usize)
}

pub open spec fn is_pow2(a: usize) -> bool {
    a > 0 && a & ((a - 1) as usize) == 0
}

pub proof fn lemma_align_up(x: usize, align: usize)
    requires
        is_pow2(align),
        x + align - 1 <= usize::MAX,
    ensures
        align_up_spec(x, align) >= x,
        align_up_spec(x, align) < x + align,
        align_up_spec(x, align) & ((align - 1) as usize) == 0,
{
    let y = (x + align - 1) as usize;
    let m = (align - 1) as usize;
    assert((align > 0 && align & m == 0 && m == align - 1 && y == x + m ==> (y & !m) >= x)
        && (align > 0 && align & m == 0 && m == align - 1 && y == x + m ==> (y & !m) <= y)
        && (align > 0 && align & m == 0 && m == align - 1 ==> (y & !m) & m == 0)) by (bit_vector);
}

/// The kernel's bump heap: allocations move `current` up, nothing is freed.
pub struct HeapAllocator {
    pub current: usize,
    pub end: usize,
}

impl HeapAllocator {
    pub fn new() -> (h: HeapAllocator)
        ensures
            h.current == 0,
            h.end == 0,
    {
        HeapAllocator { current: 0, end: 0 }
    }

    /// Hands out `size` bytes aligned to `align`, or 0 (the null address)
    /// when they do not fit below `end`.
    pub fn alloc_bytes(&mut self, size: usize, align: usize) -> (addr: usize)
        requires
            is_pow2(align),
            old(self).current + align - 1 <= usize::MAX,
            align_up_spec(old(self).current, align) + size <= usize::MAX,
        ensures
            align_up_spec(old(self).current, align) + size <= old(self).end ==> {
                &&& addr == align_up_spec(old(self).current, align)
                &&& addr >= old(self).current
                &&& addr & ((align - 1) as usize) == 0
                &&& final(self).current == addr + size
                &&& final(self).end == old(self).end
            },
            align_up_spec(old(self).current, align) + size > old(self).end ==> {
                &&& addr == 0
                &&& *final(self) == *old(self)
            },
            final(self).current >= old(self).current,
    {
        proof {
            lemma_align_up(self.current, align);
        }
        let addr = (self.current + (align - 1)) & !(align - 1);
        if addr + size <= self.end {
            self.current = addr + size;
            addr
        } else {
            0
        }
    }
}

/// The heap allocator as the kernel sets it up.
pub fn init_heap() -> (h: HeapAllocator)
    ensures
        h.current == 0x8600_0000,
        h.end == 0x8700_0000,
{
    HeapAllocator { current: 0x8600_0000, end: 0x8700_0000 }
}

/// Law: blocks that `alloc_bytes` hands out do not overlap. A block ends at
/// the mark it leaves; the mark never goes down; and a later block starts
/// at or above the mark it is taken from.
pub proof fn law_alloc_bytes_disjoint(a1: usize, size1: usize, h1: HeapAllocator, h: HeapAllocator, a2: usize)
    requires
        h1.current == a1 + size1,
        h.current >= h1.current,
        a2 >= h.current,
    ensures
        a1 + size1 <= a2,
{
}

/// Law: from `init(kernel_end)` on, a page that `alloc_page` hands out is
/// aligned, lies between the page-rounded kernel end and `PHYS_END`, reads
/// zero, and overlaps no page handed out before; it hands out none exactly
/// when less than a page is left. `m` is the memory the call is made on,
/// `m1` the memory it leaves, and `earlier` the pages handed out before,
/// which are frames of `m`.
pub proof fn law_alloc_page_from_init(kernel_end: usize, m: PhysMem, earlier: Seq<usize>, p: usize, m1: PhysMem)
    requires
        m.wf(),
        m.first_ppn() * 4096 == align_up_spec(kernel_end, 4096),
        forall|i: int| 0 <= i < earlier.len() ==> #[trigger] earlier[i] % 4096 == 0 && m.is_frame(earlier[i] as int / 4096),
        1 <= m.free_pages(),
        p == m.next_ppn() * 4096,
        m1.wf(),
        m1.first_ppn() == m.first_ppn(),
        m1.num_frames() == m.num_frames() + 1,
        forall|q: int, i: int| #[trigger] m1.word(q, i) == if m.is_frame(q) { m.word(q, i) } else { 0 },
    ensures
        p % 4096 == 0,
        align_up_spec(kernel_end, 4096) <= p,
        p + 4096 <= PHYS_END,
        forall|j: int| 0 <= j < 4096 ==> #[trigger] m1.byte(p + j) == 0,
        forall|i: int| 0 <= i < earlier.len() ==> #[trigger] earlier[i] + 4096 <= p,
        m.free_pages() == 0 <==> PHYS_END - m.current() < 4096,
{
    m.lemma_wf_facts();
    m1.lemma_wf_facts();
    let f = m.next_ppn() as int;
    assert forall|x: int| 0 <= x < 512 implies #[trigger] m1.word(f, x) == m.word(f, x) by {
        m.lemma_word_outside(f, x);
    }
    m1.lemma_frame_bytes(m, f);
    assert forall|j: int| 0 <= j < 4096 implies #[trigger] m1.byte(p + j) == 0 by {
        assert(p + j == f * 4096 + j);
        m.lemma_byte_outside(p + j);
        assert((p + j) / 4096 == f);
    }
    assert forall|i: int| 0 <= i < earlier.len() implies #[trigger] earlier[i] + 4096 <= p by {
        assert(m.is_frame(earlier[i] as int / 4096));
        assert(earlier[i] as int / 4096 < f);
    }
}

/// Law: from `init_heap()` on, a block that `alloc_bytes` hands out is
/// aligned, lies inside `[0x8600_0000, 0x8700_0000)`, and overlaps no block
/// handed out before; the heap it leaves is still one of that range. `h` is
/// the heap the call is made on, `h1` the heap it leaves, and `earlier` the
/// blocks (start, size) handed out before, which end at or below the mark.
pub proof fn law_alloc_bytes_from_init(h: HeapAllocator, size: usize, align: usize, a: usize, h1: HeapAllocator,
    earlier: Seq<(usize, usize)>)
    requires
        0x8600_0000 <= h.current,
        h.end == 0x8700_0000,
        forall|i: int| 0 <= i < earlier.len() ==> #[trigger] earlier[i].0 + earlier[i].1 <= h.current,
        h.current <= h.end,
        is_pow2(align),
        usize::BITS == 64 || h.current + align - 1 <= usize::MAX,
        align_up_spec(h.current, align) + size <= h.end,
        a == align_up_spec(h.current, align),
        a & ((align - 1) as usize) == 0,
        h1.current == a + size,
        h1.end == h.end,
    ensures
        a & ((align - 1) as usize) == 0,
        0x8600_0000 <= a,
        a + size <= 0x8700_0000,
        forall|i: int| 0 <= i < earlier.len() ==> #[trigger] earlier[i].0 + earlier[i].1 <= a,
        0x8600_0000 <= h1.current && h1.end == 0x8700_0000,
        h.current + align - 1 <= usize::MAX,
{
    assert(align > 0 && align & ((align - 1) as usize) == 0 ==> (align as u128) <= 0x8000_0000_0000_0000u128)
        by (bit_vector);
    lemma_align_up(h.current, align);
}

/// Law: pages that `alloc_page` hands out one after the other are
/// different: each is the next frame, and frames stay frames.
pub proof fn law_alloc_page_disjoint(m0: PhysMem, pa1: usize, m1: PhysMem, m2: PhysMem, pa2: usize)
    requires
        pa1 == m0.next_ppn() * 4096,
        m1.first_ppn() == m0.first_ppn(),
        m1.num_frames() == m0.num_frames() + 1,
        forall|p: int| m1.is_frame(p) ==> m2.is_frame(p),
        pa2 == m2.next_ppn() * 4096,
    ensures
        pa1 + 4096 <= pa2,
{
    assert(m1.is_frame(m0.next_ppn() as int));
    assert(m2.is_frame(m0.next_ppn() as int));
}


/// The bump page allocator's two bounds.
pub struct PageAllocator {
    pub current: usize,
    pub end: usize,
}

impl PageAllocator {
    pub fn new() -> (a: PageAllocator)
        ensures
            a.current == 0,
            a.end == 0,
    {
        PageAllocator { current: 0, end: 0 }
    }
}

/// The frames that the page allocator has handed out, each of
/// `PAGE_WORDS` words, stored one after the other, and the allocator that
/// bounds them. Memory outside those frames is not backed here: it reads as
/// zero and writes to it are dropped.
pub struct PhysMem {
    alloc: PageAllocator,
    base: usize,
    words: Vec<u64>,
}

impl PhysMem {
    pub closed spec fn wf(&self) -> bool {
        &&& self.base % 4096 == 0
        &&& self.alloc.end == PHYS_END
        &&& self.words@.len() % 512 == 0
        &&& self.alloc.current == self.base + (self.words@.len() / 512) * 4096
        &&& self.alloc.current <= PHYS_END
    }

    /// Address of the next page to be handed out.
    pub closed spec fn current(&self) -> nat {
        self.alloc.current as nat
    }

    /// End of the memory the page allocator hands out.
    pub closed spec fn end(&self) -> nat {
        self.alloc.end as nat
    }

    /// Page number of the first frame.
    pub closed spec fn first_ppn(&self) -> nat {
        (self.base / 4096) as nat
    }

    pub closed spec fn num_frames(&self) -> nat {
        self.words@.len() / 512
    }

    /// Page number of the next frame to be handed out.
    pub open spec fn next_ppn(&self) -> nat {
        self.first_ppn() + self.num_frames()
    }

    pub open spec fn is_frame(&self, ppn: int) -> bool {
        self.first_ppn() <= ppn < self.next_ppn()
    }

    /// Pages still free.
    pub closed spec fn free_pages(&self) -> nat {
        if self.alloc.current <= self.alloc.end {
            ((self.alloc.end - self.alloc.current) / 4096) as nat
        } else {
            0
        }
    }

    /// Word `idx` of page `ppn`, as a page-table entry.
    pub closed spec fn entry(&self, ppn: int, idx: int) -> usize {
        self.word(ppn, idx) as usize
    }

    /// Word `idx` of page `ppn`.
    pub closed spec fn word(&self, ppn: int, idx: int) -> u64 {
        if self.is_frame(ppn) && 0 <= idx < 512 {
            self.words@[(ppn - self.first_ppn()) * 512 + idx]
        } else {
            0
        }
    }

    /// Words outside the frames, or past a page's end, read as zero.
    pub proof fn lemma_word_outside(&self, ppn: int, idx: int)
        ensures
            !self.is_frame(ppn) || idx < 0 || idx >= 512 ==> self.word(ppn, idx) == 0,
            !self.is_frame(ppn) || idx < 0 || idx >= 512 ==> self.entry(ppn, idx) == 0,
    {
    }

    /// Memories with the same word at a place hold the same entry there.
    pub proof fn lemma_same_word_entry(&self, other: PhysMem, ppn: int, idx: int)
        ensures
            self.word(ppn, idx) == other.word(ppn, idx) ==> self.entry(ppn, idx) == other.entry(ppn, idx),
    {
    }

    pub proof fn lemma_wf_facts(&self)
        requires
            self.wf(),
        ensures
            self.current() == self.next_ppn() * 4096,
            self.end() == PHYS_END,
            self.current() <= PHYS_END,
            self.free_pages() == (PHYS_END - self.current()) / 4096,
            self.next_ppn() <= PHYS_END / 4096,
    {
    }

    /// The page allocator over `[round_up(kernel_end), PHYS_END)`, with no
    /// frame handed out yet; it has no page to hand out where the kernel
    /// ends past `PHYS_END`.
    pub fn init(kernel_end: usize) -> (m: PhysMem)
        ensures
            m.wf(),
            m.num_frames() == 0,
            kernel_end <= PHYS_END ==> m.current() == align_up_spec(kernel_end, 4096),
            kernel_end > PHYS_END ==> m.current() == PHYS_END && m.free_pages() == 0,
            m.first_ppn() * 4096 == m.current(),
    {
        if kernel_end > PHYS_END {
            assert(PHYS_END % 4096 == 0);
            return PhysMem { alloc: PageAllocator { current: PHYS_END, end: PHYS_END }, base: PHYS_END, words: Vec::new() };
        }
        proof {
            assert(4096usize & 4095usize == 0) by (bit_vector);
            lemma_align_up(kernel_end, 4096);
            let y = (kernel_end + 4095) as usize;
            assert((y & !4095usize) & 4095usize == 0 ==> (y & !4095usize) % 4096 == 0)
                by (bit_vector);
        }
        let start = (kernel_end + PAGE_SIZE - 1) & !(PAGE_SIZE - 1);
        assert(start <= PHYS_END) by {
            assert(start < kernel_end + 4096);
            assert(start % 4096 == 0);
            assert(PHYS_END % 4096 == 0);
        }
        PhysMem { alloc: PageAllocator { current: start, end: PHYS_END }, base: start, words: Vec::new() }
    }

    /// Pages still free.
    pub fn free_page_count(&self) -> (n: usize)
        requires
            self.wf(),
        ensures
            n == self.free_pages(),
    {
        (self.alloc.end - self.alloc.current) / PAGE_SIZE
    }

    pub fn current_addr(&self) -> (c: usize)
        ensures
            c == self.current(),
    {
        self.alloc.current
    }

    /// Hands out `n` contiguous zeroed pages, or `None` when fewer are free.
    pub fn alloc_pages(&mut self, n: usize) -> (r: Option<usize>)
        requires
            old(self).wf(),
            n * PAGE_SIZE + PHYS_END <= usize::MAX,
        ensures
            final(self).wf(),
            r is Some <==> n <= old(self).free_pages(),
            r is None ==> *final(self) == *old(self),
            r is Some ==> {
                &&& r->0 == old(self).current()
                &&& r->0 == old(self).next_ppn() * 4096
                &&& final(self).num_frames() == old(self).num_frames() + n
                &&& final(self).first_ppn() == old(self).first_ppn()
                &&& final(self).current() == old(self).current() + n * 4096
                &&& final(self).free_pages() == old(self).free_pages() - n
                &&& forall|p: int, i: int| #[trigger] final(self).word(p, i)
                    == if old(self).is_frame(p) { old(self).word(p, i) } else { 0 }
                &&& forall|p: int, i: int| #[trigger] final(self).entry(p, i)
                    == if old(self).is_frame(p) { old(self).entry(p, i) } else { 0 }
            },
    {
        proof {
            self.lemma_wf_facts();
        }
        let size = n * PAGE_SIZE;
        if self.alloc.current + size <= self.alloc.end {
            let page = self.alloc.current;
            let ghost old_words = self.words@;
            let total = n * PAGE_WORDS;
            let mut k: usize = 0;
            while k < total
                invariant
                    k <= total,
                    total == n * 512,
                    self.base == old(self).base,
                    self.alloc == old(self).alloc,
                    old_words == old(self).words@,
                    self.words@.len() == old_words.len() + k,
                    forall|j: int| 0 <= j < old_words.len() ==> #[trigger] self.words@[j] == old_words[j],
                    forall|j: int| old_words.len() <= j < self.words@.len() ==> #[trigger] self.words@[j] == 0,
                decreases total - k,
            {
                self.words.push(0);
                k = k + 1;
            }
            self.alloc.current = self.alloc.current + size;
            assert(self.words@.len() == old_words.len() + n * 512);
            assert((old_words.len() + n * 512) / 512 == old_words.len() / 512 + n);
            assert forall|p: int, i: int| #[trigger] self.word(p, i)
                == if old(self).is_frame(p) { old(self).word(p, i) } else { 0 } by {
                if self.is_frame(p) && 0 <= i < 512 {
                    let j = (p - self.first_ppn()) * 512 + i;
                    if old(self).is_frame(p) {
                        assert((p - self.first_ppn()) * 512 + i < old_words.len()) by (nonlinear_arith)
                            requires
                                p - self.first_ppn() < old_words.len() / 512,
                                old_words.len() % 512 == 0,
                                0 <= i < 512,
                        ;
                    } else {
                        assert((p - self.first_ppn()) * 512 + i >= old_words.len()) by (nonlinear_arith)
                            requires
                                p - self.first_ppn() >= old_words.len() / 512,
                                old_words.len() % 512 == 0,
                                0 <= i,
                        ;
                    }
                    assert((p - self.first_ppn()) * 512 + i < self.words@.len()) by (nonlinear_arith)
                        requires
                            p - self.first_ppn() < self.words@.len() / 512,
                            self.words@.len() % 512 == 0,
                            0 <= i < 512,
                    ;
                }
            }
            Some(page)
        } else {
            None
        }
    }

    /// Hands out one zeroed page, or `None` when none is free.
    pub fn alloc_page(&mut self) -> (r: Option<usize>)
        requires
            old(self).wf(),
        ensures
            final(self).wf(),
            r is Some <==> 1 <= old(self).free_pages(),
            r is None ==> *final(self) == *old(self),
            r is Some ==> {
                &&& r->0 == old(self).current()
                &&& r->0 == old(self).next_ppn() * 4096
                &&& final(self).num_frames() == old(self).num_frames() + 1
                &&& final(self).first_ppn() == old(self).first_ppn()
                &&& final(self).current() == old(self).current() + 4096
                &&& final(self).free_pages() == old(self).free_pages() - 1
                &&& forall|p: int, i: int| #[trigger] final(self).word(p, i)
                    == if old(self).is_frame(p) { old(self).word(p, i) } else { 0 }
                &&& forall|p: int, i: int| #[trigger] final(self).entry(p, i)
                    == if old(self).is_frame(p) { old(self).entry(p, i) } else { 0 }
            },
    {
        self.alloc_pages(1)
    }

    proof fn lemma_index(&self, ppn: int, idx: int)
        requires
            self.wf(),
            self.is_frame(ppn),
            0 <= idx < 512,
        ensures
            0 <= (ppn - self.first_ppn()) * 512 + idx < self.words@.len(),
    {
        assert(0 <= (ppn - self.first_ppn()) * 512 + idx < self.words@.len()) by (nonlinear_arith)
            requires
                0 <= ppn - self.first_ppn() < self.words@.len() / 512,
                self.words@.len() % 512 == 0,
                0 <= idx < 512,
        ;
    }

    /// Word `idx` of page `ppn` (zero where no frame backs it).
    pub fn read_word(&self, ppn: usize, idx: usize) -> (w: u64)
        requires
            self.wf(),
            idx < 512,
        ensures
            w == self.word(ppn as int, idx as int),
    {
        let first = self.base / PAGE_SIZE;
        if ppn >= first && ppn - first < self.words.len() / PAGE_WORDS {
            proof {
                self.lemma_index(ppn as int, idx as int);
            }
            self.words[(ppn - first) * PAGE_WORDS + idx]
        } else {
            0
        }
    }

    /// Sets word `idx` of page `ppn`; a write where no frame backs it is
    /// dropped.
    pub fn write_word(&mut self, ppn: usize, idx: usize, v: u64)
        requires
            old(self).wf(),
            idx < 512,
        ensures
            final(self).wf(),
            final(self).num_frames() == old(self).num_frames(),
            final(self).first_ppn() == old(self).first_ppn(),
            final(self).current() == old(self).current(),
            final(self).free_pages() == old(self).free_pages(),
            forall|p: int, i: int| #[trigger] final(self).word(p, i)
                == if p == ppn && i == idx && old(self).is_frame(p) { v } else { old(self).word(p, i) },
            forall|p: int, i: int| #[trigger] final(self).entry(p, i)
                == if p == ppn && i == idx && old(self).is_frame(p) { v as usize } else { old(self).entry(p, i) },
    {
        let first = self.base / PAGE_SIZE;
        if ppn >= first && ppn - first < self.words.len() / PAGE_WORDS {
            proof {
                self.lemma_index(ppn as int, idx as int);
            }
            let j = (ppn - first) * PAGE_WORDS + idx;
            self.words[j] = v;
            assert forall|p: int, i: int| #[trigger] self.word(p, i)
                == if p == ppn && i == idx && old(self).is_frame(p) { v } else { old(self).word(p, i) } by {
                if self.is_frame(p) && 0 <= i < 512 {
                    old(self).lemma_index(p, i);
                    if (p - self.first_ppn()) * 512 + i == j {
                        assert(p == ppn && i == idx) by (nonlinear_arith)
                            requires
                                (p - self.first_ppn()) * 512 + i == (ppn - self.first_ppn()) * 512 + idx,
                                0 <= i < 512,
                                0 <= idx < 512,
                        ;
                    }
                }
            }
        }
    }
}

impl PhysMem {
    /// Entry `idx` of page-table page `ppn`.
    pub fn read_entry(&self, ppn: usize, idx: usize) -> (e: usize)
        requires
            self.wf(),
            idx < 512,
        ensures
            e == self.entry(ppn as int, idx as int),
    {
        self.read_word(ppn, idx) as usize
    }

    /// Sets entry `idx` of page-table page `ppn`.
    pub fn write_entry(&mut self, ppn: usize, idx: usize, v: usize)
        requires
            old(self).wf(),
            idx < 512,
        ensures
            final(self).wf(),
            final(self).num_frames() == old(self).num_frames(),
            final(self).first_ppn() == old(self).first_ppn(),
            final(self).current() == old(self).current(),
            final(self).free_pages() == old(self).free_pages(),
            forall|p: int, i: int| #[trigger] final(self).entry(p, i)
                == if p == ppn && i == idx && old(self).is_frame(p) { v } else { old(self).entry(p, i) },
            forall|p: int, i: int| #[trigger] final(self).word(p, i)
                == if p == ppn && i == idx && old(self).is_frame(p) { v as u64 } else { old(self).word(p, i) },
    {
        self.write_word(ppn, idx, v as u64);
    }
}

/// Puts byte `b` at byte `s / 8` of word `w`.
pub open spec fn put_byte(w: u64, s: u64, b: u8) -> u64 {
    (w & !(0xffu64 << s)) | ((b as u64) << s)
}

pub proof fn lemma_put_byte(w: u64, s: u64, b: u8, t: u64)
    requires
        s % 8 == 0,
        s < 64,
        t % 8 == 0,
        t < 64,
    ensures
        (put_byte(w, s, b) >> s) & 0xff == b as u64,
        t != s ==> (put_byte(w, s, b) >> t) & 0xff == (w >> t) & 0xff,
{
    let bb = b as u64;
    assert((bb < 256 && s % 8 == 0 && s < 64 ==> (((w & !(0xffu64 << s)) | (bb << s)) >> s) & 0xff == bb)
        && (bb < 256 && s % 8 == 0 && s < 64 && t % 8 == 0 && t < 64 && t != s
        ==> (((w & !(0xffu64 << s)) | (bb << s)) >> t) & 0xff == (w >> t) & 0xff)) by (bit_vector);
}

impl PhysMem {
    /// The byte at physical address `pa` (zero where no frame backs it).
    pub closed spec fn byte(&self, pa: int) -> u8 {
        ((self.word(pa / 4096, (pa % 4096) / 8) >> ((8 * (pa % 8)) as u64)) & 0xff) as u8
    }

    pub proof fn lemma_byte_outside(&self, pa: int)
        ensures
            !self.is_frame(pa / 4096) ==> self.byte(pa) == 0,
    {
        if !self.is_frame(pa / 4096) {
            let w = self.word(pa / 4096, (pa % 4096) / 8);
            assert(w == 0);
            let sh = (8 * (pa % 8)) as u64;
            assert((0u64 >> sh) & 0xff == 0) by (bit_vector);
        }
    }

    /// Memories that agree on every word of frame `p` agree on its bytes.
    pub proof fn lemma_frame_bytes(&self, other: PhysMem, p: int)
        requires
            forall|x: int| 0 <= x < 512 ==> #[trigger] self.word(p, x) == other.word(p, x),
        ensures
            forall|q: int| p * 4096 <= q < p * 4096 + 4096 ==> #[trigger] self.byte(q) == other.byte(q),
    {
        assert forall|q: int| p * 4096 <= q < p * 4096 + 4096 implies #[trigger] self.byte(q) == other.byte(q) by {
            assert(q / 4096 == p);
            assert(0 <= (q % 4096) / 8 < 512);
            assert(self.word(p, (q % 4096) / 8) == other.word(p, (q % 4096) / 8));
        }
    }

    /// A frame `p` of this memory whose words are those of frame `q` of
    /// `other` holds its bytes.
    /// Byte `j` of word `x` of frame `p`.
    proof fn lemma_byte_of_word(&self, p: int, x: int, j: int)
        requires
            0 <= x < 512,
            0 <= j < 8,
        ensures
            self.byte(p * 4096 + 8 * x + j) == ((self.word(p, x) >> ((8 * j) as u64)) & 0xff) as u8,
    {
        let q = p * 4096 + 8 * x + j;
        assert(q / 4096 == p);
        assert((q % 4096) / 8 == x);
        assert(q % 8 == j);
    }

    /// A frame whose bytes are those of the same frame of `other` holds the
    /// same words.
    pub proof fn lemma_words_from_bytes(&self, other: PhysMem, p: int)
        requires
            self.is_frame(p) <==> other.is_frame(p),
            forall|q: int| p * 4096 <= q < p * 4096 + 4096 ==> #[trigger] self.byte(q) == other.byte(q),
        ensures
            forall|x: int| #[trigger] self.word(p, x) == other.word(p, x),
    {
        assert forall|x: int| #[trigger] self.word(p, x) == other.word(p, x) by {
            self.lemma_word_outside(p, x);
            other.lemma_word_outside(p, x);
            if self.is_frame(p) && 0 <= x < 512 {
                let a = self.word(p, x);
                let b = other.word(p, x);
                self.lemma_byte_of_word(p, x, 0);
                other.lemma_byte_of_word(p, x, 0);
                assert(self.byte(p * 4096 + 8 * x + 0) == other.byte(p * 4096 + 8 * x + 0));
                self.lemma_byte_of_word(p, x, 1);
                other.lemma_byte_of_word(p, x, 1);
                assert(self.byte(p * 4096 + 8 * x + 1) == other.byte(p * 4096 + 8 * x + 1));
                self.lemma_byte_of_word(p, x, 2);
                other.lemma_byte_of_word(p, x, 2);
                assert(self.byte(p * 4096 + 8 * x + 2) == other.byte(p * 4096 + 8 * x + 2));
                self.lemma_byte_of_word(p, x, 3);
                other.lemma_byte_of_word(p, x, 3);
                assert(self.byte(p * 4096 + 8 * x + 3) == other.byte(p * 4096 + 8 * x + 3));
                self.lemma_byte_of_word(p, x, 4);
                other.lemma_byte_of_word(p, x, 4);
                assert(self.byte(p * 4096 + 8 * x + 4) == other.byte(p * 4096 + 8 * x + 4));
                self.lemma_byte_of_word(p, x, 5);
                other.lemma_byte_of_word(p, x, 5);
                assert(self.byte(p * 4096 + 8 * x + 5) == other.byte(p * 4096 + 8 * x + 5));
                self.lemma_byte_of_word(p, x, 6);
                other.lemma_byte_of_word(p, x, 6);
                assert(self.byte(p * 4096 + 8 * x + 6) == other.byte(p * 4096 + 8 * x + 6));
                self.lemma_byte_of_word(p, x, 7);
                other.lemma_byte_of_word(p, x, 7);
                assert(self.byte(p * 4096 + 8 * x + 7) == other.byte(p * 4096 + 8 * x + 7));
                assert(((a >> ((8 * 0) as u64)) & 0xff) as u8 == ((b >> ((8 * 0) as u64)) & 0xff) as u8);
                assert(((a >> ((8 * 1) as u64)) & 0xff) as u8 == ((b >> ((8 * 1) as u64)) & 0xff) as u8);
                assert(((a >> ((8 * 2) as u64)) & 0xff) as u8 == ((b >> ((8 * 2) as u64)) & 0xff) as u8);
                assert(((a >> ((8 * 3) as u64)) & 0xff) as u8 == ((b >> ((8 * 3) as u64)) & 0xff) as u8);
                assert(((a >> ((8 * 4) as u64)) & 0xff) as u8 == ((b >> ((8 * 4) as u64)) & 0xff) as u8);
                assert(((a >> ((8 * 5) as u64)) & 0xff) as u8 == ((b >> ((8 * 5) as u64)) & 0xff) as u8);
                assert(((a >> ((8 * 6) as u64)) & 0xff) as u8 == ((b >> ((8 * 6) as u64)) & 0xff) as u8);
                assert(((a >> ((8 * 7) as u64)) & 0xff) as u8 == ((b >> ((8 * 7) as u64)) & 0xff) as u8);
                assert(((a >> 0u64) & 0xff) as u8 == ((b >> 0u64) & 0xff) as u8);
                assert(((a >> 8u64) & 0xff) as u8 == ((b >> 8u64) & 0xff) as u8);
                assert(((a >> 16u64) & 0xff) as u8 == ((b >> 16u64) & 0xff) as u8);
                assert(((a >> 24u64) & 0xff) as u8 == ((b >> 24u64) & 0xff) as u8);
                assert(((a >> 32u64) & 0xff) as u8 == ((b >> 32u64) & 0xff) as u8);
                assert(((a >> 40u64) & 0xff) as u8 == ((b >> 40u64) & 0xff) as u8);
                assert(((a >> 48u64) & 0xff) as u8 == ((b >> 48u64) & 0xff) as u8);
                assert(((a >> 56u64) & 0xff) as u8 == ((b >> 56u64) & 0xff) as u8);
                assert(a == b) by (bit_vector)
                    requires
                        ((a >> 0u64) & 0xff) as u8 == ((b >> 0u64) & 0xff) as u8,
                        ((a >> 8u64) & 0xff) as u8 == ((b >> 8u64) & 0xff) as u8,
                        ((a >> 16u64) & 0xff) as u8 == ((b >> 16u64) & 0xff) as u8,
                        ((a >> 24u64) & 0xff) as u8 == ((b >> 24u64) & 0xff) as u8,
                        ((a >> 32u64) & 0xff) as u8 == ((b >> 32u64) & 0xff) as u8,
                        ((a >> 40u64) & 0xff) as u8 == ((b >> 40u64) & 0xff) as u8,
                        ((a >> 48u64) & 0xff) as u8 == ((b >> 48u64) & 0xff) as u8,
                        ((a >> 56u64) & 0xff) as u8 == ((b >> 56u64) & 0xff) as u8;
            }
        }
    }

    pub proof fn lemma_copied_frame_bytes(&self, other: PhysMem, p: int, q: int)
        requires
            forall|x: int| 0 <= x < 512 ==> #[trigger] self.word(p, x) == other.word(q, x),
        ensures
            forall|j: int| 0 <= j < 4096 ==> #[trigger] self.byte(p * 4096 + j) == other.byte(q * 4096 + j),
    {
        assert forall|j: int| 0 <= j < 4096 implies #[trigger] self.byte(p * 4096 + j) == other.byte(q * 4096 + j) by {
            assert((p * 4096 + j) / 4096 == p);
            assert((p * 4096 + j) % 4096 == j);
            assert((q * 4096 + j) / 4096 == q);
            assert((q * 4096 + j) % 4096 == j);
            assert((p * 4096 + j) % 8 == j % 8);
            assert((q * 4096 + j) % 8 == j % 8);
            assert(0 <= j / 8 < 512);
            assert(self.word(p, j / 8) == other.word(q, j / 8));
        }
    }

    /// The byte at physical address `pa`.
    pub fn read_byte(&self, pa: usize) -> (b: u8)
        requires
            self.wf(),
        ensures
            b == self.byte(pa as int),
    {
        let ppn = pa / PAGE_SIZE;
        let idx = (pa % PAGE_SIZE) / 8;
        let sh: u64 = ((pa % 8) * 8) as u64;
        let w = self.read_word(ppn, idx);
        ((w >> sh) & 0xff) as u8
    }

    /// Sets the byte at physical address `pa`; dropped where no frame backs
    /// it.
    #[verifier::spinoff_prover]
    #[verifier::rlimit(40)]
    pub fn write_byte(&mut self, pa: usize, b: u8)
        requires
            old(self).wf(),
        ensures
            final(self).wf(),
            final(self).num_frames() == old(self).num_frames(),
            final(self).first_ppn() == old(self).first_ppn(),
            final(self).current() == old(self).current(),
            final(self).free_pages() == old(self).free_pages(),
            forall|q: int| #[trigger] final(self).byte(q)
                == if q == pa && old(self).is_frame(pa as int / 4096) { b } else { old(self).byte(q) },
            forall|p: int, i: int| !(p == pa / 4096 && i == (pa % 4096) / 8) ==> #[trigger] final(self).entry(p, i) == old(self).entry(p, i),
            forall|p: int, i: int| p != pa / 4096 ==> #[trigger] final(self).word(p, i) == old(self).word(p, i),
    {
        let ppn = pa / PAGE_SIZE;
        let idx = (pa % PAGE_SIZE) / 8;
        let sh: u64 = ((pa % 8) * 8) as u64;
        let w = self.read_word(ppn, idx);
        let nw = (w & !(0xffu64 << sh)) | ((b as u64) << sh);
        self.write_word(ppn, idx, nw);
        proof {
            assert forall|q: int| #[trigger] self.byte(q)
                == if q == pa && old(self).is_frame(pa as int / 4096) { b } else { old(self).byte(q) } by {
                let t = (8 * (q % 8)) as u64;
                lemma_put_byte(w, sh, b, t);
                if q / 4096 == ppn && (q % 4096) / 8 == idx && old(self).is_frame(ppn as int) {
                    if q != pa {
                        assert(q % 8 != pa % 8);
                    }
                }
            }
        }
    }
}

/// What the kernel does where it would panic: it stops.
#[derive(Clone, Copy)]
pub struct KernelPanic;

/// Frees a page; the bump allocator never reuses memory, so nothing changes.
pub fn dealloc_page(_addr: usize) {
}

} // verus!

verus! {

impl PhysMem {
    /// Memory that keeps every frame and the first frame has handed out at
    /// least as many pages.
    pub proof fn lemma_free_monotone(&self, later: PhysMem)
        requires
            self.wf(),
            later.wf(),
            later.first_ppn() == self.first_ppn(),
            forall|p: int| self.is_frame(p) ==> later.is_frame(p),
        ensures
            later.free_pages() <= self.free_pages(),
            later.num_frames() >= self.num_frames(),
    {
        if self.num_frames() > 0 {
            assert(self.is_frame(self.next_ppn() - 1));
        }
        self.lemma_wf_facts();
        later.lemma_wf_facts();
    }
}

} // verus!
