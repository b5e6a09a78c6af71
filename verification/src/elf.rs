//! Loading an executable: its segments into an address space, and the
//! initial user stack (arguments, environment and auxiliary vector).
use vstd::prelude::*;
use crate::mm::{PhysMem, PTEFlags, KernelPanic, PAGE_SIZE};
use crate::pagetable::{PageTable, leaf_bits, same_slot, lemma_untouched_tables, lemma_leaf_bits, lemma_same_entries,
    lemma_grows_old_words, lemma_grows_trans, lemma_not_table_kept, page_byte, lemma_slot_key,
    slot_key, kernel_lookup, user_perm_bits, lemma_user_leaf_perms};
use crate::mm::{pte_ppn, lemma_shr12};

verus! {

/// The type of a program header: loadable, any other known type, or a
/// value that names no type.
#[derive(Clone, Copy, PartialEq, Eq, Structural, Debug)]
pub enum SegmentKind {
    Load,
    Other,
    Unknown,
}

/// A program header of an executable.
#[derive(Clone, Copy, Debug)]
pub struct ProgramSegment {
    pub kind: SegmentKind,
    pub vaddr: usize,
    pub mem_size: usize,
    pub file_size: usize,
    pub offset: usize,
    pub readable: bool,
    pub writable: bool,
    pub executable: bool,
}

/// What the loader reads of an executable: the entry point, where the
/// program headers lie, and the headers themselves.
pub struct ElfImage {
    pub entry: usize,
    pub ph_offset: usize,
    pub ph_entry_size: usize,
    pub ph_count: usize,
    pub segments: Vec<ProgramSegment>,
}

impl ElfImage {
    /// Every loadable segment's file bytes lie inside a file of `len` bytes.
    pub open spec fn fits(&self, len: nat) -> bool {
        forall|i: int| 0 <= i < self.segments@.len() && #[trigger] self.segments@[i].kind == SegmentKind::Load
            ==> self.segments@[i].offset + self.segments@[i].file_size <= len
    }

    /// Every program header has a known type.
    pub open spec fn all_known(&self) -> bool {
        forall|i: int| 0 <= i < self.segments@.len() ==> #[trigger] self.segments@[i].kind != SegmentKind::Unknown
    }

    /// Whether the segments' file bytes lie inside a file of `len` bytes.
    pub fn fits_in(&self, len: usize) -> (r: bool)
        ensures
            r == self.fits(len as nat),
    {
        let mut i: usize = 0;
        while i < self.segments.len()
            invariant
                i <= self.segments@.len(),
                forall|j: int| 0 <= j < i && #[trigger] self.segments@[j].kind == SegmentKind::Load
                    ==> self.segments@[j].offset + self.segments@[j].file_size <= len,
            decreases self.segments@.len() - i,
        {
            let s = self.segments[i];
            if s.kind == SegmentKind::Load {
                if s.offset > len || s.file_size > len - s.offset {
                    return false;
                }
            }
            i = i + 1;
        }
        true
    }
}

/// The leaf flags a segment's pages get: user, plus read, write and execute
/// as the segment asks.
pub open spec fn seg_flags_bits(s: ProgramSegment) -> usize {
    let a = if s.readable { 0x10usize | 2usize } else { 0x10usize };
    let b = if s.writable { a | 4usize } else { a };
    if s.executable { b | 8usize } else { b }
}

/// End of a segment in memory, saturating.
pub open spec fn seg_mem_end(s: ProgramSegment) -> usize {
    s.vaddr.saturating_add(s.mem_size)
}

/// The first page of a segment.
pub open spec fn first_page(s: ProgramSegment) -> usize {
    s.vaddr & !0xfffusize
}

/// The page of the segment's last byte (wrapping when it ends at zero).
pub open spec fn last_page(s: ProgramSegment) -> usize {
    seg_mem_end(s).wrapping_sub(1) & !0xfffusize
}

/// The largest end in memory of the loadable segments among `segs`, or 0.
pub open spec fn max_end(segs: Seq<ProgramSegment>) -> usize
    decreases segs.len(),
{
    if segs.len() == 0 {
        0
    } else {
        let m = max_end(segs.drop_last());
        let s = segs.last();
        if s.kind == SegmentKind::Load && seg_mem_end(s) > m {
            seg_mem_end(s)
        } else {
            m
        }
    }
}

/// Every page of segment `s` is mapped, with the segment's flags and the
/// valid, accessed and dirty bits.
pub open spec fn seg_mapped(pt: PageTable, mem: PhysMem, s: ProgramSegment) -> bool {
    forall|v: int| first_page(s) / 4096 <= v <= last_page(s) / 4096
        ==> #[trigger] pt.lookup(mem, v) is Some && pt.lookup(mem, v)->0 & 0xffusize == seg_flags_bits(s) | 0xc1usize
}

/// Law: every page of a segment mapped as `load_elf_into` maps a loadable
/// segment has the user and valid bits, the write bit exactly when the
/// segment is writable, the read bit exactly when it is readable and the
/// execute bit exactly when it is executable.
pub proof fn law_loaded_page_permissions(pt: PageTable, mem: PhysMem, s: ProgramSegment, v: int)
    requires
        seg_mapped(pt, mem, s),
        first_page(s) / 4096 <= v <= last_page(s) / 4096,
    ensures
        pt.lookup(mem, v) is Some,
        (pt.lookup(mem, v)->0 & 4usize != 0) == s.writable,
        (pt.lookup(mem, v)->0 & 2usize != 0) == s.readable,
        (pt.lookup(mem, v)->0 & 8usize != 0) == s.executable,
        pt.lookup(mem, v)->0 & 16usize != 0,
        pt.lookup(mem, v)->0 & 1usize != 0,
{
    assert(pt.lookup(mem, v) is Some);
    assert(seg_flags_bits(s) == user_perm_bits(s.readable, s.writable, s.executable));
    lemma_user_leaf_perms(pt.lookup(mem, v)->0, s.readable, s.writable, s.executable);
}

proof fn lemma_flag_bits(s: ProgramSegment)
    ensures
        seg_flags_bits(s) <= 0xff,
        (seg_flags_bits(s) | 0xc1usize) <= 0xff,
{
    assert((forall|x: usize| x <= 0x1f ==> (x | 4usize) <= 0x1f && (x | 8usize) <= 0x1f && (x | 0xc1usize) <= 0xff)
        && (0x10usize | 2usize) <= 0x1f) by (bit_vector);
}

proof fn lemma_leaf_low_bits(pa: usize, f: usize)
    requires
        f <= 0xff,
    ensures
        leaf_bits(pa, f) & 0xffusize == f | 0xc1usize,
{
    let p = pa >> 12usize;
    assert(f <= 0xff ==> ((p << 10usize) | (f | 0xc1usize)) & 0xffusize == f | 0xc1usize) by (bit_vector);
}

pub proof fn lemma_page_align(x: usize)
    ensures
        (x & !0xfffusize) % 4096 == 0,
        (x & !0xfffusize) <= x,
        x - (x & !0xfffusize) < 4096,
{
    assert((x & !0xfffusize) % 4096 == 0 && (x & !0xfffusize) <= x && x - (x & !0xfffusize) < 4096)
        by (bit_vector);
}

/// The byte a loaded segment holds at virtual address `va`: its file byte
/// where `va` lies in the segment's file bytes, zero elsewhere.
pub open spec fn seg_byte(data: Seq<u8>, s: ProgramSegment, va: int) -> u8 {
    if s.vaddr <= va < s.vaddr.saturating_add(s.file_size) { data[s.offset + (va - s.vaddr)] } else { 0u8 }
}

/// Every page of segment `s` holds the segment's bytes.
pub open spec fn seg_loaded(pt: PageTable, mem: PhysMem, data: Seq<u8>, s: ProgramSegment) -> bool {
    forall|v: int, j: int| first_page(s) / 4096 <= v <= last_page(s) / 4096 && 0 <= j < 4096
        ==> #[trigger] page_byte(pt, mem, v, j) == seg_byte(data, s, v * 4096 + j)
}

/// Page `v` is mapped to a frame that `m0` did not have and that holds no
/// table, and the frame holds the bytes of segment `s`.
pub open spec fn page_holds(pt: PageTable, mem: PhysMem, data: Seq<u8>, s: ProgramSegment, v: int, m0: PhysMem) -> bool {
    &&& pt.lookup(mem, v) is Some
    &&& !m0.is_frame(pte_ppn(pt.lookup(mem, v)->0) as int)
    &&& mem.is_frame(pte_ppn(pt.lookup(mem, v)->0) as int)
    &&& pt.not_table(mem, pte_ppn(pt.lookup(mem, v)->0) as int)
    &&& forall|j: int| 0 <= j < 4096 ==> #[trigger] page_byte(pt, mem, v, j) == seg_byte(data, s, v * 4096 + j)
}

/// A loaded page keeps its bytes while the table grows around it.
proof fn lemma_page_holds_kept(pt: PageTable, m0: PhysMem, m1: PhysMem, data: Seq<u8>, s: ProgramSegment, v: int, ms: PhysMem)
    requires
        page_holds(pt, m0, data, s, v, ms),
        pt.grows(m0, m1),
        pt.lookup(m1, v) == pt.lookup(m0, v),
    ensures
        page_holds(pt, m1, data, s, v, ms),
{
    let f = pte_ppn(pt.lookup(m0, v)->0) as int;
    lemma_not_table_kept(pt, m0, m1, f);
    assert forall|x: int| 0 <= x < 512 implies #[trigger] m1.word(f, x) == m0.word(f, x) by {
    }
    m1.lemma_frame_bytes(m0, f);
    assert forall|j: int| 0 <= j < 4096 implies #[trigger] page_byte(pt, m1, v, j) == seg_byte(data, s, v * 4096 + j) by {
        assert(page_byte(pt, m0, v, j) == seg_byte(data, s, v * 4096 + j));
    }
}

/// Loads the page at `page` of segment `seg`: takes a fresh frame, copies
/// into it the segment's file bytes that fall in the page, and maps it.
/// The frame comes zeroed, so the part past the file bytes reads zero.
#[verifier::spinoff_prover]
#[verifier::rlimit(60)]
fn load_page(pt: &PageTable, mem: &mut PhysMem, data: &[u8], seg: &ProgramSegment, page: usize) -> (r: Result<Option<usize>, KernelPanic>)
    requires
        old(mem).wf(),
        pt.wf(*old(mem)),
        seg.offset + seg.file_size <= data@.len(),
        page % 4096 == 0,
    ensures
        final(mem).wf(),
        pt.wf(*final(mem)),
        pt.grows(*old(mem), *final(mem)),
        final(mem).first_ppn() == old(mem).first_ppn(),
        forall|p: int| old(mem).is_frame(p) ==> final(mem).is_frame(p),
        final(mem).free_pages() <= old(mem).free_pages(),
        forall|v: int| #[trigger] pt.lookup(*old(mem), v) is Some ==> pt.lookup(*final(mem), v) == pt.lookup(*old(mem), v),
        r matches Ok(None) <==> old(mem).free_pages() == 0,
        r is Err <==> old(mem).free_pages() >= 1 && (pt.lookup(*old(mem), page as int / 4096) is Some
            || pt.pages_needed(*old(mem), page as int / 4096) + 1 > old(mem).free_pages()),
        r matches Ok(Some(pa)) ==> {
            &&& final(mem).free_pages() == old(mem).free_pages() - 1 - pt.pages_needed(*old(mem), page as int / 4096)
            &&& pa % 4096 == 0
            &&& !old(mem).is_frame(pa as int / 4096)
            &&& final(mem).is_frame(pa as int / 4096)
            &&& pt.not_table(*final(mem), pa as int / 4096)
            &&& forall|v: int| #[trigger] pt.lookup(*final(mem), v)
                == if same_slot(v, page as int / 4096) { Some(leaf_bits(pa, seg_flags_bits(*seg))) } else { pt.lookup(*old(mem), v) }
            &&& forall|j: int| 0 <= j < 4096 ==> #[trigger] final(mem).byte(pa + j) == seg_byte(data@, *seg, page + j)
        },
{
    let ghost m0 = *mem;
    proof {
        m0.lemma_wf_facts();
        lemma_aligned_below_max(page);
    }
    let pa = match mem.alloc_page() {
        Some(p) => p,
        None => {
            proof {
                lemma_grows_old_words(*pt, m0, *mem);
            }
            return Ok(None);
        },
    };
    let ghost f: int = pa as int / 4096;
    proof {
        assert forall|p: int, x: int| m0.is_frame(p) implies #[trigger] mem.word(p, x) == m0.word(p, x) by {
        }
        lemma_grows_old_words(*pt, m0, *mem);
        assert(f == m0.next_ppn());
        assert(pa == f * 4096);
        assert forall|i: int| 0 <= i < 512 && #[trigger] pt.v0(*mem, i) implies pt.l1(*mem, i) != f by {
            assert(pt.v0(m0, i));
            assert(m0.is_frame(pt.l1(m0, i)));
        }
        assert forall|i: int, j: int| 0 <= i < 512 && 0 <= j < 512 && #[trigger] pt.v1(*mem, i, j) implies pt.l2(*mem, i, j) != f by {
            assert(pt.v1(m0, i, j));
            assert(m0.is_frame(pt.l2(m0, i, j)));
        }
        assert(pt.not_table(*mem, f));
        assert(mem.is_frame(f));
        assert forall|x: int| 0 <= x < 512 implies #[trigger] mem.word(f, x) == m0.word(f, x) by {
            m0.lemma_word_outside(f, x);
        }
        mem.lemma_frame_bytes(m0, f);
        assert forall|j: int| 0 <= j < 4096 implies #[trigger] mem.byte(pa + j) == 0u8 by {
            assert(mem.byte(pa + j) == m0.byte(pa + j));
            m0.lemma_byte_outside(pa + j);
            assert((pa + j) / 4096 == f);
        }
    }
    let ghost m1 = *mem;
    assert(forall|p: int| m0.is_frame(p) ==> m1.is_frame(p));
    let page_end = page.saturating_add(PAGE_SIZE);
    let file_end_seg = seg.vaddr.saturating_add(seg.file_size);
    let file_start = if page > seg.vaddr { page } else { seg.vaddr };
    let file_end = if page_end < file_end_seg { page_end } else { file_end_seg };
    assert(data@.len() == data.len());
    let mut dest_offset: usize = 0;
    let mut copy_len: usize = 0;
    let mut copy_offset: usize = 0;
    if file_end > file_start {
        assert(file_end <= seg.vaddr + seg.file_size);
        copy_offset = seg.offset + (file_start - seg.vaddr);
        dest_offset = file_start - page;
        copy_len = file_end - file_start;
    }
    assert(dest_offset + copy_len <= 4096);
    assert(copy_offset + copy_len <= data@.len());
    let mut k: usize = 0;
    while k < copy_len
        invariant
            k <= copy_len,
            dest_offset + copy_len <= 4096,
            copy_offset + copy_len <= data@.len(),
            data@.len() == data.len(),
            pa % 4096 == 0,
            f == pa as int / 4096,
            pa == f * 4096,
            pa + 4096 <= usize::MAX,
            mem.wf(),
            pt.wf(*mem),
            pt.not_table(*mem, f),
            mem.is_frame(f),
            !m0.is_frame(f),
            forall|p: int| m1.is_frame(p) <==> mem.is_frame(p),
            mem.first_ppn() == m1.first_ppn(),
            mem.free_pages() == m1.free_pages(),
            forall|v: int| #[trigger] pt.lookup(*mem, v) == pt.lookup(m1, v),
            forall|x: int| #[trigger] pt.v0(*mem, x) == pt.v0(m1, x),
            forall|x: int, l: int| 0 <= x < 512 ==> #[trigger] pt.v1(*mem, x, l) == pt.v1(m1, x, l),
            forall|p: int, x: int| m0.is_frame(p) ==> #[trigger] mem.word(p, x) == m0.word(p, x),
            forall|j: int| 0 <= j < 4096 ==> #[trigger] mem.byte(pa + j)
                == if dest_offset <= j < dest_offset + k { data@[copy_offset + (j - dest_offset)] } else { 0u8 },
        decreases copy_len - k,
    {
        let ghost mb = *mem;
        let a = pa + dest_offset + k;
        mem.write_byte(a, data[copy_offset + k]);
        proof {
            assert(a as int / 4096 == f);
            assert forall|p: int, x: int| p != f implies #[trigger] mem.entry(p, x) == mb.entry(p, x) by {
                assert(!(p == a / 4096 && x == (a % 4096) / 8));
            }
            lemma_untouched_tables(*pt, mb, *mem, f);
            assert forall|p: int, x: int| m0.is_frame(p) implies #[trigger] mem.word(p, x) == m0.word(p, x) by {
                assert(p != f);
                assert(mem.word(p, x) == mb.word(p, x));
            }
            assert forall|j: int| 0 <= j < 4096 implies #[trigger] mem.byte(pa + j)
                == if dest_offset <= j < dest_offset + k + 1 { data@[copy_offset + (j - dest_offset)] } else { 0u8 } by {
                assert(mem.byte(pa + j) == if pa + j == a && mb.is_frame(a as int / 4096) { data@[copy_offset + k] } else { mb.byte(pa + j) });
            }
        }
        k = k + 1;
    }
    let ghost m2 = *mem;
    proof {
        assert forall|j: int| 0 <= j < 4096 implies #[trigger] m2.byte(pa + j) == seg_byte(data@, *seg, page + j) by {
            if seg.vaddr <= page + j < seg.vaddr.saturating_add(seg.file_size) {
                assert(file_start <= page + j < file_end);
            }
        }
        lemma_grows_old_words(*pt, m0, m2);
    }
    assert(forall|p: int| m0.is_frame(p) ==> m2.is_frame(p));
    assert(m2.is_frame(f));
    let mut flags = PTEFlags::U();
    if seg.readable {
        flags = flags.union(PTEFlags::R());
    }
    if seg.writable {
        flags = flags.union(PTEFlags::W());
    }
    if seg.executable {
        flags = flags.union(PTEFlags::X());
    }
    proof {
        lemma_flag_bits(*seg);
        assert(flags.bits == seg_flags_bits(*seg));
        assert(pt.pages_needed(m2, page as int / 4096) == pt.pages_needed(m0, page as int / 4096));
    }
    if !pt.map_checked(mem, page, pa, flags) {
        proof {
            m0.lemma_free_monotone(*mem);
            lemma_grows_trans(*pt, m0, m2, *mem);
        }
        return Err(KernelPanic);
    }
    proof {
        lemma_shr12(pa);
        m0.lemma_free_monotone(m2);
        assert(mem.free_pages() < m0.free_pages());
        assert(!m0.is_frame(f));
        lemma_grows_trans(*pt, m0, m2, *mem);
        lemma_not_table_kept(*pt, m2, *mem, f);
        assert forall|x: int| 0 <= x < 512 implies #[trigger] mem.word(f, x) == m2.word(f, x) by {
        }
        mem.lemma_frame_bytes(m2, f);
        assert forall|j: int| 0 <= j < 4096 implies #[trigger] mem.byte(pa + j) == seg_byte(data@, *seg, page + j) by {
            assert(mem.byte(pa + j) == m2.byte(pa + j));
        }
        assert(forall|v: int| #[trigger] pt.lookup(*mem, v)
                == if same_slot(v, page as int / 4096) { Some(leaf_bits(pa, seg_flags_bits(*seg))) } else { pt.lookup(m0, v) });
    }
    Ok(Some(pa))
}

proof fn lemma_aligned_below_max(page: usize)
    requires
        page % 4096 == 0,
    ensures
        page + 4095 <= usize::MAX,
{
    assert(page % 4096 == 0 ==> (page | 0xfffusize) == page + 0xfff) by (bit_vector);
}

/// Every page of the loadable segments among the first `n` of `segs`
/// holds its segment's bytes.
pub open spec fn loaded_upto(pt: PageTable, mem: PhysMem, data: Seq<u8>, segs: Seq<ProgramSegment>, n: int, ms: PhysMem) -> bool {
    forall|j: int, v: int| 0 <= j < n && segs[j].kind == SegmentKind::Load
        && first_page(segs[j]) / 4096 <= v <= last_page(segs[j]) / 4096
        ==> #[trigger] page_holds(pt, mem, data, segs[j], v, ms)
}

/// Loaded pages keep their bytes while the table grows around them.
proof fn lemma_loaded_kept(pt: PageTable, m0: PhysMem, m1: PhysMem, data: Seq<u8>, segs: Seq<ProgramSegment>, n: int, ms: PhysMem)
    requires
        loaded_upto(pt, m0, data, segs, n, ms),
        pt.grows(m0, m1),
        forall|v: int| #[trigger] pt.lookup(m0, v) is Some ==> pt.lookup(m1, v) == pt.lookup(m0, v),
    ensures
        loaded_upto(pt, m1, data, segs, n, ms),
{
    assert forall|j: int, v: int| 0 <= j < n && segs[j].kind == SegmentKind::Load
        && first_page(segs[j]) / 4096 <= v <= last_page(segs[j]) / 4096
        implies #[trigger] page_holds(pt, m1, data, segs[j], v, ms) by {
        assert(page_holds(pt, m0, data, segs[j], v, ms));
        lemma_page_holds_kept(pt, m0, m1, data, segs[j], v, ms);
    }
}

/// Whether page `v` lies in segment `j` of `segs`, a loadable one.
pub open spec fn in_load_seg(segs: Seq<ProgramSegment>, j: int, v: int) -> bool {
    &&& 0 <= j < segs.len()
    &&& segs[j].kind == SegmentKind::Load
    &&& first_page(segs[j]) / 4096 <= v <= last_page(segs[j]) / 4096
}

/// The number of pages segment `s` takes when it is loaded.
pub open spec fn seg_pages(s: ProgramSegment) -> int {
    if s.kind == SegmentKind::Load && first_page(s) <= last_page(s) {
        last_page(s) / 4096 - first_page(s) / 4096 + 1
    } else {
        0
    }
}

/// The number of pages the loadable segments of `segs` take together.
pub open spec fn load_pages(segs: Seq<ProgramSegment>) -> int
    decreases segs.len(),
{
    if segs.len() == 0 {
        0
    } else {
        seg_pages(segs[0]) + load_pages(segs.drop_first())
    }
}

/// The loadable segments of `segs` can be placed in `pt`: none reaches
/// the last page of the address space, no two of their pages share a
/// slot, and none of their slots is mapped yet.
pub open spec fn loadable_into(pt: PageTable, mem: PhysMem, segs: Seq<ProgramSegment>) -> bool {
    &&& forall|j: int| 0 <= j < segs.len() && #[trigger] segs[j].kind == SegmentKind::Load
        ==> last_page(segs[j]) + 4096 <= usize::MAX
    &&& forall|j1: int, v1: int, j2: int, v2: int| #[trigger] in_load_seg(segs, j1, v1) && #[trigger] in_load_seg(segs, j2, v2)
        && same_slot(v1, v2) ==> j1 == j2 && v1 == v2
    &&& forall|j: int, v: int| #[trigger] in_load_seg(segs, j, v) ==> pt.lookup(mem, v) is None
}

/// No program takes a negative number of pages.
pub proof fn lemma_load_pages_nonneg(segs: Seq<ProgramSegment>)
    ensures
        load_pages(segs) >= 0,
    decreases segs.len(),
{
    if segs.len() > 0 {
        lemma_load_pages_nonneg(segs.drop_first());
    }
}

proof fn lemma_load_pages_step(segs: Seq<ProgramSegment>, i: int)
    requires
        0 <= i < segs.len(),
    ensures
        load_pages(segs.subrange(i, segs.len() as int)) == seg_pages(segs[i]) + load_pages(segs.subrange(i + 1, segs.len() as int)),
{
    let t = segs.subrange(i, segs.len() as int);
    assert(t.drop_first() =~= segs.subrange(i + 1, segs.len() as int));
    assert(t[0] == segs[i]);
}

/// Loads the loadable segments of `elf`, whose file is `data`, into `pt`
/// page by page, and returns the largest end in memory of those segments.
/// `Ok(None)` when a program header has no known type or memory runs out;
/// `Err` where the kernel stops: when a page would be mapped twice or its
/// tables cannot be allocated. It succeeds where every header has a known
/// type, the segments can be placed (`loadable_into`) and three free pages
/// remain for each page to load.
#[verifier::spinoff_prover]
#[verifier::rlimit(60)]
pub fn load_elf_into(pt: &PageTable, mem: &mut PhysMem, data: &[u8], elf: &ElfImage) -> (r: Result<Option<usize>, KernelPanic>)
    requires
        old(mem).wf(),
        pt.wf(*old(mem)),
        elf.fits(data@.len()),
    ensures
        final(mem).wf(),
        pt.wf(*final(mem)),
        final(mem).first_ppn() == old(mem).first_ppn(),
        forall|p: int| old(mem).is_frame(p) ==> final(mem).is_frame(p),
        forall|v: int| #[trigger] pt.lookup(*old(mem), v) is Some ==> pt.lookup(*final(mem), v) == pt.lookup(*old(mem), v),
        pt.grows(*old(mem), *final(mem)),
        !elf.all_known() ==> !(r matches Ok(Some(_))),
        r matches Ok(Some(e)) ==> {
            &&& e == max_end(elf.segments@)
            &&& forall|i: int| 0 <= i < elf.segments@.len() && #[trigger] elf.segments@[i].kind == SegmentKind::Load
                ==> seg_mapped(*pt, *final(mem), elf.segments@[i]) && seg_loaded(*pt, *final(mem), data@, elf.segments@[i])
            &&& loaded_upto(*pt, *final(mem), data@, elf.segments@, elf.segments@.len() as int, *old(mem))
        },
        elf.all_known() && loadable_into(*pt, *old(mem), elf.segments@)
            && 3 * load_pages(elf.segments@) <= old(mem).free_pages() ==> r matches Ok(Some(_)),
{
    let ghost enough = elf.all_known() && loadable_into(*pt, *old(mem), elf.segments@)
        && 3 * load_pages(elf.segments@) <= old(mem).free_pages();
    let ghost segs = elf.segments@;
    let mut max_end_v: usize = 0;
    let mut i: usize = 0;
    proof {
        lemma_grows_old_words(*pt, *old(mem), *old(mem));
        assert(segs.subrange(0, segs.len() as int) =~= segs);
    }
    while i < elf.segments.len()
        invariant
            i <= elf.segments@.len(),
            elf.fits(data@.len()),
            mem.wf(),
            pt.wf(*mem),
            mem.first_ppn() == old(mem).first_ppn(),
            forall|p: int| old(mem).is_frame(p) ==> mem.is_frame(p),
            forall|v: int| #[trigger] pt.lookup(*old(mem), v) is Some ==> pt.lookup(*mem, v) == pt.lookup(*old(mem), v),
            max_end_v == max_end(elf.segments@.take(i as int)),
            forall|j: int| 0 <= j < i ==> #[trigger] elf.segments@[j].kind != SegmentKind::Unknown,
            forall|j: int| 0 <= j < i && #[trigger] elf.segments@[j].kind == SegmentKind::Load
                ==> seg_mapped(*pt, *mem, elf.segments@[j]),
            loaded_upto(*pt, *mem, data@, elf.segments@, i as int, *old(mem)),
            pt.grows(*old(mem), *mem),
            segs == elf.segments@,
            enough == (elf.all_known() && loadable_into(*pt, *old(mem), segs)
                && 3 * load_pages(segs) <= old(mem).free_pages()),
            enough ==> 3 * load_pages(segs.subrange(i as int, segs.len() as int)) <= mem.free_pages(),
            enough ==> forall|j: int, v: int| i <= j && #[trigger] in_load_seg(segs, j, v) ==> pt.lookup(*mem, v) is None,
        decreases elf.segments@.len() - i,
    {
        proof {
            lemma_load_pages_step(segs, i as int);
        }
        let seg = elf.segments[i];
        let ghost mi = *mem;
        match seg.kind {
            SegmentKind::Unknown => {
                return Ok(None);
            },
            SegmentKind::Other => {},
            SegmentKind::Load => {
                let seg_end = seg.vaddr.saturating_add(seg.mem_size);
                if seg_end > max_end_v {
                    max_end_v = seg_end;
                }
                let first = seg.vaddr & !(PAGE_SIZE - 1);
                let last = seg_end.wrapping_sub(1) & !(PAGE_SIZE - 1);
                proof {
                    lemma_page_align(seg.vaddr);
                    lemma_page_align(seg_end.wrapping_sub(1));
                    lemma_flag_bits(seg);
                    if enough {
                        assert(last + 4096 <= usize::MAX);
                        assert(seg_end >= 1);
                        assert(first / 4096 <= last / 4096 + 1);
                    }
                }
                let mut page = first;
                let ghost mut wrapped = false;
                while page <= last
                    invariant
                        i < elf.segments@.len(),
                        seg == elf.segments@[i as int],
                        forall|v: int| #[trigger] pt.lookup(*old(mem), v) is Some ==> pt.lookup(*mem, v) == pt.lookup(*old(mem), v),
                        seg.kind == SegmentKind::Load,
                        seg.offset + seg.file_size <= data@.len(),
                        first == first_page(seg),
                        last == last_page(seg),
                        first % 4096 == 0,
                        page % 4096 == 0,
                        mem.wf(),
                        pt.wf(*mem),
                        mem.first_ppn() == old(mem).first_ppn(),
                        forall|p: int| old(mem).is_frame(p) ==> mem.is_frame(p),
                        forall|v: int| #[trigger] pt.lookup(mi, v) is Some ==> pt.lookup(*mem, v) == pt.lookup(mi, v),
                        loaded_upto(*pt, *mem, data@, elf.segments@, i as int, *old(mem)),
                        pt.grows(*old(mem), *mem),
                        !wrapped ==> first <= page,
                        !wrapped ==> forall|v: int| first / 4096 <= v < page / 4096
                            ==> #[trigger] pt.lookup(*mem, v) is Some && pt.lookup(*mem, v)->0 & 0xffusize == seg_flags_bits(seg) | 0xc1usize,
                        !wrapped ==> forall|v: int| first / 4096 <= v < page / 4096
                            ==> #[trigger] page_holds(*pt, *mem, data@, seg, v, *old(mem)),
                        wrapped ==> last + 4096 > usize::MAX,
                        segs == elf.segments@,
                        enough == (elf.all_known() && loadable_into(*pt, *old(mem), segs)
                            && 3 * load_pages(segs) <= old(mem).free_pages()),
                        enough ==> !wrapped && last + 4096 <= usize::MAX && page / 4096 <= last / 4096 + 1,
                        enough ==> 3 * ((last / 4096 + 1 - page / 4096) + load_pages(segs.subrange(i + 1, segs.len() as int)))
                            <= mem.free_pages(),
                        enough ==> forall|j: int, v: int| ((j == i && page / 4096 <= v) || i < j) && #[trigger] in_load_seg(segs, j, v)
                            ==> pt.lookup(*mem, v) is None,
                    decreases mem.free_pages(),
                {
                    let ghost mp = *mem;
                    proof {
                        if enough {
                            lemma_load_pages_nonneg(segs.subrange(i + 1, segs.len() as int));
                            assert(in_load_seg(segs, i as int, page as int / 4096));
                            assert(pt.lookup(mp, page as int / 4096) is None);
                            assert(mp.free_pages() >= 3);
                            assert(pt.pages_needed(mp, page as int / 4096) <= 2);
                        }
                    }
                    let res = load_page(pt, mem, data, &seg, page);
                    proof {
                        lemma_grows_trans(*pt, *old(mem), mp, *mem);
                    }
                    let pa = match res {
                        Ok(Some(pa)) => pa,
                        Ok(None) => return Ok(None),
                        Err(e) => return Err(e),
                    };
                    proof {
                        lemma_flag_bits(seg);
                        lemma_leaf_low_bits(pa, seg_flags_bits(seg));
                        lemma_leaf_bits(pa, seg_flags_bits(seg));
                        lemma_shr12(pa);
                        assert(same_slot(page as int / 4096, page as int / 4096));
                        assert(pt.lookup(*mem, page as int / 4096) == Some(leaf_bits(pa, seg_flags_bits(seg))));
                        lemma_loaded_kept(*pt, mp, *mem, data@, elf.segments@, i as int, *old(mem));
                        let w = page as int / 4096;
                        assert(w * 4096 == page);
                        assert(pte_ppn(pt.lookup(*mem, w)->0) == pa / 4096);
                        assert forall|j: int| 0 <= j < 4096 implies #[trigger] page_byte(*pt, *mem, w, j) == seg_byte(data@, seg, w * 4096 + j) by {
                            assert(page_byte(*pt, *mem, w, j) == mem.byte(pa + j));
                        }
                        assert(!old(mem).is_frame(pa as int / 4096));
                        assert(page_holds(*pt, *mem, data@, seg, w, *old(mem)));
                        if !wrapped {
                            assert forall|v: int| first / 4096 <= v < page / 4096 implies #[trigger] page_holds(*pt, *mem, data@, seg, v, *old(mem)) by {
                                assert(page_holds(*pt, mp, data@, seg, v, *old(mem)));
                                lemma_page_holds_kept(*pt, mp, *mem, data@, seg, v, *old(mem));
                            }
                        }
                    }
                    let next = page.wrapping_add(PAGE_SIZE);
                    proof {
                        if page + 4096 > usize::MAX {
                            wrapped = true;
                        } else {
                            assert(next == page + 4096);
                            assert(next / 4096 == page / 4096 + 1);
                        }
                        assert(next % 4096 == 0);
                        if enough {
                            let w = page as int / 4096;
                            assert(in_load_seg(segs, i as int, w));
                            assert forall|j: int, v: int| ((j == i && next / 4096 <= v) || i < j) && #[trigger] in_load_seg(segs, j, v)
                                implies pt.lookup(*mem, v) is None by {
                                assert(pt.lookup(mp, v) is None);
                                assert(!same_slot(v, w));
                            }
                        }
                    }
                    page = next;
                }
                proof {
                    if wrapped {
                        lemma_aligned_below_max(page);
                    }
                    assert(!wrapped);
                    assert(last / 4096 < page / 4096);
                    assert(seg_mapped(*pt, *mem, seg));
                }
            },
        }
        proof {
            assert(elf.segments@.take(i as int + 1).drop_last() =~= elf.segments@.take(i as int));
            assert(elf.segments@.take(i as int + 1).last() == seg);
            assert forall|j: int| 0 <= j < i + 1 && #[trigger] elf.segments@[j].kind == SegmentKind::Load
                implies seg_mapped(*pt, *mem, elf.segments@[j]) by {
                if j < i {
                    let s = elf.segments@[j];
                    assert(seg_mapped(*pt, mi, s));
                    assert forall|v: int| first_page(s) / 4096 <= v <= last_page(s) / 4096
                        implies #[trigger] pt.lookup(*mem, v) is Some && pt.lookup(*mem, v)->0 & 0xffusize == seg_flags_bits(s) | 0xc1usize by {
                        assert(pt.lookup(mi, v) is Some);
                    }
                }
            }
            assert forall|j: int, v: int| 0 <= j < i + 1 && elf.segments@[j].kind == SegmentKind::Load
                && first_page(elf.segments@[j]) / 4096 <= v <= last_page(elf.segments@[j]) / 4096
                implies #[trigger] page_holds(*pt, *mem, data@, elf.segments@[j], v, *old(mem)) by {
                if j < i {
                    assert(loaded_upto(*pt, *mem, data@, elf.segments@, i as int, *old(mem)));
                }
            }
        }
        i = i + 1;
    }
    proof {
        assert(elf.segments@.take(elf.segments@.len() as int) =~= elf.segments@);
        assert forall|k: int| 0 <= k < elf.segments@.len() && #[trigger] elf.segments@[k].kind == SegmentKind::Load
            implies seg_loaded(*pt, *mem, data@, elf.segments@[k]) by {
            let s = elf.segments@[k];
            assert forall|v: int, j: int| first_page(s) / 4096 <= v <= last_page(s) / 4096 && 0 <= j < 4096
                implies #[trigger] page_byte(*pt, *mem, v, j) == seg_byte(data@, s, v * 4096 + j) by {
                assert(page_holds(*pt, *mem, data@, s, v, *old(mem)));
            }
        }
    }
    Ok(Some(max_end_v))
}

/// The bytes of `v`, least significant first.
pub open spec fn le_bytes8(v: u64) -> Seq<u8> {
    Seq::new(8, |k: int| ((v >> ((8 * k) as u64)) & 0xff) as u8)
}

/// Writing the bytes `b` from physical address `pa` on.
pub open spec fn bytes_writes(pa: int, b: Seq<u8>) -> Seq<(int, u8)> {
    Seq::new(b.len(), |k: int| (pa + k, b[k]))
}

/// Writing the words `vals`, one after the other, from `pa` on.
pub open spec fn words_writes(pa: int, vals: Seq<u64>) -> Seq<(int, u8)>
    decreases vals.len(),
{
    if vals.len() == 0 {
        Seq::empty()
    } else {
        words_writes(pa, vals.drop_last()) + bytes_writes(pa + 8 * (vals.len() - 1), le_bytes8(vals.last()))
    }
}

/// Writing each string of `strs` with a terminating zero, string `j` at
/// `pa + 0x100 * j`.
pub open spec fn strs_writes(pa: int, strs: Seq<Seq<u8>>) -> Seq<(int, u8)>
    decreases strs.len(),
{
    if strs.len() == 0 {
        Seq::empty()
    } else {
        strs_writes(pa, strs.drop_last()) + bytes_writes(pa + 0x100 * (strs.len() - 1), strs.last().push(0u8))
    }
}

/// The byte each address holds after the writes `ws` in order: the last
/// one written there.
pub open spec fn last_writes(ws: Seq<(int, u8)>) -> Map<int, u8>
    decreases ws.len(),
{
    if ws.len() == 0 {
        Map::empty()
    } else {
        last_writes(ws.drop_last()).insert(ws.last().0, ws.last().1)
    }
}

/// `m` is `m0` after the writes `ws`, where a write outside the frames is
/// dropped.
pub open spec fn applied(m0: PhysMem, m: PhysMem, ws: Seq<(int, u8)>) -> bool {
    forall|q: int| #[trigger] m.byte(q)
        == if last_writes(ws).dom().contains(q) && m0.is_frame(q / 4096) { last_writes(ws)[q] } else { m0.byte(q) }
}

/// The writes of `a` then `b` leave at each address what `b` left there, if
/// it wrote there, else what `a` left.
proof fn lemma_last_writes_concat(a: Seq<(int, u8)>, b: Seq<(int, u8)>)
    ensures
        forall|q: int| #[trigger] last_writes(a + b).dom().contains(q)
            == (last_writes(a).dom().contains(q) || last_writes(b).dom().contains(q)),
        forall|q: int| last_writes(b).dom().contains(q) ==> #[trigger] last_writes(a + b)[q] == last_writes(b)[q],
        forall|q: int| !last_writes(b).dom().contains(q) && last_writes(a).dom().contains(q)
            ==> #[trigger] last_writes(a + b)[q] == last_writes(a)[q],
    decreases b.len(),
{
    if b.len() == 0 {
        assert(a + b =~= a);
        assert(last_writes(b) == Map::<int, u8>::empty());
    } else {
        let ab = a + b;
        lemma_last_writes_concat(a, b.drop_last());
        assert(ab.drop_last() =~= a + b.drop_last());
        assert(ab.last() == b.last());
        assert(last_writes(ab) == last_writes(a + b.drop_last()).insert(b.last().0, b.last().1));
        assert(last_writes(b) == last_writes(b.drop_last()).insert(b.last().0, b.last().1));
    }
}

/// Writing the bytes `b` from `pa` on leaves `b[q - pa]` at each address
/// `q` of `[pa, pa + b.len())` and touches no other.
proof fn lemma_last_bytes(pa: int, b: Seq<u8>)
    ensures
        forall|q: int| #[trigger] last_writes(bytes_writes(pa, b)).dom().contains(q) == (pa <= q < pa + b.len()),
        forall|q: int| pa <= q < pa + b.len() ==> #[trigger] last_writes(bytes_writes(pa, b))[q] == b[q - pa],
    decreases b.len(),
{
    let ws = bytes_writes(pa, b);
    if b.len() == 0 {
        assert(ws.len() == 0);
        assert(last_writes(ws) == Map::<int, u8>::empty());
    } else {
        let c = b.drop_last();
        lemma_last_bytes(pa, c);
        assert(ws.drop_last() =~= bytes_writes(pa, c));
        assert(ws.last() == (pa + c.len(), b.last()));
        assert(last_writes(ws) == last_writes(bytes_writes(pa, c)).insert(pa + c.len(), b.last()));
        assert forall|q: int| pa <= q < pa + b.len() implies #[trigger] last_writes(ws)[q] == b[q - pa] by {
            if q < pa + c.len() {
                assert(c[q - pa] == b[q - pa]);
            }
        }
    }
}

/// Writing the words `vals` from `pa` on leaves the little-endian bytes of
/// word `i` at `pa + 8 * i` and touches nothing outside `[pa, pa + 8 * n)`.
proof fn lemma_last_words(pa: int, vals: Seq<u64>)
    ensures
        forall|q: int| #[trigger] last_writes(words_writes(pa, vals)).dom().contains(q) == (pa <= q < pa + 8 * vals.len()),
        forall|i: int, k: int| 0 <= i < vals.len() && 0 <= k < 8
            ==> #[trigger] last_writes(words_writes(pa, vals))[pa + 8 * i + k] == le_bytes8(vals[i])[k],
    decreases vals.len(),
{
    if vals.len() > 0 {
        let c = vals.drop_last();
        let n = vals.len() - 1;
        let lb = le_bytes8(vals.last());
        lemma_last_words(pa, c);
        lemma_last_bytes(pa + 8 * n, lb);
        lemma_last_writes_concat(words_writes(pa, c), bytes_writes(pa + 8 * n, lb));
        assert forall|i: int, k: int| 0 <= i < vals.len() && 0 <= k < 8
            implies #[trigger] last_writes(words_writes(pa, vals))[pa + 8 * i + k] == le_bytes8(vals[i])[k] by {
            if i < n {
                assert(c[i] == vals[i]);
                assert(last_writes(words_writes(pa, c))[pa + 8 * i + k] == le_bytes8(c[i])[k]);
            }
        }
    }
}

/// Writing strings of under 0x100 bytes each, string `j` at
/// `pa + 0x100 * j` with its terminating zero, leaves each of them there and
/// touches nothing outside `[pa, pa + 0x100 * n)`.
proof fn lemma_last_strs(pa: int, strs: Seq<Seq<u8>>)
    requires
        forall|j: int| 0 <= j < strs.len() ==> #[trigger] strs[j].len() < 0x100,
    ensures
        forall|q: int| #[trigger] last_writes(strs_writes(pa, strs)).dom().contains(q) ==> pa <= q < pa + 0x100 * strs.len(),
        forall|j: int, k: int| 0 <= j < strs.len() && 0 <= k <= strs[j].len()
            ==> #[trigger] last_writes(strs_writes(pa, strs)).dom().contains(pa + 0x100 * j + k),
        forall|j: int, k: int| 0 <= j < strs.len() && 0 <= k <= strs[j].len()
            ==> #[trigger] last_writes(strs_writes(pa, strs))[pa + 0x100 * j + k] == strs[j].push(0u8)[k],
    decreases strs.len(),
{
    if strs.len() > 0 {
        let c = strs.drop_last();
        let n = strs.len() - 1;
        let lb = strs.last().push(0u8);
        assert forall|j: int| 0 <= j < c.len() implies #[trigger] c[j].len() < 0x100 by {
            assert(c[j] == strs[j]);
        }
        lemma_last_strs(pa, c);
        lemma_last_bytes(pa + 0x100 * n, lb);
        lemma_last_writes_concat(strs_writes(pa, c), bytes_writes(pa + 0x100 * n, lb));
        assert(strs_writes(pa, strs) == strs_writes(pa, c) + bytes_writes(pa + 0x100 * n, lb));
        assert forall|j: int, k: int| 0 <= j < strs.len() && 0 <= k <= strs[j].len() implies
            last_writes(strs_writes(pa, strs)).dom().contains(pa + 0x100 * j + k)
            && #[trigger] last_writes(strs_writes(pa, strs))[pa + 0x100 * j + k] == strs[j].push(0u8)[k] by {
            let q = pa + 0x100 * j + k;
            if j < n {
                assert(c[j] == strs[j]);
                assert(last_writes(strs_writes(pa, c))[q] == c[j].push(0u8)[k]);
                assert(last_writes(strs_writes(pa, c)).dom().contains(pa + 0x100 * j + k));
                assert(last_writes(strs_writes(pa, c)).dom().contains(q));
                assert(!last_writes(bytes_writes(pa + 0x100 * n, lb)).dom().contains(q));
            } else {
                assert(last_writes(bytes_writes(pa + 0x100 * n, lb)).dom().contains(q));
            }
        }
    }
}

/// The auxiliary vector a program starts with, as (type, value) pairs:
/// page size, program headers, their entry size and count, entry point,
/// the address of 16 random bytes, clock ticks per second, end.
pub open spec fn start_auxv(stack_top: usize, at_phdr: usize, phent: usize, phnum: usize, entry: usize) -> Seq<u64> {
    seq![6u64, 4096u64, 3u64, at_phdr as u64, 4u64, phent as u64, 5u64, phnum as u64, 9u64, entry as u64,
        25u64, (stack_top + 0x200) as u64, 17u64, 100u64, 0u64, 0u64]
}

/// The eight bytes of `m` from `pa` on are those of `v`, least
/// significant first.
pub open spec fn word_at(m: PhysMem, pa: int, v: u64) -> bool {
    forall|k: int| 0 <= k < 8 ==> #[trigger] m.byte(pa + k) == le_bytes8(v)[k]
}

proof fn lemma_same_frame(base: int, x: int)
    requires
        base >= 0,
        base % 4096 == 0,
        0 <= x < 4096,
    ensures
        (base + x) / 4096 == base / 4096,
{
    assert((base + x) / 4096 == base / 4096) by (nonlinear_arith)
        requires
            base >= 0,
            base % 4096 == 0,
            0 <= x < 4096,
    ;
}

/// Law: the initial stack that `build_stack` writes into the page at
/// `base`, mapped at user address `stack_top`, holds from the page's start,
/// as little-endian 64-bit words: the argument count; for each argument `j`
/// a pointer to `stack_top + 0x400 + 0x100 * j`; a zero; for each
/// environment string a pointer numbered on after the arguments; a zero;
/// and the auxiliary vector (`AT_PAGESZ` 4096, `AT_PHDR`, `AT_PHENT`,
/// `AT_PHNUM`, `AT_ENTRY`, `AT_RANDOM` pointing at `stack_top + 0x200`,
/// `AT_CLKTCK` 100, `AT_NULL`). Each string, with a terminating zero, sits
/// at the page offset its pointer names, and the 16 bytes at offset 0x200
/// are 0xab. This holds where every string is shorter than 0x100 bytes (a
/// longer one runs into the next one's place).
pub proof fn law_stack_layout(m0: PhysMem, m1: PhysMem, base: usize, stack_top: usize, argv: Seq<Seq<u8>>,
    envp: Seq<Seq<u8>>, at_phdr: usize, phent: usize, phnum: usize, entry: usize)
    requires
        applied(m0, m1, stack_writes(base, stack_top, argv, envp, at_phdr, phent, phnum, entry)),
        base % 4096 == 0,
        m0.is_frame(base as int / 4096),
        stack_in_page(argv + envp),
        forall|j: int| 0 <= j < argv.len() ==> #[trigger] argv[j].len() < 0x100,
        forall|j: int| 0 <= j < envp.len() ==> #[trigger] envp[j].len() < 0x100,
        stack_top + 0x1000 <= u64::MAX,
    ensures
        word_at(m1, base as int, argv.len() as u64),
        forall|i: int| 0 <= i < argv.len()
            ==> #[trigger] word_at(m1, base + 8 * (1 + i), (stack_top + 0x400 + 0x100 * i) as u64),
        word_at(m1, base + 8 * (1 + argv.len()), 0u64),
        forall|i: int| 0 <= i < envp.len()
            ==> #[trigger] word_at(m1, base + 8 * (2 + argv.len() + i), (stack_top + 0x400 + 0x100 * (argv.len() + i)) as u64),
        word_at(m1, base + 8 * (2 + argv.len() + envp.len()), 0u64),
        forall|t: int| 0 <= t < 16 ==> #[trigger] word_at(m1, base + 8 * (3 + argv.len() + envp.len() + t),
            start_auxv(stack_top, at_phdr, phent, phnum, entry)[t]),
        forall|j: int, k: int| 0 <= j < argv.len() && 0 <= k <= argv[j].len()
            ==> #[trigger] m1.byte(base + 0x400 + 0x100 * j + k) == argv[j].push(0u8)[k],
        forall|j: int, k: int| 0 <= j < envp.len() && 0 <= k <= envp[j].len()
            ==> #[trigger] m1.byte(base + 0x400 + 0x100 * (argv.len() + j) + k) == envp[j].push(0u8)[k],
        forall|k: int| 0 <= k < 16 ==> #[trigger] m1.byte(base + 0x200 + k) == 0xabu8,
{
    let all = argv + envp;
    let argc: int = argv.len() as int;
    let envc: int = envp.len() as int;
    let n = all.len();
    if n > 0 {
        assert(0x400 + 0x100 * (n - 1) + all[n - 1].len() + 1 < 4096);
    }
    assert(n <= 12);
    let vals = stack_words(stack_top, argv.len(), envp.len(), at_phdr, phent, phnum, entry);
    let rnd = Seq::new(16, |k: int| 0xabu8);
    let w = words_writes(base as int, vals);
    let st = strs_writes(base + 0x400, all);
    let rb = bytes_writes(base + 0x200, rnd);
    assert(stack_writes(base, stack_top, argv, envp, at_phdr, phent, phnum, entry) == w + st + rb);
    assert forall|j: int| 0 <= j < all.len() implies #[trigger] all[j].len() < 0x100 by {
        if j < argc {
            assert(all[j] == argv[j]);
        } else {
            assert(all[j] == envp[j - argc]);
        }
    }
    lemma_last_words(base as int, vals);
    lemma_last_strs(base + 0x400, all);
    lemma_last_bytes(base + 0x200, rnd);
    lemma_last_writes_concat(w, st);
    lemma_last_writes_concat(w + st, rb);
    let lw = last_writes(w + st + rb);
    assert(vals.len() == argc + envc + 19);
    // Every word slot lies below the random bytes and the strings, in the
    // page at `base`.
    assert forall|i: int, k: int| 0 <= i < vals.len() && 0 <= k < 8
        implies #[trigger] m1.byte(base + 8 * i + k) == le_bytes8(vals[i])[k] by {
        let q = base + 8 * i + k;
        lemma_same_frame(base as int, 8 * i + k);
        assert(last_writes(w).dom().contains(q));
        assert(!last_writes(st).dom().contains(q));
        assert(!last_writes(rb).dom().contains(q));
        assert(lw[q] == le_bytes8(vals[i])[k]);
    }
    assert(word_at(m1, base as int, argc as u64)) by {
        assert(vals[0] == argc as u64);
        assert forall|k: int| 0 <= k < 8 implies #[trigger] m1.byte(base + k) == le_bytes8(argc as u64)[k] by {
            assert(m1.byte(base + 8 * 0 + k) == le_bytes8(vals[0])[k]);
        }
    }
    assert forall|i: int| 0 <= i < argc
        implies #[trigger] word_at(m1, base + 8 * (1 + i), (stack_top + 0x400 + 0x100 * i) as u64) by {
        assert(vals[1 + i] == str_ptr(stack_top, i));
        assert(((i as u64) as nat * 0x100u64 as nat) % 0x1_0000_0000_0000_0000 == 0x100 * i);
        assert(str_ptr(stack_top, i) == (stack_top + 0x400 + 0x100 * i) as u64);
        assert forall|k: int| 0 <= k < 8 implies #[trigger] m1.byte(base + 8 * (1 + i) + k)
            == le_bytes8((stack_top + 0x400 + 0x100 * i) as u64)[k] by {
            assert(m1.byte(base + 8 * (1 + i) + k) == le_bytes8(vals[1 + i])[k]);
        }
    }
    assert(word_at(m1, base + 8 * (1 + argc), 0u64)) by {
        assert(vals[1 + argc] == 0u64);
        assert forall|k: int| 0 <= k < 8 implies #[trigger] m1.byte(base + 8 * (1 + argc) + k) == le_bytes8(0u64)[k] by {
            assert(m1.byte(base + 8 * (1 + argc) + k) == le_bytes8(vals[1 + argc])[k]);
        }
    }
    assert forall|i: int| 0 <= i < envc
        implies #[trigger] word_at(m1, base + 8 * (2 + argc + i), (stack_top + 0x400 + 0x100 * (argc + i)) as u64) by {
        assert(vals[2 + argc + i] == str_ptr(stack_top, argc + i));
        assert((((argc + i) as u64) as nat * 0x100u64 as nat) % 0x1_0000_0000_0000_0000 == 0x100 * (argc + i));
        assert(str_ptr(stack_top, argc + i) == (stack_top + 0x400 + 0x100 * (argc + i)) as u64);
        assert forall|k: int| 0 <= k < 8 implies #[trigger] m1.byte(base + 8 * (2 + argc + i) + k)
            == le_bytes8((stack_top + 0x400 + 0x100 * (argc + i)) as u64)[k] by {
            assert(m1.byte(base + 8 * (2 + argc + i) + k) == le_bytes8(vals[2 + argc + i])[k]);
        }
    }
    assert(word_at(m1, base + 8 * (2 + argc + envc), 0u64)) by {
        assert(vals[2 + argc + envc] == 0u64);
        assert forall|k: int| 0 <= k < 8 implies #[trigger] m1.byte(base + 8 * (2 + argc + envc) + k) == le_bytes8(0u64)[k] by {
            assert(m1.byte(base + 8 * (2 + argc + envc) + k) == le_bytes8(vals[2 + argc + envc])[k]);
        }
    }
    let aux = start_auxv(stack_top, at_phdr, phent, phnum, entry);
    assert forall|t: int| 0 <= t < 16 implies #[trigger] word_at(m1, base + 8 * (3 + argc + envc + t), aux[t]) by {
        assert(vals[3 + argc + envc + t] == aux[t]);
        assert forall|k: int| 0 <= k < 8 implies #[trigger] m1.byte(base + 8 * (3 + argc + envc + t) + k)
            == le_bytes8(aux[t])[k] by {
            assert(m1.byte(base + 8 * (3 + argc + envc + t) + k) == le_bytes8(vals[3 + argc + envc + t])[k]);
        }
    }
    assert forall|j: int, k: int| 0 <= j < n && 0 <= k <= all[j].len()
        implies #[trigger] m1.byte(base + 0x400 + 0x100 * j + k) == all[j].push(0u8)[k] by {
        let q = base + 0x400 + 0x100 * j + k;
        assert(0x400 + 0x100 * j + all[j].len() + 1 < 4096);
        lemma_same_frame(base as int, 0x400 + 0x100 * j + k);
        assert(last_writes(st).dom().contains(q));
        assert(!last_writes(rb).dom().contains(q));
        assert(lw[q] == all[j].push(0u8)[k]);
    }
    assert forall|j: int, k: int| 0 <= j < argc && 0 <= k <= argv[j].len()
        implies #[trigger] m1.byte(base + 0x400 + 0x100 * j + k) == argv[j].push(0u8)[k] by {
        assert(all[j] == argv[j]);
        assert(m1.byte(base + 0x400 + 0x100 * j + k) == all[j].push(0u8)[k]);
    }
    assert forall|j: int, k: int| 0 <= j < envc && 0 <= k <= envp[j].len()
        implies #[trigger] m1.byte(base + 0x400 + 0x100 * (argc + j) + k) == envp[j].push(0u8)[k] by {
        assert(all[argc + j] == envp[j]);
        assert(m1.byte(base + 0x400 + 0x100 * (argc + j) + k) == all[argc + j].push(0u8)[k]);
    }
    assert forall|k: int| 0 <= k < 16 implies #[trigger] m1.byte(base + 0x200 + k) == 0xabu8 by {
        lemma_same_frame(base as int, 0x200 + k);
        assert(last_writes(rb).dom().contains(base + 0x200 + k));
        assert(lw[base + 0x200 + k] == rnd[k]);
    }
}

/// The user address of string `j` on the initial stack.
pub open spec fn str_ptr(stack_top: usize, j: int) -> u64 {
    (stack_top as u64).wrapping_add(0x400u64).wrapping_add((j as u64).wrapping_mul(0x100u64))
}

/// The words at the bottom of the initial stack: the argument count, the
/// argument pointers and a zero, the environment pointers and a zero, and
/// the auxiliary vector (page size, program headers, their entry size and
/// count, entry point, random bytes, clock rate, end).
pub open spec fn stack_words(stack_top: usize, argc: nat, envc: nat, at_phdr: usize, phent: usize, phnum: usize, entry: usize) -> Seq<u64> {
    seq![argc as u64] + Seq::new(argc, |i: int| str_ptr(stack_top, i)) + seq![0u64]
        + Seq::new(envc, |i: int| str_ptr(stack_top, argc + i)) + seq![0u64]
        + seq![6u64, 4096u64, 3u64, at_phdr as u64, 4u64, phent as u64, 5u64, phnum as u64, 9u64, entry as u64,
            25u64, (stack_top as u64).wrapping_add(0x200u64), 17u64, 100u64, 0u64, 0u64]
}

/// The strings of a list of byte strings.
pub open spec fn strs_view(v: Seq<Vec<u8>>) -> Seq<Seq<u8>> {
    Seq::new(v.len(), |i: int| v[i]@)
}

/// The writes that lay out the initial stack in the page at `base`: the
/// words, then the strings from offset 0x400, then 16 random bytes at
/// offset 0x200.
pub open spec fn stack_writes(base: usize, stack_top: usize, argv: Seq<Seq<u8>>, envp: Seq<Seq<u8>>, at_phdr: usize, phent: usize, phnum: usize, entry: usize) -> Seq<(int, u8)> {
    words_writes(base as int, stack_words(stack_top, argv.len(), envp.len(), at_phdr, phent, phnum, entry))
        + strs_writes(base + 0x400, argv + envp)
        + bytes_writes(base + 0x200, Seq::new(16, |k: int| 0xabu8))
}

/// Every address the stack layout writes fits in a `usize`.
pub open spec fn stack_fits(base: int, strs: Seq<Seq<u8>>) -> bool {
    &&& base + 8 * (strs.len() + 19) <= usize::MAX
    &&& base + 0x400 + 0x100 * strs.len() <= usize::MAX
    &&& base + 0x210 <= usize::MAX
    &&& forall|j: int| 0 <= j < strs.len() ==> base + 0x400 + 0x100 * j + #[trigger] strs[j].len() + 1 <= usize::MAX
}

proof fn lemma_applied_push(m0: PhysMem, mb: PhysMem, ma: PhysMem, ws: Seq<(int, u8)>, pa: int, b: u8)
    requires
        applied(m0, mb, ws),
        forall|p: int| m0.is_frame(p) <==> mb.is_frame(p),
        forall|q: int| #[trigger] ma.byte(q) == if q == pa && mb.is_frame(pa / 4096) { b } else { mb.byte(q) },
    ensures
        applied(m0, ma, ws.push((pa, b))),
{
    assert(ws.push((pa, b)).drop_last() =~= ws);
    assert forall|q: int| #[trigger] ma.byte(q)
        == if last_writes(ws.push((pa, b))).dom().contains(q) && m0.is_frame(q / 4096) { last_writes(ws.push((pa, b)))[q] } else { m0.byte(q) } by {
        assert(mb.byte(q) == if last_writes(ws).dom().contains(q) && m0.is_frame(q / 4096) { last_writes(ws)[q] } else { m0.byte(q) });
    }
}

/// Writes `bytes` from physical address `pa` on.
fn put_bytes(mem: &mut PhysMem, pa: usize, bytes: &[u8], Ghost(m0): Ghost<PhysMem>, Ghost(ws): Ghost<Seq<(int, u8)>>)
    requires
        old(mem).wf(),
        pa + bytes@.len() <= usize::MAX,
        applied(m0, *old(mem), ws),
        forall|p: int| m0.is_frame(p) <==> old(mem).is_frame(p),
    ensures
        final(mem).wf(),
        final(mem).num_frames() == old(mem).num_frames(),
        final(mem).first_ppn() == old(mem).first_ppn(),
        final(mem).free_pages() == old(mem).free_pages(),
        applied(m0, *final(mem), ws + bytes_writes(pa as int, bytes@)),
        forall|p: int, x: int| !(pa / 4096 <= p <= (pa + bytes@.len()) / 4096)
            ==> #[trigger] final(mem).word(p, x) == old(mem).word(p, x),
{
    let mut k: usize = 0;
    while k < bytes.len()
        invariant
            k <= bytes@.len(),
            pa + bytes@.len() <= usize::MAX,
            mem.wf(),
            mem.num_frames() == old(mem).num_frames(),
            mem.first_ppn() == old(mem).first_ppn(),
            mem.free_pages() == old(mem).free_pages(),
            forall|p: int| m0.is_frame(p) <==> mem.is_frame(p),
            applied(m0, *mem, ws + bytes_writes(pa as int, bytes@.take(k as int))),
            forall|p: int, x: int| !(pa / 4096 <= p <= (pa + bytes@.len()) / 4096)
                ==> #[trigger] mem.word(p, x) == old(mem).word(p, x),
        decreases bytes@.len() - k,
    {
        let ghost mb = *mem;
        mem.write_byte(pa + k, bytes[k]);
        proof {
            lemma_applied_push(m0, mb, *mem, ws + bytes_writes(pa as int, bytes@.take(k as int)), pa + k, bytes@[k as int]);
            assert((ws + bytes_writes(pa as int, bytes@.take(k as int))).push(((pa + k) as int, bytes@[k as int]))
                =~= ws + bytes_writes(pa as int, bytes@.take(k as int + 1)));
        }
        k = k + 1;
    }
    proof {
        assert(bytes@.take(bytes@.len() as int) =~= bytes@);
    }
}

/// The eight bytes of `v`, least significant first.
fn word_bytes(v: u64) -> (b: Vec<u8>)
    ensures
        b@ == le_bytes8(v),
{
    let mut b: Vec<u8> = Vec::new();
    let mut k: u64 = 0;
    while k < 8
        invariant
            k <= 8,
            b@ == le_bytes8(v).take(k as int),
        decreases 8 - k,
    {
        b.push(((v >> (8 * k)) & 0xff) as u8);
        proof {
            assert(b@ =~= le_bytes8(v).take(k as int + 1));
        }
        k = k + 1;
    }
    proof {
        assert(le_bytes8(v).take(8) =~= le_bytes8(v));
    }
    b
}

/// The words of the initial stack.
fn stack_word_list(stack_top: usize, argc: usize, envc: usize, at_phdr: usize, phent: usize, phnum: usize, entry: usize) -> (v: Vec<u64>)
    requires
        argc + envc <= usize::MAX,
    ensures
        v@ == stack_words(stack_top, argc as nat, envc as nat, at_phdr, phent, phnum, entry),
{
    let st = stack_top as u64;
    let mut v: Vec<u64> = Vec::new();
    v.push(argc as u64);
    let mut i: usize = 0;
    while i < argc
        invariant
            i <= argc,
            st == stack_top as u64,
            v@ == seq![argc as u64] + Seq::new(i as nat, |k: int| str_ptr(stack_top, k)),
        decreases argc - i,
    {
        v.push(st.wrapping_add(0x400).wrapping_add((i as u64).wrapping_mul(0x100)));
        proof {
            assert(v@ =~= seq![argc as u64] + Seq::new(i as nat + 1, |k: int| str_ptr(stack_top, k)));
        }
        i = i + 1;
    }
    v.push(0);
    let ghost head = v@;
    let mut i: usize = 0;
    while i < envc
        invariant
            i <= envc,
            argc + envc <= usize::MAX,
            st == stack_top as u64,
            v@ == head + Seq::new(i as nat, |k: int| str_ptr(stack_top, argc + k)),
        decreases envc - i,
    {
        let j = (argc as u64).wrapping_add(i as u64);
        proof {
            assert(argc + i <= u64::MAX);
            assert(j == (argc + i) as u64);
        }
        v.push(st.wrapping_add(0x400).wrapping_add(j.wrapping_mul(0x100)));
        proof {
            assert(v@ =~= head + Seq::new(i as nat + 1, |k: int| str_ptr(stack_top, argc + k)));
        }
        i = i + 1;
    }
    v.push(0);
    v.push(6);
    v.push(4096);
    v.push(3);
    v.push(at_phdr as u64);
    v.push(4);
    v.push(phent as u64);
    v.push(5);
    v.push(phnum as u64);
    v.push(9);
    v.push(entry as u64);
    v.push(25);
    v.push(st.wrapping_add(0x200));
    v.push(17);
    v.push(100);
    v.push(0);
    v.push(0);
    proof {
        assert(v@ =~= stack_words(stack_top, argc as nat, envc as nat, at_phdr, phent, phnum, entry));
    }
    v
}

/// Lays out the initial user stack in the page at physical address
/// `top_page_paddr`, mapped at `stack_top`: the argument count, pointers
/// to the arguments and the environment, the auxiliary vector, the strings
/// from offset 0x400 (0x100 bytes apart) and 16 random bytes at offset
/// 0x200. Returns the user stack pointer, `stack_top`.
pub fn build_stack(
    mem: &mut PhysMem,
    top_page_paddr: usize,
    stack_top: usize,
    argv: &Vec<Vec<u8>>,
    envp: &Vec<Vec<u8>>,
    at_phdr: usize,
    phent: usize,
    phnum: usize,
    entry: usize,
) -> (sp: usize)
    requires
        old(mem).wf(),
        stack_fits(top_page_paddr as int, strs_view(argv@) + strs_view(envp@)),
    ensures
        sp == stack_top,
        final(mem).wf(),
        final(mem).num_frames() == old(mem).num_frames(),
        final(mem).first_ppn() == old(mem).first_ppn(),
        final(mem).free_pages() == old(mem).free_pages(),
        applied(*old(mem), *final(mem),
            stack_writes(top_page_paddr, stack_top, strs_view(argv@), strs_view(envp@), at_phdr, phent, phnum, entry)),
        top_page_paddr % 4096 == 0 && stack_in_page(strs_view(argv@) + strs_view(envp@)) ==>
            forall|p: int, x: int| p != top_page_paddr / 4096 ==> #[trigger] final(mem).word(p, x) == old(mem).word(p, x),
{
    let ghost m0 = *mem;
    let ghost all = strs_view(argv@) + strs_view(envp@);
    let ghost inp = top_page_paddr % 4096 == 0 && stack_in_page(all);
    let base = top_page_paddr;
    let argc = argv.len();
    let envc = envp.len();
    let vals = stack_word_list(stack_top, argc, envc, at_phdr, phent, phnum, entry);
    assert(vals@.len() == argc + envc + 19);
    assert(all.len() == argc + envc);
    let mut k: usize = 0;
    while k < vals.len()
        invariant
            k <= vals@.len() == argc + envc + 19,
            base + 8 * (argc + envc + 19) <= usize::MAX,
            mem.wf(),
            mem.num_frames() == m0.num_frames(),
            mem.first_ppn() == m0.first_ppn(),
            mem.free_pages() == m0.free_pages(),
            forall|p: int| m0.is_frame(p) <==> mem.is_frame(p),
            applied(m0, *mem, words_writes(base as int, vals@.take(k as int))),
            base == top_page_paddr,
            inp == (top_page_paddr % 4096 == 0 && stack_in_page(all)),
            all.len() == argc + envc,
            inp ==> forall|p: int, x: int| p != base / 4096 ==> #[trigger] mem.word(p, x) == m0.word(p, x),
        decreases vals@.len() - k,
    {
        let b = word_bytes(vals[k]);
        proof {
            assert(base + 8 * k + 8 <= usize::MAX);
        }
        put_bytes(mem, base + 8 * k, &b, Ghost(m0), Ghost(words_writes(base as int, vals@.take(k as int))));
        proof {
            assert(vals@.take(k as int + 1).drop_last() =~= vals@.take(k as int));
            assert(vals@.take(k as int + 1).last() == vals@[k as int]);
        }
        k = k + 1;
    }
    proof {
        assert(vals@.take(vals@.len() as int) =~= vals@);
    }
    let ghost w1 = words_writes(base as int, vals@);
    let n = argc + envc;
    let mut j: usize = 0;
    while j < n
        invariant
            j <= n == argc + envc,
            argc == argv@.len(),
            envc == envp@.len(),
            all == strs_view(argv@) + strs_view(envp@),
            stack_fits(base as int, all),
            mem.wf(),
            mem.num_frames() == m0.num_frames(),
            mem.first_ppn() == m0.first_ppn(),
            mem.free_pages() == m0.free_pages(),
            forall|p: int| m0.is_frame(p) <==> mem.is_frame(p),
            applied(m0, *mem, w1 + strs_writes(base + 0x400, all.take(j as int))),
            base == top_page_paddr,
            inp == (top_page_paddr % 4096 == 0 && stack_in_page(all)),
            inp ==> forall|p: int, x: int| p != base / 4096 ==> #[trigger] mem.word(p, x) == m0.word(p, x),
        decreases n - j,
    {
        let s = if j < argc { &argv[j] } else { &envp[j - argc] };
        assert(s@ == all[j as int]);
        assert(base + 0x400 + 0x100 * j + all[j as int].len() + 1 <= usize::MAX);
        let pa = base + 0x400 + 0x100 * j;
        let ghost ws0 = w1 + strs_writes(base + 0x400, all.take(j as int));
        put_bytes(mem, pa, s.as_slice(), Ghost(m0), Ghost(ws0));
        let ghost mb = *mem;
        mem.write_byte(pa + s.len(), 0);
        proof {
            lemma_applied_push(m0, mb, *mem, ws0 + bytes_writes(pa as int, s@), pa + s@.len(), 0u8);
            assert(all.take(j as int + 1).drop_last() =~= all.take(j as int));
            assert(all.take(j as int + 1).last() == all[j as int]);
            assert(bytes_writes(pa as int, s@.push(0u8)) =~= bytes_writes(pa as int, s@).push(((pa + s@.len()) as int, 0u8)));
            assert((ws0 + bytes_writes(pa as int, s@)).push(((pa + s@.len()) as int, 0u8))
                =~= w1 + strs_writes(base + 0x400, all.take(j as int + 1)));
        }
        j = j + 1;
    }
    proof {
        assert(all.take(n as int) =~= all);
    }
    let ghost w2 = w1 + strs_writes(base + 0x400, all);
    let mut rnd: Vec<u8> = Vec::new();
    let mut r: usize = 0;
    while r < 16
        invariant
            r <= 16,
            rnd@ == Seq::new(r as nat, |k: int| 0xabu8),
        decreases 16 - r,
    {
        rnd.push(0xab);
        proof {
            assert(rnd@ =~= Seq::new(r as nat + 1, |k: int| 0xabu8));
        }
        r = r + 1;
    }
    put_bytes(mem, base + 0x200, rnd.as_slice(), Ghost(m0), Ghost(w2));
    proof {
        assert(w2 + bytes_writes(base + 0x200, rnd@)
            =~= stack_writes(top_page_paddr, stack_top, strs_view(argv@), strs_view(envp@), at_phdr, phent, phnum, entry));
    }
    stack_top
}

/// The initial stack with strings `strs` stays inside its page: the words
/// and every string with its terminating zero end before the page does.
pub open spec fn stack_in_page(strs: Seq<Seq<u8>>) -> bool {
    &&& 8 * (strs.len() + 19) < 4096
    &&& forall|j: int| 0 <= j < strs.len() ==> 0x400 + 0x100 * j + #[trigger] strs[j].len() + 1 < 4096
}

/// The top of every user stack (a 64-bit address).
pub const STACK_TOP: usize = 0x3f_ffff_f000u64 as usize;

proof fn lemma_stack_top()
    ensures
        STACK_TOP >= 0xffff_f000,
        STACK_TOP % 4096 == 0,
        STACK_TOP <= 0x3f_ffff_f000,
{
    assert((0x3f_ffff_f000u64 as usize) >= 0xffff_f000usize && (0x3f_ffff_f000u64 as usize) % 4096 == 0
        && (0x3f_ffff_f000u64 as usize) as u64 <= 0x3f_ffff_f000u64)
        by (bit_vector);
}

/// Leaf flags of the stack pages: user, read, write.
pub open spec fn stack_flags() -> usize {
    0x16usize
}

/// The nine stack pages at and below the page of `STACK_TOP` are mapped
/// for the user, readable and writable.
pub open spec fn stack_mapped(pt: PageTable, mem: PhysMem) -> bool {
    forall|v: int| STACK_TOP / 4096 - 9 < v <= STACK_TOP / 4096
        ==> #[trigger] pt.lookup(mem, v) is Some && pt.lookup(mem, v)->0 & 0xffusize == stack_flags() | 0xc1usize
}

/// Law: each of the nine user stack pages is mapped for the user,
/// readable and writable, and not executable.
pub proof fn law_stack_page_permissions(pt: PageTable, mem: PhysMem, v: int)
    requires
        stack_mapped(pt, mem),
        STACK_TOP / 4096 - 9 < v <= STACK_TOP / 4096,
    ensures
        pt.lookup(mem, v) is Some,
        pt.lookup(mem, v)->0 & 2usize != 0,
        pt.lookup(mem, v)->0 & 4usize != 0,
        pt.lookup(mem, v)->0 & 8usize == 0,
        pt.lookup(mem, v)->0 & 16usize != 0,
        pt.lookup(mem, v)->0 & 1usize != 0,
{
    lemma_user_leaf_perms(pt.lookup(mem, v)->0, true, true, false);
}

/// The loadable segments of `segs` fit a fresh address space: none
/// reaches the last page of the address space, no two of their pages
/// share a slot, and none of their slots is one of the kernel's or of the
/// stack's.
pub open spec fn fits_user_space(segs: Seq<ProgramSegment>) -> bool {
    &&& forall|j: int| 0 <= j < segs.len() && #[trigger] segs[j].kind == SegmentKind::Load
        ==> last_page(segs[j]) + 4096 <= usize::MAX
    &&& forall|j1: int, v1: int, j2: int, v2: int| #[trigger] in_load_seg(segs, j1, v1) && #[trigger] in_load_seg(segs, j2, v2)
        && same_slot(v1, v2) ==> j1 == j2 && v1 == v2
    &&& forall|j: int, v: int| #[trigger] in_load_seg(segs, j, v)
        ==> kernel_lookup(slot_key(v)) is None && !(STACK_TOP / 4096 - 9 < slot_key(v) <= STACK_TOP / 4096)
}

/// A table that maps just the kernel's pages, with the stack mapped in it
/// and nothing else, can take the segments of a program that fits.
pub proof fn lemma_fits_loadable(pt: PageTable, m1: PhysMem, m2: PhysMem, segs: Seq<ProgramSegment>)
    requires
        fits_user_space(segs),
        forall|v: int| #[trigger] pt.lookup(m1, v) == kernel_lookup(slot_key(v)),
        forall|v: int| !(STACK_TOP / 4096 - 9 < slot_key(v) <= STACK_TOP / 4096)
            ==> #[trigger] pt.lookup(m2, v) == pt.lookup(m1, v),
    ensures
        loadable_into(pt, m2, segs),
{
    assert forall|j: int, v: int| #[trigger] in_load_seg(segs, j, v) implies pt.lookup(m2, v) is None by {
        assert(pt.lookup(m1, v) == kernel_lookup(slot_key(v)));
    }
}

/// A table that maps just the kernel's pages leaves the stack pages
/// unmapped.
pub proof fn lemma_stack_outside_kernel(pt: PageTable, m1: PhysMem)
    requires
        forall|v: int| #[trigger] pt.lookup(m1, v) == kernel_lookup(slot_key(v)),
    ensures
        stack_unmapped(pt, m1),
{
    lemma_stack_top();
    assert forall|v: int| STACK_TOP / 4096 - 9 < v <= STACK_TOP / 4096 implies #[trigger] pt.lookup(m1, v) is None by {
        lemma_slot_key(v, v);
        assert(pt.lookup(m1, v) == kernel_lookup(slot_key(v)));
    }
}

/// None of the nine stack pages is mapped.
pub open spec fn stack_unmapped(pt: PageTable, mem: PhysMem) -> bool {
    forall|v: int| STACK_TOP / 4096 - 9 < v <= STACK_TOP / 4096 ==> #[trigger] pt.lookup(mem, v) is None
}

/// Maps the nine pages at and below `STACK_TOP`, user read-write, each to a
/// fresh frame; returns the physical address of the top one. It succeeds
/// where none of the nine is mapped yet and 27 pages are free.
#[verifier::spinoff_prover]
#[verifier::rlimit(60)]
pub(crate) fn map_user_stack(pt: &PageTable, mem: &mut PhysMem) -> (r: Result<Option<usize>, KernelPanic>)
    requires
        old(mem).wf(),
        pt.wf(*old(mem)),
    ensures
        final(mem).wf(),
        pt.wf(*final(mem)),
        pt.grows(*old(mem), *final(mem)),
        final(mem).first_ppn() == old(mem).first_ppn(),
        forall|p: int| old(mem).is_frame(p) ==> final(mem).is_frame(p),
        forall|v: int| #[trigger] pt.lookup(*old(mem), v) is Some ==> pt.lookup(*final(mem), v) == pt.lookup(*old(mem), v),
        r matches Ok(Some(tp)) ==> {
            &&& tp % 4096 == 0
            &&& tp + 4096 <= crate::mm::PHYS_END
            &&& !old(mem).is_frame(tp as int / 4096)
            &&& final(mem).is_frame(tp as int / 4096)
            &&& pt.not_table(*final(mem), tp as int / 4096)
            &&& stack_mapped(*pt, *final(mem))
            &&& pte_ppn(pt.lookup(*final(mem), STACK_TOP as int / 4096)->0) == tp / 4096
        },
        r matches Ok(None) ==> final(mem).free_pages() == 0,
        stack_unmapped(*pt, *old(mem)) && old(mem).free_pages() >= 27 ==> r matches Ok(Some(_)),
        r matches Ok(Some(_)) ==> final(mem).free_pages() + 27 >= old(mem).free_pages(),
        r matches Ok(Some(_)) ==> forall|v: int| !(STACK_TOP / 4096 - 9 < slot_key(v) <= STACK_TOP / 4096)
            ==> #[trigger] pt.lookup(*final(mem), v) == pt.lookup(*old(mem), v),
{
    let ghost m0 = *mem;
    let ghost enough = stack_unmapped(*pt, m0) && m0.free_pages() >= 27;
    let mut tp: usize = 0;
    let mut i: usize = 0;
    let flags = PTEFlags::U().union(PTEFlags::R()).union(PTEFlags::W());
    proof {
        assert((16usize | 2usize) | 4usize == 0x16usize) by (bit_vector);
        lemma_stack_top();
        lemma_grows_old_words(*pt, m0, m0);
        lemma_leaf_low_bits(0, 0x16);
    }
    while i <= 8
        invariant
            i <= 9,
            STACK_TOP >= 0xffff_f000,
            STACK_TOP % 4096 == 0,
            STACK_TOP <= 0x3f_ffff_f000,
            m0 == *old(mem),
            flags.bits == 0x16,
            mem.wf(),
            pt.wf(*mem),
            pt.grows(m0, *mem),
            mem.first_ppn() == m0.first_ppn(),
            forall|p: int| m0.is_frame(p) ==> mem.is_frame(p),
            forall|v: int| #[trigger] pt.lookup(m0, v) is Some ==> pt.lookup(*mem, v) == pt.lookup(m0, v),
            forall|v: int| STACK_TOP / 4096 - i < v <= STACK_TOP / 4096
                ==> #[trigger] pt.lookup(*mem, v) is Some && pt.lookup(*mem, v)->0 & 0xffusize == stack_flags() | 0xc1usize,
            enough == (stack_unmapped(*pt, m0) && m0.free_pages() >= 27),
            enough ==> 3 * (9 - i) <= mem.free_pages(),
            enough ==> forall|v: int| STACK_TOP / 4096 - 9 < v <= STACK_TOP / 4096 - i ==> #[trigger] pt.lookup(*mem, v) is None,
            mem.free_pages() + 3 * i >= m0.free_pages(),
            forall|v: int| !(STACK_TOP / 4096 - i < slot_key(v) <= STACK_TOP / 4096)
                ==> #[trigger] pt.lookup(*mem, v) == pt.lookup(m0, v),
            i > 0 ==> {
                &&& tp % 4096 == 0
                &&& tp + 4096 <= crate::mm::PHYS_END
                &&& !m0.is_frame(tp as int / 4096)
                &&& mem.is_frame(tp as int / 4096)
                &&& pt.not_table(*mem, tp as int / 4096)
                &&& pte_ppn(pt.lookup(*mem, STACK_TOP as int / 4096)->0) == tp / 4096
            },
        decreases 9 - i,
    {
        let ghost mb = *mem;
        proof {
            mb.lemma_wf_facts();
        }
        let page = match mem.alloc_page() {
            Some(p) => p,
            None => return Ok(None),
        };
        let ghost f: int = page as int / 4096;
        proof {
            assert forall|p: int, x: int| #[trigger] mem.entry(p, x) == mb.entry(p, x) by {
                mb.lemma_word_outside(p, x);
            }
            lemma_same_entries(*pt, mb, *mem);
            assert forall|p: int, x: int| mb.is_frame(p) implies #[trigger] mem.word(p, x) == mb.word(p, x) by {
            }
            lemma_grows_old_words(*pt, mb, *mem);
            lemma_grows_trans(*pt, m0, mb, *mem);
            assert(page % 4096 == 0);
            assert(page + 4096 <= crate::mm::PHYS_END);
            assert(f == mb.next_ppn());
            assert forall|a: int| 0 <= a < 512 && #[trigger] pt.v0(*mem, a) implies pt.l1(*mem, a) != f by {
                assert(pt.v0(mb, a));
                assert(mb.is_frame(pt.l1(mb, a)));
            }
            assert forall|a: int, b: int| 0 <= a < 512 && 0 <= b < 512 && #[trigger] pt.v1(*mem, a, b)
                implies pt.l2(*mem, a, b) != f by {
                assert(pt.v1(mb, a, b));
                assert(mb.is_frame(pt.l2(mb, a, b)));
            }
            if i > 0 {
                lemma_not_table_kept(*pt, mb, *mem, tp as int / 4096);
            }
        }
        let ghost ma = *mem;
        if i == 0 {
            tp = page;
        }
        let va = STACK_TOP - i * PAGE_SIZE;
        proof {
            if enough {
                assert(va as int / 4096 == STACK_TOP / 4096 - i);
                assert(pt.lookup(ma, va as int / 4096) is None);
                assert(ma.free_pages() >= 2);
            }
        }
        if !pt.map_checked(mem, va, page, flags) {
            proof {
                lemma_grows_trans(*pt, m0, ma, *mem);
            }
            return Err(KernelPanic);
        }
        proof {
            lemma_grows_trans(*pt, m0, ma, *mem);
            lemma_shr12(page);
            lemma_leaf_low_bits(page, 0x16);
            lemma_leaf_bits(page, 0x16);
            let w = va as int / 4096;
            assert(w == STACK_TOP / 4096 - i);
            lemma_slot_key(w, w);
            assert forall|v: int| STACK_TOP / 4096 - (i + 1) < v <= STACK_TOP / 4096
                implies #[trigger] pt.lookup(*mem, v) is Some && pt.lookup(*mem, v)->0 & 0xffusize == stack_flags() | 0xc1usize by {
                lemma_slot_key(v, w);
                if v != w {
                    assert(pt.lookup(ma, v) is Some);
                }
            }
            assert(pt.pages_needed(ma, w) <= 2);
            assert forall|v: int| !(STACK_TOP / 4096 - (i + 1) < slot_key(v) <= STACK_TOP / 4096)
                implies #[trigger] pt.lookup(*mem, v) == pt.lookup(m0, v) by {
                lemma_slot_key(v, w);
                assert(pt.lookup(ma, v) == pt.lookup(mb, v));
            }
            if enough {
                assert forall|v: int| STACK_TOP / 4096 - 9 < v <= STACK_TOP / 4096 - (i + 1)
                    implies #[trigger] pt.lookup(*mem, v) is None by {
                    lemma_slot_key(v, w);
                    assert(pt.lookup(ma, v) is None);
                }
            }
            if i == 0 {
                lemma_not_table_kept(*pt, ma, *mem, f);
                assert(pt.lookup(*mem, STACK_TOP as int / 4096) == Some(leaf_bits(page, 0x16)));
            } else {
                lemma_not_table_kept(*pt, ma, *mem, tp as int / 4096);
                let t = STACK_TOP as int / 4096;
                lemma_slot_key(t, w);
                assert(pt.lookup(ma, t) is Some);
            }
        }
        i = i + 1;
    }
    Ok(Some(tp))
}

/// The lowest start of a loadable segment among `segs`, if there is one.
pub open spec fn min_load_vaddr(segs: Seq<ProgramSegment>) -> Option<usize>
    decreases segs.len(),
{
    if segs.len() == 0 {
        None
    } else {
        let m = min_load_vaddr(segs.drop_last());
        let s = segs.last();
        if s.kind == SegmentKind::Load {
            match m {
                Some(v) => if s.vaddr < v { Some(s.vaddr) } else { Some(v) },
                None => Some(s.vaddr),
            }
        } else {
            m
        }
    }
}

/// Where the program headers lie in memory: the lowest loadable segment's
/// start (0 when there is none) plus their offset in the file.
pub open spec fn at_phdr_spec(elf: &ElfImage) -> usize {
    let base = match min_load_vaddr(elf.segments@) { Some(v) => v, None => 0usize };
    base.wrapping_add(elf.ph_offset)
}

/// The lowest start of a loadable segment, or 0.
pub fn base_vaddr(elf: &ElfImage) -> (b: usize)
    ensures
        b == match min_load_vaddr(elf.segments@) { Some(v) => v, None => 0usize },
{
    let mut m: Option<usize> = None;
    let mut i: usize = 0;
    while i < elf.segments.len()
        invariant
            i <= elf.segments@.len(),
            m == min_load_vaddr(elf.segments@.take(i as int)),
        decreases elf.segments@.len() - i,
    {
        let s = elf.segments[i];
        if s.kind == SegmentKind::Load {
            m = match m {
                Some(v) => if s.vaddr < v { Some(s.vaddr) } else { Some(v) },
                None => Some(s.vaddr),
            };
        }
        proof {
            assert(elf.segments@.take(i as int + 1).drop_last() =~= elf.segments@.take(i as int));
        }
        i = i + 1;
    }
    proof {
        assert(elf.segments@.take(elf.segments@.len() as int) =~= elf.segments@);
    }
    match m {
        Some(v) => v,
        None => 0,
    }
}

/// Break after loading: the end of the segments rounded up to a page, or
/// 0x10000 where that is zero.
pub open spec fn brk_after(max_end: usize) -> usize {
    let b = max_end.wrapping_add(4095) & !0xfffusize;
    if b == 0 { 0x10000 } else { b }
}

pub fn initial_brk(max_end: usize) -> (b: usize)
    ensures
        b == brk_after(max_end),
{
    let b = max_end.wrapping_add(PAGE_SIZE - 1) & !(PAGE_SIZE - 1);
    if b == 0 { 0x10000 } else { b }
}

/// The writes `ws` are what memory `m` holds at every address they reach
/// that a frame backs.
pub open spec fn writes_hold(m: PhysMem, ws: Seq<(int, u8)>) -> bool {
    forall|q: int| last_writes(ws).dom().contains(q) && m.is_frame(q / 4096) ==> #[trigger] m.byte(q) == last_writes(ws)[q]
}

/// Loads `elf` into `pt` and lays out the initial stack in the frame `tp`;
/// returns the stack pointer and the end of the loaded segments.
pub(crate) fn load_program(
    pt: &PageTable,
    mem: &mut PhysMem,
    data: &[u8],
    elf: &ElfImage,
    argv: &Vec<Vec<u8>>,
    envp: &Vec<Vec<u8>>,
    tp: usize,
) -> (r: Result<Option<(usize, usize)>, KernelPanic>)
    requires
        old(mem).wf(),
        pt.wf(*old(mem)),
        elf.fits(data@.len()),
        tp + 4096 <= crate::mm::PHYS_END,
        stack_fits(crate::mm::PHYS_END as int, strs_view(argv@) + strs_view(envp@)),
    ensures
        final(mem).wf(),
        final(mem).first_ppn() == old(mem).first_ppn(),
        forall|p: int| old(mem).is_frame(p) ==> final(mem).is_frame(p),
        !elf.all_known() ==> !(r matches Ok(Some(_))),
        r matches Ok(Some(x)) ==> {
            &&& x.0 == STACK_TOP
            &&& x.1 == max_end(elf.segments@)
            &&& writes_hold(*final(mem), stack_writes(tp, STACK_TOP, strs_view(argv@), strs_view(envp@),
                at_phdr_spec(elf), elf.ph_entry_size, elf.ph_count, elf.entry))
        },
        (r matches Ok(Some(_))) && tp % 4096 == 0 && stack_in_page(strs_view(argv@) + strs_view(envp@))
            && old(mem).is_frame(tp as int / 4096) && pt.not_table(*old(mem), tp as int / 4096) ==> {
            &&& pt.wf(*final(mem))
            &&& forall|v: int| #[trigger] pt.lookup(*old(mem), v) is Some ==> pt.lookup(*final(mem), v) == pt.lookup(*old(mem), v)
            &&& forall|i: int| 0 <= i < elf.segments@.len() && #[trigger] elf.segments@[i].kind == SegmentKind::Load
                ==> seg_mapped(*pt, *final(mem), elf.segments@[i]) && seg_loaded(*pt, *final(mem), data@, elf.segments@[i])
            &&& pt.not_table(*final(mem), tp as int / 4096)
        },
        elf.all_known() && loadable_into(*pt, *old(mem), elf.segments@)
            && 3 * load_pages(elf.segments@) <= old(mem).free_pages() ==> r matches Ok(Some(_)),
{
    let base = base_vaddr(elf);
    let at_phdr = base.wrapping_add(elf.ph_offset);
    let max_end_v = match load_elf_into(pt, mem, data, elf) {
        Ok(Some(e)) => e,
        Ok(None) => return Ok(None),
        Err(e) => return Err(e),
    };
    let ghost all = strs_view(argv@) + strs_view(envp@);
    assert(stack_fits(tp as int, all)) by {
        assert forall|j: int| 0 <= j < all.len() implies tp + 0x400 + 0x100 * j + #[trigger] all[j].len() + 1 <= usize::MAX by {
            assert(crate::mm::PHYS_END + 0x400 + 0x100 * j + all[j].len() + 1 <= usize::MAX);
        }
    }
    let ghost mb = *mem;
    let sp = build_stack(mem, tp, STACK_TOP, argv, envp, at_phdr, elf.ph_entry_size, elf.ph_count, elf.entry);
    proof {
        let f = tp as int / 4096;
        if tp % 4096 == 0 && stack_in_page(all) && old(mem).is_frame(f) && pt.not_table(*old(mem), f) {
            lemma_not_table_kept(*pt, *old(mem), mb, f);
            assert forall|p: int, x: int| p != f implies #[trigger] mem.entry(p, x) == mb.entry(p, x) by {
                mem.lemma_same_word_entry(mb, p, x);
                assert(mem.word(p, x) == mb.word(p, x));
            }
            lemma_untouched_tables(*pt, mb, *mem, f);
            assert forall|i: int| 0 <= i < elf.segments@.len() && #[trigger] elf.segments@[i].kind == SegmentKind::Load
                implies seg_mapped(*pt, *mem, elf.segments@[i]) && seg_loaded(*pt, *mem, data@, elf.segments@[i]) by {
                let sg = elf.segments@[i];
                assert(seg_mapped(*pt, mb, sg));
                assert forall|v: int| first_page(sg) / 4096 <= v <= last_page(sg) / 4096
                    implies #[trigger] pt.lookup(*mem, v) is Some && pt.lookup(*mem, v)->0 & 0xffusize == seg_flags_bits(sg) | 0xc1usize by {
                    assert(pt.lookup(mb, v) is Some);
                }
                assert forall|v: int, j: int| first_page(sg) / 4096 <= v <= last_page(sg) / 4096 && 0 <= j < 4096
                    implies #[trigger] page_byte(*pt, *mem, v, j) == seg_byte(data@, sg, v * 4096 + j) by {
                    assert(page_holds(*pt, mb, data@, sg, v, *old(mem)));
                    let g = pte_ppn(pt.lookup(mb, v)->0) as int;
                    assert(g != f);
                    assert forall|x: int| 0 <= x < 512 implies #[trigger] mem.word(g, x) == mb.word(g, x) by {
                    }
                    mem.lemma_frame_bytes(mb, g);
                    assert(page_byte(*pt, mb, v, j) == seg_byte(data@, sg, v * 4096 + j));
                }
            }
        }
    }
    proof {
        let ws = stack_writes(tp, STACK_TOP, strs_view(argv@), strs_view(envp@), at_phdr, elf.ph_entry_size, elf.ph_count, elf.entry);
        assert forall|q: int| last_writes(ws).dom().contains(q) && mem.is_frame(q / 4096) implies #[trigger] mem.byte(q) == last_writes(ws)[q] by {
            assert(mb.is_frame(q / 4096));
        }
    }
    Ok(Some((sp, max_end_v)))
}

} // verus!
