//! Reading an executable's headers with `xmas_elf`: the entry point, where
//! the program headers lie, and the program headers themselves.
use vstd::prelude::*;
use crate::elf::{ElfImage, ProgramSegment, SegmentKind};
use xmas_elf::ElfFile;
use xmas_elf::program::Type;

verus! {

/// The number that the `n` bytes of `d` from `at` on hold, least
/// significant first.
pub open spec fn le_field(d: Seq<u8>, at: int, n: nat) -> nat
    decreases n,
{
    if n == 0 {
        0
    } else {
        (d[at] + 256 * le_field(d, at + 1, (n - 1) as nat)) as nat
    }
}

/// `256` to the power `k`.
pub open spec fn pow256(k: nat) -> nat
    decreases k,
{
    if k == 0 { 1 } else { 256 * pow256((k - 1) as nat) }
}

proof fn lemma_le_field_bound(d: Seq<u8>, at: int, n: nat)
    ensures
        le_field(d, at, n) < pow256(n),
    decreases n,
{
    if n > 0 {
        lemma_le_field_bound(d, at + 1, (n - 1) as nat);
    }
}

/// `d` starts with the ELF headers that `xmas_elf` accepts: the magic
/// number, a class of 1 (32-bit) or 2 (64-bit), and both header parts.
pub open spec fn elf_header_ok(d: Seq<u8>) -> bool {
    &&& d.len() >= 16
    &&& d[0] == 0x7f && d[1] == 0x45 && d[2] == 0x4c && d[3] == 0x46
    &&& (d[4] == 1 && d.len() >= 52) || (d[4] == 2 && d.len() >= 64)
}

/// Where the program headers start, as the header of `d` says.
pub open spec fn ph_offset_of(d: Seq<u8>) -> nat {
    if d[4] == 2 { le_field(d, 32, 8) } else { le_field(d, 28, 4) }
}

/// The size of a program header entry, as the header of `d` says.
pub open spec fn ph_entry_size_of(d: Seq<u8>) -> nat {
    if d[4] == 2 { le_field(d, 54, 2) } else { le_field(d, 42, 2) }
}

/// The number of program headers, as the header of `d` says.
pub open spec fn ph_count_of(d: Seq<u8>) -> nat {
    if d[4] == 2 { le_field(d, 56, 2) } else { le_field(d, 44, 2) }
}

/// `xmas_elf` reads program header `i` of `d` without stopping: the file
/// has no such header for it to read, or the header lies inside the file,
/// is as large as a program header of its class, and is aligned for it.
pub open spec fn ph_readable(d: Seq<u8>, i: int) -> bool {
    let off = ph_offset_of(d);
    let ent = ph_entry_size_of(d);
    let start = off + i * ent;
    elf_header_ok(d) && i < ph_count_of(d) && off > 0 && ent > 0 ==> {
        &&& start + ent <= d.len()
        &&& ent >= if d[4] == 2 { 56int } else { 32int }
        &&& start % (if d[4] == 2 { 8int } else { 4int }) == 0
    }
}

/// What `xmas_elf` reads of the headers of `d`: the entry point, the
/// program-header offset, entry size and count; `None` where
/// `ElfFile::new` refuses `d`.
pub uninterp spec fn elf_header_parse(data: Seq<u8>) -> Option<(usize, usize, usize, usize)>;

/// Program header `i` of `d` as `xmas_elf` reads it: its type, virtual
/// address, size in memory, size in the file, file offset, and whether it
/// is readable, writable and executable; `None` where `program_header`
/// refuses it.
pub uninterp spec fn elf_segment_parse(data: Seq<u8>, i: u16)
    -> Option<(SegmentKind, usize, usize, usize, usize, bool, bool, bool)>;

/// The program header that the fields `f` describe.
pub open spec fn segment_of(f: (SegmentKind, usize, usize, usize, usize, bool, bool, bool)) -> ProgramSegment {
    ProgramSegment {
        kind: f.0,
        vaddr: f.1,
        mem_size: f.2,
        file_size: f.3,
        offset: f.4,
        readable: f.5,
        writable: f.6,
        executable: f.7,
    }
}

/// `xmas_elf::ElfFile::new` on the bytes of `data`, copied to storage
/// aligned to eight bytes, and the four header fields the loader uses. The
/// contract claims only that the result is `elf_header_parse` of the bytes.
/// `ElfFile::new` checks the lengths it reads and, the copy being aligned,
/// its alignment checks hold, so it does not panic.
#[verifier::external_body]
fn elf_header_fields(data: &[u8]) -> (r: Option<(usize, usize, usize, usize)>)
    requires
        data@.len() + 8 <= isize::MAX,
    ensures
        r == elf_header_parse(data@),
{
    let mut buf = vec![0u8; data.len() + 8];
    let off = buf.as_ptr().align_offset(8);
    buf[off..off + data.len()].copy_from_slice(data);
    let file = ElfFile::new(&buf[off..off + data.len()]).ok()?;
    let p = &file.header.pt2;
    Some((p.entry_point() as usize, p.ph_offset() as usize, p.ph_entry_size() as usize, p.ph_count() as usize))
}

/// `program_header(i)` of `xmas_elf::ElfFile` on the bytes of `data`,
/// copied to aligned storage, with its type (`Load`, another known type,
/// or one it does not know), addresses, sizes and flags. The contract
/// claims only that the result is `elf_segment_parse` of the bytes and
/// `i`. `program_header` slices the file at the header and asserts its
/// size and alignment; `ph_readable` (its fields read little-endian, as
/// `xmas_elf` reads them on this little-endian machine) excludes the inputs
/// where those fail.
#[verifier::external_body]
fn elf_segment(data: &[u8], i: u16) -> (r: Option<(SegmentKind, usize, usize, usize, usize, bool, bool, bool)>)
    requires
        data@.len() + 8 <= isize::MAX,
        ph_readable(data@, i as int),
    ensures
        r == elf_segment_parse(data@, i),
{
    let mut buf = vec![0u8; data.len() + 8];
    let off = buf.as_ptr().align_offset(8);
    buf[off..off + data.len()].copy_from_slice(data);
    let ph = ElfFile::new(&buf[off..off + data.len()]).ok()?.program_header(i).ok()?;
    let kind = match ph.get_type() {
        Ok(Type::Load) => SegmentKind::Load,
        Ok(_) => SegmentKind::Other,
        Err(_) => SegmentKind::Unknown,
    };
    let f = ph.flags();
    Some((kind, ph.virtual_addr() as usize, ph.mem_size() as usize, ph.file_size() as usize,
        ph.offset() as usize, f.is_read(), f.is_write(), f.is_execute()))
}

/// The number that the `n` bytes of `data` from `at` on hold, least
/// significant first.
fn read_le(data: &[u8], at: usize, n: usize) -> (v: u64)
    requires
        n <= 8,
        at + n <= data@.len(),
    ensures
        v == le_field(data@, at as int, n as nat),
{
    proof {
        reveal_with_fuel(pow256, 9);
        assert(pow256(7) == 0x100_0000_0000_0000);
    }
    let mut v: u64 = 0;
    let mut j: usize = n;
    while j > 0
        invariant
            j <= n <= 8,
            at + n <= data@.len(),
            data@.len() == data.len(),
            v == le_field(data@, at + j, (n - j) as nat),
            pow256(7) == 0x100_0000_0000_0000,
        decreases j,
    {
        proof {
            lemma_le_field_bound(data@, at + j, (n - j) as nat);
            lemma_pow256_mono((n - j) as nat, 7);
        }
        let b = data[at + j - 1];
        j = j - 1;
        v = b as u64 + 256 * v;
    }
    v
}

proof fn lemma_pow256_mono(a: nat, b: nat)
    requires
        a <= b,
    ensures
        pow256(a) <= pow256(b),
    decreases b,
{
    if a < b {
        lemma_pow256_mono(a, (b - 1) as nat);
    }
}

/// Whether `xmas_elf` reads program header `i` of `data` without stopping.
fn ph_readable_check(data: &[u8], i: u16) -> (r: bool)
    ensures
        r == ph_readable(data@, i as int),
{
    let n = data.len();
    if n < 16 || data[0] != 0x7f || data[1] != 0x45 || data[2] != 0x4c || data[3] != 0x46 {
        return true;
    }
    let wide = data[4] == 2;
    if !((data[4] == 1 && n >= 52) || (wide && n >= 64)) {
        return true;
    }
    let off = if wide { read_le(data, 32, 8) } else { read_le(data, 28, 4) };
    let ent = if wide { read_le(data, 54, 2) } else { read_le(data, 42, 2) };
    let cnt = if wide { read_le(data, 56, 2) } else { read_le(data, 44, 2) };
    if !((i as u64) < cnt && off > 0 && ent > 0) {
        return true;
    }
    assert((i as u128) * (ent as u128) <= 0xffff * 0xffff_ffff_ffff_ffff) by (nonlinear_arith)
        requires
            i <= 0xffff,
            ent <= 0xffff_ffff_ffff_ffff;
    let start: u128 = off as u128 + (i as u128) * (ent as u128);
    let size: u128 = if wide { 56 } else { 32 };
    let align: u128 = if wide { 8 } else { 4 };
    start + (ent as u128) <= n as u128 && ent as u128 >= size && start % align == 0
}

/// The program headers of `d` from `i` on, before `cnt`, as `xmas_elf`
/// walks them: it stops at the first it refuses. `None` where it would
/// stop the kernel on one.
pub open spec fn elf_segments_from(d: Seq<u8>, i: int, cnt: int) -> Option<Seq<ProgramSegment>>
    decreases cnt - i,
{
    if i < 0 || i >= cnt || i > 0xffff {
        Some(Seq::empty())
    } else if !ph_readable(d, i) {
        None
    } else {
        match elf_segment_parse(d, i as u16) {
            None => Some(Seq::empty()),
            Some(f) => match elf_segments_from(d, i + 1, cnt) {
                Some(t) => Some(seq![segment_of(f)] + t),
                None => None,
            },
        }
    }
}

/// `d` is too large for the aligned copy that `xmas_elf` reads from.
pub open spec fn elf_too_large(d: Seq<u8>) -> bool {
    d.len() + 8 > isize::MAX
}

/// `xmas_elf` does not take `d` for an ELF file.
pub open spec fn elf_no_image(d: Seq<u8>) -> bool {
    !elf_too_large(d) && elf_header_parse(d) is None
}

/// `e` is the image `xmas_elf` reads from `d`.
pub open spec fn image_parsed(d: Seq<u8>, e: ElfImage) -> bool {
    !elf_too_large(d) && match elf_header_parse(d) {
        Some(h) => {
            &&& e.entry == h.0
            &&& e.ph_offset == h.1
            &&& e.ph_entry_size == h.2
            &&& e.ph_count == h.3
            &&& elf_segments_from(d, 0, h.3 as int) == Some(e.segments@)
        },
        None => false,
    }
}

/// Reading `d` would stop the kernel: it is too large to copy, or
/// `xmas_elf` accepts its headers but would stop on one of its program
/// headers.
pub open spec fn elf_parse_stops(d: Seq<u8>) -> bool {
    elf_too_large(d) || match elf_header_parse(d) {
        Some(h) => elf_segments_from(d, 0, h.3 as int) is None,
        None => false,
    }
}

/// The image of the executable `data`: `Ok(None)` where `xmas_elf` does
/// not take it for an ELF file, `Err` where it would stop the kernel on a
/// program header that lies outside the file or is too small or misaligned.
pub fn parse_elf(data: &[u8]) -> (r: Result<Option<ElfImage>, crate::mm::KernelPanic>)
    ensures
        elf_no_image(data@) <==> r == Ok::<Option<ElfImage>, crate::mm::KernelPanic>(None),
        elf_parse_stops(data@) <==> r is Err,
        r matches Ok(Some(e)) ==> image_parsed(data@, e),
{
    if data.len() > isize::MAX as usize - 8 {
        return Err(crate::mm::KernelPanic);
    }
    let (entry, pho, phe, phc) = match elf_header_fields(data) {
        Some(h) => h,
        None => return Ok(None),
    };
    let ghost d = data@;
    let ghost cnt = phc as int;
    let mut segments: Vec<ProgramSegment> = Vec::new();
    let mut i: usize = 0;
    while i < phc && i <= 0xffff
        invariant
            d == data@,
            data@.len() + 8 <= isize::MAX,
            cnt == phc as int,
            elf_header_parse(d) == Some((entry, pho, phe, phc)),
            0 <= i,
            elf_segments_from(d, 0, cnt) == match elf_segments_from(d, i as int, cnt) {
                Some(t) => Some(segments@ + t),
                None => None::<Seq<ProgramSegment>>,
            },
        decreases phc - i,
    {
        if !ph_readable_check(data, i as u16) {
            proof {
                assert(elf_segments_from(d, i as int, cnt) is None);
            }
            return Err(crate::mm::KernelPanic);
        }
        match elf_segment(data, i as u16) {
            Some(f) => {
                let s = ProgramSegment { kind: f.0, vaddr: f.1, mem_size: f.2, file_size: f.3, offset: f.4,
                    readable: f.5, writable: f.6, executable: f.7 };
                assert(s == segment_of(f));
                proof {
                    assert(segments@.push(s) =~= segments@ + seq![s]);
                    match elf_segments_from(d, i + 1, cnt) {
                        Some(t) => {
                            assert(segments@ + (seq![s] + t) =~= segments@.push(s) + t);
                        },
                        None => {},
                    }
                }
                segments.push(s);
            },
            None => {
                proof {
                    assert(segments@ + Seq::<ProgramSegment>::empty() =~= segments@);
                }
                return Ok(Some(ElfImage { entry, ph_offset: pho, ph_entry_size: phe, ph_count: phc, segments }));
            },
        }
        i = i + 1;
    }
    proof {
        assert(segments@ + Seq::<ProgramSegment>::empty() =~= segments@);
    }
    Ok(Some(ElfImage { entry, ph_offset: pho, ph_entry_size: phe, ph_count: phc, segments }))
}

} // verus!
