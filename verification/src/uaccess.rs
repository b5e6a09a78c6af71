//! Reading and writing a process's memory through its page table, as the
//! kernel does with the pointers that system calls pass.
use vstd::prelude::*;
use crate::mm::PhysMem;
use crate::pagetable::{PageTable, lemma_tables_untouched};

verus! {

/// The physical address of user address `va`.
pub open spec fn user_pa(pt: PageTable, mem: PhysMem, va: int) -> Option<usize> {
    if 0 <= va <= usize::MAX {
        pt.translate_spec(mem, va as usize)
    } else {
        None
    }
}

/// Whether every byte of `[va, va + len)` is mapped.
pub open spec fn range_mapped(pt: PageTable, mem: PhysMem, va: int, len: int) -> bool {
    forall|i: int| 0 <= i < len ==> #[trigger] user_pa(pt, mem, va + i) is Some
}

/// The bytes at `[va, va + len)`, when all are mapped.
pub open spec fn user_bytes(pt: PageTable, mem: PhysMem, va: int, len: nat) -> Seq<u8> {
    Seq::new(len, |i: int| mem.byte(user_pa(pt, mem, va + i)->0 as int))
}

/// The physical addresses of `[va, va + len)`.
pub open spec fn user_pas(pt: PageTable, mem: PhysMem, va: int, len: nat) -> Seq<usize> {
    Seq::new(len, |i: int| user_pa(pt, mem, va + i)->0)
}

/// The bytes that writing `data[..n]` at `pas[..n]` in order leaves,
/// by address.
pub open spec fn overlay(pas: Seq<usize>, data: Seq<u8>, n: int) -> Map<int, u8>
    decreases n,
{
    if n <= 0 {
        Map::empty()
    } else {
        overlay(pas, data, n - 1).insert(pas[n - 1] as int, data[n - 1])
    }
}

/// Some address of `pas` lies in frame `p`.
pub open spec fn frame_hit(pas: Seq<usize>, p: int) -> bool {
    exists|i: int| 0 <= i < pas.len() && #[trigger] pas[i] / 4096 == p
}

/// Where the addresses are distinct, the last write to each is its own.
proof fn lemma_overlay_at(pas: Seq<usize>, data: Seq<u8>, n: int, i: int)
    requires
        0 <= i < n <= pas.len(),
        n <= data.len(),
        forall|a: int, b: int| 0 <= a < b < n ==> pas[a] != pas[b],
    ensures
        overlay(pas, data, n).dom().contains(pas[i] as int),
        overlay(pas, data, n)[pas[i] as int] == data[i],
    decreases n,
{
    if i < n - 1 {
        lemma_overlay_at(pas, data, n - 1, i);
        assert(pas[i] != pas[n - 1]);
    }
}

/// Every address that writing `data[..n]` at `pas` reaches is one of `pas`.
pub proof fn lemma_overlay_dom(pas: Seq<usize>, data: Seq<u8>, n: int, q: int)
    requires
        overlay(pas, data, n).dom().contains(q),
    ensures
        exists|i: int| 0 <= i < n && #[trigger] pas[i] == q,
    decreases n,
{
    if n > 0 && q != pas[n - 1] as int {
        lemma_overlay_dom(pas, data, n - 1, q);
    }
}

/// A write through `pt` to user memory whose every byte lies in a frame
/// that holds none of `pt`'s tables leaves `pt` well formed and every lookup
/// as it was.
pub proof fn lemma_write_keeps_tables(pt: PageTable, m0: PhysMem, m1: PhysMem, va: int, data: Seq<u8>)
    requires
        pt.wf(m0),
        forall|p: int| m0.is_frame(p) <==> m1.is_frame(p),
        forall|i: int| 0 <= i < data.len() ==> pt.not_table(m0, #[trigger] user_pas(pt, m0, va, data.len())[i] as int / 4096),
        ({
            let ov = overlay(user_pas(pt, m0, va, data.len()), data, data.len() as int);
            forall|q: int| #[trigger] m1.byte(q)
                == if ov.dom().contains(q) && m0.is_frame(q / 4096) { ov[q] } else { m0.byte(q) }
        }),
    ensures
        pt.wf(m1),
        forall|v: int| #[trigger] pt.lookup(m1, v) == pt.lookup(m0, v),
        forall|v: usize| #[trigger] pt.translate_spec(m1, v) == pt.translate_spec(m0, v),
{
    let pas = user_pas(pt, m0, va, data.len());
    let ov = overlay(pas, data, data.len() as int);
    assert forall|p: int, x: int| !pt.not_table(m0, p) implies #[trigger] m1.word(p, x) == m0.word(p, x) by {
        assert forall|q: int| p * 4096 <= q < p * 4096 + 4096 implies #[trigger] m1.byte(q) == m0.byte(q) by {
            assert(q / 4096 == p);
            if ov.dom().contains(q) {
                lemma_overlay_dom(pas, data, data.len() as int, q);
                let i = choose|i: int| 0 <= i < data.len() && #[trigger] pas[i] == q;
                assert(pt.not_table(m0, pas[i] as int / 4096));
            }
        }
        m1.lemma_words_from_bytes(m0, p);
    }
    lemma_tables_untouched(pt, m0, m1);
}

/// Law: a read of user memory gives back what a write put there. After
/// `copy_to_user` writes `data` at `va` (its effect on memory taken as its
/// contract states it), reading the same range gives `data`, provided the
/// range's bytes lie at distinct addresses in frames of memory that hold no
/// table of `pt`.
pub proof fn law_user_write_then_read(pt: PageTable, before: PhysMem, after: PhysMem, va: int, data: Seq<u8>)
    requires
        pt.wf(before),
        forall|p: int| before.is_frame(p) <==> after.is_frame(p),
        range_mapped(pt, before, va, data.len() as int),
        forall|a: int, b: int| 0 <= a < b < data.len()
            ==> user_pas(pt, before, va, data.len())[a] != user_pas(pt, before, va, data.len())[b],
        forall|i: int| 0 <= i < data.len() ==> before.is_frame(#[trigger] user_pas(pt, before, va, data.len())[i] as int / 4096)
            && pt.not_table(before, user_pas(pt, before, va, data.len())[i] as int / 4096),
        ({
            let ov = overlay(user_pas(pt, before, va, data.len()), data, data.len() as int);
            forall|q: int| #[trigger] after.byte(q)
                == if ov.dom().contains(q) && before.is_frame(q / 4096) { ov[q] } else { before.byte(q) }
        }),
        forall|p: int, x: int| !frame_hit(user_pas(pt, before, va, data.len()), p)
            ==> #[trigger] after.word(p, x) == before.word(p, x),
    ensures
        range_mapped(pt, after, va, data.len() as int),
        user_bytes(pt, after, va, data.len()) == data,
{
    let pas = user_pas(pt, before, va, data.len());
    assert forall|p: int, x: int| !pt.not_table(before, p) implies #[trigger] after.word(p, x) == before.word(p, x) by {
        if frame_hit(pas, p) {
            let w = choose|w: int| 0 <= w < pas.len() && #[trigger] pas[w] / 4096 == p;
            assert(pt.not_table(before, pas[w] as int / 4096));
        }
    }
    lemma_tables_untouched(pt, before, after);
    assert forall|i: int| 0 <= i < data.len() implies #[trigger] user_pa(pt, after, va + i) == user_pa(pt, before, va + i) by {
    }
    assert forall|i: int| 0 <= i < data.len() implies #[trigger] user_bytes(pt, after, va, data.len())[i] == data[i] by {
        lemma_overlay_at(pas, data, data.len() as int, i);
        assert(pas[i] == user_pa(pt, before, va + i)->0);
    }
    assert(user_bytes(pt, after, va, data.len()) =~= data);
}

/// The byte at user address `va`.
pub fn read_user_byte(pt: &PageTable, mem: &PhysMem, va: usize) -> (r: Option<u8>)
    requires
        mem.wf(),
    ensures
        r == match user_pa(*pt, *mem, va as int) { Some(pa) => Some(mem.byte(pa as int)), None => None },
{
    match pt.translate(mem, va) {
        Some(pa) => Some(mem.read_byte(pa)),
        None => None,
    }
}

/// The bytes at `[va, va + len)`; `None` when one is not mapped.
pub fn copy_from_user(pt: &PageTable, mem: &PhysMem, va: usize, len: usize) -> (r: Option<Vec<u8>>)
    requires
        mem.wf(),
        va + len <= usize::MAX,
    ensures
        r is Some <==> range_mapped(*pt, *mem, va as int, len as int),
        r is Some ==> r->0@ == user_bytes(*pt, *mem, va as int, len as nat),
{
    let mut out: Vec<u8> = Vec::with_capacity(len);
    let mut i: usize = 0;
    while i < len
        invariant
            i <= len,
            va + len <= usize::MAX,
            mem.wf(),
            range_mapped(*pt, *mem, va as int, i as int),
            out@ == user_bytes(*pt, *mem, va as int, i as nat),
        decreases len - i,
    {
        match read_user_byte(pt, mem, va + i) {
            Some(b) => {
                out.push(b);
            },
            None => {
                assert(!(user_pa(*pt, *mem, va + i) is Some));
                return None;
            },
        }
        i = i + 1;
        assert(out@ =~= user_bytes(*pt, *mem, va as int, i as nat));
    }
    Some(out)
}

/// Writes `data` at user address `va`, first translating every address;
/// false, with nothing written, when one is not mapped.
pub fn copy_to_user(pt: &PageTable, mem: &mut PhysMem, va: usize, data: &[u8]) -> (ok: bool)
    requires
        old(mem).wf(),
        va + data@.len() <= usize::MAX,
    ensures
        final(mem).wf(),
        final(mem).num_frames() == old(mem).num_frames(),
        final(mem).first_ppn() == old(mem).first_ppn(),
        final(mem).free_pages() == old(mem).free_pages(),
        ok <==> range_mapped(*pt, *old(mem), va as int, data@.len() as int),
        !ok ==> *final(mem) == *old(mem),
        ok ==> {
            let ov = overlay(user_pas(*pt, *old(mem), va as int, data@.len()), data@, data@.len() as int);
            forall|q: int| #[trigger] final(mem).byte(q)
                == if ov.dom().contains(q) && old(mem).is_frame(q / 4096) { ov[q] } else { old(mem).byte(q) }
        },
        ok ==> forall|p: int, x: int| !frame_hit(user_pas(*pt, *old(mem), va as int, data@.len()), p)
            ==> #[trigger] final(mem).word(p, x) == old(mem).word(p, x),
{
    let len = data.len();
    let mut pas: Vec<usize> = Vec::with_capacity(len);
    let mut i: usize = 0;
    while i < len
        invariant
            i <= len == data@.len(),
            va + len <= usize::MAX,
            mem.wf(),
            *mem == *old(mem),
            range_mapped(*pt, *mem, va as int, i as int),
            pas@ == user_pas(*pt, *mem, va as int, i as nat),
        decreases len - i,
    {
        match pt.translate(mem, va + i) {
            Some(pa) => {
                pas.push(pa);
            },
            None => {
                assert(!(user_pa(*pt, *mem, va + i) is Some));
                return false;
            },
        }
        i = i + 1;
        assert(pas@ =~= user_pas(*pt, *mem, va as int, i as nat));
    }
    let ghost m0 = *mem;
    let mut j: usize = 0;
    while j < len
        invariant
            j <= len == data@.len(),
            pas@.len() == len,
            pas@ == user_pas(*pt, m0, va as int, len as nat),
            m0.wf(),
            mem.wf(),
            mem.num_frames() == m0.num_frames(),
            mem.first_ppn() == m0.first_ppn(),
            mem.free_pages() == m0.free_pages(),
            forall|q: int| #[trigger] mem.byte(q)
                == if overlay(pas@, data@, j as int).dom().contains(q) && m0.is_frame(q / 4096) {
                    overlay(pas@, data@, j as int)[q]
                } else {
                    m0.byte(q)
                },
            forall|p: int, x: int| !frame_hit(pas@.take(j as int), p) ==> #[trigger] mem.word(p, x) == m0.word(p, x),
        decreases len - j,
    {
        let ghost mb = *mem;
        mem.write_byte(pas[j], data[j]);
        proof {
            assert forall|p: int, x: int| !frame_hit(pas@.take(j + 1), p) implies #[trigger] mem.word(p, x) == m0.word(p, x) by {
                assert(pas@.take(j + 1)[j as int] == pas@[j as int]);
                if frame_hit(pas@.take(j as int), p) {
                    let w = choose|w: int| 0 <= w < pas@.take(j as int).len() && #[trigger] pas@.take(j as int)[w] / 4096 == p;
                    assert(pas@.take(j + 1)[w] == pas@.take(j as int)[w]);
                }
                assert(mem.word(p, x) == mb.word(p, x));
            }
        }
        j = j + 1;
    }
    assert(pas@.take(len as int) =~= pas@);
    true
}

/// The eight bytes at `va` as a little-endian word.
pub open spec fn le_u64(b: Seq<u8>) -> u64 {
    (b[0] as u64) | ((b[1] as u64) << 8u64) | ((b[2] as u64) << 16u64) | ((b[3] as u64) << 24u64)
        | ((b[4] as u64) << 32u64) | ((b[5] as u64) << 40u64) | ((b[6] as u64) << 48u64) | ((b[7] as u64) << 56u64)
}

/// The word at user address `va`; `None` when one of its bytes is not
/// mapped.
pub fn read_user_u64(pt: &PageTable, mem: &PhysMem, va: usize) -> (r: Option<u64>)
    requires
        mem.wf(),
        va + 8 <= usize::MAX,
    ensures
        r is Some <==> range_mapped(*pt, *mem, va as int, 8),
        r is Some ==> r->0 == le_u64(user_bytes(*pt, *mem, va as int, 8)),
{
    let b = match copy_from_user(pt, mem, va, 8) {
        Some(b) => b,
        None => return None,
    };
    Some((b[0] as u64) | ((b[1] as u64) << 8) | ((b[2] as u64) << 16) | ((b[3] as u64) << 24)
        | ((b[4] as u64) << 32) | ((b[5] as u64) << 40) | ((b[6] as u64) << 48) | ((b[7] as u64) << 56))
}

/// The UTF-8 encoding of a string whose characters are the bytes of `s`.
pub open spec fn latin1_utf8(s: Seq<u8>) -> Seq<u8>
    decreases s.len(),
{
    if s.len() == 0 {
        Seq::empty()
    } else {
        let b = s.last();
        latin1_utf8(s.drop_last()) + if b < 0x80 { seq![b] } else { seq![(0xc0u8 | (b >> 6u8)) as u8, (0x80u8 | (b & 0x3fu8)) as u8] }
    }
}

/// The byte at `va + k`.
pub open spec fn ubyte(pt: PageTable, mem: PhysMem, va: int, k: int) -> u8 {
    mem.byte(user_pa(pt, mem, va + k)->0 as int)
}

/// The length of the string at `va`: its first zero byte, if that lies
/// within the first 4097 bytes and every byte up to it is mapped.
pub open spec fn user_str_len(pt: PageTable, mem: PhysMem, va: int) -> Option<nat> {
    if exists|n: nat| n <= 4096 && range_mapped(pt, mem, va, (n + 1) as int) && #[trigger] ubyte(pt, mem, va, n as int) == 0
        && forall|k: int| 0 <= k < n ==> #[trigger] ubyte(pt, mem, va, k) != 0 {
        Some(choose|n: nat| n <= 4096 && range_mapped(pt, mem, va, (n + 1) as int) && #[trigger] ubyte(pt, mem, va, n as int) == 0
            && forall|k: int| 0 <= k < n ==> #[trigger] ubyte(pt, mem, va, k) != 0)
    } else {
        None
    }
}

/// The string at user address `va`, each byte taken as a character, as
/// UTF-8; `None` when a byte before its end is not mapped or it is longer
/// than 4096 bytes.
pub fn read_user_str(pt: &PageTable, mem: &PhysMem, va: usize) -> (r: Option<Vec<u8>>)
    requires
        mem.wf(),
        va + 4097 <= usize::MAX,
    ensures
        r is Some <==> user_str_len(*pt, *mem, va as int) is Some,
        r is Some ==> r->0@ == latin1_utf8(user_bytes(*pt, *mem, va as int, user_str_len(*pt, *mem, va as int)->0)),
{
    let mut s: Vec<u8> = Vec::new();
    let mut off: usize = 0;
    loop
        invariant
            off <= 4096,
            va + 4097 <= usize::MAX,
            mem.wf(),
            range_mapped(*pt, *mem, va as int, off as int),
            forall|k: int| 0 <= k < off ==> #[trigger] ubyte(*pt, *mem, va as int, k) != 0,
            s@ == latin1_utf8(user_bytes(*pt, *mem, va as int, off as nat)),
        decreases 4097 - off,
    {
        let b = match read_user_byte(pt, mem, va + off) {
            Some(b) => b,
            None => {
                proof {
                    if user_str_len(*pt, *mem, va as int) is Some {
                        let n = user_str_len(*pt, *mem, va as int)->0;
                        assert(ubyte(*pt, *mem, va as int, n as int) == 0);
                        if n < off {
                            assert(ubyte(*pt, *mem, va as int, n as int) != 0);
                        } else {
                            assert(range_mapped(*pt, *mem, va as int, (n + 1) as int));
                            assert(user_pa(*pt, *mem, va + off) is Some);
                        }
                    }
                }
                return None;
            },
        };
        if b == 0 {
            proof {
                let n = off as nat;
                assert(ubyte(*pt, *mem, va as int, off as int) == 0);
                assert forall|i: int| 0 <= i < off + 1 implies #[trigger] user_pa(*pt, *mem, va + i) is Some by {
                    if i < off {
                        assert(range_mapped(*pt, *mem, va as int, off as int));
                    }
                }
                assert(range_mapped(*pt, *mem, va as int, (n + 1) as int));
                assert(user_str_len(*pt, *mem, va as int) is Some);
                let m = user_str_len(*pt, *mem, va as int)->0;
                assert(ubyte(*pt, *mem, va as int, m as int) == 0);
                if m < n {
                    assert(ubyte(*pt, *mem, va as int, m as int) != 0);
                } else if m > n {
                    assert(ubyte(*pt, *mem, va as int, n as int) != 0);
                }
            }
            return Some(s);
        }
        let ghost before = user_bytes(*pt, *mem, va as int, off as nat);
        if b < 0x80 {
            s.push(b);
        } else {
            s.push(0xc0u8 | (b >> 6u8));
            s.push(0x80u8 | (b & 0x3fu8));
        }
        off = off + 1;
        proof {
            assert(ubyte(*pt, *mem, va as int, (off - 1) as int) == b);
            let after = user_bytes(*pt, *mem, va as int, off as nat);
            assert(after.drop_last() =~= before);
            assert(after.last() == b);
        }
        if off > 4096 {
            proof {
                if user_str_len(*pt, *mem, va as int) is Some {
                    let n = user_str_len(*pt, *mem, va as int)->0;
                    assert(ubyte(*pt, *mem, va as int, n as int) == 0);
                    assert(ubyte(*pt, *mem, va as int, n as int) != 0);
                }
            }
            return None;
        }
    }
}

/// The length of the zero-terminated string at `va`: its first zero byte,
/// when every byte up to it is mapped.
pub open spec fn user_cstr_len(pt: PageTable, mem: PhysMem, va: int) -> Option<nat> {
    if exists|n: nat| range_mapped(pt, mem, va, (n + 1) as int) && #[trigger] ubyte(pt, mem, va, n as int) == 0
        && forall|k: int| 0 <= k < n ==> #[trigger] ubyte(pt, mem, va, k) != 0 {
        Some(choose|n: nat| range_mapped(pt, mem, va, (n + 1) as int) && #[trigger] ubyte(pt, mem, va, n as int) == 0
            && forall|k: int| 0 <= k < n ==> #[trigger] ubyte(pt, mem, va, k) != 0)
    } else {
        None
    }
}

/// The bytes of the zero-terminated string at user address `va`, without
/// its zero; `None` when a byte before its end is not mapped.
pub fn read_user_cstr(pt: &PageTable, mem: &PhysMem, va: usize) -> (r: Option<Vec<u8>>)
    requires
        mem.wf(),
    ensures
        r is Some <==> user_cstr_len(*pt, *mem, va as int) is Some,
        r is Some ==> r->0@ == user_bytes(*pt, *mem, va as int, user_cstr_len(*pt, *mem, va as int)->0),
{
    let mut s: Vec<u8> = Vec::new();
    let mut off: usize = 0;
    loop
        invariant
            va + off <= usize::MAX,
            mem.wf(),
            range_mapped(*pt, *mem, va as int, off as int),
            forall|k: int| 0 <= k < off ==> #[trigger] ubyte(*pt, *mem, va as int, k) != 0,
            s@ == user_bytes(*pt, *mem, va as int, off as nat),
        decreases usize::MAX - va - off,
    {
        let b = match read_user_byte(pt, mem, va + off) {
            Some(b) => b,
            None => {
                proof {
                    if user_cstr_len(*pt, *mem, va as int) is Some {
                        let n = user_cstr_len(*pt, *mem, va as int)->0;
                        assert(ubyte(*pt, *mem, va as int, n as int) == 0);
                        if n < off {
                            assert(ubyte(*pt, *mem, va as int, n as int) != 0);
                        } else {
                            assert(range_mapped(*pt, *mem, va as int, (n + 1) as int));
                            assert(user_pa(*pt, *mem, va + off) is Some);
                        }
                    }
                }
                return None;
            },
        };
        if b == 0 {
            proof {
                let n = off as nat;
                assert(ubyte(*pt, *mem, va as int, off as int) == 0);
                assert forall|i: int| 0 <= i < off + 1 implies #[trigger] user_pa(*pt, *mem, va + i) is Some by {
                    if i < off {
                        assert(range_mapped(*pt, *mem, va as int, off as int));
                    }
                }
                assert(range_mapped(*pt, *mem, va as int, (n + 1) as int));
                assert(user_cstr_len(*pt, *mem, va as int) is Some);
                let m = user_cstr_len(*pt, *mem, va as int)->0;
                assert(ubyte(*pt, *mem, va as int, m as int) == 0);
                if m < n {
                    assert(ubyte(*pt, *mem, va as int, m as int) != 0);
                } else if m > n {
                    assert(ubyte(*pt, *mem, va as int, n as int) != 0);
                }
            }
            return Some(s);
        }
        let ghost before = user_bytes(*pt, *mem, va as int, off as nat);
        s.push(b);
        proof {
            assert(ubyte(*pt, *mem, va as int, off as int) == b);
            let after = user_bytes(*pt, *mem, va as int, (off + 1) as nat);
            assert(after =~= before.push(b));
            assert forall|i: int| 0 <= i < off + 1 implies #[trigger] user_pa(*pt, *mem, va + i) is Some by {
                if i < off {
                    assert(range_mapped(*pt, *mem, va as int, off as int));
                }
            }
        }
        if va + off == usize::MAX {
            proof {
                if user_cstr_len(*pt, *mem, va as int) is Some {
                    let n = user_cstr_len(*pt, *mem, va as int)->0;
                    assert(ubyte(*pt, *mem, va as int, n as int) == 0);
                    if n <= off {
                        assert(ubyte(*pt, *mem, va as int, n as int) != 0);
                    } else {
                        assert(range_mapped(*pt, *mem, va as int, (n + 1) as int));
                        assert(user_pa(*pt, *mem, va + off + 1) is Some);
                    }
                }
            }
            return None;
        }
        off = off + 1;
    }
}

} // verus!
