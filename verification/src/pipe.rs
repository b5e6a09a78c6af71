//! The ring buffer behind a pipe.
use vstd::prelude::*;

verus! {

/// Bytes of a pipe's ring buffer; it holds at most one byte fewer.
pub const PIPE_BUF: usize = 4096;

/// A pipe: a ring of `PIPE_BUF` bytes with the unread ones from `head` up
/// to `tail`.
pub struct PipeInner {
    buf: Vec<u8>,
    head: usize,
    tail: usize,
    write_closed: bool,
    read_closed: bool,
}

impl PipeInner {
    pub closed spec fn wf(&self) -> bool {
        &&& self.buf@.len() == PIPE_BUF
        &&& self.head < PIPE_BUF
        &&& self.tail < PIPE_BUF
    }

    pub closed spec fn write_end_closed(&self) -> bool {
        self.write_closed
    }

    pub closed spec fn read_end_closed(&self) -> bool {
        self.read_closed
    }

    /// How many unread bytes the pipe holds.
    pub closed spec fn count(&self) -> nat {
        ((self.tail + PIPE_BUF - self.head) % (PIPE_BUF as int)) as nat
    }

    /// The unread bytes, oldest first.
    pub closed spec fn contents(&self) -> Seq<u8> {
        Seq::new(self.count(), |i: int| self.buf@[(self.head + i) % (PIPE_BUF as int)])
    }

    /// Law: a pipe never holds more than `PIPE_BUF - 1` unread bytes.
    pub proof fn law_pipe_capacity(&self)
        requires
            self.wf(),
        ensures
            self.contents().len() < PIPE_BUF,
    {
    }

    /// An empty, open pipe.
    pub fn new() -> (p: PipeInner)
        ensures
            p.wf(),
            p.contents() == Seq::<u8>::empty(),
            !p.write_end_closed(),
            !p.read_end_closed(),
    {
        let mut buf: Vec<u8> = Vec::with_capacity(PIPE_BUF);
        let mut i: usize = 0;
        while i < PIPE_BUF
            invariant
                i <= PIPE_BUF,
                buf@.len() == i,
            decreases PIPE_BUF - i,
        {
            buf.push(0);
            i = i + 1;
        }
        let p = PipeInner { buf, head: 0, tail: 0, write_closed: false, read_closed: false };
        assert(p.contents() =~= Seq::<u8>::empty());
        p
    }

    /// Appends as much of `data` as fits; nothing once the read end is
    /// closed. Returns the bytes taken.
    pub fn write(&mut self, data: &[u8]) -> (n: usize)
        requires
            old(self).wf(),
        ensures
            final(self).wf(),
            final(self).write_end_closed() == old(self).write_end_closed(),
            final(self).read_end_closed() == old(self).read_end_closed(),
            n == if old(self).read_end_closed() { 0 } else { vstd::math::min(data@.len() as int, PIPE_BUF - 1 - old(self).contents().len()) },
            final(self).contents() == old(self).contents() + data@.take(n as int),
    {
        if self.read_closed {
            assert(data@.take(0) =~= Seq::<u8>::empty());
            assert(self.contents() =~= old(self).contents() + data@.take(0));
            return 0;
        }
        let mut written: usize = 0;
        let mut stop = false;
        for i in 0..data.len()
            invariant
                self.wf(),
                self.read_closed == old(self).read_closed,
                self.write_closed == old(self).write_closed,
                self.head == old(self).head,
                written == i || stop,
                written <= i,
                stop ==> self.contents().len() == PIPE_BUF - 1,
                !stop ==> written == i,
                written <= data@.len(),
                self.contents().len() == old(self).contents().len() + written,
                self.contents() == old(self).contents() + data@.take(written as int),
        {
            if !stop {
                let next = (self.tail + 1) % self.buf.len();
                if next == self.head {
                    stop = true;
                } else {
                    let ghost before = self.contents();
                    let ghost t = self.tail;
                    self.buf.set(self.tail, data[i]);
                    self.tail = next;
                    written = written + 1;
                    proof {
                        assert(self.contents().len() == before.len() + 1);
                        assert forall|k: int| 0 <= k < before.len() implies self.contents()[k] == before[k] by {
                            assert((self.head + k) % (PIPE_BUF as int) != t as int);
                        }
                        assert(self.contents()[before.len() as int] == data@[i as int]);
                        assert(self.contents() =~= before.push(data@[i as int]));
                        assert(data@.take(written as int) =~= data@.take(i as int).push(data@[i as int]));
                        assert(self.contents() =~= old(self).contents() + data@.take(written as int));
                    }
                }
            }
        }
        written
    }

    /// Takes the oldest unread bytes into `out`, as many as fit. Returns the
    /// bytes taken.
    pub fn read(&mut self, out: &mut [u8]) -> (n: usize)
        requires
            old(self).wf(),
        ensures
            final(self).wf(),
            final(self).write_end_closed() == old(self).write_end_closed(),
            final(self).read_end_closed() == old(self).read_end_closed(),
            n == vstd::math::min(old(out)@.len() as int, old(self).contents().len() as int),
            final(out)@ == old(self).contents().take(n as int) + old(out)@.skip(n as int),
            final(self).contents() == old(self).contents().skip(n as int),
    {
        let mut n: usize = 0;
        let olen = out.len();
        while n < olen && self.head != self.tail
            invariant
                self.wf(),
                olen == out@.len(),
                out@.len() == old(out)@.len(),
                self.read_closed == old(self).read_closed,
                self.write_closed == old(self).write_closed,
                n <= old(self).contents().len(),
                n <= olen,
                self.contents() == old(self).contents().skip(n as int),
                forall|k: int| 0 <= k < n ==> out@[k] == old(self).contents()[k],
                forall|k: int| n <= k < out@.len() ==> out@[k] == old(out)@[k],
            decreases olen - n,
        {
            let ghost before = self.contents();
            let ghost h = self.head;
            proof {
                assert(before.len() > 0);
                assert(before[0] == self.buf@[h as int]);
                assert(old(self).contents().skip(n as int)[0] == old(self).contents()[n as int]);
            }
            out[n] = self.buf[self.head];
            self.head = (self.head + 1) % self.buf.len();
            n = n + 1;
            proof {
                let t = self.tail as int;
                if h + 1 < PIPE_BUF {
                    vstd::arithmetic::div_mod::lemma_small_mod((h + 1) as nat, PIPE_BUF as nat);
                    assert(self.head == h + 1);
                } else {
                    vstd::arithmetic::div_mod::lemma_mod_self_0(PIPE_BUF as int);
                    assert(self.head == 0);
                    assert(t < PIPE_BUF - 1);
                }
                assert(self.count() == before.len() - 1);
                assert(self.contents().len() == before.len() - 1);
                assert forall|k: int| 0 <= k < self.contents().len() implies self.contents()[k] == before[k + 1] by {
                    vstd::arithmetic::div_mod::lemma_add_mod_noop(h + 1, k, PIPE_BUF as int);
                    vstd::arithmetic::div_mod::lemma_small_mod(k as nat, PIPE_BUF as nat);
                }
                assert(self.contents() =~= before.skip(1));
                assert(old(self).contents().skip(n - 1).skip(1) =~= old(self).contents().skip(n as int));
            }
        }
        assert(out@ =~= old(self).contents().take(n as int) + old(out)@.skip(n as int));
        n
    }
}

/// Law: what is written to an empty pipe is read back in order, up to its
/// capacity.
pub proof fn law_pipe_fifo(empty: PipeInner, written: PipeInner, read: PipeInner, data: Seq<u8>, n: nat, m: nat, out: Seq<u8>, out_after: Seq<u8>)
    requires
        empty.contents() == Seq::<u8>::empty(),
        !empty.read_end_closed(),
        n == vstd::math::min(data.len() as int, PIPE_BUF - 1),
        written.contents() == empty.contents() + data.take(n as int),
        m == vstd::math::min(out.len() as int, written.contents().len() as int),
        out_after == written.contents().take(m as int) + out.skip(m as int),
        read.contents() == written.contents().skip(m as int),
        out.len() >= data.len(),
        data.len() < PIPE_BUF,
    ensures
        n == data.len(),
        m == data.len(),
        out_after.take(m as int) == data,
        read.contents() == Seq::<u8>::empty(),
{
    assert(written.contents() =~= data);
    assert(out_after.take(m as int) =~= data);
    assert(read.contents() =~= Seq::<u8>::empty());
}

} // verus!
