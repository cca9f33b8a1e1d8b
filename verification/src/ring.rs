//! Fixed-capacity circular byte store: the alternate, bounded backend for
//! the parser's byte store on constrained targets. A backing region of `n`
//! bytes holds up to `n - 1` pending bytes; one slot always stays empty so a
//! full ring and an empty ring can be told apart. A full ring rejects a push
//! instead of overwriting: backpressure to the feeder, never silent loss.

use vstd::prelude::*;

verus! {

/// Fixed-capacity byte FIFO with wraparound indexing.
pub struct CircularBuffer {
    buf: Vec<u8>,
    head: usize,
    tail: usize,
}

impl View for CircularBuffer {
    type V = Seq<u8>;

    /// The pending bytes, oldest first.
    closed spec fn view(&self) -> Seq<u8> {
        if self.head <= self.tail {
            self.buf@.subrange(self.head as int, self.tail as int)
        } else {
            self.buf@.subrange(self.head as int, self.buf@.len() as int) + self.buf@.subrange(
                0,
                self.tail as int,
            )
        }
    }
}

impl CircularBuffer {
    /// Size of the backing region; one more than the usable capacity.
    pub closed spec fn backing(&self) -> nat {
        self.buf@.len()
    }

    pub closed spec fn wf(&self) -> bool {
        &&& self.backing() >= 1
        &&& self.head < self.backing()
        &&& self.tail < self.backing()
    }

    /// The ring never holds as many bytes as its backing region: one slot
    /// always stays empty.
    pub proof fn lemma_len_bound(&self)
        requires
            self.wf(),
        ensures
            self@.len() < self.backing(),
    {
    }

    /// An empty ring over the given backing region.
    pub fn new(buf: Vec<u8>) -> (r: CircularBuffer)
        requires
            buf.len() >= 1,
        ensures
            r.wf(),
            r@ == Seq::<u8>::empty(),
            r.backing() == buf@.len(),
    {
        let r = CircularBuffer { buf, head: 0, tail: 0 };
        proof {
            assert(r@ =~= Seq::<u8>::empty());
        }
        r
    }

    /// Number of pending bytes; always less than the backing size.
    pub fn len(&self) -> (r: usize)
        requires
            self.wf(),
        ensures
            r == self@.len(),
            r < self.backing(),
    {
        if self.head <= self.tail {
            self.tail - self.head
        } else {
            self.buf.len() - self.head + self.tail
        }
    }

    /// Appends one byte at the back. Returns false, changing nothing, when
    /// the ring is full: the feeder must hold the byte back.
    pub fn push(&mut self, data: u8) -> (r: bool)
        requires
            old(self).wf(),
        ensures
            final(self).wf(),
            final(self).backing() == old(self).backing(),
            old(self)@.len() + 1 == old(self).backing() ==> r == false
                && final(self)@ == old(self)@,
            old(self)@.len() + 1 < old(self).backing() ==> r == true
                && final(self)@ == old(self)@.push(data),
    {
        let n = self.buf.len();
        let next = if self.tail + 1 == n {
            0
        } else {
            self.tail + 1
        };
        if next == self.head {
            return false;
        }
        self.buf[self.tail] = data;
        self.tail = next;
        proof {
            if old(self).head <= old(self).tail {
                if next == 0 {
                    assert(self@ =~= old(self)@.push(data));
                } else {
                    assert(self@ =~= old(self)@.push(data));
                }
            } else {
                assert(self@ =~= old(self)@.push(data));
            }
        }
        true
    }

    /// Removes and returns the oldest pending byte, or `None` when the ring
    /// is empty.
    pub fn pop(&mut self) -> (r: Option<u8>)
        requires
            old(self).wf(),
        ensures
            final(self).wf(),
            final(self).backing() == old(self).backing(),
            old(self)@.len() == 0 ==> r is None && final(self)@ == old(self)@,
            old(self)@.len() > 0 ==> r == Some(old(self)@[0])
                && final(self)@ == old(self)@.skip(1),
    {
        if self.head == self.tail {
            return None;
        }
        let n = self.buf.len();
        let x = self.buf[self.head];
        self.head = if self.head + 1 == n {
            0
        } else {
            self.head + 1
        };
        proof {
            assert(self@ =~= old(self)@.skip(1));
        }
        Some(x)
    }

    /// The pending byte at `idx`, counted from the logical front.
    pub fn at(&self, idx: usize) -> (r: u8)
        requires
            self.wf(),
            idx < self@.len(),
        ensures
            r == self@[idx as int],
    {
        let n = self.buf.len();
        let i = if idx < n - self.head {
            self.head + idx
        } else {
            idx - (n - self.head)
        };
        self.buf[i]
    }

    /// Non-mutating forward iteration over the current contents: the handle
    /// yields exactly the pending bytes, oldest first, and the ring itself
    /// is only read.
    pub fn iter(&self) -> (it: CircularBufferIter)
        requires
            self.wf(),
        ensures
            it.wf(),
            it.remaining() == self@,
    {
        let n = self.len();
        let mut items: Vec<u8> = Vec::new();
        let mut i: usize = 0;
        while i < n
            invariant
                i <= n,
                n == self@.len(),
                self.wf(),
                items@ == self@.subrange(0, i as int),
            decreases n - i,
        {
            items.push(self.at(i));
            proof {
                assert(items@ =~= self@.subrange(0, i as int + 1));
            }
            i = i + 1;
        }
        proof {
            assert(items@ =~= self@);
        }
        CircularBufferIter { items, pos: 0 }
    }
}

/// Forward iterator over a ring's contents at the time `iter` was called.
pub struct CircularBufferIter {
    items: Vec<u8>,
    pos: usize,
}

impl CircularBufferIter {
    /// The bytes not yet yielded.
    pub closed spec fn remaining(&self) -> Seq<u8> {
        self.items@.skip(self.pos as int)
    }

    pub closed spec fn wf(&self) -> bool {
        self.pos <= self.items@.len()
    }

    /// Yields the next byte, front to back, or `None` once exhausted.
    pub fn next(&mut self) -> (r: Option<u8>)
        requires
            old(self).wf(),
        ensures
            final(self).wf(),
            old(self).remaining().len() == 0 ==> r is None
                && final(self).remaining() == old(self).remaining(),
            old(self).remaining().len() > 0 ==> r == Some(old(self).remaining()[0])
                && final(self).remaining() == old(self).remaining().skip(1),
    {
        if self.pos < self.items.len() {
            let x = self.items[self.pos];
            self.pos = self.pos + 1;
            proof {
                assert(self.remaining() =~= old(self).remaining().skip(1));
            }
            Some(x)
        } else {
            None
        }
    }
}

} // verus!
