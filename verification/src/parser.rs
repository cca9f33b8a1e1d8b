//! Streaming parser over a growable, compacting byte store: absorbs chunks,
//! hands out one scan outcome at a time, and drops the consumed prefix
//! exactly once when an iteration is committed.

use vstd::prelude::*;

use crate::packets::MAX_PAYLOAD_LEN;
use crate::packets::PacketRef;
use crate::packets::ParserError;
use crate::packets::SYNC_CHAR_2;
use crate::packets::dispatch_spec;
use crate::packets::match_packet;
use crate::packets::packet_result_view;
use crate::ring::CircularBuffer;
use crate::scan::ScanEvent;
use crate::scan::absorb;
use crate::scan::find_sync;
use crate::scan::le16;
use crate::scan::lemma_scan_from_skip;
use crate::scan::lemma_sync_pos;
use crate::scan::scan;

verus! {

/// Copies `data[start..end]` into a fresh vector.
fn copy_range(data: &[u8], start: usize, end: usize) -> (r: Vec<u8>)
    requires
        start <= end <= data.len(),
    ensures
        r@ == data@.subrange(start as int, end as int),
{
    let mut r: Vec<u8> = Vec::new();
    let mut i: usize = start;
    while i < end
        invariant
            start <= i <= end <= data.len(),
            r@ == data@.subrange(start as int, i as int),
        decreases end - i,
    {
        r.push(data[i]);
        proof {
            assert(r@ =~= data@.subrange(start as int, i as int + 1));
        }
        i = i + 1;
    }
    r
}

/// Reads the 16-bit value stored little-endian as `lo`, `hi`.
fn le16_bytes(lo: u8, hi: u8) -> (r: u16)
    ensures
        r == le16(lo, hi),
{
    (lo as u16) + 256 * (hi as u16)
}

/// Streaming parser over a fixed-capacity ring: the byte store for
/// constrained targets. A chunk is absorbed byte by byte with push
/// rejection — what does not fit is reported back to the feeder instead of
/// overwriting or silently dropping pending bytes — and the same scanner
/// runs over the ring's contents.
pub struct BufParser {
    buf: CircularBuffer,
}

impl BufParser {
    /// The pending bytes, oldest first.
    pub closed spec fn pending(&self) -> Seq<u8> {
        self.buf@
    }

    pub closed spec fn wf(&self) -> bool {
        self.buf.wf()
    }

    /// Usable capacity: one less than the backing region's size.
    pub closed spec fn capacity(&self) -> int {
        self.buf.backing() - 1
    }

    /// An empty ring-backed parser over the given backing region.
    pub fn new(buf: Vec<u8>) -> (r: BufParser)
        requires
            buf.len() >= 1,
        ensures
            r.wf(),
            r.pending() == Seq::<u8>::empty(),
            r.capacity() == buf@.len() - 1,
    {
        BufParser { buf: CircularBuffer::new(buf) }
    }

    /// Absorbs the longest prefix of the chunk that fits the ring — the
    /// rest is rejected, and the handle says how much was taken — then
    /// hands out the iteration handle for this feed call. The handle scans
    /// a snapshot of the pending bytes from the front; `commit` pops what
    /// it consumed.
    #[verifier::loop_isolation(false)]
    pub fn consume(&mut self, new_data: &[u8]) -> (it: BufParserIter)
        requires
            old(self).wf(),
        ensures
            final(self).wf(),
            final(self).capacity() == old(self).capacity(),
            it.absorbed() == if new_data@.len() <= old(self).capacity() - old(self).pending().len()
                { new_data@.len() as int } else { old(self).capacity() - old(self).pending().len() },
            final(self).pending() == old(self).pending() + new_data@.take(it.absorbed()),
            it.wf(),
            it.cursor() == 0,
            it.data() == final(self).pending(),
    {
        let ghost pending0 = self.buf@;
        let mut i: usize = 0;
        let mut rejected = false;
        while i < new_data.len()
            invariant
                i <= new_data.len(),
                self.wf(),
                self.buf.backing() == old(self).buf.backing(),
                self.buf@ == pending0 + new_data@.take(i as int),
                rejected ==> pending0.len() + i as int == self.capacity(),
                !rejected ==> pending0.len() + i as int == self.buf@.len(),
            decreases new_data.len() - i,
        {
            proof {
                self.buf.lemma_len_bound();
            }
            if self.buf.push(new_data[i]) {
                proof {
                    assert(self.buf@ =~= pending0 + new_data@.take(i as int + 1));
                }
                i = i + 1;
            } else {
                rejected = true;
                break;
            }
        }
        proof {
            self.buf.lemma_len_bound();
        }
        let n = self.buf.len();
        let mut data: Vec<u8> = Vec::new();
        let mut k: usize = 0;
        while k < n
            invariant
                k <= n,
                n == self.buf@.len(),
                self.wf(),
                data@ == self.buf@.subrange(0, k as int),
            decreases n - k,
        {
            data.push(self.buf.at(k));
            proof {
                assert(data@ =~= self.buf@.subrange(0, k as int + 1));
            }
            k = k + 1;
        }
        proof {
            assert(data@ =~= self.buf@);
        }
        BufParserIter { inner: ParserIter { buf: data, off: 0 }, taken: i }
    }

    /// Ends a ring-backed iteration: pops exactly the bytes the handle
    /// consumed, oldest first. Performed once per handle.
    pub fn commit(&mut self, it: BufParserIter)
        requires
            old(self).wf(),
            it.wf(),
            it.data() == old(self).pending(),
        ensures
            final(self).wf(),
            final(self).capacity() == old(self).capacity(),
            final(self).pending() == it.data().skip(it.cursor()),
    {
        let end = it.inner.off;
        let mut k: usize = 0;
        while k < end
            invariant
                k <= end,
                end <= old(self).pending().len(),
                self.wf(),
                self.buf.backing() == old(self).buf.backing(),
                self.buf@ == old(self).pending().skip(k as int),
            decreases end - k,
        {
            let _ = self.buf.pop();
            proof {
                assert(old(self).pending().skip(k as int).skip(1) =~= old(self).pending().skip(
                    k as int + 1,
                ));
            }
            k = k + 1;
        }
    }
}

/// Iterator over the scan outcomes of one ring-backed feed call. Created by
/// `BufParser::consume`; given back through `BufParser::commit`.
pub struct BufParserIter {
    inner: ParserIter,
    taken: usize,
}

impl BufParserIter {
    /// The bytes this iteration scans: the ring's contents when the handle
    /// was created.
    pub closed spec fn data(&self) -> Seq<u8> {
        self.inner.data()
    }

    /// The scan cursor: everything before it has been examined and is
    /// popped on commit.
    pub closed spec fn cursor(&self) -> int {
        self.inner.cursor()
    }

    /// How many bytes of the feed call's chunk the ring accepted.
    pub closed spec fn absorbed(&self) -> int {
        self.taken as int
    }

    pub closed spec fn wf(&self) -> bool {
        self.inner.wf()
    }

    /// How many bytes of the chunk were absorbed; the rejected tail is the
    /// feeder's to retry after outcomes have been drained and committed.
    pub fn accepted(&self) -> (r: usize)
        ensures
            r == self.absorbed(),
    {
        self.taken
    }

    /// Produces the next scan outcome, or `None` when more bytes are
    /// needed, exactly as `ParserIter::next` does.
    pub fn next(&mut self) -> (r: Option<Result<PacketRef, ParserError>>)
        requires
            old(self).wf(),
        ensures
            final(self).wf(),
            final(self).data() == old(self).data(),
            final(self).cursor() == scan(old(self).data(), old(self).cursor()).0,
            final(self).absorbed() == old(self).absorbed(),
            match scan(old(self).data(), old(self).cursor()).1 {
                ScanEvent::NeedMore => r is None,
                ScanEvent::BadChecksum { expect, got } => r == Some(
                    Err::<PacketRef, ParserError>(ParserError::InvalidChecksum { expect, got }),
                ),
                ScanEvent::Frame { class, msg_id, payload } => r matches Some(res)
                    && packet_result_view(res) == dispatch_spec(class, msg_id, payload),
            },
    {
        self.inner.next()
    }
}

/// Streaming parser for the UBX protocol with a growable byte store.
pub struct Parser {
    buf: Vec<u8>,
}

impl View for Parser {
    type V = Seq<u8>;

    /// The pending bytes held across calls, in arrival order.
    closed spec fn view(&self) -> Seq<u8> {
        self.buf@
    }
}

impl Default for Parser {
    /// A parser holding no pending bytes.
    fn default() -> (r: Parser)
        ensures
            r@ == Seq::<u8>::empty(),
    {
        Parser { buf: Vec::new() }
    }
}

impl Parser {
    /// True exactly when no bytes are pending.
    pub fn is_buffer_empty(&self) -> (r: bool)
        ensures
            r == (self@.len() == 0),
    {
        self.buf.is_empty()
    }

    /// Number of pending bytes.
    pub fn buffer_len(&self) -> (r: usize)
        ensures
            r == self@.len(),
    {
        self.buf.len()
    }

    /// Absorbs a chunk of newly arrived bytes and hands out the iteration
    /// handle for this feed call. The handle takes the whole store with it;
    /// `commit` returns the unconsumed rest.
    ///
    /// The bytes the handle scans are exactly `absorb` of the pending bytes
    /// and the chunk: a marker in the pending bytes keeps everything, a
    /// marker only in the chunk drops all leading noise, no marker anywhere
    /// drops everything.
    pub fn consume(&mut self, new_data: &[u8]) -> (it: ParserIter)
        ensures
            final(self)@ == Seq::<u8>::empty(),
            it.wf(),
            (it.data(), it.cursor()) == absorb(old(self)@, new_data@),
    {
        let mut b: Vec<u8> = Vec::new();
        core::mem::swap(&mut self.buf, &mut b);
        match find_sync(b.as_slice(), 0) {
            Some(i) => {
                b.extend_from_slice(new_data);
                ParserIter { buf: b, off: i }
            },
            None => {
                match find_sync(new_data, 0) {
                    Some(j) => {
                        let rest = copy_range(new_data, j, new_data.len());
                        proof {
                            assert(rest@ =~= new_data@.skip(j as int));
                        }
                        ParserIter { buf: rest, off: 0 }
                    },
                    None => {
                        ParserIter { buf: Vec::new(), off: 0 }
                    },
                }
            },
        }
    }

    /// Ends an iteration: keeps exactly the bytes at and after the handle's
    /// final cursor. Performed once per handle; safe even when the cursor
    /// reached the end of the store.
    pub fn commit(&mut self, it: ParserIter)
        requires
            it.wf(),
        ensures
            final(self)@ == it.data().skip(it.cursor()),
    {
        let ParserIter { buf, off } = it;
        let rest = copy_range(buf.as_slice(), off, buf.len());
        proof {
            assert(rest@ =~= buf@.skip(off as int));
        }
        self.buf = rest;
    }
}

/// Iterator over the scan outcomes of one feed call. Created by
/// `Parser::consume`; given back through `Parser::commit`.
pub struct ParserIter {
    buf: Vec<u8>,
    off: usize,
}

impl ParserIter {
    /// The bytes this iteration scans.
    pub closed spec fn data(&self) -> Seq<u8> {
        self.buf@
    }

    /// The scan cursor: everything before it has been examined and will be
    /// dropped on commit.
    pub closed spec fn cursor(&self) -> int {
        self.off as int
    }

    pub open spec fn wf(&self) -> bool {
        0 <= self.cursor() <= self.data().len()
    }

    /// Produces the next scan outcome, or `None` when more bytes are needed.
    /// One call performs exactly one step of `scan`: the cursor moves to the
    /// step's stop position and the step's outcome is returned, a checksum
    /// mismatch as `ParserError::InvalidChecksum`, a valid frame as the
    /// dispatcher's result for its class, id and payload.
    #[verifier::loop_isolation(false)]
    pub fn next(&mut self) -> (r: Option<Result<PacketRef, ParserError>>)
        requires
            old(self).wf(),
        ensures
            final(self).wf(),
            final(self).data() == old(self).data(),
            final(self).cursor() == scan(old(self).data(), old(self).cursor()).0,
            match scan(old(self).data(), old(self).cursor()).1 {
                ScanEvent::NeedMore => r is None,
                ScanEvent::BadChecksum { expect, got } => r == Some(
                    Err::<PacketRef, ParserError>(ParserError::InvalidChecksum { expect, got }),
                ),
                ScanEvent::Frame { class, msg_id, payload } => r matches Some(res)
                    && packet_result_view(res) == dispatch_spec(class, msg_id, payload),
            },
    {
        let ghost d = self.buf@;
        let ghost off0 = self.off as int;
        loop
            invariant
                self.off <= self.buf.len(),
                self.buf@ == d,
                off0 <= self.off as int,
                0 <= off0 <= d.len(),
                scan(d, off0) == scan(d, self.off as int),
            decreases self.buf.len() - self.off,
        {
            let base = self.off;
            let p = match find_sync(self.buf.as_slice(), base) {
                Some(p) => p,
                None => {
                    proof {
                        lemma_sync_pos(d, base as int);
                        lemma_scan_from_skip(d, base as int, base as int, d.len() as int);
                    }
                    return None;
                },
            };
            proof {
                lemma_sync_pos(d, base as int);
                lemma_scan_from_skip(d, base as int, base as int, p as int);
            }
            if self.buf.len() - p < 2 {
                return None;
            }
            if self.buf[p + 1] != SYNC_CHAR_2 {
                self.off = p + 2;
                continue;
            }
            if self.buf.len() - p < 6 {
                return None;
            }
            let plen16 = le16_bytes(self.buf[p + 4], self.buf[p + 5]);
            if plen16 > MAX_PAYLOAD_LEN {
                self.off = p + 2;
                continue;
            }
            let plen = plen16 as usize;
            if self.buf.len() - p < 8 + plen {
                return None;
            }
            let (ck_a, ck_b) = crate::checksum::checksum_range(&self.buf, p + 2, p + 6 + plen);
            let expect_a = self.buf[p + 6 + plen];
            let expect_b = self.buf[p + 7 + plen];
            if ck_a != expect_a || ck_b != expect_b {
                self.off = p + 2;
                return Some(
                    Err(
                        ParserError::InvalidChecksum {
                            expect: le16_bytes(expect_a, expect_b),
                            got: le16_bytes(ck_a, ck_b),
                        },
                    ),
                );
            }
            let class = self.buf[p + 2];
            let msg_id = self.buf[p + 3];
            let payload = copy_range(self.buf.as_slice(), p + 6, p + 6 + plen);
            self.off = p + 8 + plen;
            return Some(match_packet(class, msg_id, payload));
        }
    }
}

} // verus!
