//! Mathematical model of the frame scanner: where one scan step stops, what
//! outcome it produces, and how a chunk is absorbed into the byte store.

use vstd::prelude::*;

use crate::checksum::checksum_of;
use crate::packets::MAX_PAYLOAD_LEN;
use crate::packets::SYNC_CHAR_1;
use crate::packets::SYNC_CHAR_2;

verus! {

/// Outcome of one scan step. `NeedMore` ends the sequence of outcomes and is
/// never handed to the caller as a value.
pub enum ScanEvent {
    /// No complete candidate frame is available; wait for more bytes.
    NeedMore,
    /// A framed candidate whose trailing checksum pair did not match.
    BadChecksum { expect: u16, got: u16 },
    /// A complete frame with a valid checksum.
    Frame { class: u8, msg_id: u8, payload: Seq<u8> },
}

/// The 16-bit value stored little-endian as the bytes `lo`, `hi`.
pub open spec fn le16(lo: u8, hi: u8) -> u16 {
    (lo + 256 * hi) as u16
}

/// Position of the first marker byte at or after `from`, if any.
pub open spec fn sync_pos(s: Seq<u8>, from: int) -> Option<int>
    decreases s.len() - from,
    when 0 <= from <= s.len()
{
    if from == s.len() {
        None
    } else if s[from] == SYNC_CHAR_1 {
        Some(from)
    } else {
        sync_pos(s, from + 1)
    }
}

/// What `sync_pos` finds: the first marker byte at or after `from`.
pub proof fn lemma_sync_pos(s: Seq<u8>, from: int)
    requires
        0 <= from <= s.len(),
    ensures
        match sync_pos(s, from) {
            Some(p) => from <= p < s.len() && s[p] == SYNC_CHAR_1 && (forall|k: int|
                from <= k < p ==> s[k] != SYNC_CHAR_1),
            None => forall|k: int| from <= k < s.len() ==> s[k] != SYNC_CHAR_1,
        },
    decreases s.len() - from,
{
    if from == s.len() {
    } else if s[from] == SYNC_CHAR_1 {
    } else {
        lemma_sync_pos(s, from + 1);
    }
}

/// Finds the first marker byte of `data` at or after `from`.
pub fn find_sync(data: &[u8], from: usize) -> (r: Option<usize>)
    requires
        from <= data.len(),
    ensures
        match r {
            Some(p) => from <= p < data.len() && sync_pos(data@, from as int) == Some(p as int),
            None => sync_pos(data@, from as int) is None,
        },
{
    let mut i: usize = from;
    while i < data.len()
        invariant
            from <= i <= data.len(),
            sync_pos(data@, from as int) == sync_pos(data@, i as int),
        decreases data.len() - i,
    {
        if data[i] == SYNC_CHAR_1 {
            return Some(i);
        }
        i = i + 1;
    }
    None
}

/// One scan step over `data`. `base` is the committed cursor (where the scan
/// would stop on starvation), `j` the search position; a step starts with
/// `base == j`. Returns the cursor after the step and the outcome:
///
/// - no marker ahead, or a candidate cut short by the end of `data`, stops
///   with `NeedMore` at the committed cursor, so the candidate is retried
///   once more bytes arrive;
/// - a marker not followed by the second marker byte, or a header whose
///   declared length exceeds `MAX_PAYLOAD_LEN`, is a false match: the scan
///   resynchronizes two bytes past the marker, silently;
/// - a complete candidate whose checksum pair mismatches stops two bytes past
///   the marker and reports both pairs;
/// - a complete, valid frame stops past its last byte and carries its class,
///   id and payload.
pub open spec fn scan_from(data: Seq<u8>, base: int, j: int) -> (int, ScanEvent)
    decreases data.len() - j,
    when 0 <= base <= j <= data.len()
{
    if j == data.len() {
        (base, ScanEvent::NeedMore)
    } else if data[j] != SYNC_CHAR_1 {
        scan_from(data, base, j + 1)
    } else if data.len() - j < 2 {
        (base, ScanEvent::NeedMore)
    } else if data[j + 1] != SYNC_CHAR_2 {
        scan_from(data, j + 2, j + 2)
    } else if data.len() - j < 6 {
        (base, ScanEvent::NeedMore)
    } else if le16(data[j + 4], data[j + 5]) > MAX_PAYLOAD_LEN {
        scan_from(data, j + 2, j + 2)
    } else if data.len() - j < 8 + le16(data[j + 4], data[j + 5]) {
        (base, ScanEvent::NeedMore)
    } else {
        let plen = le16(data[j + 4], data[j + 5]) as int;
        let ck = checksum_of(data.subrange(j + 2, j + 6 + plen));
        let ea = data[j + 6 + plen];
        let eb = data[j + 7 + plen];
        if ck.0 != ea || ck.1 != eb {
            (j + 2, ScanEvent::BadChecksum { expect: le16(ea, eb), got: le16(ck.0, ck.1) })
        } else {
            (
                j + 8 + plen,
                ScanEvent::Frame {
                    class: data[j + 2],
                    msg_id: data[j + 3],
                    payload: data.subrange(j + 6, j + 6 + plen),
                },
            )
        }
    }
}

/// One scan step starting at cursor `off`.
pub open spec fn scan(data: Seq<u8>, off: int) -> (int, ScanEvent) {
    scan_from(data, off, off)
}

/// Where a scan step can stop: never before the committed cursor, never past
/// the end, and an emitted outcome always advances past `j + 1`.
pub proof fn lemma_scan_from_bounds(data: Seq<u8>, base: int, j: int)
    requires
        0 <= base <= j <= data.len(),
    ensures
        base <= scan_from(data, base, j).0 <= data.len(),
        !(scan_from(data, base, j).1 is NeedMore) ==> scan_from(data, base, j).0 >= j + 2,
    decreases data.len() - j,
{
    if j == data.len() {
    } else if data[j] != SYNC_CHAR_1 {
        lemma_scan_from_bounds(data, base, j + 1);
    } else if data.len() - j < 2 {
    } else if data[j + 1] != SYNC_CHAR_2 {
        lemma_scan_from_bounds(data, j + 2, j + 2);
    } else if data.len() - j < 6 {
    } else if le16(data[j + 4], data[j + 5]) > MAX_PAYLOAD_LEN {
        lemma_scan_from_bounds(data, j + 2, j + 2);
    } else {
    }
}

/// A scan step is unchanged by moving the search position forward over
/// non-marker bytes.
pub proof fn lemma_scan_from_skip(data: Seq<u8>, base: int, j: int, p: int)
    requires
        0 <= base <= j <= p <= data.len(),
        forall|k: int| j <= k < p ==> data[k] != SYNC_CHAR_1,
    ensures
        scan_from(data, base, j) == scan_from(data, base, p),
    decreases p - j,
{
    if j < p {
        lemma_scan_from_skip(data, base, j + 1, p);
    }
}

/// All outcomes of scanning `data` from `off` until starvation, with the
/// cursor where the scan stopped.
pub open spec fn scan_all(data: Seq<u8>, off: int) -> (int, Seq<ScanEvent>)
    decreases data.len() - off,
    when 0 <= off <= data.len()
    via scan_all_decreases
{
    if scan(data, off).1 is NeedMore {
        (scan(data, off).0, Seq::empty())
    } else {
        (
            scan_all(data, scan(data, off).0).0,
            seq![scan(data, off).1] + scan_all(data, scan(data, off).0).1,
        )
    }
}

#[via_fn]
proof fn scan_all_decreases(data: Seq<u8>, off: int) {
    if 0 <= off <= data.len() {
        lemma_scan_from_bounds(data, off, off);
    }
}

/// How a newly arrived chunk `c` is absorbed into a store holding `b`: the
/// pair of the bytes kept and the cursor the next scan starts from.
///
/// - A marker within the buffered bytes keeps everything and starts there.
/// - A marker only within the chunk drops the whole buffer and the chunk's
///   unsynced prefix: leading noise is never carried forward.
/// - No marker anywhere drops everything, so pure noise never grows the
///   store.
pub open spec fn absorb(b: Seq<u8>, c: Seq<u8>) -> (Seq<u8>, int) {
    match sync_pos(b, 0) {
        Some(i) => (b + c, i),
        None => match sync_pos(c, 0) {
            Some(j) => (c.skip(j), 0),
            None => (Seq::empty(), 0),
        },
    }
}

/// The outcomes of one whole feed call on a store holding `b`: absorb the
/// chunk `c`, then scan to starvation.
pub open spec fn feed_events(b: Seq<u8>, c: Seq<u8>) -> Seq<ScanEvent> {
    scan_all(absorb(b, c).0, absorb(b, c).1).1
}

/// The bytes still pending after one whole feed call on a store holding `b`:
/// what a commit keeps once the scan has starved.
pub open spec fn feed_rest(b: Seq<u8>, c: Seq<u8>) -> Seq<u8> {
    absorb(b, c).0.skip(scan_all(absorb(b, c).0, absorb(b, c).1).0)
}

/// Where a full scan stops: at or after where it started, within the data.
pub proof fn lemma_scan_all_bounds(data: Seq<u8>, off: int)
    requires
        0 <= off <= data.len(),
    ensures
        off <= scan_all(data, off).0 <= data.len(),
    decreases data.len() - off,
{
    lemma_scan_from_bounds(data, off, off);
    if !(scan(data, off).1 is NeedMore) {
        lemma_scan_all_bounds(data, scan(data, off).0);
    }
}

/// The class, id, length and payload span of a frame: the bytes its checksum
/// is computed over.
pub open spec fn frame_body(class: u8, msg_id: u8, payload: Seq<u8>) -> Seq<u8>
    recommends
        payload.len() <= MAX_PAYLOAD_LEN,
{
    seq![class, msg_id, (payload.len() % 256) as u8, ((payload.len() / 256) % 256) as u8] + payload
}

/// A complete well-formed frame around `payload`: marker pair, body, and the
/// body's checksum pair.
pub open spec fn frame_bytes(class: u8, msg_id: u8, payload: Seq<u8>) -> Seq<u8>
    recommends
        payload.len() <= MAX_PAYLOAD_LEN,
{
    let body = frame_body(class, msg_id, payload);
    seq![SYNC_CHAR_1, SYNC_CHAR_2] + body + seq![checksum_of(body).0, checksum_of(body).1]
}

} // verus!
