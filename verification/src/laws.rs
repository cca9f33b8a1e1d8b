//! Laws of the scanner, proved once and for all: outcomes do not depend on
//! how the byte stream was chunked, a well-formed frame decodes, one
//! corrupted byte is caught by the checksum, and noise is skipped silently.

use vstd::prelude::*;

use crate::checksum::byte_sum;
use crate::checksum::checksum_of;
use crate::checksum::lemma_byte_sum_update;
use crate::checksum::lemma_ck_fold_a;
use crate::packets::MAX_PAYLOAD_LEN;
use crate::packets::SYNC_CHAR_1;
use crate::packets::SYNC_CHAR_2;
use crate::scan::ScanEvent;
use crate::scan::absorb;
use crate::scan::feed_events;
use crate::scan::feed_rest;
use crate::scan::frame_body;
use crate::scan::frame_bytes;
use crate::scan::le16;
use crate::scan::lemma_scan_all_bounds;
use crate::scan::lemma_scan_from_bounds;
use crate::scan::lemma_scan_from_skip;
use crate::scan::lemma_sync_pos;
use crate::scan::scan;
use crate::scan::scan_all;
use crate::scan::scan_from;
use crate::scan::sync_pos;

verus! {

/// An outcome, once emitted, is final: bytes arriving later cannot change a
/// scan step that already produced an outcome.
proof fn lemma_scan_from_extension(d: Seq<u8>, e: Seq<u8>, base: int, j: int)
    requires
        0 <= base <= j <= d.len(),
        !(scan_from(d, base, j).1 is NeedMore),
    ensures
        scan_from(d + e, base, j) == scan_from(d, base, j),
    decreases d.len() - j,
{
    assert(forall|k: int| 0 <= k < d.len() ==> (d + e)[k] == d[k]);
    if j == d.len() {
    } else if d[j] != SYNC_CHAR_1 {
        lemma_scan_from_extension(d, e, base, j + 1);
    } else if d.len() - j < 2 {
    } else if d[j + 1] != SYNC_CHAR_2 {
        lemma_scan_from_extension(d, e, j + 2, j + 2);
    } else if d.len() - j < 6 {
    } else if le16(d[j + 4], d[j + 5]) > MAX_PAYLOAD_LEN {
        lemma_scan_from_extension(d, e, j + 2, j + 2);
    } else if d.len() - j < 8 + le16(d[j + 4], d[j + 5]) {
    } else {
        let plen = le16(d[j + 4], d[j + 5]) as int;
        assert((d + e).subrange(j + 2, j + 6 + plen) =~= d.subrange(j + 2, j + 6 + plen));
        assert((d + e).subrange(j + 6, j + 6 + plen) =~= d.subrange(j + 6, j + 6 + plen));
    }
}

/// A starved scan loses nothing: on the extended data, scanning on from the
/// stall point gives the same step as scanning from where the starved scan
/// began.
proof fn lemma_scan_from_stall(d: Seq<u8>, e: Seq<u8>, base: int, j: int)
    requires
        0 <= base <= j <= d.len(),
        scan_from(d, base, j).1 is NeedMore,
        forall|k: int| base <= k < j ==> d[k] != SYNC_CHAR_1,
    ensures
        scan_from(d + e, base, j) == scan(d + e, scan_from(d, base, j).0),
    decreases d.len() - j,
{
    assert(forall|k: int| 0 <= k < d.len() ==> (d + e)[k] == d[k]);
    if j == d.len() {
        lemma_scan_from_skip(d + e, base, base, j);
    } else if d[j] != SYNC_CHAR_1 {
        lemma_scan_from_stall(d, e, base, j + 1);
    } else if d.len() - j < 2 {
        lemma_scan_from_skip(d + e, base, base, j);
    } else if d[j + 1] != SYNC_CHAR_2 {
        lemma_scan_from_stall(d, e, j + 2, j + 2);
    } else if d.len() - j < 6 {
        lemma_scan_from_skip(d + e, base, base, j);
    } else if le16(d[j + 4], d[j + 5]) > MAX_PAYLOAD_LEN {
        lemma_scan_from_stall(d, e, j + 2, j + 2);
    } else if d.len() - j < 8 + le16(d[j + 4], d[j + 5]) {
        lemma_scan_from_skip(d + e, base, base, j);
    } else {
    }
}

/// Equal scan steps give equal outcome sequences.
proof fn lemma_scan_all_congruence(data: Seq<u8>, off1: int, off2: int)
    requires
        0 <= off1 <= data.len(),
        0 <= off2 <= data.len(),
        scan(data, off1) == scan(data, off2),
    ensures
        scan_all(data, off1) == scan_all(data, off2),
{
    lemma_scan_from_bounds(data, off1, off1);
}

/// Chunk independence of the scanner. Scanning `d` to starvation and then
/// scanning `d + e` from the stall cursor produces, together, exactly the
/// outcomes of scanning `d + e` from the start: outcomes already produced
/// are reproduced unchanged, and the stalled candidate is retried with the
/// new bytes. Feeding a stream in two chunks therefore yields the same
/// ordered outcomes as feeding it whole.
pub proof fn lemma_scan_all_extension(d: Seq<u8>, e: Seq<u8>, off: int)
    requires
        0 <= off <= d.len(),
    ensures
        scan_all(d + e, off).1 == scan_all(d, off).1 + scan_all(d + e, scan_all(d, off).0).1,
        scan_all(d + e, off).0 == scan_all(d + e, scan_all(d, off).0).0,
    decreases d.len() - off,
{
    lemma_scan_from_bounds(d, off, off);
    let o = scan(d, off).0;
    if scan(d, off).1 is NeedMore {
        lemma_scan_from_stall(d, e, off, off);
        lemma_scan_from_bounds(d + e, off, off);
        lemma_scan_all_congruence(d + e, off, o);
        assert(Seq::<ScanEvent>::empty() + scan_all(d + e, o).1 =~= scan_all(d + e, o).1);
    } else {
        lemma_scan_from_extension(d, e, off, off);
        lemma_scan_all_extension(d, e, o);
        let tail1 = scan_all(d, o).1;
        let stop = scan_all(d, o).0;
        let tail2 = scan_all(d + e, stop).1;
        assert((seq![scan(d, off).1] + tail1) + tail2 =~= seq![scan(d, off).1] + (tail1 + tail2));
    }
}

/// The committed cursor never changes which outcome a step produces, only
/// where a starved step stops.
proof fn lemma_scan_from_base(x: Seq<u8>, b1: int, b2: int, j: int)
    requires
        0 <= b1 <= j <= x.len(),
        0 <= b2 <= j,
    ensures
        scan_from(x, b1, j).1 == scan_from(x, b2, j).1,
        !(scan_from(x, b1, j).1 is NeedMore) ==> scan_from(x, b1, j).0 == scan_from(x, b2, j).0,
    decreases x.len() - j,
{
    if j < x.len() && x[j] != SYNC_CHAR_1 {
        lemma_scan_from_base(x, b1, b2, j + 1);
    }
}

/// Scanning a suffix is the whole scan step shifted: same outcome, cursor
/// moved by the length of the dropped prefix.
proof fn lemma_scan_from_shift(x: Seq<u8>, k: int, base: int, j: int)
    requires
        0 <= k <= base <= j <= x.len(),
    ensures
        scan_from(x.skip(k), base - k, j - k).0 == scan_from(x, base, j).0 - k,
        scan_from(x.skip(k), base - k, j - k).1 == scan_from(x, base, j).1,
    decreases x.len() - j,
{
    let s = x.skip(k);
    assert(forall|i: int| 0 <= i < s.len() ==> s[i] == x[i + k]);
    if j == x.len() {
    } else if x[j] != SYNC_CHAR_1 {
        lemma_scan_from_shift(x, k, base, j + 1);
    } else if x.len() - j < 2 {
    } else if x[j + 1] != SYNC_CHAR_2 {
        lemma_scan_from_shift(x, k, j + 2, j + 2);
    } else if x.len() - j < 6 {
    } else if le16(x[j + 4], x[j + 5]) > MAX_PAYLOAD_LEN {
        lemma_scan_from_shift(x, k, j + 2, j + 2);
    } else if x.len() - j < 8 + le16(x[j + 4], x[j + 5]) {
    } else {
        let plen = le16(x[j + 4], x[j + 5]) as int;
        assert(s.subrange(j - k + 2, j - k + 6 + plen) =~= x.subrange(j + 2, j + 6 + plen));
        assert(s.subrange(j - k + 6, j - k + 6 + plen) =~= x.subrange(j + 6, j + 6 + plen));
    }
}

/// Scanning a suffix to starvation is the whole scan shifted.
proof fn lemma_scan_all_shift(x: Seq<u8>, k: int, off: int)
    requires
        0 <= k <= off <= x.len(),
    ensures
        scan_all(x.skip(k), off - k).0 == scan_all(x, off).0 - k,
        scan_all(x.skip(k), off - k).1 == scan_all(x, off).1,
    decreases x.len() - off,
{
    lemma_scan_from_shift(x, k, off, off);
    lemma_scan_from_bounds(x, off, off);
    if !(scan(x, off).1 is NeedMore) {
        lemma_scan_all_shift(x, k, scan(x, off).0);
    }
}

/// Starting a full scan before or after a run of non-marker bytes yields the
/// same outcomes.
proof fn lemma_scan_all_noise_prefix(x: Seq<u8>, off1: int, off2: int)
    requires
        0 <= off1 <= off2 <= x.len(),
        forall|k: int| off1 <= k < off2 ==> x[k] != SYNC_CHAR_1,
    ensures
        scan_all(x, off1).1 == scan_all(x, off2).1,
{
    lemma_scan_from_skip(x, off1, off1, off2);
    lemma_scan_from_base(x, off1, off2, off2);
    lemma_scan_from_bounds(x, off1, off1);
    lemma_scan_from_bounds(x, off2, off2);
}

/// A position holding the first marker byte at or after `from` is what
/// `sync_pos` returns.
proof fn lemma_sync_pos_char(x: Seq<u8>, from: int, p: int)
    requires
        0 <= from <= p < x.len(),
        x[p] == SYNC_CHAR_1,
        forall|k: int| from <= k < p ==> x[k] != SYNC_CHAR_1,
    ensures
        sync_pos(x, from) == Some(p),
    decreases p - from,
{
    if from < p {
        lemma_sync_pos_char(x, from + 1, p);
    }
}

/// Picking up a committed store with a fresh chunk continues the suspended
/// scan: absorbing the chunk into the kept bytes and scanning yields exactly
/// the outcomes of scanning on from the stall cursor with the chunk
/// appended.
proof fn lemma_rest_resume(d1: Seq<u8>, c2: Seq<u8>, f1: int)
    requires
        0 <= f1 <= d1.len(),
    ensures
        scan_all(d1 + c2, f1).1 == feed_events(d1.skip(f1), c2),
{
    let r = d1.skip(f1);
    let x = d1 + c2;
    assert(x.skip(f1) =~= r + c2);
    lemma_scan_all_shift(x, f1, f1);
    lemma_sync_pos(r, 0);
    match sync_pos(r, 0) {
        Some(i2) => {
            assert(forall|k: int| 0 <= k < i2 ==> (r + c2)[k] != SYNC_CHAR_1);
            lemma_scan_all_noise_prefix(r + c2, 0, i2);
        },
        None => {
            lemma_sync_pos(c2, 0);
            match sync_pos(c2, 0) {
                Some(j2) => {
                    let m = r.len() as int + j2;
                    assert(forall|k: int| 0 <= k < m ==> (r + c2)[k] != SYNC_CHAR_1);
                    lemma_scan_all_noise_prefix(r + c2, 0, m);
                    lemma_scan_all_shift(r + c2, m, m);
                    assert((r + c2).skip(m) =~= c2.skip(j2));
                },
                None => {
                    let m = (r + c2).len() as int;
                    assert(forall|k: int| 0 <= k < m ==> (r + c2)[k] != SYNC_CHAR_1);
                    lemma_scan_all_noise_prefix(r + c2, 0, m);
                    assert(scan_all(r + c2, m).1 == Seq::<ScanEvent>::empty());
                    assert(scan_all(Seq::<u8>::empty(), 0).1 == Seq::<ScanEvent>::empty());
                },
            }
        },
    }
}

/// Chunk independence of a feed call: feeding `c1` then `c2` produces, in
/// order, exactly the outcomes of feeding `c1 + c2` in one call, from any
/// starting store.
pub proof fn lemma_feed_split(b: Seq<u8>, c1: Seq<u8>, c2: Seq<u8>)
    ensures
        feed_events(b, c1 + c2) == feed_events(b, c1) + feed_events(feed_rest(b, c1), c2),
{
    lemma_sync_pos(b, 0);
    match sync_pos(b, 0) {
        Some(i) => {
            let d1 = b + c1;
            assert(b + (c1 + c2) =~= d1 + c2);
            lemma_scan_all_extension(d1, c2, i);
            let f1 = scan_all(d1, i).0;
            lemma_scan_all_bounds(d1, i);
            lemma_rest_resume(d1, c2, f1);
        },
        None => {
            lemma_sync_pos(c1, 0);
            match sync_pos(c1, 0) {
                Some(j1) => {
                    let d1 = c1.skip(j1);
                    assert(forall|k: int| 0 <= k < j1 ==> (c1 + c2)[k] != SYNC_CHAR_1);
                    assert((c1 + c2)[j1] == SYNC_CHAR_1);
                    lemma_sync_pos_char(c1 + c2, 0, j1);
                    assert((c1 + c2).skip(j1) =~= d1 + c2);
                    lemma_scan_all_extension(d1, c2, 0);
                    let f1 = scan_all(d1, 0).0;
                    lemma_scan_all_bounds(d1, 0);
                    lemma_rest_resume(d1, c2, f1);
                    assert(feed_events(b, c1 + c2) == feed_events(b, c1) + feed_events(
                        feed_rest(b, c1),
                        c2,
                    ));
                },
                None => {
                    lemma_sync_pos(c2, 0);
                    assert(scan_all(Seq::<u8>::empty(), 0) == (0int, Seq::<ScanEvent>::empty()));
                    assert(feed_rest(b, c1) =~= Seq::<u8>::empty());
                    match sync_pos(c2, 0) {
                        Some(j2) => {
                            let m = c1.len() as int + j2;
                            assert(forall|k: int| 0 <= k < m ==> (c1 + c2)[k] != SYNC_CHAR_1);
                            assert((c1 + c2)[m] == SYNC_CHAR_1);
                            lemma_sync_pos_char(c1 + c2, 0, m);
                            assert((c1 + c2).skip(m) =~= c2.skip(j2));
                            assert(Seq::<ScanEvent>::empty() + feed_events(Seq::<u8>::empty(), c2)
                                =~= feed_events(Seq::<u8>::empty(), c2));
                        },
                        None => {
                            if sync_pos(c1 + c2, 0) is Some {
                                let p = sync_pos(c1 + c2, 0)->Some_0;
                                lemma_sync_pos(c1 + c2, 0);
                                assert((c1 + c2)[p] == SYNC_CHAR_1);
                                if p < c1.len() {
                                    assert(c1[p] == SYNC_CHAR_1);
                                } else {
                                    assert(c2[p - c1.len()] == SYNC_CHAR_1);
                                }
                                assert(false);
                            }
                        },
                    }
                },
            }
        },
    }
}

/// The byte stream fed as one concatenation of all chunks.
pub open spec fn concat_chunks(chunks: Seq<Seq<u8>>) -> Seq<u8>
    decreases chunks.len(),
{
    if chunks.len() == 0 {
        Seq::empty()
    } else {
        chunks[0] + concat_chunks(chunks.skip(1))
    }
}

/// The outcomes of feeding the chunks one call at a time, committing between
/// calls.
pub open spec fn feed_all_events(b: Seq<u8>, chunks: Seq<Seq<u8>>) -> Seq<ScanEvent>
    decreases chunks.len(),
{
    if chunks.len() == 0 {
        Seq::empty()
    } else {
        feed_events(b, chunks[0]) + feed_all_events(feed_rest(b, chunks[0]), chunks.skip(1))
    }
}

/// Chunk independence: however a byte stream is cut into calls, the ordered
/// outcomes are those of feeding it whole in a single call.
pub proof fn lemma_chunk_independence(b: Seq<u8>, chunks: Seq<Seq<u8>>)
    requires
        chunks.len() >= 1,
    ensures
        feed_all_events(b, chunks) == feed_events(b, concat_chunks(chunks)),
    decreases chunks.len(),
{
    if chunks.len() == 1 {
        assert(concat_chunks(chunks.skip(1)) == Seq::<u8>::empty());
        assert(chunks[0] + Seq::<u8>::empty() =~= chunks[0]);
        assert(feed_all_events(feed_rest(b, chunks[0]), chunks.skip(1))
            == Seq::<ScanEvent>::empty());
        assert(feed_events(b, chunks[0]) + Seq::<ScanEvent>::empty() =~= feed_events(b, chunks[0]));
    } else {
        lemma_feed_split(b, chunks[0], concat_chunks(chunks.skip(1)));
        lemma_chunk_independence(feed_rest(b, chunks[0]), chunks.skip(1));
    }
}

/// Happy path: a complete well-formed frame, scanned from its first byte,
/// yields exactly one outcome — its decoded class, id and payload — and the
/// cursor stops past its last byte, so a commit leaves the store empty.
pub proof fn lemma_happy_path(class: u8, msg_id: u8, payload: Seq<u8>)
    requires
        payload.len() <= MAX_PAYLOAD_LEN,
    ensures
        scan(frame_bytes(class, msg_id, payload), 0) == (
            frame_bytes(class, msg_id, payload).len() as int,
            ScanEvent::Frame { class, msg_id, payload },
        ),
        scan_all(frame_bytes(class, msg_id, payload), 0).1 == seq![
            ScanEvent::Frame { class, msg_id, payload },
        ],
        scan_all(frame_bytes(class, msg_id, payload), 0).0 == frame_bytes(
            class,
            msg_id,
            payload,
        ).len() as int,
{
    let body = frame_body(class, msg_id, payload);
    let f = frame_bytes(class, msg_id, payload);
    let plen = payload.len() as int;
    assert(f.len() == 8 + plen);
    assert(f[0] == SYNC_CHAR_1);
    assert(f[1] == SYNC_CHAR_2);
    assert(f[4] == (plen % 256) as u8);
    assert(f[5] == ((plen / 256) % 256) as u8);
    vstd::arithmetic::div_mod::lemma_fundamental_div_mod(plen, 256);
    assert(0 <= plen / 256 && plen / 256 <= 4) by {
        vstd::arithmetic::div_mod::lemma_div_pos_is_pos(plen, 256);
        vstd::arithmetic::div_mod::lemma_div_is_ordered(plen, 1240, 256);
    }
    assert(le16(f[4], f[5]) == plen);
    assert(f.subrange(2, 6 + plen) =~= body);
    assert(f[6 + plen] == checksum_of(body).0);
    assert(f[7 + plen] == checksum_of(body).1);
    assert(f.subrange(6, 6 + plen) =~= payload);
    assert(f[2] == class);
    assert(f[3] == msg_id);
    assert(scan_from(f, 0, 0) == (8 + plen, ScanEvent::Frame { class, msg_id, payload }));
    lemma_scan_from_bounds(f, 0, 0);
    assert(scan(f, 8 + plen) == (8 + plen, ScanEvent::NeedMore));
    assert(scan_all(f, 8 + plen) == (8 + plen, Seq::<ScanEvent>::empty()));
    assert(scan_all(f, 0).1 =~= seq![ScanEvent::Frame { class, msg_id, payload }]);
}

/// Two integers closer together than the modulus and not equal have
/// different remainders.
proof fn lemma_mod_256_separates(x: int, y: int)
    requires
        x != y,
        -256 < x - y < 256,
    ensures
        x % 256 != y % 256,
{
    vstd::arithmetic::div_mod::lemma_fundamental_div_mod(x, 256);
    vstd::arithmetic::div_mod::lemma_fundamental_div_mod(y, 256);
    if x % 256 == y % 256 {
        assert(x - y == 256 * (x / 256) - 256 * (y / 256));
        assert(x / 256 == y / 256) by (nonlinear_arith)
            requires
                x - y == 256 * (x / 256) - 256 * (y / 256),
                -256 < x - y < 256,
        ;
        assert(x == y);
    }
}

/// Single-byte corruption is caught: flipping one payload byte of a
/// well-formed frame makes the scan emit exactly one checksum mismatch for
/// it, carrying the frame's stored pair as `expect` and the recomputed pair
/// as `got`, and resynchronize two bytes past the marker.
pub proof fn lemma_single_corruption(class: u8, msg_id: u8, payload: Seq<u8>, j: int, v: u8)
    requires
        payload.len() <= MAX_PAYLOAD_LEN,
        0 <= j < payload.len(),
        v != payload[j],
    ensures
        ({
            let f = frame_bytes(class, msg_id, payload);
            let body = frame_body(class, msg_id, payload);
            let corrupted = body.update(4 + j, v);
            scan(f.update(6 + j, v), 0) == (
                2int,
                ScanEvent::BadChecksum {
                    expect: le16(checksum_of(body).0, checksum_of(body).1),
                    got: le16(checksum_of(corrupted).0, checksum_of(corrupted).1),
                },
            )
        }),
{
    let body = frame_body(class, msg_id, payload);
    let f = frame_bytes(class, msg_id, payload);
    let plen = payload.len() as int;
    let g = f.update(6 + j, v);
    let corrupted = body.update(4 + j, v);
    assert(g.len() == 8 + plen);
    assert(g[0] == SYNC_CHAR_1);
    assert(g[1] == SYNC_CHAR_2);
    assert(g[4] == (plen % 256) as u8);
    assert(g[5] == ((plen / 256) % 256) as u8);
    vstd::arithmetic::div_mod::lemma_fundamental_div_mod(plen, 256);
    assert(0 <= plen / 256 && plen / 256 <= 4) by {
        vstd::arithmetic::div_mod::lemma_div_pos_is_pos(plen, 256);
        vstd::arithmetic::div_mod::lemma_div_is_ordered(plen, 1240, 256);
    }
    assert(le16(g[4], g[5]) == plen);
    assert(g.subrange(2, 6 + plen) =~= corrupted);
    assert(g[6 + plen] == checksum_of(body).0);
    assert(g[7 + plen] == checksum_of(body).1);
    assert(body[4 + j] == payload[j]);
    lemma_ck_fold_a(body, 0, 0);
    lemma_ck_fold_a(corrupted, 0, 0);
    lemma_byte_sum_update(body, 4 + j, v);
    lemma_mod_256_separates(byte_sum(corrupted), byte_sum(body));
    assert(checksum_of(corrupted).0 != checksum_of(body).0);
}

/// Stray marker: a marker byte not followed by the second marker byte is a
/// silent resynchronization, not an outcome — the scan continues two bytes
/// past it, so later valid frames are not blocked.
pub proof fn lemma_stray_marker(data: Seq<u8>, off: int, p: int)
    requires
        0 <= off <= data.len(),
        sync_pos(data, off) == Some(p),
        p + 1 < data.len(),
        data[p + 1] != SYNC_CHAR_2,
    ensures
        scan(data, off) == scan(data, p + 2),
        scan_all(data, off) == scan_all(data, p + 2),
{
    lemma_sync_pos(data, off);
    lemma_scan_from_skip(data, off, off, p);
    lemma_scan_all_congruence(data, off, p + 2);
}

/// Oversized length: a header declaring a payload beyond `MAX_PAYLOAD_LEN`
/// cannot be legitimate and is skipped like a false marker match, with no
/// outcome and no crash; scanning continues two bytes past the marker.
pub proof fn lemma_oversized_length(data: Seq<u8>, off: int, p: int)
    requires
        0 <= off <= data.len(),
        sync_pos(data, off) == Some(p),
        p + 5 < data.len(),
        data[p + 1] == SYNC_CHAR_2,
        le16(data[p + 4], data[p + 5]) > MAX_PAYLOAD_LEN,
    ensures
        scan(data, off) == scan(data, p + 2),
        scan_all(data, off) == scan_all(data, p + 2),
{
    lemma_sync_pos(data, off);
    lemma_scan_from_skip(data, off, off, p);
    lemma_scan_all_congruence(data, off, p + 2);
}

/// Pure noise: a chunk with no marker byte, fed to a parser with an empty
/// store, is absorbed into an empty store, and scanning it yields no
/// outcome.
pub proof fn lemma_pure_noise(chunk: Seq<u8>)
    requires
        forall|k: int| 0 <= k < chunk.len() ==> chunk[k] != SYNC_CHAR_1,
    ensures
        absorb(Seq::<u8>::empty(), chunk) == (Seq::<u8>::empty(), 0int),
        scan_all(Seq::<u8>::empty(), 0).1 == Seq::<ScanEvent>::empty(),
{
    lemma_sync_pos(chunk, 0);
    if sync_pos(chunk, 0) is Some {
        let p = sync_pos(chunk, 0)->Some_0;
        assert(chunk[p] == SYNC_CHAR_1);
    }
}

} // verus!
