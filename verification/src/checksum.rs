//! The two-byte running checksum computed over a frame's class, id, length
//! and payload bytes.

use vstd::prelude::*;

verus! {

/// Byte addition modulo 256.
pub open spec fn badd(x: u8, y: u8) -> u8 {
    ((x + y) % 256) as u8
}

/// Folds the checksum accumulators over `s`: for each byte, `a` gains the
/// byte and `b` gains the new `a`, both modulo 256.
pub open spec fn ck_fold(s: Seq<u8>, a: u8, b: u8) -> (u8, u8)
    decreases s.len(),
{
    if s.len() == 0 {
        (a, b)
    } else {
        let na = badd(a, s[0]);
        ck_fold(s.skip(1), na, badd(b, na))
    }
}

/// The checksum pair `(ck_a, ck_b)` of a byte span, both accumulators
/// starting at zero.
pub open spec fn checksum_of(s: Seq<u8>) -> (u8, u8) {
    ck_fold(s, 0, 0)
}

/// Sum of all bytes of `s`, without any modulus.
pub open spec fn byte_sum(s: Seq<u8>) -> int
    decreases s.len(),
{
    if s.len() == 0 {
        0
    } else {
        s[0] + byte_sum(s.skip(1))
    }
}

/// The first checksum accumulator is the byte sum modulo 256: folding from
/// `a` adds the sum of the span.
pub proof fn lemma_ck_fold_a(s: Seq<u8>, a: u8, b: u8)
    ensures
        ck_fold(s, a, b).0 == (a + byte_sum(s)) % 256,
    decreases s.len(),
{
    if s.len() == 0 {
    } else {
        let na = badd(a, s[0]);
        let t = byte_sum(s.skip(1));
        lemma_ck_fold_a(s.skip(1), na, badd(b, na));
        assert(ck_fold(s, a, b).0 == (na + t) % 256);
        assert(na == (a + s[0]) % 256);
        vstd::arithmetic::div_mod::lemma_add_mod_noop_right(t, a + s[0], 256);
        assert((t + (a + s[0]) % 256) % 256 == (t + (a + s[0])) % 256);
        assert((na + t) % 256 == (a + byte_sum(s)) % 256);
    }
}

/// Replacing one byte of a span shifts its byte sum by the difference of the
/// new and old byte.
pub proof fn lemma_byte_sum_update(s: Seq<u8>, j: int, v: u8)
    requires
        0 <= j < s.len(),
    ensures
        byte_sum(s.update(j, v)) == byte_sum(s) - s[j] + v,
    decreases s.len(),
{
    if j == 0 {
        assert(s.update(0, v).skip(1) =~= s.skip(1));
        assert(s.update(0, v)[0] == v);
    } else {
        lemma_byte_sum_update(s.skip(1), j - 1, v);
        assert(s.update(j, v).skip(1) =~= s.skip(1).update(j - 1, v));
        assert(s.update(j, v)[0] == s[0]);
    }
}

/// Computes the checksum pair over `buf[start..end]`.
pub fn checksum_range(buf: &Vec<u8>, start: usize, end: usize) -> (r: (u8, u8))
    requires
        start <= end <= buf.len(),
    ensures
        r == checksum_of(buf@.subrange(start as int, end as int)),
{
    let mut a: u8 = 0;
    let mut b: u8 = 0;
    let mut i: usize = start;
    while i < end
        invariant
            start <= i <= end <= buf.len(),
            ck_fold(buf@.subrange(start as int, end as int), 0, 0) == ck_fold(
                buf@.subrange(i as int, end as int),
                a,
                b,
            ),
        decreases end - i,
    {
        let na: u8 = (((a as u16) + (buf[i] as u16)) % 256) as u8;
        let nb: u8 = (((b as u16) + (na as u16)) % 256) as u8;
        proof {
            let s = buf@.subrange(i as int, end as int);
            assert(s[0] == buf@[i as int]);
            assert(na == badd(a, buf@[i as int]));
            assert(nb == badd(b, na));
            assert(s.skip(1) =~= buf@.subrange(i as int + 1, end as int));
        }
        a = na;
        b = nb;
        i = i + 1;
    }
    proof {
        assert(buf@.subrange(i as int, end as int) =~= Seq::<u8>::empty());
    }
    (a, b)
}

} // verus!
