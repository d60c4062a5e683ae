//! Fixed-width big-endian integer codecs and small byte-buffer helpers.
//!
//! The bridge's wire formats are big-endian throughout; these are the only
//! places the crate turns integers into bytes and back.

use vstd::prelude::*;

verus! {

/// The eight big-endian bytes of a 64-bit integer, most significant first.
pub open spec fn spec_u64_to_be_bytes(x: u64) -> Seq<u8> {
    seq![
        (x >> 56) as u8,
        (x >> 48) as u8,
        (x >> 40) as u8,
        (x >> 32) as u8,
        (x >> 24) as u8,
        (x >> 16) as u8,
        (x >> 8) as u8,
        x as u8,
    ]
}

/// The 64-bit integer read from eight big-endian bytes.
pub open spec fn spec_u64_from_be_bytes(s: Seq<u8>) -> u64
    recommends
        s.len() == 8,
{
    (((s[0] as u64) << 56) | ((s[1] as u64) << 48) | ((s[2] as u64) << 40) | ((s[3] as u64) << 32)
        | ((s[4] as u64) << 24) | ((s[5] as u64) << 16) | ((s[6] as u64) << 8) | (s[7] as u64))
}

/// Reading back the eight big-endian bytes of any 64-bit integer yields the
/// integer again; consequently the encoding is injective.
pub proof fn lemma_u64_be_bytes_round_trip(x: u64)
    ensures
        spec_u64_to_be_bytes(x).len() == 8,
        spec_u64_from_be_bytes(spec_u64_to_be_bytes(x)) == x,
{
    assert((((((x >> 56) as u8) as u64) << 56) | ((((x >> 48) as u8) as u64) << 48) | ((((x
        >> 40) as u8) as u64) << 40) | ((((x >> 32) as u8) as u64) << 32) | ((((x
        >> 24) as u8) as u64) << 24) | ((((x >> 16) as u8) as u64) << 16) | ((((x
        >> 8) as u8) as u64) << 8) | ((x as u8) as u64)) == x) by (bit_vector);
}

/// Re-encoding the integer read from any eight bytes yields those bytes
/// again: the eight-byte big-endian encoding is a bijection.
pub proof fn lemma_u64_be_bytes_inverse(s: Seq<u8>)
    requires
        s.len() == 8,
    ensures
        spec_u64_to_be_bytes(spec_u64_from_be_bytes(s)) == s,
{
    let x = spec_u64_from_be_bytes(s);
    let b0 = s[0];
    let b1 = s[1];
    let b2 = s[2];
    let b3 = s[3];
    let b4 = s[4];
    let b5 = s[5];
    let b6 = s[6];
    let b7 = s[7];
    assert(x == (((b0 as u64) << 56) | ((b1 as u64) << 48) | ((b2 as u64) << 40) | ((b3 as u64)
        << 32) | ((b4 as u64) << 24) | ((b5 as u64) << 16) | ((b6 as u64) << 8) | (b7 as u64))
        ==> ((x >> 56) as u8 == b0 && (x >> 48) as u8 == b1 && (x >> 40) as u8 == b2 && (x
        >> 32) as u8 == b3 && (x >> 24) as u8 == b4 && (x >> 16) as u8 == b5 && (x >> 8) as u8 == b6
        && x as u8 == b7)) by (bit_vector);
    assert(spec_u64_to_be_bytes(x) =~= s);
}

/// The sixteen big-endian bytes of a 128-bit integer, most significant first.
pub open spec fn spec_u128_to_be_bytes(x: u128) -> Seq<u8> {
    seq![
        (x >> 120) as u8,
        (x >> 112) as u8,
        (x >> 104) as u8,
        (x >> 96) as u8,
        (x >> 88) as u8,
        (x >> 80) as u8,
        (x >> 72) as u8,
        (x >> 64) as u8,
        (x >> 56) as u8,
        (x >> 48) as u8,
        (x >> 40) as u8,
        (x >> 32) as u8,
        (x >> 24) as u8,
        (x >> 16) as u8,
        (x >> 8) as u8,
        x as u8,
    ]
}

/// The 128-bit integer read from sixteen big-endian bytes.
pub open spec fn spec_u128_from_be_bytes(s: Seq<u8>) -> u128
    recommends
        s.len() == 16,
{
    (((s[0] as u128) << 120) | ((s[1] as u128) << 112) | ((s[2] as u128) << 104) | ((s[3] as u128)
        << 96) | ((s[4] as u128) << 88) | ((s[5] as u128) << 80) | ((s[6] as u128) << 72) | ((
    s[7] as u128) << 64) | ((s[8] as u128) << 56) | ((s[9] as u128) << 48) | ((s[10] as u128) << 40)
        | ((s[11] as u128) << 32) | ((s[12] as u128) << 24) | ((s[13] as u128) << 16) | ((
    s[14] as u128) << 8) | (s[15] as u128))
}

/// Reading back the sixteen big-endian bytes of any 128-bit integer yields the
/// integer again; consequently the encoding is injective.
pub proof fn lemma_u128_be_bytes_round_trip(x: u128)
    ensures
        spec_u128_to_be_bytes(x).len() == 16,
        spec_u128_from_be_bytes(spec_u128_to_be_bytes(x)) == x,
{
    assert((((((x >> 120) as u8) as u128) << 120) | ((((x >> 112) as u8) as u128) << 112) | ((((x
        >> 104) as u8) as u128) << 104) | ((((x >> 96) as u8) as u128) << 96) | ((((x
        >> 88) as u8) as u128) << 88) | ((((x >> 80) as u8) as u128) << 80) | ((((x
        >> 72) as u8) as u128) << 72) | ((((x >> 64) as u8) as u128) << 64) | ((((x
        >> 56) as u8) as u128) << 56) | ((((x >> 48) as u8) as u128) << 48) | ((((x
        >> 40) as u8) as u128) << 40) | ((((x >> 32) as u8) as u128) << 32) | ((((x
        >> 24) as u8) as u128) << 24) | ((((x >> 16) as u8) as u128) << 16) | ((((x
        >> 8) as u8) as u128) << 8) | ((x as u8) as u128)) == x) by (bit_vector);
}

/// Re-encoding the integer read from any sixteen bytes yields those bytes
/// again: the sixteen-byte big-endian encoding is a bijection.
pub proof fn lemma_u128_be_bytes_inverse(s: Seq<u8>)
    requires
        s.len() == 16,
    ensures
        spec_u128_to_be_bytes(spec_u128_from_be_bytes(s)) == s,
{
    let x = spec_u128_from_be_bytes(s);
    let b0 = s[0];
    let b1 = s[1];
    let b2 = s[2];
    let b3 = s[3];
    let b4 = s[4];
    let b5 = s[5];
    let b6 = s[6];
    let b7 = s[7];
    let b8 = s[8];
    let b9 = s[9];
    let b10 = s[10];
    let b11 = s[11];
    let b12 = s[12];
    let b13 = s[13];
    let b14 = s[14];
    let b15 = s[15];
    assert(x == (((b0 as u128) << 120) | ((b1 as u128) << 112) | ((b2 as u128) << 104) | ((
    b3 as u128) << 96) | ((b4 as u128) << 88) | ((b5 as u128) << 80) | ((b6 as u128) << 72) | ((
    b7 as u128) << 64) | ((b8 as u128) << 56) | ((b9 as u128) << 48) | ((b10 as u128) << 40) | ((
    b11 as u128) << 32) | ((b12 as u128) << 24) | ((b13 as u128) << 16) | ((b14 as u128) << 8) | (
    b15 as u128)) ==> ((x >> 120) as u8 == b0 && (x >> 112) as u8 == b1 && (x >> 104) as u8 == b2
        && (x >> 96) as u8 == b3 && (x >> 88) as u8 == b4 && (x >> 80) as u8 == b5 && (x
        >> 72) as u8 == b6 && (x >> 64) as u8 == b7 && (x >> 56) as u8 == b8 && (x >> 48) as u8
        == b9 && (x >> 40) as u8 == b10 && (x >> 32) as u8 == b11 && (x >> 24) as u8 == b12 && (x
        >> 16) as u8 == b13 && (x >> 8) as u8 == b14 && x as u8 == b15)) by (bit_vector);
    assert(spec_u128_to_be_bytes(x) =~= s);
}

/// Appends the eight big-endian bytes of `x` to `out`.
pub fn push_u64_be(out: &mut Vec<u8>, x: u64)
    ensures
        final(out)@ == old(out)@ + spec_u64_to_be_bytes(x),
{
    out.push(#[verifier::truncate] ((x >> 56) as u8));
    out.push(#[verifier::truncate] ((x >> 48) as u8));
    out.push(#[verifier::truncate] ((x >> 40) as u8));
    out.push(#[verifier::truncate] ((x >> 32) as u8));
    out.push(#[verifier::truncate] ((x >> 24) as u8));
    out.push(#[verifier::truncate] ((x >> 16) as u8));
    out.push(#[verifier::truncate] ((x >> 8) as u8));
    out.push(#[verifier::truncate] (x as u8));
    proof {
        assert(final(out)@ =~= old(out)@ + spec_u64_to_be_bytes(x));
    }
}

/// Appends the sixteen big-endian bytes of `x` to `out`.
pub fn push_u128_be(out: &mut Vec<u8>, x: u128)
    ensures
        final(out)@ == old(out)@ + spec_u128_to_be_bytes(x),
{
    out.push(#[verifier::truncate] ((x >> 120) as u8));
    out.push(#[verifier::truncate] ((x >> 112) as u8));
    out.push(#[verifier::truncate] ((x >> 104) as u8));
    out.push(#[verifier::truncate] ((x >> 96) as u8));
    out.push(#[verifier::truncate] ((x >> 88) as u8));
    out.push(#[verifier::truncate] ((x >> 80) as u8));
    out.push(#[verifier::truncate] ((x >> 72) as u8));
    out.push(#[verifier::truncate] ((x >> 64) as u8));
    out.push(#[verifier::truncate] ((x >> 56) as u8));
    out.push(#[verifier::truncate] ((x >> 48) as u8));
    out.push(#[verifier::truncate] ((x >> 40) as u8));
    out.push(#[verifier::truncate] ((x >> 32) as u8));
    out.push(#[verifier::truncate] ((x >> 24) as u8));
    out.push(#[verifier::truncate] ((x >> 16) as u8));
    out.push(#[verifier::truncate] ((x >> 8) as u8));
    out.push(#[verifier::truncate] (x as u8));
    proof {
        assert(final(out)@ =~= old(out)@ + spec_u128_to_be_bytes(x));
    }
}

/// Reads a 64-bit big-endian integer from `s` at offset `off`.
pub fn read_u64_be(s: &[u8], off: usize) -> (x: u64)
    requires
        off + 8 <= s@.len(),
    ensures
        x == spec_u64_from_be_bytes(s@.subrange(off as int, off as int + 8)),
{
    let x = ((s[off] as u64) << 56) | ((s[off + 1] as u64) << 48) | ((s[off + 2] as u64) << 40) | ((
    s[off + 3] as u64) << 32) | ((s[off + 4] as u64) << 24) | ((s[off + 5] as u64) << 16) | ((s[off
        + 6] as u64) << 8) | (s[off + 7] as u64);
    proof {
        let sub = s@.subrange(off as int, off as int + 8);
        assert(sub[0] == s@[off as int] && sub[1] == s@[off as int + 1] && sub[2] == s@[off as int
            + 2] && sub[3] == s@[off as int + 3] && sub[4] == s@[off as int + 4] && sub[5]
            == s@[off as int + 5] && sub[6] == s@[off as int + 6] && sub[7] == s@[off as int + 7]);
    }
    x
}

/// Reads a 128-bit big-endian integer from `s` at offset `off`.
pub fn read_u128_be(s: &[u8], off: usize) -> (x: u128)
    requires
        off + 16 <= s@.len(),
    ensures
        x == spec_u128_from_be_bytes(s@.subrange(off as int, off as int + 16)),
{
    let x = ((s[off] as u128) << 120) | ((s[off + 1] as u128) << 112) | ((s[off + 2] as u128)
        << 104) | ((s[off + 3] as u128) << 96) | ((s[off + 4] as u128) << 88) | ((s[off
        + 5] as u128) << 80) | ((s[off + 6] as u128) << 72) | ((s[off + 7] as u128) << 64) | ((s[off
        + 8] as u128) << 56) | ((s[off + 9] as u128) << 48) | ((s[off + 10] as u128) << 40) | ((
    s[off + 11] as u128) << 32) | ((s[off + 12] as u128) << 24) | ((s[off + 13] as u128) << 16) | ((
    s[off + 14] as u128) << 8) | (s[off + 15] as u128);
    proof {
        let sub = s@.subrange(off as int, off as int + 16);
        assert(forall|i: int| 0 <= i < 16 ==> sub[i] == s@[off as int + i]);
    }
    x
}

/// Appends every byte of `src` to `out`, in order.
pub fn push_bytes(out: &mut Vec<u8>, src: &[u8])
    ensures
        final(out)@ == old(out)@ + src@,
{
    let mut i: usize = 0;
    while i < src.len()
        invariant
            i <= src@.len(),
            out@ == old(out)@ + src@.subrange(0, i as int),
        decreases src@.len() - i,
    {
        out.push(src[i]);
        i = i + 1;
        proof {
            assert(out@ =~= old(out)@ + src@.subrange(0, i as int));
        }
    }
    proof {
        assert(out@ =~= old(out)@ + src@);
    }
}

/// Reads 32 consecutive bytes of `s` starting at `off` into an array.
pub fn read_bytes32(s: &[u8], off: usize) -> (a: [u8; 32])
    requires
        off + 32 <= s@.len(),
    ensures
        a@ == s@.subrange(off as int, off as int + 32),
{
    let n = s.len();
    let mut a = [0u8; 32];
    let mut i: usize = 0;
    while i < 32
        invariant
            i <= 32,
            off + 32 <= n,
            n == s@.len(),
            a@.len() == 32,
            forall|j: int| 0 <= j < i ==> a@[j] == s@[off + j],
        decreases 32 - i,
    {
        a[i] = s[off + i];
        i = i + 1;
    }
    proof {
        assert(a@ =~= s@.subrange(off as int, off as int + 32));
    }
    a
}

/// Whether the 32 bytes of `s` starting at `off` equal `b`.
pub fn region_matches32(s: &[u8], off: usize, b: &[u8; 32]) -> (r: bool)
    requires
        off + 32 <= s@.len(),
    ensures
        r <==> s@.subrange(off as int, off as int + 32) == b@,
{
    let n = s.len();
    let mut i: usize = 0;
    while i < 32
        invariant
            i <= 32,
            off + 32 <= n,
            n == s@.len(),
            forall|j: int| 0 <= j < i ==> s@[off + j] == b@[j],
        decreases 32 - i,
    {
        if s[off + i] != b[i] {
            proof {
                assert(s@.subrange(off as int, off as int + 32)[i as int] != b@[i as int]);
            }
            return false;
        }
        i = i + 1;
    }
    proof {
        assert(s@.subrange(off as int, off as int + 32) =~= b@);
    }
    true
}

/// Byte-for-byte equality of two 20-byte identities.
pub fn bytes20_eq(a: &[u8; 20], b: &[u8; 20]) -> (r: bool)
    ensures
        r <==> a@ == b@,
{
    let mut i: usize = 0;
    while i < 20
        invariant
            i <= 20,
            forall|j: int| 0 <= j < i ==> a@[j] == b@[j],
        decreases 20 - i,
    {
        if a[i] != b[i] {
            return false;
        }
        i = i + 1;
    }
    proof {
        assert(a@ =~= b@);
    }
    true
}

} // verus!
