//! Byte-level primitives shared by all wire formats: little-endian and
//! big-endian integers, fixed-size digests, and length-prefixed byte strings.
//!
//! Each primitive comes in three parts: a spec function giving the encoded
//! bytes, a spec function giving the result of reading at an offset, and
//! executable code proved against them.  The `lemma_read_*_of_enc` lemmas
//! state that reading recovers exactly what was encoded.

use vstd::prelude::*;

use crate::errors::DecodeError;

verus! {

// ---------------------------------------------------------------------------
// Encoded forms.
// ---------------------------------------------------------------------------

/// The four little-endian bytes of a 32-bit integer.
pub open spec fn spec_u32_le(x: u32) -> Seq<u8> {
    seq![
        (x & 0xff) as u8,
        ((x >> 8) & 0xff) as u8,
        ((x >> 16) & 0xff) as u8,
        ((x >> 24) & 0xff) as u8,
    ]
}

/// The eight little-endian bytes of a 64-bit integer.
pub open spec fn spec_u64_le(x: u64) -> Seq<u8> {
    seq![
        (x & 0xff) as u8,
        ((x >> 8) & 0xff) as u8,
        ((x >> 16) & 0xff) as u8,
        ((x >> 24) & 0xff) as u8,
        ((x >> 32) & 0xff) as u8,
        ((x >> 40) & 0xff) as u8,
        ((x >> 48) & 0xff) as u8,
        ((x >> 56) & 0xff) as u8,
    ]
}

/// The eight big-endian bytes of a 64-bit integer.
pub open spec fn spec_u64_be(x: u64) -> Seq<u8> {
    seq![
        ((x >> 56) & 0xff) as u8,
        ((x >> 48) & 0xff) as u8,
        ((x >> 40) & 0xff) as u8,
        ((x >> 32) & 0xff) as u8,
        ((x >> 24) & 0xff) as u8,
        ((x >> 16) & 0xff) as u8,
        ((x >> 8) & 0xff) as u8,
        (x & 0xff) as u8,
    ]
}

/// A length-prefixed byte string: a 32-bit little-endian length, then the bytes.
pub open spec fn spec_enc_bytes(s: Seq<u8>) -> Seq<u8>
    recommends
        s.len() <= u32::MAX,
{
    spec_u32_le(s.len() as u32) + s
}

// ---------------------------------------------------------------------------
// Values recombined from bytes at an offset.
// ---------------------------------------------------------------------------

/// The 32-bit integer whose little-endian bytes stand at offset `i` of `b`.
pub open spec fn spec_u32_at(b: Seq<u8>, i: int) -> u32
    recommends
        0 <= i,
        i + 4 <= b.len(),
{
    (b[i] as u32) | ((b[i + 1] as u32) << 8) | ((b[i + 2] as u32) << 16) | ((b[i + 3] as u32)
        << 24)
}

/// The 64-bit integer whose little-endian bytes stand at offset `i` of `b`.
pub open spec fn spec_u64_at(b: Seq<u8>, i: int) -> u64
    recommends
        0 <= i,
        i + 8 <= b.len(),
{
    (b[i] as u64) | ((b[i + 1] as u64) << 8) | ((b[i + 2] as u64) << 16) | ((b[i + 3] as u64)
        << 24) | ((b[i + 4] as u64) << 32) | ((b[i + 5] as u64) << 40) | ((b[i + 6] as u64) << 48)
        | ((b[i + 7] as u64) << 56)
}

/// The 64-bit integer whose big-endian bytes stand at offset `i` of `b`.
pub open spec fn spec_u64_be_at(b: Seq<u8>, i: int) -> u64
    recommends
        0 <= i,
        i + 8 <= b.len(),
{
    ((b[i] as u64) << 56) | ((b[i + 1] as u64) << 48) | ((b[i + 2] as u64) << 40) | ((b[i + 3]
        as u64) << 32) | ((b[i + 4] as u64) << 24) | ((b[i + 5] as u64) << 16) | ((b[i + 6] as u64)
        << 8) | (b[i + 7] as u64)
}

// ---------------------------------------------------------------------------
// Reading at an offset, with the exact failure condition.
// ---------------------------------------------------------------------------

/// Read a 32-bit little-endian integer at offset `i`; fails exactly when
/// fewer than four bytes remain.
pub open spec fn spec_read_u32(b: Seq<u8>, i: int) -> Result<(u32, int), DecodeError> {
    if 0 <= i && i + 4 <= b.len() {
        Ok((spec_u32_at(b, i), i + 4))
    } else {
        Err(DecodeError::TooShort)
    }
}

/// Read a 64-bit little-endian integer at offset `i`; fails exactly when
/// fewer than eight bytes remain.
pub open spec fn spec_read_u64(b: Seq<u8>, i: int) -> Result<(u64, int), DecodeError> {
    if 0 <= i && i + 8 <= b.len() {
        Ok((spec_u64_at(b, i), i + 8))
    } else {
        Err(DecodeError::TooShort)
    }
}

/// Read `n` raw bytes at offset `i`; fails exactly when fewer than `n` remain.
pub open spec fn spec_read_exact(b: Seq<u8>, i: int, n: int) -> Result<
    (Seq<u8>, int),
    DecodeError,
> {
    if 0 <= i && 0 <= n && i + n <= b.len() {
        Ok((b.subrange(i, i + n), i + n))
    } else {
        Err(DecodeError::TooShort)
    }
}

/// Read a length-prefixed byte string at offset `i`.
pub open spec fn spec_read_bytes(b: Seq<u8>, i: int) -> Result<(Seq<u8>, int), DecodeError> {
    match spec_read_u32(b, i) {
        Ok((n, j)) => spec_read_exact(b, j, n as int),
        Err(e) => Err(e),
    }
}

// ---------------------------------------------------------------------------
// Bounds of the byte parts, and the round trips.
// ---------------------------------------------------------------------------

pub proof fn lemma_u32_byte_parts(x: u32)
    ensures
        x & 0xff < 256,
        (x >> 8) & 0xff < 256,
        (x >> 16) & 0xff < 256,
        (x >> 24) & 0xff < 256,
{
    assert(x & 0xff < 256 && (x >> 8) & 0xff < 256 && (x >> 16) & 0xff < 256 && (x >> 24) & 0xff
        < 256) by (bit_vector);
}

pub proof fn lemma_u64_byte_parts(x: u64)
    ensures
        x & 0xff < 256,
        (x >> 8) & 0xff < 256,
        (x >> 16) & 0xff < 256,
        (x >> 24) & 0xff < 256,
        (x >> 32) & 0xff < 256,
        (x >> 40) & 0xff < 256,
        (x >> 48) & 0xff < 256,
        (x >> 56) & 0xff < 256,
{
    assert(x & 0xff < 256 && (x >> 8) & 0xff < 256 && (x >> 16) & 0xff < 256 && (x >> 24) & 0xff
        < 256 && (x >> 32) & 0xff < 256 && (x >> 40) & 0xff < 256 && (x >> 48) & 0xff < 256 && (x
        >> 56) & 0xff < 256) by (bit_vector);
}

/// Recombining the little-endian bytes of `x` yields `x` again.
pub proof fn lemma_u32_le_round(x: u32)
    ensures
        spec_u32_at(spec_u32_le(x), 0) == x,
{
    assert((((x & 0xff) as u8) as u32) | ((((x >> 8) & 0xff) as u8) as u32) << 8 | ((((x >> 16)
        & 0xff) as u8) as u32) << 16 | ((((x >> 24) & 0xff) as u8) as u32) << 24 == x)
        by (bit_vector);
}

/// Recombining the little-endian bytes of `x` yields `x` again.
pub proof fn lemma_u64_le_round(x: u64)
    ensures
        spec_u64_at(spec_u64_le(x), 0) == x,
{
    assert((((x & 0xff) as u8) as u64) | ((((x >> 8) & 0xff) as u8) as u64) << 8 | ((((x >> 16)
        & 0xff) as u8) as u64) << 16 | ((((x >> 24) & 0xff) as u8) as u64) << 24 | ((((x >> 32)
        & 0xff) as u8) as u64) << 32 | ((((x >> 40) & 0xff) as u8) as u64) << 40 | ((((x >> 48)
        & 0xff) as u8) as u64) << 48 | ((((x >> 56) & 0xff) as u8) as u64) << 56 == x)
        by (bit_vector);
}

/// Recombining the big-endian bytes of `x` yields `x` again.
pub proof fn lemma_u64_be_round(x: u64)
    ensures
        spec_u64_be_at(spec_u64_be(x), 0) == x,
{
    assert(((((x >> 56) & 0xff) as u8) as u64) << 56 | ((((x >> 48) & 0xff) as u8) as u64) << 48
        | ((((x >> 40) & 0xff) as u8) as u64) << 40 | ((((x >> 32) & 0xff) as u8) as u64) << 32 | (
    (((x >> 24) & 0xff) as u8) as u64) << 24 | ((((x >> 16) & 0xff) as u8) as u64) << 16 | ((((x
        >> 8) & 0xff) as u8) as u64) << 8 | (((x & 0xff) as u8) as u64) == x) by (bit_vector);
}

// ---------------------------------------------------------------------------
// Splitting a buffer region into consecutive encodings.
// ---------------------------------------------------------------------------

/// If the region of `b` at `i` holds `e1` followed by `e2`, then its two
/// halves hold `e1` and `e2`.
pub proof fn lemma_subrange_split(b: Seq<u8>, i: int, e1: Seq<u8>, e2: Seq<u8>)
    requires
        0 <= i,
        i + e1.len() + e2.len() <= b.len(),
        b.subrange(i, i + e1.len() + e2.len()) == e1 + e2,
    ensures
        b.subrange(i, i + e1.len()) == e1,
        b.subrange(i + e1.len(), i + e1.len() + e2.len()) == e2,
{
    let whole = b.subrange(i, i + e1.len() + e2.len());
    assert forall|k: int| 0 <= k < e1.len() + e2.len() implies b[i + k] == (e1 + e2)[k] by {
        assert(whole[k] == b[i + k]);
    }
    assert(b.subrange(i, i + e1.len()) =~= e1);
    assert forall|m: int| 0 <= m < e2.len() implies b[i + e1.len() + m] == e2[m] by {
        assert(b[i + (e1.len() + m)] == (e1 + e2)[e1.len() + m]);
    }
    assert(b.subrange(i + e1.len(), i + e1.len() + e2.len()) =~= e2);
}

/// A window of a region equal to `c` holds the matching window of `c`.
pub proof fn lemma_subrange_of_subrange(b: Seq<u8>, a: int, c: Seq<u8>, x: int, y: int)
    requires
        0 <= a,
        a + c.len() <= b.len(),
        b.subrange(a, a + c.len()) == c,
        0 <= x <= y <= c.len(),
    ensures
        b.subrange(a + x, a + y) == c.subrange(x, y),
{
    assert forall|m: int| 0 <= m < y - x implies #[trigger] b.subrange(a + x, a + y)[m]
        == c.subrange(x, y)[m] by {
        assert(b.subrange(a, a + c.len())[x + m] == b[a + (x + m)]);
        assert(b.subrange(a + x, a + y)[m] == b[a + x + m]);
    }
    assert(b.subrange(a + x, a + y) =~= c.subrange(x, y));
}

// ---------------------------------------------------------------------------
// Reading recovers what was encoded.
// ---------------------------------------------------------------------------

pub proof fn lemma_read_u32_of_enc(b: Seq<u8>, i: int, x: u32)
    requires
        0 <= i,
        i + 4 <= b.len(),
        b.subrange(i, i + 4) == spec_u32_le(x),
    ensures
        spec_read_u32(b, i) == Ok::<(u32, int), DecodeError>((x, i + 4)),
{
    let e = spec_u32_le(x);
    assert forall|k: int| 0 <= k < 4 implies b[i + k] == e[k] by {
        assert(b.subrange(i, i + 4)[k] == b[i + k]);
    }
    lemma_u32_le_round(x);
    assert(spec_u32_at(b, i) == spec_u32_at(e, 0));
}

pub proof fn lemma_read_u64_of_enc(b: Seq<u8>, i: int, x: u64)
    requires
        0 <= i,
        i + 8 <= b.len(),
        b.subrange(i, i + 8) == spec_u64_le(x),
    ensures
        spec_read_u64(b, i) == Ok::<(u64, int), DecodeError>((x, i + 8)),
{
    let e = spec_u64_le(x);
    assert forall|k: int| 0 <= k < 8 implies b[i + k] == e[k] by {
        assert(b.subrange(i, i + 8)[k] == b[i + k]);
    }
    lemma_u64_le_round(x);
    assert(spec_u64_at(b, i) == spec_u64_at(e, 0));
}

pub proof fn lemma_read_u64_be_of_enc(b: Seq<u8>, i: int, x: u64)
    requires
        0 <= i,
        i + 8 <= b.len(),
        b.subrange(i, i + 8) == spec_u64_be(x),
    ensures
        spec_u64_be_at(b, i) == x,
{
    let e = spec_u64_be(x);
    assert forall|k: int| 0 <= k < 8 implies b[i + k] == e[k] by {
        assert(b.subrange(i, i + 8)[k] == b[i + k]);
    }
    lemma_u64_be_round(x);
    assert(spec_u64_be_at(b, i) == spec_u64_be_at(e, 0));
}

pub proof fn lemma_read_exact_of_enc(b: Seq<u8>, i: int, e: Seq<u8>)
    requires
        0 <= i,
        i + e.len() <= b.len(),
        b.subrange(i, i + e.len()) == e,
    ensures
        spec_read_exact(b, i, e.len() as int) == Ok::<(Seq<u8>, int), DecodeError>(
            (e, i + e.len()),
        ),
{
}

pub proof fn lemma_read_bytes_of_enc(b: Seq<u8>, i: int, s: Seq<u8>)
    requires
        0 <= i,
        s.len() <= u32::MAX,
        i + spec_enc_bytes(s).len() <= b.len(),
        b.subrange(i, i + spec_enc_bytes(s).len()) == spec_enc_bytes(s),
    ensures
        spec_read_bytes(b, i) == Ok::<(Seq<u8>, int), DecodeError>((s, i + 4 + s.len())),
{
    lemma_subrange_split(b, i, spec_u32_le(s.len() as u32), s);
    lemma_read_u32_of_enc(b, i, s.len() as u32);
    lemma_read_exact_of_enc(b, i + 4, s);
}

// ---------------------------------------------------------------------------
// Executable writers.
// ---------------------------------------------------------------------------

/// Append the four little-endian bytes of `x`.
pub fn push_u32_le(out: &mut Vec<u8>, x: u32)
    ensures
        final(out)@ == old(out)@ + spec_u32_le(x),
{
    proof {
        lemma_u32_byte_parts(x);
    }
    out.push((x & 0xff) as u8);
    out.push(((x >> 8) & 0xff) as u8);
    out.push(((x >> 16) & 0xff) as u8);
    out.push(((x >> 24) & 0xff) as u8);
    proof {
        assert(out@ =~= old(out)@ + spec_u32_le(x));
    }
}

/// Append the eight little-endian bytes of `x`.
pub fn push_u64_le(out: &mut Vec<u8>, x: u64)
    ensures
        final(out)@ == old(out)@ + spec_u64_le(x),
{
    proof {
        lemma_u64_byte_parts(x);
    }
    out.push((x & 0xff) as u8);
    out.push(((x >> 8) & 0xff) as u8);
    out.push(((x >> 16) & 0xff) as u8);
    out.push(((x >> 24) & 0xff) as u8);
    out.push(((x >> 32) & 0xff) as u8);
    out.push(((x >> 40) & 0xff) as u8);
    out.push(((x >> 48) & 0xff) as u8);
    out.push(((x >> 56) & 0xff) as u8);
    proof {
        assert(out@ =~= old(out)@ + spec_u64_le(x));
    }
}

/// Append the eight big-endian bytes of `x`.
pub fn push_u64_be(out: &mut Vec<u8>, x: u64)
    ensures
        final(out)@ == old(out)@ + spec_u64_be(x),
{
    proof {
        lemma_u64_byte_parts(x);
    }
    out.push(((x >> 56) & 0xff) as u8);
    out.push(((x >> 48) & 0xff) as u8);
    out.push(((x >> 40) & 0xff) as u8);
    out.push(((x >> 32) & 0xff) as u8);
    out.push(((x >> 24) & 0xff) as u8);
    out.push(((x >> 16) & 0xff) as u8);
    out.push(((x >> 8) & 0xff) as u8);
    out.push((x & 0xff) as u8);
    proof {
        assert(out@ =~= old(out)@ + spec_u64_be(x));
    }
}

/// Append a copy of `s`.
pub fn push_slice(out: &mut Vec<u8>, s: &[u8])
    ensures
        final(out)@ == old(out)@ + s@,
{
    let mut k: usize = 0;
    while k < s.len()
        invariant
            k <= s@.len(),
            out@ == old(out)@ + s@.take(k as int),
        decreases s@.len() - k,
    {
        let byte: u8 = s[k];
        out.push(byte);
        proof {
            assert(out@ =~= old(out)@ + s@.take(k as int + 1));
        }
        k = k + 1;
    }
    proof {
        assert(s@.take(s@.len() as int) =~= s@);
    }
}

/// Append a length prefix and then a copy of `s`.
pub fn push_bytes(out: &mut Vec<u8>, s: &[u8])
    requires
        s@.len() <= u32::MAX,
    ensures
        final(out)@ == old(out)@ + spec_enc_bytes(s@),
{
    push_u32_le(out, s.len() as u32);
    push_slice(out, s);
    proof {
        assert(out@ =~= old(out)@ + spec_enc_bytes(s@));
    }
}

// ---------------------------------------------------------------------------
// Executable readers.
// ---------------------------------------------------------------------------

/// Read a 32-bit little-endian integer at offset `i`.
pub fn read_u32_le(b: &[u8], i: usize) -> (r: Result<(u32, usize), DecodeError>)
    ensures
        match r {
            Ok((x, j)) => spec_read_u32(b@, i as int) == Ok::<(u32, int), DecodeError>(
                (x, j as int),
            ) && i < j <= b@.len(),
            Err(e) => spec_read_u32(b@, i as int) == Err::<(u32, int), DecodeError>(e),
        },
{
    if i < b.len() && b.len() - i >= 4 {
        let x: u32 = (b[i] as u32) | ((b[i + 1] as u32) << 8) | ((b[i + 2] as u32) << 16) | ((b[i
            + 3] as u32) << 24);
        Ok((x, i + 4))
    } else {
        Err(DecodeError::TooShort)
    }
}

/// Read a 64-bit little-endian integer at offset `i`.
pub fn read_u64_le(b: &[u8], i: usize) -> (r: Result<(u64, usize), DecodeError>)
    ensures
        match r {
            Ok((x, j)) => spec_read_u64(b@, i as int) == Ok::<(u64, int), DecodeError>(
                (x, j as int),
            ) && i < j <= b@.len(),
            Err(e) => spec_read_u64(b@, i as int) == Err::<(u64, int), DecodeError>(e),
        },
{
    if i < b.len() && b.len() - i >= 8 {
        let x: u64 = (b[i] as u64) | ((b[i + 1] as u64) << 8) | ((b[i + 2] as u64) << 16) | ((b[i
            + 3] as u64) << 24) | ((b[i + 4] as u64) << 32) | ((b[i + 5] as u64) << 40) | ((b[i
            + 6] as u64) << 48) | ((b[i + 7] as u64) << 56);
        Ok((x, i + 8))
    } else {
        Err(DecodeError::TooShort)
    }
}

/// Read a 64-bit big-endian integer at offset `i`.
pub fn read_u64_be(b: &[u8], i: usize) -> (r: Result<(u64, usize), DecodeError>)
    ensures
        match r {
            Ok((x, j)) => i + 8 <= b@.len() && x == spec_u64_be_at(b@, i as int) && j == i + 8,
            Err(e) => i + 8 > b@.len() && e == DecodeError::TooShort,
        },
{
    if i < b.len() && b.len() - i >= 8 {
        let x: u64 = ((b[i] as u64) << 56) | ((b[i + 1] as u64) << 48) | ((b[i + 2] as u64) << 40)
            | ((b[i + 3] as u64) << 32) | ((b[i + 4] as u64) << 24) | ((b[i + 5] as u64) << 16) | (
        (b[i + 6] as u64) << 8) | (b[i + 7] as u64);
        Ok((x, i + 8))
    } else {
        Err(DecodeError::TooShort)
    }
}

/// Read exactly `n` raw bytes at offset `i` into a fresh vector.
pub fn read_exact(b: &[u8], i: usize, n: usize) -> (r: Result<(Vec<u8>, usize), DecodeError>)
    ensures
        match r {
            Ok((v, j)) => spec_read_exact(b@, i as int, n as int) == Ok::<
                (Seq<u8>, int),
                DecodeError,
            >((v@, j as int)) && i <= j <= b@.len() && v@.len() == n,
            Err(e) => spec_read_exact(b@, i as int, n as int) == Err::<(Seq<u8>, int), DecodeError>(
                e,
            ),
        },
{
    if i <= b.len() && b.len() - i >= n {
        let mut v: Vec<u8> = Vec::new();
        let mut k: usize = 0;
        while k < n
            invariant
                k <= n,
                i + n <= b@.len(),
                i + n <= usize::MAX,
                v@ == b@.subrange(i as int, i as int + k as int),
            decreases n - k,
        {
            let byte: u8 = b[i + k];
            v.push(byte);
            proof {
                assert(v@ =~= b@.subrange(i as int, i as int + k as int + 1));
            }
            k = k + 1;
        }
        Ok((v, i + n))
    } else {
        Err(DecodeError::TooShort)
    }
}

/// Read a length-prefixed byte string at offset `i`.
pub fn read_bytes(b: &[u8], i: usize) -> (r: Result<(Vec<u8>, usize), DecodeError>)
    ensures
        match r {
            Ok((v, j)) => spec_read_bytes(b@, i as int) == Ok::<(Seq<u8>, int), DecodeError>(
                (v@, j as int),
            ) && i <= j <= b@.len() && v@.len() <= u32::MAX,
            Err(e) => spec_read_bytes(b@, i as int) == Err::<(Seq<u8>, int), DecodeError>(e),
        },
{
    match read_u32_le(b, i) {
        Ok((n, j)) => {
            if n as usize <= b.len() {
                read_exact(b, j, n as usize)
            } else {
                proof {
                    assert(spec_read_exact(b@, j as int, n as int) == Err::<
                        (Seq<u8>, int),
                        DecodeError,
                    >(DecodeError::TooShort));
                }
                Err(DecodeError::TooShort)
            }
        },
        Err(e) => Err(e),
    }
}

} // verus!
