//! The tag-prefixed wire format.  Every field is emitted, in ascending tag
//! order, behind a one-byte tag; nothing is optional, so decoding walks the
//! fields eagerly in declaration order.  Nested records and sequence elements
//! are length-delimited, and the declared length must match what the element
//! consumes.  A wrong tag is `BadTag`; a length that disagrees with the field
//! is `BadLength`; a truncated buffer is `TooShort`.

use vstd::prelude::*;

use crate::bytes::{
    lemma_read_bytes_of_enc, lemma_read_exact_of_enc, lemma_read_u32_of_enc, lemma_read_u64_of_enc,
    lemma_subrange_split, push_bytes, push_slice, push_u32_le, push_u64_le, read_bytes, read_exact,
    read_u32_le, read_u64_le, spec_enc_bytes, spec_read_bytes, spec_read_exact, spec_read_u32,
    spec_read_u64, spec_u32_le, spec_u64_le,
};
use crate::errors::DecodeError;
use crate::model::{
    deps_view, inputs_view, lemma_read_u256_of_enc, outputs_view, push_u256_be, read_u256_be,
    spec_u256_be, spec_u256_be_at, txs_view, Block, BlockV, CellInput, CellInputV, CellOutput,
    CellOutputV, Header, HeaderV, OutPoint, OutPointV, Seal, SealV, Transaction, TransactionV,
    U256,
};

verus! {

// ---------------------------------------------------------------------------
// Tagged field primitives.
// ---------------------------------------------------------------------------

pub open spec fn spec_tag(t: u8) -> Seq<u8> {
    seq![t]
}

pub open spec fn spec_read_tag(b: Seq<u8>, i: int, t: u8) -> Result<int, DecodeError> {
    if 0 <= i && i + 1 <= b.len() {
        if b[i] == t {
            Ok(i + 1)
        } else {
            Err(DecodeError::BadTag)
        }
    } else {
        Err(DecodeError::TooShort)
    }
}

pub open spec fn spec_enc_fu32(t: u8, x: u32) -> Seq<u8> {
    spec_tag(t) + spec_u32_le(x)
}

pub open spec fn spec_read_fu32(b: Seq<u8>, i: int, t: u8) -> Result<(u32, int), DecodeError> {
    match spec_read_tag(b, i, t) {
        Ok(j) => spec_read_u32(b, j),
        Err(e) => Err(e),
    }
}

pub open spec fn spec_enc_fu64(t: u8, x: u64) -> Seq<u8> {
    spec_tag(t) + spec_u64_le(x)
}

pub open spec fn spec_read_fu64(b: Seq<u8>, i: int, t: u8) -> Result<(u64, int), DecodeError> {
    match spec_read_tag(b, i, t) {
        Ok(j) => spec_read_u64(b, j),
        Err(e) => Err(e),
    }
}

pub open spec fn spec_enc_fdigest(t: u8, h: Seq<u8>) -> Seq<u8>
    recommends
        h.len() == 32,
{
    spec_tag(t) + spec_u32_le(32) + h
}

pub open spec fn spec_read_fdigest(b: Seq<u8>, i: int, t: u8) -> Result<
    (Seq<u8>, int),
    DecodeError,
> {
    match spec_read_tag(b, i, t) {
        Ok(j) => match spec_read_u32(b, j) {
            Ok((n, k)) => if n == 32 {
                spec_read_exact(b, k, 32)
            } else {
                Err(DecodeError::BadLength)
            },
            Err(e) => Err(e),
        },
        Err(e) => Err(e),
    }
}

pub open spec fn spec_enc_fbytes(t: u8, s: Seq<u8>) -> Seq<u8>
    recommends
        s.len() <= u32::MAX,
{
    spec_tag(t) + spec_enc_bytes(s)
}

pub open spec fn spec_read_fbytes(b: Seq<u8>, i: int, t: u8) -> Result<
    (Seq<u8>, int),
    DecodeError,
> {
    match spec_read_tag(b, i, t) {
        Ok(j) => spec_read_bytes(b, j),
        Err(e) => Err(e),
    }
}

pub open spec fn spec_enc_fdiff(t: u8, d: U256) -> Seq<u8> {
    spec_tag(t) + spec_u32_le(32) + spec_u256_be(d)
}

pub open spec fn spec_read_fdiff(b: Seq<u8>, i: int, t: u8) -> Result<(U256, int), DecodeError> {
    match spec_read_tag(b, i, t) {
        Ok(j) => match spec_read_u32(b, j) {
            Ok((n, k)) => if n == 32 {
                if k + 32 <= b.len() {
                    Ok((spec_u256_be_at(b, k), k + 32))
                } else {
                    Err(DecodeError::TooShort)
                }
            } else {
                Err(DecodeError::BadLength)
            },
            Err(e) => Err(e),
        },
        Err(e) => Err(e),
    }
}

pub proof fn lemma_read_tag_of_enc(b: Seq<u8>, i: int, t: u8)
    requires
        0 <= i,
        i + 1 <= b.len(),
        b.subrange(i, i + 1) == spec_tag(t),
    ensures
        spec_read_tag(b, i, t) == Ok::<int, DecodeError>(i + 1),
{
    assert(b.subrange(i, i + 1)[0] == b[i]);
}

pub proof fn lemma_read_fu32_of_enc(b: Seq<u8>, i: int, t: u8, x: u32)
    requires
        0 <= i,
        i + 5 <= b.len(),
        b.subrange(i, i + 5) == spec_enc_fu32(t, x),
    ensures
        spec_read_fu32(b, i, t) == Ok::<(u32, int), DecodeError>((x, i + 5)),
{
    lemma_subrange_split(b, i, spec_tag(t), spec_u32_le(x));
    lemma_read_tag_of_enc(b, i, t);
    lemma_read_u32_of_enc(b, i + 1, x);
}

pub proof fn lemma_read_fu64_of_enc(b: Seq<u8>, i: int, t: u8, x: u64)
    requires
        0 <= i,
        i + 9 <= b.len(),
        b.subrange(i, i + 9) == spec_enc_fu64(t, x),
    ensures
        spec_read_fu64(b, i, t) == Ok::<(u64, int), DecodeError>((x, i + 9)),
{
    lemma_subrange_split(b, i, spec_tag(t), spec_u64_le(x));
    lemma_read_tag_of_enc(b, i, t);
    lemma_read_u64_of_enc(b, i + 1, x);
}

pub proof fn lemma_read_fdigest_of_enc(b: Seq<u8>, i: int, t: u8, h: Seq<u8>)
    requires
        0 <= i,
        h.len() == 32,
        i + 37 <= b.len(),
        b.subrange(i, i + 37) == spec_enc_fdigest(t, h),
    ensures
        spec_read_fdigest(b, i, t) == Ok::<(Seq<u8>, int), DecodeError>((h, i + 37)),
{
    assert(spec_enc_fdigest(t, h) =~= spec_tag(t) + (spec_u32_le(32) + h));
    lemma_subrange_split(b, i, spec_tag(t), spec_u32_le(32) + h);
    lemma_subrange_split(b, i + 1, spec_u32_le(32), h);
    lemma_read_tag_of_enc(b, i, t);
    lemma_read_u32_of_enc(b, i + 1, 32);
    lemma_read_exact_of_enc(b, i + 5, h);
}

pub proof fn lemma_read_fbytes_of_enc(b: Seq<u8>, i: int, t: u8, s: Seq<u8>)
    requires
        0 <= i,
        s.len() <= u32::MAX,
        i + spec_enc_fbytes(t, s).len() <= b.len(),
        b.subrange(i, i + spec_enc_fbytes(t, s).len()) == spec_enc_fbytes(t, s),
    ensures
        spec_read_fbytes(b, i, t) == Ok::<(Seq<u8>, int), DecodeError>((s, i + 5 + s.len())),
{
    lemma_subrange_split(b, i, spec_tag(t), spec_enc_bytes(s));
    lemma_read_tag_of_enc(b, i, t);
    lemma_read_bytes_of_enc(b, i + 1, s);
}

pub proof fn lemma_read_fdiff_of_enc(b: Seq<u8>, i: int, t: u8, d: U256)
    requires
        0 <= i,
        i + 37 <= b.len(),
        b.subrange(i, i + 37) == spec_enc_fdiff(t, d),
    ensures
        spec_read_fdiff(b, i, t) == Ok::<(U256, int), DecodeError>((d, i + 37)),
{
    assert(spec_enc_fdiff(t, d) =~= spec_tag(t) + (spec_u32_le(32) + spec_u256_be(d)));
    lemma_subrange_split(b, i, spec_tag(t), spec_u32_le(32) + spec_u256_be(d));
    lemma_subrange_split(b, i + 1, spec_u32_le(32), spec_u256_be(d));
    lemma_read_tag_of_enc(b, i, t);
    lemma_read_u32_of_enc(b, i + 1, 32);
    lemma_read_u256_of_enc(b, i + 5, d);
}

// ---------------------------------------------------------------------------
// Encoded messages.
// ---------------------------------------------------------------------------

pub open spec fn spec_enc_outpoint(o: OutPointV) -> Seq<u8> {
    spec_enc_fdigest(1, o.hash) + spec_enc_fu32(2, o.index)
}

pub open spec fn spec_enc_input(c: CellInputV) -> Seq<u8> {
    spec_enc_fdigest(1, c.previous_output.hash) + spec_enc_fu32(2, c.previous_output.index)
        + spec_enc_fbytes(3, c.unlock)
}

pub open spec fn spec_enc_output(c: CellOutputV) -> Seq<u8> {
    spec_enc_fu64(1, c.capacity) + spec_enc_fbytes(2, c.data) + spec_enc_fdigest(3, c.lock)
}

pub open spec fn spec_enc_deps(s: Seq<OutPointV>) -> Seq<u8>
    decreases s.len(),
{
    if s.len() == 0 {
        Seq::empty()
    } else {
        spec_u32_le(spec_enc_outpoint(s.first()).len() as u32) + spec_enc_outpoint(s.first())
            + spec_enc_deps(s.drop_first())
    }
}

pub open spec fn spec_enc_inputs(s: Seq<CellInputV>) -> Seq<u8>
    decreases s.len(),
{
    if s.len() == 0 {
        Seq::empty()
    } else {
        spec_u32_le(spec_enc_input(s.first()).len() as u32) + spec_enc_input(s.first())
            + spec_enc_inputs(s.drop_first())
    }
}

pub open spec fn spec_enc_outputs(s: Seq<CellOutputV>) -> Seq<u8>
    decreases s.len(),
{
    if s.len() == 0 {
        Seq::empty()
    } else {
        spec_u32_le(spec_enc_output(s.first()).len() as u32) + spec_enc_output(s.first())
            + spec_enc_outputs(s.drop_first())
    }
}

pub open spec fn spec_enc_tx(t: TransactionV) -> Seq<u8> {
    spec_enc_fu32(1, t.version) + spec_tag(2) + spec_u32_le(t.deps.len() as u32) + spec_enc_deps(
        t.deps,
    ) + spec_tag(3) + spec_u32_le(t.inputs.len() as u32) + spec_enc_inputs(t.inputs) + spec_tag(4)
        + spec_u32_le(t.outputs.len() as u32) + spec_enc_outputs(t.outputs)
}

pub open spec fn spec_enc_txs(s: Seq<TransactionV>) -> Seq<u8>
    decreases s.len(),
{
    if s.len() == 0 {
        Seq::empty()
    } else {
        spec_u32_le(spec_enc_tx(s.first()).len() as u32) + spec_enc_tx(s.first()) + spec_enc_txs(
            s.drop_first(),
        )
    }
}

pub open spec fn spec_enc_header(h: HeaderV) -> Seq<u8> {
    spec_enc_fu32(1, h.version) + spec_enc_fdigest(2, h.parent_hash) + spec_enc_fu64(3, h.timestamp)
        + spec_enc_fu64(4, h.number) + spec_enc_fdigest(5, h.txs_commit) + spec_enc_fdigest(
        6,
        h.txs_proposal,
    ) + spec_enc_fdiff(7, h.difficulty) + spec_enc_fu64(8, h.seal.nonce) + spec_enc_fbytes(
        9,
        h.seal.proof,
    ) + spec_enc_fdigest(10, h.cellbase_id) + spec_enc_fdigest(11, h.uncles_hash)
}

pub open spec fn spec_enc_block(b: BlockV) -> Seq<u8> {
    spec_tag(1) + spec_u32_le(spec_enc_header(b.header).len() as u32) + spec_enc_header(b.header)
        + spec_tag(2) + spec_u32_le(b.transactions.len() as u32) + spec_enc_txs(b.transactions)
}

/// The 32-bit length prefixes of the tag-prefixed format demand that nested
/// records fit a 32-bit length.
pub open spec fn tx_sizes_ok(t: TransactionV) -> bool {
    &&& forall|k: int|
        0 <= k < t.inputs.len() ==> spec_enc_input(#[trigger] t.inputs[k]).len() <= u32::MAX
    &&& forall|k: int|
        0 <= k < t.outputs.len() ==> spec_enc_output(#[trigger] t.outputs[k]).len() <= u32::MAX
}

pub open spec fn block_sizes_ok(b: BlockV) -> bool {
    &&& spec_enc_header(b.header).len() <= u32::MAX
    &&& forall|k: int|
        0 <= k < b.transactions.len() ==> spec_enc_tx(#[trigger] b.transactions[k]).len()
            <= u32::MAX && tx_sizes_ok(b.transactions[k])
}

// ---------------------------------------------------------------------------
// Reading at an offset.
// ---------------------------------------------------------------------------

pub open spec fn spec_read_outpoint(b: Seq<u8>, i: int) -> Result<(OutPointV, int), DecodeError> {
    match spec_read_fdigest(b, i, 1) {
        Ok((h, j)) => match spec_read_fu32(b, j, 2) {
            Ok((x, k)) => Ok((OutPointV { hash: h, index: x }, k)),
            Err(e) => Err(e),
        },
        Err(e) => Err(e),
    }
}

pub open spec fn spec_read_input(b: Seq<u8>, i: int) -> Result<(CellInputV, int), DecodeError> {
    match spec_read_fdigest(b, i, 1) {
        Ok((h, j)) => match spec_read_fu32(b, j, 2) {
            Ok((x, k)) => match spec_read_fbytes(b, k, 3) {
                Ok((u, m)) => Ok(
                    (
                        CellInputV {
                            previous_output: OutPointV { hash: h, index: x },
                            unlock: u,
                        },
                        m,
                    ),
                ),
                Err(e) => Err(e),
            },
            Err(e) => Err(e),
        },
        Err(e) => Err(e),
    }
}

pub open spec fn spec_read_output(b: Seq<u8>, i: int) -> Result<(CellOutputV, int), DecodeError> {
    match spec_read_fu64(b, i, 1) {
        Ok((c, j)) => match spec_read_fbytes(b, j, 2) {
            Ok((d, k)) => match spec_read_fdigest(b, k, 3) {
                Ok((l, m)) => Ok((CellOutputV { capacity: c, data: d, lock: l }, m)),
                Err(e) => Err(e),
            },
            Err(e) => Err(e),
        },
        Err(e) => Err(e),
    }
}

pub open spec fn spec_read_deps(b: Seq<u8>, i: int, n: nat) -> Result<
    (Seq<OutPointV>, int),
    DecodeError,
>
    decreases n,
{
    if n == 0 {
        Ok((Seq::empty(), i))
    } else {
        match spec_read_u32(b, i) {
            Ok((len, j)) => match spec_read_outpoint(b, j) {
                Ok((o, k)) => if k == j + len {
                    match spec_read_deps(b, k, (n - 1) as nat) {
                        Ok((s, m)) => Ok((seq![o] + s, m)),
                        Err(e) => Err(e),
                    }
                } else {
                    Err(DecodeError::BadLength)
                },
                Err(e) => Err(e),
            },
            Err(e) => Err(e),
        }
    }
}

pub open spec fn spec_read_inputs(b: Seq<u8>, i: int, n: nat) -> Result<
    (Seq<CellInputV>, int),
    DecodeError,
>
    decreases n,
{
    if n == 0 {
        Ok((Seq::empty(), i))
    } else {
        match spec_read_u32(b, i) {
            Ok((len, j)) => match spec_read_input(b, j) {
                Ok((c, k)) => if k == j + len {
                    match spec_read_inputs(b, k, (n - 1) as nat) {
                        Ok((s, m)) => Ok((seq![c] + s, m)),
                        Err(e) => Err(e),
                    }
                } else {
                    Err(DecodeError::BadLength)
                },
                Err(e) => Err(e),
            },
            Err(e) => Err(e),
        }
    }
}

pub open spec fn spec_read_outputs(b: Seq<u8>, i: int, n: nat) -> Result<
    (Seq<CellOutputV>, int),
    DecodeError,
>
    decreases n,
{
    if n == 0 {
        Ok((Seq::empty(), i))
    } else {
        match spec_read_u32(b, i) {
            Ok((len, j)) => match spec_read_output(b, j) {
                Ok((c, k)) => if k == j + len {
                    match spec_read_outputs(b, k, (n - 1) as nat) {
                        Ok((s, m)) => Ok((seq![c] + s, m)),
                        Err(e) => Err(e),
                    }
                } else {
                    Err(DecodeError::BadLength)
                },
                Err(e) => Err(e),
            },
            Err(e) => Err(e),
        }
    }
}

pub open spec fn spec_read_tx(b: Seq<u8>, i: int) -> Result<(TransactionV, int), DecodeError> {
    match spec_read_fu32(b, i, 1) {
        Ok((v, j0)) => match spec_read_tag(b, j0, 2) {
            Ok(j1) => match spec_read_u32(b, j1) {
                Ok((nd, j2)) => match spec_read_deps(b, j2, nd as nat) {
                    Ok((ds, j3)) => match spec_read_tag(b, j3, 3) {
                        Ok(j4) => match spec_read_u32(b, j4) {
                            Ok((ni, j5)) => match spec_read_inputs(b, j5, ni as nat) {
                                Ok((is, j6)) => match spec_read_tag(b, j6, 4) {
                                    Ok(j7) => match spec_read_u32(b, j7) {
                                        Ok((no, j8)) => match spec_read_outputs(b, j8, no as nat) {
                                            Ok((os, j9)) => Ok(
                                                (
                                                    TransactionV {
                                                        version: v,
                                                        deps: ds,
                                                        inputs: is,
                                                        outputs: os,
                                                    },
                                                    j9,
                                                ),
                                            ),
                                            Err(e) => Err(e),
                                        },
                                        Err(e) => Err(e),
                                    },
                                    Err(e) => Err(e),
                                },
                                Err(e) => Err(e),
                            },
                            Err(e) => Err(e),
                        },
                        Err(e) => Err(e),
                    },
                    Err(e) => Err(e),
                },
                Err(e) => Err(e),
            },
            Err(e) => Err(e),
        },
        Err(e) => Err(e),
    }
}

pub open spec fn spec_read_txs(b: Seq<u8>, i: int, n: nat) -> Result<
    (Seq<TransactionV>, int),
    DecodeError,
>
    decreases n,
{
    if n == 0 {
        Ok((Seq::empty(), i))
    } else {
        match spec_read_u32(b, i) {
            Ok((len, j)) => match spec_read_tx(b, j) {
                Ok((t, k)) => if k == j + len {
                    match spec_read_txs(b, k, (n - 1) as nat) {
                        Ok((s, m)) => Ok((seq![t] + s, m)),
                        Err(e) => Err(e),
                    }
                } else {
                    Err(DecodeError::BadLength)
                },
                Err(e) => Err(e),
            },
            Err(e) => Err(e),
        }
    }
}

pub open spec fn spec_read_header(b: Seq<u8>, i: int) -> Result<(HeaderV, int), DecodeError> {
    match spec_read_fu32(b, i, 1) {
        Ok((v, j0)) => match spec_read_fdigest(b, j0, 2) {
            Ok((ph, j1)) => match spec_read_fu64(b, j1, 3) {
                Ok((ts, j2)) => match spec_read_fu64(b, j2, 4) {
                    Ok((num, j3)) => match spec_read_fdigest(b, j3, 5) {
                        Ok((tc, j4)) => match spec_read_fdigest(b, j4, 6) {
                            Ok((tp, j5)) => match spec_read_fdiff(b, j5, 7) {
                                Ok((d, j6)) => match spec_read_fu64(b, j6, 8) {
                                    Ok((nonce, j7)) => match spec_read_fbytes(b, j7, 9) {
                                        Ok((pf, j8)) => match spec_read_fdigest(b, j8, 10) {
                                            Ok((ci, j9)) => match spec_read_fdigest(b, j9, 11) {
                                                Ok((uh, j10)) => Ok(
                                                    (
                                                        HeaderV {
                                                            version: v,
                                                            parent_hash: ph,
                                                            timestamp: ts,
                                                            number: num,
                                                            txs_commit: tc,
                                                            txs_proposal: tp,
                                                            difficulty: d,
                                                            cellbase_id: ci,
                                                            uncles_hash: uh,
                                                            seal: SealV { nonce: nonce, proof: pf },
                                                        },
                                                        j10,
                                                    ),
                                                ),
                                                Err(e) => Err(e),
                                            },
                                            Err(e) => Err(e),
                                        },
                                        Err(e) => Err(e),
                                    },
                                    Err(e) => Err(e),
                                },
                                Err(e) => Err(e),
                            },
                            Err(e) => Err(e),
                        },
                        Err(e) => Err(e),
                    },
                    Err(e) => Err(e),
                },
                Err(e) => Err(e),
            },
            Err(e) => Err(e),
        },
        Err(e) => Err(e),
    }
}

pub open spec fn spec_read_block(b: Seq<u8>, i: int) -> Result<(BlockV, int), DecodeError> {
    match spec_read_tag(b, i, 1) {
        Ok(j0) => match spec_read_u32(b, j0) {
            Ok((hlen, j1)) => match spec_read_header(b, j1) {
                Ok((h, j2)) => if j2 == j1 + hlen {
                    match spec_read_tag(b, j2, 2) {
                        Ok(j3) => match spec_read_u32(b, j3) {
                            Ok((n, j4)) => match spec_read_txs(b, j4, n as nat) {
                                Ok((ts, j5)) => Ok((BlockV { header: h, transactions: ts }, j5)),
                                Err(e) => Err(e),
                            },
                            Err(e) => Err(e),
                        },
                        Err(e) => Err(e),
                    }
                } else {
                    Err(DecodeError::BadLength)
                },
                Err(e) => Err(e),
            },
            Err(e) => Err(e),
        },
        Err(e) => Err(e),
    }
}

// ---------------------------------------------------------------------------
// Appending one element to an encoded prefix of a sequence.
// ---------------------------------------------------------------------------

pub proof fn lemma_enc_deps_snoc(s: Seq<OutPointV>, i: int)
    requires
        0 <= i < s.len(),
    ensures
        spec_enc_deps(s.take(i + 1)) == spec_enc_deps(s.take(i)) + spec_u32_le(
            spec_enc_outpoint(s[i]).len() as u32,
        ) + spec_enc_outpoint(s[i]),
    decreases i,
{
    if i == 0 {
        assert(s.take(1).first() == s[0]);
        assert(s.take(1).drop_first() =~= s.take(0));
        assert(spec_enc_deps(s.take(1)) =~= spec_enc_deps(s.take(0)) + spec_u32_le(
            spec_enc_outpoint(s[0]).len() as u32,
        ) + spec_enc_outpoint(s[0]));
    } else {
        let t = s.drop_first();
        assert(s.take(i + 1).first() == s[0]);
        assert(s.take(i + 1).drop_first() =~= t.take(i));
        assert(s.take(i).first() == s[0]);
        assert(s.take(i).drop_first() =~= t.take(i - 1));
        lemma_enc_deps_snoc(t, i - 1);
        assert(t[i - 1] == s[i]);
        assert(spec_enc_deps(s.take(i + 1)) =~= spec_enc_deps(s.take(i)) + spec_u32_le(
            spec_enc_outpoint(s[i]).len() as u32,
        ) + spec_enc_outpoint(s[i]));
    }
}

pub proof fn lemma_enc_inputs_snoc(s: Seq<CellInputV>, i: int)
    requires
        0 <= i < s.len(),
    ensures
        spec_enc_inputs(s.take(i + 1)) == spec_enc_inputs(s.take(i)) + spec_u32_le(
            spec_enc_input(s[i]).len() as u32,
        ) + spec_enc_input(s[i]),
    decreases i,
{
    if i == 0 {
        assert(s.take(1).first() == s[0]);
        assert(s.take(1).drop_first() =~= s.take(0));
        assert(spec_enc_inputs(s.take(1)) =~= spec_enc_inputs(s.take(0)) + spec_u32_le(
            spec_enc_input(s[0]).len() as u32,
        ) + spec_enc_input(s[0]));
    } else {
        let t = s.drop_first();
        assert(s.take(i + 1).first() == s[0]);
        assert(s.take(i + 1).drop_first() =~= t.take(i));
        assert(s.take(i).first() == s[0]);
        assert(s.take(i).drop_first() =~= t.take(i - 1));
        lemma_enc_inputs_snoc(t, i - 1);
        assert(t[i - 1] == s[i]);
        assert(spec_enc_inputs(s.take(i + 1)) =~= spec_enc_inputs(s.take(i)) + spec_u32_le(
            spec_enc_input(s[i]).len() as u32,
        ) + spec_enc_input(s[i]));
    }
}

pub proof fn lemma_enc_outputs_snoc(s: Seq<CellOutputV>, i: int)
    requires
        0 <= i < s.len(),
    ensures
        spec_enc_outputs(s.take(i + 1)) == spec_enc_outputs(s.take(i)) + spec_u32_le(
            spec_enc_output(s[i]).len() as u32,
        ) + spec_enc_output(s[i]),
    decreases i,
{
    if i == 0 {
        assert(s.take(1).first() == s[0]);
        assert(s.take(1).drop_first() =~= s.take(0));
        assert(spec_enc_outputs(s.take(1)) =~= spec_enc_outputs(s.take(0)) + spec_u32_le(
            spec_enc_output(s[0]).len() as u32,
        ) + spec_enc_output(s[0]));
    } else {
        let t = s.drop_first();
        assert(s.take(i + 1).first() == s[0]);
        assert(s.take(i + 1).drop_first() =~= t.take(i));
        assert(s.take(i).first() == s[0]);
        assert(s.take(i).drop_first() =~= t.take(i - 1));
        lemma_enc_outputs_snoc(t, i - 1);
        assert(t[i - 1] == s[i]);
        assert(spec_enc_outputs(s.take(i + 1)) =~= spec_enc_outputs(s.take(i)) + spec_u32_le(
            spec_enc_output(s[i]).len() as u32,
        ) + spec_enc_output(s[i]));
    }
}

pub proof fn lemma_enc_txs_snoc(s: Seq<TransactionV>, i: int)
    requires
        0 <= i < s.len(),
    ensures
        spec_enc_txs(s.take(i + 1)) == spec_enc_txs(s.take(i)) + spec_u32_le(
            spec_enc_tx(s[i]).len() as u32,
        ) + spec_enc_tx(s[i]),
    decreases i,
{
    if i == 0 {
        assert(s.take(1).first() == s[0]);
        assert(s.take(1).drop_first() =~= s.take(0));
        assert(spec_enc_txs(s.take(1)) =~= spec_enc_txs(s.take(0)) + spec_u32_le(
            spec_enc_tx(s[0]).len() as u32,
        ) + spec_enc_tx(s[0]));
    } else {
        let t = s.drop_first();
        assert(s.take(i + 1).first() == s[0]);
        assert(s.take(i + 1).drop_first() =~= t.take(i));
        assert(s.take(i).first() == s[0]);
        assert(s.take(i).drop_first() =~= t.take(i - 1));
        lemma_enc_txs_snoc(t, i - 1);
        assert(t[i - 1] == s[i]);
        assert(spec_enc_txs(s.take(i + 1)) =~= spec_enc_txs(s.take(i)) + spec_u32_le(
            spec_enc_tx(s[i]).len() as u32,
        ) + spec_enc_tx(s[i]));
    }
}

// ---------------------------------------------------------------------------
// Reading recovers what was encoded.
// ---------------------------------------------------------------------------

pub proof fn lemma_read_outpoint_of_enc(b: Seq<u8>, i: int, o: OutPointV)
    requires
        o.wf(),
        0 <= i,
        i + spec_enc_outpoint(o).len() <= b.len(),
        b.subrange(i, i + spec_enc_outpoint(o).len()) == spec_enc_outpoint(o),
    ensures
        spec_read_outpoint(b, i) == Ok::<(OutPointV, int), DecodeError>((o, i + 42)),
{
    lemma_subrange_split(b, i, spec_enc_fdigest(1, o.hash), spec_enc_fu32(2, o.index));
    lemma_read_fdigest_of_enc(b, i, 1, o.hash);
    lemma_read_fu32_of_enc(b, i + 37, 2, o.index);
    assert(spec_read_outpoint(b, i)->Ok_0.0 =~= o);
}

pub proof fn lemma_read_input_of_enc(b: Seq<u8>, i: int, c: CellInputV)
    requires
        c.wf(),
        0 <= i,
        i + spec_enc_input(c).len() <= b.len(),
        b.subrange(i, i + spec_enc_input(c).len()) == spec_enc_input(c),
    ensures
        spec_read_input(b, i) == Ok::<(CellInputV, int), DecodeError>(
            (c, i + 47 + c.unlock.len()),
        ),
{
    let c1 = spec_enc_fdigest(1, c.previous_output.hash);
    let c2 = spec_enc_fu32(2, c.previous_output.index);
    let c3 = spec_enc_fbytes(3, c.unlock);
    assert(spec_enc_input(c) =~= c1 + (c2 + c3));
    lemma_subrange_split(b, i, c1, c2 + c3);
    lemma_subrange_split(b, i + 37, c2, c3);
    lemma_read_fdigest_of_enc(b, i, 1, c.previous_output.hash);
    lemma_read_fu32_of_enc(b, i + 37, 2, c.previous_output.index);
    lemma_read_fbytes_of_enc(b, i + 42, 3, c.unlock);
    assert(spec_read_input(b, i)->Ok_0.0 =~= c);
}

pub proof fn lemma_read_output_of_enc(b: Seq<u8>, i: int, c: CellOutputV)
    requires
        c.wf(),
        0 <= i,
        i + spec_enc_output(c).len() <= b.len(),
        b.subrange(i, i + spec_enc_output(c).len()) == spec_enc_output(c),
    ensures
        spec_read_output(b, i) == Ok::<(CellOutputV, int), DecodeError>(
            (c, i + 51 + c.data.len()),
        ),
{
    let c1 = spec_enc_fu64(1, c.capacity);
    let c2 = spec_enc_fbytes(2, c.data);
    let c3 = spec_enc_fdigest(3, c.lock);
    assert(spec_enc_output(c) =~= c1 + (c2 + c3));
    lemma_subrange_split(b, i, c1, c2 + c3);
    lemma_subrange_split(b, i + 9, c2, c3);
    lemma_read_fu64_of_enc(b, i, 1, c.capacity);
    lemma_read_fbytes_of_enc(b, i + 9, 2, c.data);
    lemma_read_fdigest_of_enc(b, i + 14 + c.data.len(), 3, c.lock);
    assert(spec_read_output(b, i)->Ok_0.0 =~= c);
}

pub proof fn lemma_read_deps_of_enc(b: Seq<u8>, i: int, s: Seq<OutPointV>)
    requires
        0 <= i,
        forall|k: int| 0 <= k < s.len() ==> (#[trigger] s[k]).wf(),
        i + spec_enc_deps(s).len() <= b.len(),
        b.subrange(i, i + spec_enc_deps(s).len()) == spec_enc_deps(s),
    ensures
        spec_read_deps(b, i, s.len() as nat) == Ok::<(Seq<OutPointV>, int), DecodeError>(
            (s, i + spec_enc_deps(s).len()),
        ),
    decreases s.len(),
{
    if s.len() == 0 {
        assert(s =~= Seq::<OutPointV>::empty());
    } else {
        let e0 = spec_u32_le(spec_enc_outpoint(s.first()).len() as u32);
        let e1 = spec_enc_outpoint(s.first());
        let e2 = spec_enc_deps(s.drop_first());
        assert(spec_enc_deps(s) =~= e0 + (e1 + e2));
        lemma_subrange_split(b, i, e0, e1 + e2);
        lemma_subrange_split(b, i + 4, e1, e2);
        lemma_read_u32_of_enc(b, i, spec_enc_outpoint(s.first()).len() as u32);
        lemma_read_outpoint_of_enc(b, i + 4, s.first());
        assert forall|k: int| 0 <= k < s.drop_first().len() implies (#[trigger] s.drop_first()[k]).wf() by {
            assert(s.drop_first()[k] == s[k + 1]);
        }
        lemma_read_deps_of_enc(b, i + 4 + e1.len(), s.drop_first());
        assert(seq![s.first()] + s.drop_first() =~= s);
    }
}

pub proof fn lemma_read_inputs_of_enc(b: Seq<u8>, i: int, s: Seq<CellInputV>)
    requires
        0 <= i,
        forall|k: int| 0 <= k < s.len() ==> (#[trigger] s[k]).wf(),
        forall|k: int| 0 <= k < s.len() ==> spec_enc_input(#[trigger] s[k]).len() <= u32::MAX,
        i + spec_enc_inputs(s).len() <= b.len(),
        b.subrange(i, i + spec_enc_inputs(s).len()) == spec_enc_inputs(s),
    ensures
        spec_read_inputs(b, i, s.len() as nat) == Ok::<(Seq<CellInputV>, int), DecodeError>(
            (s, i + spec_enc_inputs(s).len()),
        ),
    decreases s.len(),
{
    if s.len() == 0 {
        assert(s =~= Seq::<CellInputV>::empty());
    } else {
        let e0 = spec_u32_le(spec_enc_input(s.first()).len() as u32);
        let e1 = spec_enc_input(s.first());
        let e2 = spec_enc_inputs(s.drop_first());
        assert(spec_enc_inputs(s) =~= e0 + (e1 + e2));
        lemma_subrange_split(b, i, e0, e1 + e2);
        lemma_subrange_split(b, i + 4, e1, e2);
        lemma_read_u32_of_enc(b, i, spec_enc_input(s.first()).len() as u32);
        lemma_read_input_of_enc(b, i + 4, s.first());
        assert forall|k: int| 0 <= k < s.drop_first().len() implies (#[trigger] s.drop_first()[k]).wf()
            && spec_enc_input(s.drop_first()[k]).len() <= u32::MAX by {
            assert(s.drop_first()[k] == s[k + 1]);
        }
        lemma_read_inputs_of_enc(b, i + 4 + e1.len(), s.drop_first());
        assert(seq![s.first()] + s.drop_first() =~= s);
    }
}

pub proof fn lemma_read_outputs_of_enc(b: Seq<u8>, i: int, s: Seq<CellOutputV>)
    requires
        0 <= i,
        forall|k: int| 0 <= k < s.len() ==> (#[trigger] s[k]).wf(),
        forall|k: int| 0 <= k < s.len() ==> spec_enc_output(#[trigger] s[k]).len() <= u32::MAX,
        i + spec_enc_outputs(s).len() <= b.len(),
        b.subrange(i, i + spec_enc_outputs(s).len()) == spec_enc_outputs(s),
    ensures
        spec_read_outputs(b, i, s.len() as nat) == Ok::<(Seq<CellOutputV>, int), DecodeError>(
            (s, i + spec_enc_outputs(s).len()),
        ),
    decreases s.len(),
{
    if s.len() == 0 {
        assert(s =~= Seq::<CellOutputV>::empty());
    } else {
        let e0 = spec_u32_le(spec_enc_output(s.first()).len() as u32);
        let e1 = spec_enc_output(s.first());
        let e2 = spec_enc_outputs(s.drop_first());
        assert(spec_enc_outputs(s) =~= e0 + (e1 + e2));
        lemma_subrange_split(b, i, e0, e1 + e2);
        lemma_subrange_split(b, i + 4, e1, e2);
        lemma_read_u32_of_enc(b, i, spec_enc_output(s.first()).len() as u32);
        lemma_read_output_of_enc(b, i + 4, s.first());
        assert forall|k: int| 0 <= k < s.drop_first().len() implies (#[trigger] s.drop_first()[k]).wf()
            && spec_enc_output(s.drop_first()[k]).len() <= u32::MAX by {
            assert(s.drop_first()[k] == s[k + 1]);
        }
        lemma_read_outputs_of_enc(b, i + 4 + e1.len(), s.drop_first());
        assert(seq![s.first()] + s.drop_first() =~= s);
    }
}

#[verifier::rlimit(50)]
pub proof fn lemma_read_tx_of_enc(b: Seq<u8>, i: int, t: TransactionV)
    requires
        t.wf(),
        tx_sizes_ok(t),
        0 <= i,
        i + spec_enc_tx(t).len() <= b.len(),
        b.subrange(i, i + spec_enc_tx(t).len()) == spec_enc_tx(t),
    ensures
        spec_read_tx(b, i) == Ok::<(TransactionV, int), DecodeError>((t, i + spec_enc_tx(t).len())),
{
    let c1 = spec_enc_fu32(1, t.version);
    let c2 = spec_tag(2);
    let c3 = spec_u32_le(t.deps.len() as u32);
    let c4 = spec_enc_deps(t.deps);
    let c5 = spec_tag(3);
    let c6 = spec_u32_le(t.inputs.len() as u32);
    let c7 = spec_enc_inputs(t.inputs);
    let c8 = spec_tag(4);
    let c9 = spec_u32_le(t.outputs.len() as u32);
    let c10 = spec_enc_outputs(t.outputs);
    assert(spec_enc_tx(t) =~= c1 + (c2 + (c3 + (c4 + (c5 + (c6 + (c7 + (c8 + (c9 + c10)))))))));
    lemma_subrange_split(b, i, c1, c2 + (c3 + (c4 + (c5 + (c6 + (c7 + (c8 + (c9 + c10))))))));
    let i1 = i + 5;
    lemma_subrange_split(b, i1, c2, c3 + (c4 + (c5 + (c6 + (c7 + (c8 + (c9 + c10)))))));
    let i2 = i1 + 1;
    lemma_subrange_split(b, i2, c3, c4 + (c5 + (c6 + (c7 + (c8 + (c9 + c10))))));
    let i3 = i2 + 4;
    lemma_subrange_split(b, i3, c4, c5 + (c6 + (c7 + (c8 + (c9 + c10)))));
    let i4 = i3 + c4.len();
    lemma_subrange_split(b, i4, c5, c6 + (c7 + (c8 + (c9 + c10))));
    let i5 = i4 + 1;
    lemma_subrange_split(b, i5, c6, c7 + (c8 + (c9 + c10)));
    let i6 = i5 + 4;
    lemma_subrange_split(b, i6, c7, c8 + (c9 + c10));
    let i7 = i6 + c7.len();
    lemma_subrange_split(b, i7, c8, c9 + c10);
    let i8 = i7 + 1;
    lemma_subrange_split(b, i8, c9, c10);
    let i9 = i8 + 4;
    lemma_read_fu32_of_enc(b, i, 1, t.version);
    lemma_read_tag_of_enc(b, i1, 2);
    lemma_read_u32_of_enc(b, i2, t.deps.len() as u32);
    lemma_read_deps_of_enc(b, i3, t.deps);
    lemma_read_tag_of_enc(b, i4, 3);
    lemma_read_u32_of_enc(b, i5, t.inputs.len() as u32);
    lemma_read_inputs_of_enc(b, i6, t.inputs);
    lemma_read_tag_of_enc(b, i7, 4);
    lemma_read_u32_of_enc(b, i8, t.outputs.len() as u32);
    lemma_read_outputs_of_enc(b, i9, t.outputs);
    assert((t.deps.len() as u32) as nat == t.deps.len());
    assert((t.inputs.len() as u32) as nat == t.inputs.len());
    assert((t.outputs.len() as u32) as nat == t.outputs.len());
    assert(spec_read_tx(b, i)->Ok_0.0 =~= t);
}

#[verifier::rlimit(30)]
pub proof fn lemma_read_txs_of_enc(b: Seq<u8>, i: int, s: Seq<TransactionV>)
    requires
        0 <= i,
        forall|k: int| 0 <= k < s.len() ==> (#[trigger] s[k]).wf(),
        forall|k: int| 0 <= k < s.len() ==> tx_sizes_ok(#[trigger] s[k]),
        forall|k: int| 0 <= k < s.len() ==> spec_enc_tx(#[trigger] s[k]).len() <= u32::MAX,
        i + spec_enc_txs(s).len() <= b.len(),
        b.subrange(i, i + spec_enc_txs(s).len()) == spec_enc_txs(s),
    ensures
        spec_read_txs(b, i, s.len() as nat) == Ok::<(Seq<TransactionV>, int), DecodeError>(
            (s, i + spec_enc_txs(s).len()),
        ),
    decreases s.len(),
{
    if s.len() == 0 {
        assert(s =~= Seq::<TransactionV>::empty());
    } else {
        let e0 = spec_u32_le(spec_enc_tx(s.first()).len() as u32);
        let e1 = spec_enc_tx(s.first());
        let e2 = spec_enc_txs(s.drop_first());
        assert(spec_enc_txs(s) =~= e0 + (e1 + e2));
        lemma_subrange_split(b, i, e0, e1 + e2);
        lemma_subrange_split(b, i + 4, e1, e2);
        lemma_read_u32_of_enc(b, i, spec_enc_tx(s.first()).len() as u32);
        lemma_read_tx_of_enc(b, i + 4, s.first());
        assert forall|k: int| 0 <= k < s.drop_first().len() implies (#[trigger] s.drop_first()[k]).wf()
            && tx_sizes_ok(s.drop_first()[k]) && spec_enc_tx(s.drop_first()[k]).len()
            <= u32::MAX by {
            assert(s.drop_first()[k] == s[k + 1]);
        }
        lemma_read_txs_of_enc(b, i + 4 + e1.len(), s.drop_first());
        assert(seq![s.first()] + s.drop_first() =~= s);
    }
}

#[verifier::rlimit(50)]
pub proof fn lemma_read_header_of_enc(b: Seq<u8>, i: int, h: HeaderV)
    requires
        h.wf(),
        0 <= i,
        i + spec_enc_header(h).len() <= b.len(),
        b.subrange(i, i + spec_enc_header(h).len()) == spec_enc_header(h),
    ensures
        spec_read_header(b, i) == Ok::<(HeaderV, int), DecodeError>(
            (h, i + spec_enc_header(h).len()),
        ),
{
    let c1 = spec_enc_fu32(1, h.version);
    let c2 = spec_enc_fdigest(2, h.parent_hash);
    let c3 = spec_enc_fu64(3, h.timestamp);
    let c4 = spec_enc_fu64(4, h.number);
    let c5 = spec_enc_fdigest(5, h.txs_commit);
    let c6 = spec_enc_fdigest(6, h.txs_proposal);
    let c7 = spec_enc_fdiff(7, h.difficulty);
    let c8 = spec_enc_fu64(8, h.seal.nonce);
    let c9 = spec_enc_fbytes(9, h.seal.proof);
    let c10 = spec_enc_fdigest(10, h.cellbase_id);
    let c11 = spec_enc_fdigest(11, h.uncles_hash);
    assert(spec_enc_header(h) =~= c1 + (c2 + (c3 + (c4 + (c5 + (c6 + (c7 + (c8 + (c9 + (c10
        + c11))))))))));
    lemma_subrange_split(b, i, c1, c2 + (c3 + (c4 + (c5 + (c6 + (c7 + (c8 + (c9 + (c10 + c11)))))))));
    let i1 = i + 5;
    lemma_subrange_split(b, i1, c2, c3 + (c4 + (c5 + (c6 + (c7 + (c8 + (c9 + (c10 + c11))))))));
    let i2 = i1 + 37;
    lemma_subrange_split(b, i2, c3, c4 + (c5 + (c6 + (c7 + (c8 + (c9 + (c10 + c11)))))));
    let i3 = i2 + 9;
    lemma_subrange_split(b, i3, c4, c5 + (c6 + (c7 + (c8 + (c9 + (c10 + c11))))));
    let i4 = i3 + 9;
    lemma_subrange_split(b, i4, c5, c6 + (c7 + (c8 + (c9 + (c10 + c11)))));
    let i5 = i4 + 37;
    lemma_subrange_split(b, i5, c6, c7 + (c8 + (c9 + (c10 + c11))));
    let i6 = i5 + 37;
    lemma_subrange_split(b, i6, c7, c8 + (c9 + (c10 + c11)));
    let i7 = i6 + 37;
    lemma_subrange_split(b, i7, c8, c9 + (c10 + c11));
    let i8 = i7 + 9;
    lemma_subrange_split(b, i8, c9, c10 + c11);
    let i9 = i8 + c9.len();
    lemma_subrange_split(b, i9, c10, c11);
    let i10 = i9 + 37;
    lemma_read_fu32_of_enc(b, i, 1, h.version);
    lemma_read_fdigest_of_enc(b, i1, 2, h.parent_hash);
    lemma_read_fu64_of_enc(b, i2, 3, h.timestamp);
    lemma_read_fu64_of_enc(b, i3, 4, h.number);
    lemma_read_fdigest_of_enc(b, i4, 5, h.txs_commit);
    lemma_read_fdigest_of_enc(b, i5, 6, h.txs_proposal);
    lemma_read_fdiff_of_enc(b, i6, 7, h.difficulty);
    lemma_read_fu64_of_enc(b, i7, 8, h.seal.nonce);
    lemma_read_fbytes_of_enc(b, i8, 9, h.seal.proof);
    lemma_read_fdigest_of_enc(b, i9, 10, h.cellbase_id);
    lemma_read_fdigest_of_enc(b, i10, 11, h.uncles_hash);
    assert(spec_read_header(b, i)->Ok_0.0 =~= h);
}

#[verifier::rlimit(100)]
pub proof fn lemma_read_block_of_enc(b: Seq<u8>, i: int, bl: BlockV)
    requires
        bl.wf(),
        block_sizes_ok(bl),
        0 <= i,
        i + spec_enc_block(bl).len() <= b.len(),
        b.subrange(i, i + spec_enc_block(bl).len()) == spec_enc_block(bl),
    ensures
        spec_read_block(b, i) == Ok::<(BlockV, int), DecodeError>(
            (bl, i + spec_enc_block(bl).len()),
        ),
{
    let c1 = spec_tag(1);
    let c2 = spec_u32_le(spec_enc_header(bl.header).len() as u32);
    let c3 = spec_enc_header(bl.header);
    let c4 = spec_tag(2);
    let c5 = spec_u32_le(bl.transactions.len() as u32);
    let c6 = spec_enc_txs(bl.transactions);
    assert(spec_enc_block(bl) =~= c1 + (c2 + (c3 + (c4 + (c5 + c6)))));
    lemma_subrange_split(b, i, c1, c2 + (c3 + (c4 + (c5 + c6))));
    let i1 = i + 1;
    lemma_subrange_split(b, i1, c2, c3 + (c4 + (c5 + c6)));
    let i2 = i1 + 4;
    lemma_subrange_split(b, i2, c3, c4 + (c5 + c6));
    let i3 = i2 + c3.len();
    lemma_subrange_split(b, i3, c4, c5 + c6);
    let i4 = i3 + 1;
    lemma_subrange_split(b, i4, c5, c6);
    let i5 = i4 + 4;
    lemma_read_tag_of_enc(b, i, 1);
    lemma_read_u32_of_enc(b, i1, spec_enc_header(bl.header).len() as u32);
    lemma_read_header_of_enc(b, i2, bl.header);
    lemma_read_tag_of_enc(b, i3, 2);
    lemma_read_u32_of_enc(b, i4, bl.transactions.len() as u32);
    lemma_read_txs_of_enc(b, i5, bl.transactions);
    assert((bl.transactions.len() as u32) as nat == bl.transactions.len());
    assert(spec_read_block(b, i)->Ok_0.0 =~= bl);
}

// ---------------------------------------------------------------------------
// Composing partial reads of a sequence.
// ---------------------------------------------------------------------------

pub proof fn lemma_read_deps_concat(b: Seq<u8>, i: int, s1: Seq<OutPointV>, j: int, m: nat)
    requires
        spec_read_deps(b, i, s1.len() as nat) == Ok::<(Seq<OutPointV>, int), DecodeError>((s1, j)),
    ensures
        spec_read_deps(b, i, (s1.len() + m) as nat) == (match spec_read_deps(b, j, m) {
            Ok((s2, k)) => Ok::<(Seq<OutPointV>, int), DecodeError>((s1 + s2, k)),
            Err(e) => Err::<(Seq<OutPointV>, int), DecodeError>(e),
        }),
    decreases s1.len(),
{
    if s1.len() == 0 {
        assert(j == i);
        match spec_read_deps(b, j, m) {
            Ok((s2, k)) => {
                assert(s1 + s2 =~= s2);
            },
            Err(e) => {},
        }
    } else {
        let q0 = spec_read_u32(b, i);
        assert(q0 is Ok);
        let (len0, ja) = q0->Ok_0;
        let r0 = spec_read_outpoint(b, ja);
        assert(r0 is Ok);
        let p0 = r0->Ok_0;
        let r1 = spec_read_deps(b, p0.1, (s1.len() - 1) as nat);
        assert(r1 is Ok);
        let p1 = r1->Ok_0;
        assert(s1 == seq![p0.0] + p1.0);
        assert(p1.0 =~= s1.drop_first());
        assert(p1.0.len() == s1.len() - 1);
        lemma_read_deps_concat(b, p0.1, p1.0, j, m);
        match spec_read_deps(b, j, m) {
            Ok((s2, k)) => {
                assert(seq![p0.0] + (p1.0 + s2) =~= s1 + s2);
            },
            Err(e) => {},
        }
    }
}

pub proof fn lemma_read_inputs_concat(b: Seq<u8>, i: int, s1: Seq<CellInputV>, j: int, m: nat)
    requires
        spec_read_inputs(b, i, s1.len() as nat) == Ok::<(Seq<CellInputV>, int), DecodeError>(
            (s1, j),
        ),
    ensures
        spec_read_inputs(b, i, (s1.len() + m) as nat) == (match spec_read_inputs(b, j, m) {
            Ok((s2, k)) => Ok::<(Seq<CellInputV>, int), DecodeError>((s1 + s2, k)),
            Err(e) => Err::<(Seq<CellInputV>, int), DecodeError>(e),
        }),
    decreases s1.len(),
{
    if s1.len() == 0 {
        assert(j == i);
        match spec_read_inputs(b, j, m) {
            Ok((s2, k)) => {
                assert(s1 + s2 =~= s2);
            },
            Err(e) => {},
        }
    } else {
        let q0 = spec_read_u32(b, i);
        assert(q0 is Ok);
        let (len0, ja) = q0->Ok_0;
        let r0 = spec_read_input(b, ja);
        assert(r0 is Ok);
        let p0 = r0->Ok_0;
        let r1 = spec_read_inputs(b, p0.1, (s1.len() - 1) as nat);
        assert(r1 is Ok);
        let p1 = r1->Ok_0;
        assert(s1 == seq![p0.0] + p1.0);
        assert(p1.0 =~= s1.drop_first());
        assert(p1.0.len() == s1.len() - 1);
        lemma_read_inputs_concat(b, p0.1, p1.0, j, m);
        match spec_read_inputs(b, j, m) {
            Ok((s2, k)) => {
                assert(seq![p0.0] + (p1.0 + s2) =~= s1 + s2);
            },
            Err(e) => {},
        }
    }
}

pub proof fn lemma_read_outputs_concat(b: Seq<u8>, i: int, s1: Seq<CellOutputV>, j: int, m: nat)
    requires
        spec_read_outputs(b, i, s1.len() as nat) == Ok::<(Seq<CellOutputV>, int), DecodeError>(
            (s1, j),
        ),
    ensures
        spec_read_outputs(b, i, (s1.len() + m) as nat) == (match spec_read_outputs(b, j, m) {
            Ok((s2, k)) => Ok::<(Seq<CellOutputV>, int), DecodeError>((s1 + s2, k)),
            Err(e) => Err::<(Seq<CellOutputV>, int), DecodeError>(e),
        }),
    decreases s1.len(),
{
    if s1.len() == 0 {
        assert(j == i);
        match spec_read_outputs(b, j, m) {
            Ok((s2, k)) => {
                assert(s1 + s2 =~= s2);
            },
            Err(e) => {},
        }
    } else {
        let q0 = spec_read_u32(b, i);
        assert(q0 is Ok);
        let (len0, ja) = q0->Ok_0;
        let r0 = spec_read_output(b, ja);
        assert(r0 is Ok);
        let p0 = r0->Ok_0;
        let r1 = spec_read_outputs(b, p0.1, (s1.len() - 1) as nat);
        assert(r1 is Ok);
        let p1 = r1->Ok_0;
        assert(s1 == seq![p0.0] + p1.0);
        assert(p1.0 =~= s1.drop_first());
        assert(p1.0.len() == s1.len() - 1);
        lemma_read_outputs_concat(b, p0.1, p1.0, j, m);
        match spec_read_outputs(b, j, m) {
            Ok((s2, k)) => {
                assert(seq![p0.0] + (p1.0 + s2) =~= s1 + s2);
            },
            Err(e) => {},
        }
    }
}

pub proof fn lemma_read_txs_concat(b: Seq<u8>, i: int, s1: Seq<TransactionV>, j: int, m: nat)
    requires
        spec_read_txs(b, i, s1.len() as nat) == Ok::<(Seq<TransactionV>, int), DecodeError>(
            (s1, j),
        ),
    ensures
        spec_read_txs(b, i, (s1.len() + m) as nat) == (match spec_read_txs(b, j, m) {
            Ok((s2, k)) => Ok::<(Seq<TransactionV>, int), DecodeError>((s1 + s2, k)),
            Err(e) => Err::<(Seq<TransactionV>, int), DecodeError>(e),
        }),
    decreases s1.len(),
{
    if s1.len() == 0 {
        assert(j == i);
        match spec_read_txs(b, j, m) {
            Ok((s2, k)) => {
                assert(s1 + s2 =~= s2);
            },
            Err(e) => {},
        }
    } else {
        let q0 = spec_read_u32(b, i);
        assert(q0 is Ok);
        let (len0, ja) = q0->Ok_0;
        let r0 = spec_read_tx(b, ja);
        assert(r0 is Ok);
        let p0 = r0->Ok_0;
        let r1 = spec_read_txs(b, p0.1, (s1.len() - 1) as nat);
        assert(r1 is Ok);
        let p1 = r1->Ok_0;
        assert(s1 == seq![p0.0] + p1.0);
        assert(p1.0 =~= s1.drop_first());
        assert(p1.0.len() == s1.len() - 1);
        lemma_read_txs_concat(b, p0.1, p1.0, j, m);
        match spec_read_txs(b, j, m) {
            Ok((s2, k)) => {
                assert(seq![p0.0] + (p1.0 + s2) =~= s1 + s2);
            },
            Err(e) => {},
        }
    }
}


// ---------------------------------------------------------------------------
// Executable field primitives.
// ---------------------------------------------------------------------------

fn push_tag(out: &mut Vec<u8>, t: u8)
    ensures
        final(out)@ == old(out)@ + spec_tag(t),
{
    out.push(t);
    proof {
        assert(out@ =~= old(out)@ + spec_tag(t));
    }
}

fn read_tag(b: &[u8], i: usize, t: u8) -> (r: Result<usize, DecodeError>)
    ensures
        match r {
            Ok(j) => spec_read_tag(b@, i as int, t) == Ok::<int, DecodeError>(j as int) && i < j
                <= b@.len(),
            Err(e) => spec_read_tag(b@, i as int, t) == Err::<int, DecodeError>(e),
        },
{
    if i < b.len() {
        if b[i] == t {
            Ok(i + 1)
        } else {
            Err(DecodeError::BadTag)
        }
    } else {
        Err(DecodeError::TooShort)
    }
}

fn read_fu32(b: &[u8], i: usize, t: u8) -> (r: Result<(u32, usize), DecodeError>)
    ensures
        match r {
            Ok((x, j)) => spec_read_fu32(b@, i as int, t) == Ok::<(u32, int), DecodeError>(
                (x, j as int),
            ) && i < j <= b@.len(),
            Err(e) => spec_read_fu32(b@, i as int, t) == Err::<(u32, int), DecodeError>(e),
        },
{
    let j = match read_tag(b, i, t) {
        Ok(j) => j,
        Err(e) => {
            return Err(e);
        },
    };
    read_u32_le(b, j)
}

fn read_fu64(b: &[u8], i: usize, t: u8) -> (r: Result<(u64, usize), DecodeError>)
    ensures
        match r {
            Ok((x, j)) => spec_read_fu64(b@, i as int, t) == Ok::<(u64, int), DecodeError>(
                (x, j as int),
            ) && i < j <= b@.len(),
            Err(e) => spec_read_fu64(b@, i as int, t) == Err::<(u64, int), DecodeError>(e),
        },
{
    let j = match read_tag(b, i, t) {
        Ok(j) => j,
        Err(e) => {
            return Err(e);
        },
    };
    read_u64_le(b, j)
}

fn read_fdigest(b: &[u8], i: usize, t: u8) -> (r: Result<(Vec<u8>, usize), DecodeError>)
    ensures
        match r {
            Ok((v, j)) => spec_read_fdigest(b@, i as int, t) == Ok::<(Seq<u8>, int), DecodeError>(
                (v@, j as int),
            ) && i < j <= b@.len() && v@.len() == 32,
            Err(e) => spec_read_fdigest(b@, i as int, t) == Err::<(Seq<u8>, int), DecodeError>(e),
        },
{
    let j = match read_tag(b, i, t) {
        Ok(j) => j,
        Err(e) => {
            return Err(e);
        },
    };
    let (n, k) = match read_u32_le(b, j) {
        Ok(p) => p,
        Err(e) => {
            return Err(e);
        },
    };
    if n == 32 {
        read_exact(b, k, 32)
    } else {
        Err(DecodeError::BadLength)
    }
}

fn read_fbytes(b: &[u8], i: usize, t: u8) -> (r: Result<(Vec<u8>, usize), DecodeError>)
    ensures
        match r {
            Ok((v, j)) => spec_read_fbytes(b@, i as int, t) == Ok::<(Seq<u8>, int), DecodeError>(
                (v@, j as int),
            ) && i < j <= b@.len() && v@.len() <= u32::MAX,
            Err(e) => spec_read_fbytes(b@, i as int, t) == Err::<(Seq<u8>, int), DecodeError>(e),
        },
{
    let j = match read_tag(b, i, t) {
        Ok(j) => j,
        Err(e) => {
            return Err(e);
        },
    };
    read_bytes(b, j)
}

fn read_fdiff(b: &[u8], i: usize, t: u8) -> (r: Result<(U256, usize), DecodeError>)
    ensures
        match r {
            Ok((d, j)) => spec_read_fdiff(b@, i as int, t) == Ok::<(U256, int), DecodeError>(
                (d, j as int),
            ) && i < j <= b@.len(),
            Err(e) => spec_read_fdiff(b@, i as int, t) == Err::<(U256, int), DecodeError>(e),
        },
{
    let j = match read_tag(b, i, t) {
        Ok(j) => j,
        Err(e) => {
            return Err(e);
        },
    };
    let (n, k) = match read_u32_le(b, j) {
        Ok(p) => p,
        Err(e) => {
            return Err(e);
        },
    };
    if n == 32 {
        read_u256_be(b, k)
    } else {
        Err(DecodeError::BadLength)
    }
}

// ---------------------------------------------------------------------------
// Executable encoders.
// ---------------------------------------------------------------------------

pub(crate) fn enc_outpoint(o: &OutPoint, out: &mut Vec<u8>)
    requires
        o@.wf(),
    ensures
        final(out)@ == old(out)@ + spec_enc_outpoint(o@),
{
    push_tag(out, 1);
    push_u32_le(out, 32);
    push_slice(out, o.hash.as_slice());
    push_tag(out, 2);
    push_u32_le(out, o.index);
    proof {
        assert(out@ =~= old(out)@ + spec_enc_outpoint(o@));
    }
}

pub(crate) fn enc_input(c: &CellInput, out: &mut Vec<u8>)
    requires
        c@.wf(),
    ensures
        final(out)@ == old(out)@ + spec_enc_input(c@),
{
    push_tag(out, 1);
    push_u32_le(out, 32);
    push_slice(out, c.previous_output.hash.as_slice());
    push_tag(out, 2);
    push_u32_le(out, c.previous_output.index);
    push_tag(out, 3);
    push_bytes(out, c.unlock.as_slice());
    proof {
        assert(out@ =~= old(out)@ + spec_enc_input(c@));
    }
}

pub(crate) fn enc_output(c: &CellOutput, out: &mut Vec<u8>)
    requires
        c@.wf(),
    ensures
        final(out)@ == old(out)@ + spec_enc_output(c@),
{
    push_tag(out, 1);
    push_u64_le(out, c.capacity);
    push_tag(out, 2);
    push_bytes(out, c.data.as_slice());
    push_tag(out, 3);
    push_u32_le(out, 32);
    push_slice(out, c.lock.as_slice());
    proof {
        assert(out@ =~= old(out)@ + spec_enc_output(c@));
    }
}

pub(crate) fn enc_tx(t: &Transaction, out: &mut Vec<u8>)
    requires
        t@.wf(),
        tx_sizes_ok(t@),
    ensures
        final(out)@ == old(out)@ + spec_enc_tx(t@),
{
    proof {
        assert(t@.deps.len() == t.deps@.len());
        assert(t@.inputs.len() == t.inputs@.len());
        assert(t@.outputs.len() == t.outputs@.len());
    }
    push_tag(out, 1);
    push_u32_le(out, t.version);
    push_tag(out, 2);
    push_u32_le(out, t.deps.len() as u32);
    let ghost base1 = old(out)@ + spec_enc_fu32(1, t.version) + spec_tag(2) + spec_u32_le(
        t.deps.len() as u32,
    );
    proof {
        assert(out@ =~= base1);
    }
    let mut k: usize = 0;
    while k < t.deps.len()
        invariant
            t@.wf(),
            t@.deps.len() == t.deps@.len(),
            k <= t.deps@.len(),
            out@ == base1 + spec_enc_deps(t@.deps.take(k as int)),
        decreases t.deps@.len() - k,
    {
        proof {
            assert(t@.deps[k as int] == t.deps@[k as int]@);
            assert((#[trigger] t@.deps[k as int]).wf());
        }
        let mut ebuf: Vec<u8> = Vec::new();
        enc_outpoint(&t.deps[k], &mut ebuf);
        push_u32_le(out, ebuf.len() as u32);
        push_slice(out, ebuf.as_slice());
        proof {
            lemma_enc_deps_snoc(t@.deps, k as int);
            assert(out@ =~= base1 + spec_enc_deps(t@.deps.take(k as int + 1)));
        }
        k = k + 1;
    }
    proof {
        assert(t@.deps.take(t@.deps.len() as int) =~= t@.deps);
    }
    push_tag(out, 3);
    push_u32_le(out, t.inputs.len() as u32);
    let ghost base2 = base1 + spec_enc_deps(t@.deps) + spec_tag(3) + spec_u32_le(
        t.inputs.len() as u32,
    );
    proof {
        assert(out@ =~= base2);
    }
    let mut k2: usize = 0;
    while k2 < t.inputs.len()
        invariant
            t@.wf(),
            tx_sizes_ok(t@),
            t@.inputs.len() == t.inputs@.len(),
            k2 <= t.inputs@.len(),
            out@ == base2 + spec_enc_inputs(t@.inputs.take(k2 as int)),
        decreases t.inputs@.len() - k2,
    {
        proof {
            assert(t@.inputs[k2 as int] == t.inputs@[k2 as int]@);
            assert((#[trigger] t@.inputs[k2 as int]).wf());
            assert(spec_enc_input(t@.inputs[k2 as int]).len() <= u32::MAX);
        }
        let mut ebuf: Vec<u8> = Vec::new();
        enc_input(&t.inputs[k2], &mut ebuf);
        push_u32_le(out, ebuf.len() as u32);
        push_slice(out, ebuf.as_slice());
        proof {
            lemma_enc_inputs_snoc(t@.inputs, k2 as int);
            assert(out@ =~= base2 + spec_enc_inputs(t@.inputs.take(k2 as int + 1)));
        }
        k2 = k2 + 1;
    }
    proof {
        assert(t@.inputs.take(t@.inputs.len() as int) =~= t@.inputs);
    }
    push_tag(out, 4);
    push_u32_le(out, t.outputs.len() as u32);
    let ghost base3 = base2 + spec_enc_inputs(t@.inputs) + spec_tag(4) + spec_u32_le(
        t.outputs.len() as u32,
    );
    proof {
        assert(out@ =~= base3);
    }
    let mut k3: usize = 0;
    while k3 < t.outputs.len()
        invariant
            t@.wf(),
            tx_sizes_ok(t@),
            t@.outputs.len() == t.outputs@.len(),
            k3 <= t.outputs@.len(),
            out@ == base3 + spec_enc_outputs(t@.outputs.take(k3 as int)),
        decreases t.outputs@.len() - k3,
    {
        proof {
            assert(t@.outputs[k3 as int] == t.outputs@[k3 as int]@);
            assert((#[trigger] t@.outputs[k3 as int]).wf());
            assert(spec_enc_output(t@.outputs[k3 as int]).len() <= u32::MAX);
        }
        let mut ebuf: Vec<u8> = Vec::new();
        enc_output(&t.outputs[k3], &mut ebuf);
        push_u32_le(out, ebuf.len() as u32);
        push_slice(out, ebuf.as_slice());
        proof {
            lemma_enc_outputs_snoc(t@.outputs, k3 as int);
            assert(out@ =~= base3 + spec_enc_outputs(t@.outputs.take(k3 as int + 1)));
        }
        k3 = k3 + 1;
    }
    proof {
        assert(t@.outputs.take(t@.outputs.len() as int) =~= t@.outputs);
        assert(out@ =~= old(out)@ + spec_enc_tx(t@));
    }
}

#[verifier::rlimit(100)]
pub(crate) fn enc_header(h: &Header, out: &mut Vec<u8>)
    requires
        h@.wf(),
    ensures
        final(out)@ == old(out)@ + spec_enc_header(h@),
{
    push_tag(out, 1);
    push_u32_le(out, h.version);
    push_tag(out, 2);
    push_u32_le(out, 32);
    push_slice(out, h.parent_hash.as_slice());
    push_tag(out, 3);
    push_u64_le(out, h.timestamp);
    push_tag(out, 4);
    push_u64_le(out, h.number);
    push_tag(out, 5);
    push_u32_le(out, 32);
    push_slice(out, h.txs_commit.as_slice());
    push_tag(out, 6);
    push_u32_le(out, 32);
    push_slice(out, h.txs_proposal.as_slice());
    push_tag(out, 7);
    push_u32_le(out, 32);
    push_u256_be(out, h.difficulty);
    push_tag(out, 8);
    push_u64_le(out, h.seal.nonce);
    push_tag(out, 9);
    push_bytes(out, h.seal.proof.as_slice());
    push_tag(out, 10);
    push_u32_le(out, 32);
    push_slice(out, h.cellbase_id.as_slice());
    push_tag(out, 11);
    push_u32_le(out, 32);
    push_slice(out, h.uncles_hash.as_slice());
    proof {
        assert(out@ =~= old(out)@ + spec_enc_header(h@));
    }
}

pub(crate) fn enc_block(bl: &Block, out: &mut Vec<u8>)
    requires
        bl@.wf(),
        block_sizes_ok(bl@),
    ensures
        final(out)@ == old(out)@ + spec_enc_block(bl@),
{
    proof {
        assert(bl@.transactions.len() == bl.transactions@.len());
    }
    let mut hbuf: Vec<u8> = Vec::new();
    enc_header(&bl.header, &mut hbuf);
    push_tag(out, 1);
    push_u32_le(out, hbuf.len() as u32);
    push_slice(out, hbuf.as_slice());
    push_tag(out, 2);
    push_u32_le(out, bl.transactions.len() as u32);
    let ghost base = old(out)@ + spec_tag(1) + spec_u32_le(
        spec_enc_header(bl@.header).len() as u32,
    ) + spec_enc_header(bl@.header) + spec_tag(2) + spec_u32_le(bl.transactions.len() as u32);
    proof {
        assert(out@ =~= base);
    }
    let mut k: usize = 0;
    while k < bl.transactions.len()
        invariant
            bl@.wf(),
            block_sizes_ok(bl@),
            bl@.transactions.len() == bl.transactions@.len(),
            k <= bl.transactions@.len(),
            out@ == base + spec_enc_txs(bl@.transactions.take(k as int)),
        decreases bl.transactions@.len() - k,
    {
        proof {
            assert(bl@.transactions[k as int] == bl.transactions@[k as int]@);
            assert((#[trigger] bl@.transactions[k as int]).wf());
            assert(spec_enc_tx(bl@.transactions[k as int]).len() <= u32::MAX);
            assert(tx_sizes_ok(bl@.transactions[k as int]));
        }
        let mut tbuf: Vec<u8> = Vec::new();
        enc_tx(&bl.transactions[k], &mut tbuf);
        push_u32_le(out, tbuf.len() as u32);
        push_slice(out, tbuf.as_slice());
        proof {
            lemma_enc_txs_snoc(bl@.transactions, k as int);
            assert(out@ =~= base + spec_enc_txs(bl@.transactions.take(k as int + 1)));
        }
        k = k + 1;
    }
    proof {
        assert(bl@.transactions.take(bl@.transactions.len() as int) =~= bl@.transactions);
        assert(out@ =~= old(out)@ + spec_enc_block(bl@));
    }
}

// ---------------------------------------------------------------------------
// Executable decoders.
// ---------------------------------------------------------------------------

pub(crate) fn read_outpoint(b: &[u8], i: usize) -> (r: Result<(OutPoint, usize), DecodeError>)
    ensures
        match r {
            Ok((o, j)) => spec_read_outpoint(b@, i as int) == Ok::<(OutPointV, int), DecodeError>(
                (o@, j as int),
            ) && i <= j <= b@.len() && o@.wf(),
            Err(e) => spec_read_outpoint(b@, i as int) == Err::<(OutPointV, int), DecodeError>(e),
        },
{
    let (h, j) = match read_fdigest(b, i, 1) {
        Ok(p) => p,
        Err(e) => {
            return Err(e);
        },
    };
    let (x, k) = match read_fu32(b, j, 2) {
        Ok(p) => p,
        Err(e) => {
            return Err(e);
        },
    };
    Ok((OutPoint { hash: h, index: x }, k))
}

pub(crate) fn read_input(b: &[u8], i: usize) -> (r: Result<(CellInput, usize), DecodeError>)
    ensures
        match r {
            Ok((c, j)) => spec_read_input(b@, i as int) == Ok::<(CellInputV, int), DecodeError>(
                (c@, j as int),
            ) && i <= j <= b@.len() && c@.wf(),
            Err(e) => spec_read_input(b@, i as int) == Err::<(CellInputV, int), DecodeError>(e),
        },
{
    let (h, j) = match read_fdigest(b, i, 1) {
        Ok(p) => p,
        Err(e) => {
            return Err(e);
        },
    };
    let (x, k) = match read_fu32(b, j, 2) {
        Ok(p) => p,
        Err(e) => {
            return Err(e);
        },
    };
    let (u, m) = match read_fbytes(b, k, 3) {
        Ok(p) => p,
        Err(e) => {
            return Err(e);
        },
    };
    Ok((CellInput { previous_output: OutPoint { hash: h, index: x }, unlock: u }, m))
}

pub(crate) fn read_output(b: &[u8], i: usize) -> (r: Result<(CellOutput, usize), DecodeError>)
    ensures
        match r {
            Ok((c, j)) => spec_read_output(b@, i as int) == Ok::<(CellOutputV, int), DecodeError>(
                (c@, j as int),
            ) && i <= j <= b@.len() && c@.wf(),
            Err(e) => spec_read_output(b@, i as int) == Err::<(CellOutputV, int), DecodeError>(e),
        },
{
    let (cap, j) = match read_fu64(b, i, 1) {
        Ok(p) => p,
        Err(e) => {
            return Err(e);
        },
    };
    let (d, k) = match read_fbytes(b, j, 2) {
        Ok(p) => p,
        Err(e) => {
            return Err(e);
        },
    };
    let (l, m) = match read_fdigest(b, k, 3) {
        Ok(p) => p,
        Err(e) => {
            return Err(e);
        },
    };
    Ok((CellOutput { capacity: cap, data: d, lock: l }, m))
}

pub(crate) fn read_deps(b: &[u8], i: usize, n: u32) -> (r: Result<
    (Vec<OutPoint>, usize),
    DecodeError,
>)
    requires
        i <= b@.len(),
    ensures
        match r {
            Ok((v, j)) => spec_read_deps(b@, i as int, n as nat) == Ok::<
                (Seq<OutPointV>, int),
                DecodeError,
            >((deps_view(v@), j as int)) && i <= j <= b@.len() && v@.len() == n && (forall|m: int|
                0 <= m < v@.len() ==> (#[trigger] deps_view(v@)[m]).wf()),
            Err(e) => spec_read_deps(b@, i as int, n as nat) == Err::<
                (Seq<OutPointV>, int),
                DecodeError,
            >(e),
        },
{
    let mut acc: Vec<OutPoint> = Vec::new();
    let mut cur: usize = i;
    let mut k: u32 = 0;
    proof {
        assert(deps_view(acc@) =~= Seq::<OutPointV>::empty());
    }
    while k < n
        invariant
            k <= n,
            i <= cur <= b@.len(),
            acc@.len() == k,
            spec_read_deps(b@, i as int, k as nat) == Ok::<(Seq<OutPointV>, int), DecodeError>(
                (deps_view(acc@), cur as int),
            ),
            forall|m: int| 0 <= m < acc@.len() ==> (#[trigger] deps_view(acc@)[m]).wf(),
        decreases n - k,
    {
        let (len0, j0) = match read_u32_le(b, cur) {
            Ok(p) => p,
            Err(e) => {
                proof {
                    lemma_read_deps_concat(b@, i as int, deps_view(acc@), cur as int, (n - k) as nat);
                }
                return Err(e);
            },
        };
        match read_outpoint(b, j0) {
            Ok((o, j)) => {
                if j - j0 == len0 as usize {
                    proof {
                        lemma_read_deps_concat(b@, i as int, deps_view(acc@), cur as int, 1);
                        assert(spec_read_deps(b@, j as int, 0) == Ok::<
                            (Seq<OutPointV>, int),
                            DecodeError,
                        >((Seq::empty(), j as int)));
                        assert(seq![o@] + Seq::<OutPointV>::empty() =~= seq![o@]);
                        assert(deps_view(acc@.push(o)) =~= deps_view(acc@) + seq![o@]);
                    }
                    acc.push(o);
                    cur = j;
                    k = k + 1;
                } else {
                    proof {
                        lemma_read_deps_concat(b@, i as int, deps_view(acc@), cur as int, (n
                            - k) as nat);
                    }
                    return Err(DecodeError::BadLength);
                }
            },
            Err(e) => {
                proof {
                    lemma_read_deps_concat(b@, i as int, deps_view(acc@), cur as int, (n - k) as nat);
                }
                return Err(e);
            },
        }
    }
    Ok((acc, cur))
}

pub(crate) fn read_inputs(b: &[u8], i: usize, n: u32) -> (r: Result<
    (Vec<CellInput>, usize),
    DecodeError,
>)
    requires
        i <= b@.len(),
    ensures
        match r {
            Ok((v, j)) => spec_read_inputs(b@, i as int, n as nat) == Ok::<
                (Seq<CellInputV>, int),
                DecodeError,
            >((inputs_view(v@), j as int)) && i <= j <= b@.len() && v@.len() == n && (forall|m: int|
                0 <= m < v@.len() ==> (#[trigger] inputs_view(v@)[m]).wf()),
            Err(e) => spec_read_inputs(b@, i as int, n as nat) == Err::<
                (Seq<CellInputV>, int),
                DecodeError,
            >(e),
        },
{
    let mut acc: Vec<CellInput> = Vec::new();
    let mut cur: usize = i;
    let mut k: u32 = 0;
    proof {
        assert(inputs_view(acc@) =~= Seq::<CellInputV>::empty());
    }
    while k < n
        invariant
            k <= n,
            i <= cur <= b@.len(),
            acc@.len() == k,
            spec_read_inputs(b@, i as int, k as nat) == Ok::<(Seq<CellInputV>, int), DecodeError>(
                (inputs_view(acc@), cur as int),
            ),
            forall|m: int| 0 <= m < acc@.len() ==> (#[trigger] inputs_view(acc@)[m]).wf(),
        decreases n - k,
    {
        let (len0, j0) = match read_u32_le(b, cur) {
            Ok(p) => p,
            Err(e) => {
                proof {
                    lemma_read_inputs_concat(b@, i as int, inputs_view(acc@), cur as int, (n
                        - k) as nat);
                }
                return Err(e);
            },
        };
        match read_input(b, j0) {
            Ok((c, j)) => {
                if j - j0 == len0 as usize {
                    proof {
                        lemma_read_inputs_concat(b@, i as int, inputs_view(acc@), cur as int, 1);
                        assert(spec_read_inputs(b@, j as int, 0) == Ok::<
                            (Seq<CellInputV>, int),
                            DecodeError,
                        >((Seq::empty(), j as int)));
                        assert(seq![c@] + Seq::<CellInputV>::empty() =~= seq![c@]);
                        assert(inputs_view(acc@.push(c)) =~= inputs_view(acc@) + seq![c@]);
                    }
                    acc.push(c);
                    cur = j;
                    k = k + 1;
                } else {
                    proof {
                        lemma_read_inputs_concat(b@, i as int, inputs_view(acc@), cur as int, (n
                            - k) as nat);
                    }
                    return Err(DecodeError::BadLength);
                }
            },
            Err(e) => {
                proof {
                    lemma_read_inputs_concat(b@, i as int, inputs_view(acc@), cur as int, (n
                        - k) as nat);
                }
                return Err(e);
            },
        }
    }
    Ok((acc, cur))
}

pub(crate) fn read_outputs(b: &[u8], i: usize, n: u32) -> (r: Result<
    (Vec<CellOutput>, usize),
    DecodeError,
>)
    requires
        i <= b@.len(),
    ensures
        match r {
            Ok((v, j)) => spec_read_outputs(b@, i as int, n as nat) == Ok::<
                (Seq<CellOutputV>, int),
                DecodeError,
            >((outputs_view(v@), j as int)) && i <= j <= b@.len() && v@.len() == n && (forall|
                m: int,
            |
                0 <= m < v@.len() ==> (#[trigger] outputs_view(v@)[m]).wf()),
            Err(e) => spec_read_outputs(b@, i as int, n as nat) == Err::<
                (Seq<CellOutputV>, int),
                DecodeError,
            >(e),
        },
{
    let mut acc: Vec<CellOutput> = Vec::new();
    let mut cur: usize = i;
    let mut k: u32 = 0;
    proof {
        assert(outputs_view(acc@) =~= Seq::<CellOutputV>::empty());
    }
    while k < n
        invariant
            k <= n,
            i <= cur <= b@.len(),
            acc@.len() == k,
            spec_read_outputs(b@, i as int, k as nat) == Ok::<
                (Seq<CellOutputV>, int),
                DecodeError,
            >((outputs_view(acc@), cur as int)),
            forall|m: int| 0 <= m < acc@.len() ==> (#[trigger] outputs_view(acc@)[m]).wf(),
        decreases n - k,
    {
        let (len0, j0) = match read_u32_le(b, cur) {
            Ok(p) => p,
            Err(e) => {
                proof {
                    lemma_read_outputs_concat(b@, i as int, outputs_view(acc@), cur as int, (n
                        - k) as nat);
                }
                return Err(e);
            },
        };
        match read_output(b, j0) {
            Ok((c, j)) => {
                if j - j0 == len0 as usize {
                    proof {
                        lemma_read_outputs_concat(b@, i as int, outputs_view(acc@), cur as int, 1);
                        assert(spec_read_outputs(b@, j as int, 0) == Ok::<
                            (Seq<CellOutputV>, int),
                            DecodeError,
                        >((Seq::empty(), j as int)));
                        assert(seq![c@] + Seq::<CellOutputV>::empty() =~= seq![c@]);
                        assert(outputs_view(acc@.push(c)) =~= outputs_view(acc@) + seq![c@]);
                    }
                    acc.push(c);
                    cur = j;
                    k = k + 1;
                } else {
                    proof {
                        lemma_read_outputs_concat(b@, i as int, outputs_view(acc@), cur as int, (n
                            - k) as nat);
                    }
                    return Err(DecodeError::BadLength);
                }
            },
            Err(e) => {
                proof {
                    lemma_read_outputs_concat(b@, i as int, outputs_view(acc@), cur as int, (n
                        - k) as nat);
                }
                return Err(e);
            },
        }
    }
    Ok((acc, cur))
}

pub(crate) fn read_tx(b: &[u8], i: usize) -> (r: Result<(Transaction, usize), DecodeError>)
    ensures
        match r {
            Ok((t, j)) => spec_read_tx(b@, i as int) == Ok::<(TransactionV, int), DecodeError>(
                (t@, j as int),
            ) && i <= j <= b@.len() && t@.wf(),
            Err(e) => spec_read_tx(b@, i as int) == Err::<(TransactionV, int), DecodeError>(e),
        },
{
    let (v, j0) = match read_fu32(b, i, 1) {
        Ok(p) => p,
        Err(e) => {
            return Err(e);
        },
    };
    let j1 = match read_tag(b, j0, 2) {
        Ok(j) => j,
        Err(e) => {
            return Err(e);
        },
    };
    let (nd, j2) = match read_u32_le(b, j1) {
        Ok(p) => p,
        Err(e) => {
            return Err(e);
        },
    };
    let (ds, j3) = match read_deps(b, j2, nd) {
        Ok(p) => p,
        Err(e) => {
            return Err(e);
        },
    };
    let j4 = match read_tag(b, j3, 3) {
        Ok(j) => j,
        Err(e) => {
            return Err(e);
        },
    };
    let (ni, j5) = match read_u32_le(b, j4) {
        Ok(p) => p,
        Err(e) => {
            return Err(e);
        },
    };
    let (is_, j6) = match read_inputs(b, j5, ni) {
        Ok(p) => p,
        Err(e) => {
            return Err(e);
        },
    };
    let j7 = match read_tag(b, j6, 4) {
        Ok(j) => j,
        Err(e) => {
            return Err(e);
        },
    };
    let (no, j8) = match read_u32_le(b, j7) {
        Ok(p) => p,
        Err(e) => {
            return Err(e);
        },
    };
    let (os, j9) = match read_outputs(b, j8, no) {
        Ok(p) => p,
        Err(e) => {
            return Err(e);
        },
    };
    let t = Transaction { version: v, deps: ds, inputs: is_, outputs: os };
    proof {
        assert(spec_read_tx(b@, i as int)->Ok_0.0 =~= t@);
    }
    Ok((t, j9))
}

pub(crate) fn read_txs(b: &[u8], i: usize, n: u32) -> (r: Result<
    (Vec<Transaction>, usize),
    DecodeError,
>)
    requires
        i <= b@.len(),
    ensures
        match r {
            Ok((v, j)) => spec_read_txs(b@, i as int, n as nat) == Ok::<
                (Seq<TransactionV>, int),
                DecodeError,
            >((txs_view(v@), j as int)) && i <= j <= b@.len() && v@.len() == n && (forall|m: int|
                0 <= m < v@.len() ==> (#[trigger] txs_view(v@)[m]).wf()),
            Err(e) => spec_read_txs(b@, i as int, n as nat) == Err::<
                (Seq<TransactionV>, int),
                DecodeError,
            >(e),
        },
{
    let mut acc: Vec<Transaction> = Vec::new();
    let mut cur: usize = i;
    let mut k: u32 = 0;
    proof {
        assert(txs_view(acc@) =~= Seq::<TransactionV>::empty());
    }
    while k < n
        invariant
            k <= n,
            i <= cur <= b@.len(),
            acc@.len() == k,
            spec_read_txs(b@, i as int, k as nat) == Ok::<(Seq<TransactionV>, int), DecodeError>(
                (txs_view(acc@), cur as int),
            ),
            forall|m: int| 0 <= m < acc@.len() ==> (#[trigger] txs_view(acc@)[m]).wf(),
        decreases n - k,
    {
        let (len0, j0) = match read_u32_le(b, cur) {
            Ok(p) => p,
            Err(e) => {
                proof {
                    lemma_read_txs_concat(b@, i as int, txs_view(acc@), cur as int, (n - k) as nat);
                }
                return Err(e);
            },
        };
        match read_tx(b, j0) {
            Ok((t, j)) => {
                if j - j0 == len0 as usize {
                    proof {
                        lemma_read_txs_concat(b@, i as int, txs_view(acc@), cur as int, 1);
                        assert(spec_read_txs(b@, j as int, 0) == Ok::<
                            (Seq<TransactionV>, int),
                            DecodeError,
                        >((Seq::empty(), j as int)));
                        assert(seq![t@] + Seq::<TransactionV>::empty() =~= seq![t@]);
                        assert(txs_view(acc@.push(t)) =~= txs_view(acc@) + seq![t@]);
                    }
                    acc.push(t);
                    cur = j;
                    k = k + 1;
                } else {
                    proof {
                        lemma_read_txs_concat(b@, i as int, txs_view(acc@), cur as int, (n
                            - k) as nat);
                    }
                    return Err(DecodeError::BadLength);
                }
            },
            Err(e) => {
                proof {
                    lemma_read_txs_concat(b@, i as int, txs_view(acc@), cur as int, (n - k) as nat);
                }
                return Err(e);
            },
        }
    }
    Ok((acc, cur))
}

pub(crate) fn read_header(b: &[u8], i: usize) -> (r: Result<(Header, usize), DecodeError>)
    ensures
        match r {
            Ok((h, j)) => spec_read_header(b@, i as int) == Ok::<(HeaderV, int), DecodeError>(
                (h@, j as int),
            ) && i <= j <= b@.len() && h@.wf(),
            Err(e) => spec_read_header(b@, i as int) == Err::<(HeaderV, int), DecodeError>(e),
        },
{
    let (v, j0) = match read_fu32(b, i, 1) {
        Ok(p) => p,
        Err(e) => {
            return Err(e);
        },
    };
    let (ph, j1) = match read_fdigest(b, j0, 2) {
        Ok(p) => p,
        Err(e) => {
            return Err(e);
        },
    };
    let (ts, j2) = match read_fu64(b, j1, 3) {
        Ok(p) => p,
        Err(e) => {
            return Err(e);
        },
    };
    let (num, j3) = match read_fu64(b, j2, 4) {
        Ok(p) => p,
        Err(e) => {
            return Err(e);
        },
    };
    let (tc, j4) = match read_fdigest(b, j3, 5) {
        Ok(p) => p,
        Err(e) => {
            return Err(e);
        },
    };
    let (tp, j5) = match read_fdigest(b, j4, 6) {
        Ok(p) => p,
        Err(e) => {
            return Err(e);
        },
    };
    let (d, j6) = match read_fdiff(b, j5, 7) {
        Ok(p) => p,
        Err(e) => {
            return Err(e);
        },
    };
    let (nonce, j7) = match read_fu64(b, j6, 8) {
        Ok(p) => p,
        Err(e) => {
            return Err(e);
        },
    };
    let (pf, j8) = match read_fbytes(b, j7, 9) {
        Ok(p) => p,
        Err(e) => {
            return Err(e);
        },
    };
    let (ci, j9) = match read_fdigest(b, j8, 10) {
        Ok(p) => p,
        Err(e) => {
            return Err(e);
        },
    };
    let (uh, j10) = match read_fdigest(b, j9, 11) {
        Ok(p) => p,
        Err(e) => {
            return Err(e);
        },
    };
    let h = Header {
        version: v,
        parent_hash: ph,
        timestamp: ts,
        number: num,
        txs_commit: tc,
        txs_proposal: tp,
        difficulty: d,
        cellbase_id: ci,
        uncles_hash: uh,
        seal: Seal { nonce, proof: pf },
    };
    proof {
        assert(spec_read_header(b@, i as int)->Ok_0.0 =~= h@);
    }
    Ok((h, j10))
}

pub(crate) fn read_block(b: &[u8], i: usize) -> (r: Result<(Block, usize), DecodeError>)
    ensures
        match r {
            Ok((bl, j)) => spec_read_block(b@, i as int) == Ok::<(BlockV, int), DecodeError>(
                (bl@, j as int),
            ) && i <= j <= b@.len() && bl@.wf(),
            Err(e) => spec_read_block(b@, i as int) == Err::<(BlockV, int), DecodeError>(e),
        },
{
    let j0 = match read_tag(b, i, 1) {
        Ok(j) => j,
        Err(e) => {
            return Err(e);
        },
    };
    let (hlen, j1) = match read_u32_le(b, j0) {
        Ok(p) => p,
        Err(e) => {
            return Err(e);
        },
    };
    let (h, j2) = match read_header(b, j1) {
        Ok(p) => p,
        Err(e) => {
            return Err(e);
        },
    };
    if j2 - j1 != hlen as usize {
        return Err(DecodeError::BadLength);
    }
    let j3 = match read_tag(b, j2, 2) {
        Ok(j) => j,
        Err(e) => {
            return Err(e);
        },
    };
    let (n, j4) = match read_u32_le(b, j3) {
        Ok(p) => p,
        Err(e) => {
            return Err(e);
        },
    };
    let (ts, j5) = match read_txs(b, j4, n) {
        Ok(p) => p,
        Err(e) => {
            return Err(e);
        },
    };
    let bl = Block { header: h, transactions: ts };
    proof {
        assert(spec_read_block(b@, i as int)->Ok_0.0 =~= bl@);
    }
    Ok((bl, j5))
}

// ---------------------------------------------------------------------------
// The adapter surface.
// ---------------------------------------------------------------------------

impl Header {
    /// Encode this header in the tag-prefixed layout.
    pub fn to_protobuf(&self) -> (r: Vec<u8>)
        requires
            self@.wf(),
        ensures
            r@ == spec_enc_header(self@),
    {
        let mut out: Vec<u8> = Vec::new();
        enc_header(self, &mut out);
        out
    }

    /// Decode a tag-prefixed header from the front of `data`; trailing bytes
    /// are ignored.
    pub fn from_protobuf(data: &[u8]) -> (r: Result<Header, DecodeError>)
        ensures
            match r {
                Ok(h) => spec_read_header(data@, 0) is Ok && h@ == spec_read_header(
                    data@,
                    0,
                )->Ok_0.0 && h@.wf(),
                Err(e) => spec_read_header(data@, 0) == Err::<(HeaderV, int), DecodeError>(e),
            },
    {
        match read_header(data, 0) {
            Ok((h, _)) => Ok(h),
            Err(e) => Err(e),
        }
    }
}

impl Block {
    /// Encode this block in the tag-prefixed layout.
    pub fn to_protobuf(&self) -> (r: Vec<u8>)
        requires
            self@.wf(),
            block_sizes_ok(self@),
        ensures
            r@ == spec_enc_block(self@),
    {
        let mut out: Vec<u8> = Vec::new();
        enc_block(self, &mut out);
        out
    }

    /// Decode a tag-prefixed block from the front of `data`; trailing bytes
    /// are ignored.
    pub fn from_protobuf(data: &[u8]) -> (r: Result<Block, DecodeError>)
        ensures
            match r {
                Ok(bl) => spec_read_block(data@, 0) is Ok && bl@ == spec_read_block(
                    data@,
                    0,
                )->Ok_0.0 && bl@.wf(),
                Err(e) => spec_read_block(data@, 0) == Err::<(BlockV, int), DecodeError>(e),
            },
    {
        match read_block(data, 0) {
            Ok((bl, _)) => Ok(bl),
            Err(e) => Err(e),
        }
    }
}

} // verus!
