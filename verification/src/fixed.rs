//! The fixed-layout wire format: a flat concatenation of the fields in
//! declaration order.  Fixed-size fields (digests, integers) are emitted as
//! raw bytes, variable-length fields carry a 32-bit length prefix, and
//! sequences carry a 32-bit count followed by the elements.
//!
//! Decoding tracks a running offset and is eager; the only way a buffer can
//! be rejected is that fewer bytes remain than the declared fields require,
//! which `lemma_read_header_err` and `lemma_read_block_err` prove.  Decoding
//! a leading value ignores trailing bytes.

use vstd::prelude::*;

use crate::bytes::{
    lemma_read_bytes_of_enc, lemma_read_exact_of_enc, lemma_read_u32_of_enc, lemma_read_u64_of_enc,
    lemma_subrange_split, push_bytes, push_slice, push_u32_le, push_u64_le, read_bytes, read_exact,
    read_u32_le, read_u64_le, spec_enc_bytes, spec_read_bytes, spec_read_exact, spec_read_u32,
    spec_read_u64, spec_u32_le, spec_u64_le,
};
use crate::errors::DecodeError;
use crate::model::{
    deps_view, inputs_view, lemma_read_u256_of_enc, outputs_view, push_u256_be, read_u256_be,
    spec_u256_be, spec_u256_be_at, txs_view, Block, BlockV, CellInput, CellInputV, CellOutput,
    CellOutputV, Header, HeaderV, OutPoint, OutPointV, Seal, SealV, Transaction, TransactionV,
};

verus! {

/// Bytes every encoded header holds before its variable-length proof.
pub const HEADER_MIN_LEN: usize = 224;

/// Bytes every encoded transaction holds before its elements.
pub const TX_MIN_LEN: usize = 16;

// ---------------------------------------------------------------------------
// Encoded forms.
// ---------------------------------------------------------------------------

pub open spec fn spec_enc_outpoint(o: OutPointV) -> Seq<u8> {
    o.hash + spec_u32_le(o.index)
}

pub open spec fn spec_enc_input(c: CellInputV) -> Seq<u8> {
    spec_enc_outpoint(c.previous_output) + spec_enc_bytes(c.unlock)
}

pub open spec fn spec_enc_output(c: CellOutputV) -> Seq<u8> {
    spec_u64_le(c.capacity) + spec_enc_bytes(c.data) + c.lock
}

pub open spec fn spec_enc_deps(s: Seq<OutPointV>) -> Seq<u8>
    decreases s.len(),
{
    if s.len() == 0 {
        Seq::empty()
    } else {
        spec_enc_outpoint(s.first()) + spec_enc_deps(s.drop_first())
    }
}

pub open spec fn spec_enc_inputs(s: Seq<CellInputV>) -> Seq<u8>
    decreases s.len(),
{
    if s.len() == 0 {
        Seq::empty()
    } else {
        spec_enc_input(s.first()) + spec_enc_inputs(s.drop_first())
    }
}

pub open spec fn spec_enc_outputs(s: Seq<CellOutputV>) -> Seq<u8>
    decreases s.len(),
{
    if s.len() == 0 {
        Seq::empty()
    } else {
        spec_enc_output(s.first()) + spec_enc_outputs(s.drop_first())
    }
}

pub open spec fn spec_enc_tx(t: TransactionV) -> Seq<u8> {
    spec_u32_le(t.version) + spec_u32_le(t.deps.len() as u32) + spec_enc_deps(t.deps)
        + spec_u32_le(t.inputs.len() as u32) + spec_enc_inputs(t.inputs) + spec_u32_le(
        t.outputs.len() as u32,
    ) + spec_enc_outputs(t.outputs)
}

pub open spec fn spec_enc_txs(s: Seq<TransactionV>) -> Seq<u8>
    decreases s.len(),
{
    if s.len() == 0 {
        Seq::empty()
    } else {
        spec_enc_tx(s.first()) + spec_enc_txs(s.drop_first())
    }
}

pub open spec fn spec_enc_header(h: HeaderV) -> Seq<u8> {
    spec_u32_le(h.version) + h.parent_hash + spec_u64_le(h.timestamp) + spec_u64_le(h.number)
        + h.txs_commit + h.txs_proposal + spec_u256_be(h.difficulty) + h.cellbase_id
        + h.uncles_hash + spec_u64_le(h.seal.nonce) + spec_enc_bytes(h.seal.proof)
}

pub open spec fn spec_enc_block(b: BlockV) -> Seq<u8> {
    spec_enc_header(b.header) + spec_u32_le(b.transactions.len() as u32) + spec_enc_txs(
        b.transactions,
    )
}

// ---------------------------------------------------------------------------
// Reading at an offset.
// ---------------------------------------------------------------------------

pub open spec fn spec_read_outpoint(b: Seq<u8>, i: int) -> Result<(OutPointV, int), DecodeError> {
    match spec_read_exact(b, i, 32) {
        Ok((h, j)) => match spec_read_u32(b, j) {
            Ok((x, k)) => Ok((OutPointV { hash: h, index: x }, k)),
            Err(e) => Err(e),
        },
        Err(e) => Err(e),
    }
}

pub open spec fn spec_read_input(b: Seq<u8>, i: int) -> Result<(CellInputV, int), DecodeError> {
    match spec_read_outpoint(b, i) {
        Ok((o, j)) => match spec_read_bytes(b, j) {
            Ok((u, k)) => Ok((CellInputV { previous_output: o, unlock: u }, k)),
            Err(e) => Err(e),
        },
        Err(e) => Err(e),
    }
}

pub open spec fn spec_read_output(b: Seq<u8>, i: int) -> Result<(CellOutputV, int), DecodeError> {
    match spec_read_u64(b, i) {
        Ok((c, j)) => match spec_read_bytes(b, j) {
            Ok((d, k)) => match spec_read_exact(b, k, 32) {
                Ok((l, m)) => Ok((CellOutputV { capacity: c, data: d, lock: l }, m)),
                Err(e) => Err(e),
            },
            Err(e) => Err(e),
        },
        Err(e) => Err(e),
    }
}

pub open spec fn spec_read_deps(b: Seq<u8>, i: int, n: nat) -> Result<
    (Seq<OutPointV>, int),
    DecodeError,
>
    decreases n,
{
    if n == 0 {
        Ok((Seq::empty(), i))
    } else {
        match spec_read_outpoint(b, i) {
            Ok((o, j)) => match spec_read_deps(b, j, (n - 1) as nat) {
                Ok((s, k)) => Ok((seq![o] + s, k)),
                Err(e) => Err(e),
            },
            Err(e) => Err(e),
        }
    }
}

pub open spec fn spec_read_inputs(b: Seq<u8>, i: int, n: nat) -> Result<
    (Seq<CellInputV>, int),
    DecodeError,
>
    decreases n,
{
    if n == 0 {
        Ok((Seq::empty(), i))
    } else {
        match spec_read_input(b, i) {
            Ok((c, j)) => match spec_read_inputs(b, j, (n - 1) as nat) {
                Ok((s, k)) => Ok((seq![c] + s, k)),
                Err(e) => Err(e),
            },
            Err(e) => Err(e),
        }
    }
}

pub open spec fn spec_read_outputs(b: Seq<u8>, i: int, n: nat) -> Result<
    (Seq<CellOutputV>, int),
    DecodeError,
>
    decreases n,
{
    if n == 0 {
        Ok((Seq::empty(), i))
    } else {
        match spec_read_output(b, i) {
            Ok((c, j)) => match spec_read_outputs(b, j, (n - 1) as nat) {
                Ok((s, k)) => Ok((seq![c] + s, k)),
                Err(e) => Err(e),
            },
            Err(e) => Err(e),
        }
    }
}

pub open spec fn spec_read_tx(b: Seq<u8>, i: int) -> Result<(TransactionV, int), DecodeError> {
    match spec_read_u32(b, i) {
        Ok((v, j0)) => match spec_read_u32(b, j0) {
            Ok((nd, j1)) => match spec_read_deps(b, j1, nd as nat) {
                Ok((ds, j2)) => match spec_read_u32(b, j2) {
                    Ok((ni, j3)) => match spec_read_inputs(b, j3, ni as nat) {
                        Ok((is, j4)) => match spec_read_u32(b, j4) {
                            Ok((no, j5)) => match spec_read_outputs(b, j5, no as nat) {
                                Ok((os, j6)) => Ok(
                                    (
                                        TransactionV {
                                            version: v,
                                            deps: ds,
                                            inputs: is,
                                            outputs: os,
                                        },
                                        j6,
                                    ),
                                ),
                                Err(e) => Err(e),
                            },
                            Err(e) => Err(e),
                        },
                        Err(e) => Err(e),
                    },
                    Err(e) => Err(e),
                },
                Err(e) => Err(e),
            },
            Err(e) => Err(e),
        },
        Err(e) => Err(e),
    }
}

pub open spec fn spec_read_txs(b: Seq<u8>, i: int, n: nat) -> Result<
    (Seq<TransactionV>, int),
    DecodeError,
>
    decreases n,
{
    if n == 0 {
        Ok((Seq::empty(), i))
    } else {
        match spec_read_tx(b, i) {
            Ok((t, j)) => match spec_read_txs(b, j, (n - 1) as nat) {
                Ok((s, k)) => Ok((seq![t] + s, k)),
                Err(e) => Err(e),
            },
            Err(e) => Err(e),
        }
    }
}

pub open spec fn spec_read_header(b: Seq<u8>, i: int) -> Result<(HeaderV, int), DecodeError> {
    match spec_read_u32(b, i) {
        Ok((v, j0)) => match spec_read_exact(b, j0, 32) {
            Ok((ph, j1)) => match spec_read_u64(b, j1) {
                Ok((ts, j2)) => match spec_read_u64(b, j2) {
                    Ok((num, j3)) => match spec_read_exact(b, j3, 32) {
                        Ok((tc, j4)) => match spec_read_exact(b, j4, 32) {
                            Ok((tp, j5)) => {
                                if j5 + 32 <= b.len() {
                                    let d = spec_u256_be_at(b, j5);
                                    match spec_read_exact(b, j5 + 32, 32) {
                                        Ok((ci, j6)) => match spec_read_exact(b, j6, 32) {
                                            Ok((uh, j7)) => match spec_read_u64(b, j7) {
                                                Ok((nonce, j8)) => match spec_read_bytes(b, j8) {
                                                    Ok((pf, j9)) => Ok(
                                                        (
                                                            HeaderV {
                                                                version: v,
                                                                parent_hash: ph,
                                                                timestamp: ts,
                                                                number: num,
                                                                txs_commit: tc,
                                                                txs_proposal: tp,
                                                                difficulty: d,
                                                                cellbase_id: ci,
                                                                uncles_hash: uh,
                                                                seal: SealV {
                                                                    nonce: nonce,
                                                                    proof: pf,
                                                                },
                                                            },
                                                            j9,
                                                        ),
                                                    ),
                                                    Err(e) => Err(e),
                                                },
                                                Err(e) => Err(e),
                                            },
                                            Err(e) => Err(e),
                                        },
                                        Err(e) => Err(e),
                                    }
                                } else {
                                    Err(DecodeError::TooShort)
                                }
                            },
                            Err(e) => Err(e),
                        },
                        Err(e) => Err(e),
                    },
                    Err(e) => Err(e),
                },
                Err(e) => Err(e),
            },
            Err(e) => Err(e),
        },
        Err(e) => Err(e),
    }
}

pub open spec fn spec_read_block(b: Seq<u8>, i: int) -> Result<(BlockV, int), DecodeError> {
    match spec_read_header(b, i) {
        Ok((h, j0)) => match spec_read_u32(b, j0) {
            Ok((n, j1)) => match spec_read_txs(b, j1, n as nat) {
                Ok((ts, j2)) => Ok((BlockV { header: h, transactions: ts }, j2)),
                Err(e) => Err(e),
            },
            Err(e) => Err(e),
        },
        Err(e) => Err(e),
    }
}

// ---------------------------------------------------------------------------
// Appending one element to an encoded prefix of a sequence.
// ---------------------------------------------------------------------------

pub proof fn lemma_enc_deps_snoc(s: Seq<OutPointV>, i: int)
    requires
        0 <= i < s.len(),
    ensures
        spec_enc_deps(s.take(i + 1)) == spec_enc_deps(s.take(i)) + spec_enc_outpoint(s[i]),
    decreases i,
{
    if i == 0 {
        assert(s.take(1).first() == s[0]);
        assert(s.take(1).drop_first() =~= s.take(0));
        assert(spec_enc_deps(s.take(0)) + spec_enc_outpoint(s[0]) =~= spec_enc_outpoint(s[0])
            + spec_enc_deps(s.take(0)));
    } else {
        let t = s.drop_first();
        assert(s.take(i + 1).first() == s[0]);
        assert(s.take(i + 1).drop_first() =~= t.take(i));
        assert(s.take(i).first() == s[0]);
        assert(s.take(i).drop_first() =~= t.take(i - 1));
        lemma_enc_deps_snoc(t, i - 1);
        assert(t[i - 1] == s[i]);
        assert(spec_enc_outpoint(s[0]) + (spec_enc_deps(t.take(i - 1)) + spec_enc_outpoint(s[i]))
            =~= (spec_enc_outpoint(s[0]) + spec_enc_deps(t.take(i - 1))) + spec_enc_outpoint(s[i]));
    }
}

pub proof fn lemma_enc_inputs_snoc(s: Seq<CellInputV>, i: int)
    requires
        0 <= i < s.len(),
    ensures
        spec_enc_inputs(s.take(i + 1)) == spec_enc_inputs(s.take(i)) + spec_enc_input(s[i]),
    decreases i,
{
    if i == 0 {
        assert(s.take(1).first() == s[0]);
        assert(s.take(1).drop_first() =~= s.take(0));
        assert(spec_enc_inputs(s.take(0)) + spec_enc_input(s[0]) =~= spec_enc_input(s[0])
            + spec_enc_inputs(s.take(0)));
    } else {
        let t = s.drop_first();
        assert(s.take(i + 1).first() == s[0]);
        assert(s.take(i + 1).drop_first() =~= t.take(i));
        assert(s.take(i).first() == s[0]);
        assert(s.take(i).drop_first() =~= t.take(i - 1));
        lemma_enc_inputs_snoc(t, i - 1);
        assert(t[i - 1] == s[i]);
        assert(spec_enc_input(s[0]) + (spec_enc_inputs(t.take(i - 1)) + spec_enc_input(s[i])) =~= (
        spec_enc_input(s[0]) + spec_enc_inputs(t.take(i - 1))) + spec_enc_input(s[i]));
    }
}

pub proof fn lemma_enc_outputs_snoc(s: Seq<CellOutputV>, i: int)
    requires
        0 <= i < s.len(),
    ensures
        spec_enc_outputs(s.take(i + 1)) == spec_enc_outputs(s.take(i)) + spec_enc_output(s[i]),
    decreases i,
{
    if i == 0 {
        assert(s.take(1).first() == s[0]);
        assert(s.take(1).drop_first() =~= s.take(0));
        assert(spec_enc_outputs(s.take(0)) + spec_enc_output(s[0]) =~= spec_enc_output(s[0])
            + spec_enc_outputs(s.take(0)));
    } else {
        let t = s.drop_first();
        assert(s.take(i + 1).first() == s[0]);
        assert(s.take(i + 1).drop_first() =~= t.take(i));
        assert(s.take(i).first() == s[0]);
        assert(s.take(i).drop_first() =~= t.take(i - 1));
        lemma_enc_outputs_snoc(t, i - 1);
        assert(t[i - 1] == s[i]);
        assert(spec_enc_output(s[0]) + (spec_enc_outputs(t.take(i - 1)) + spec_enc_output(s[i]))
            =~= (spec_enc_output(s[0]) + spec_enc_outputs(t.take(i - 1))) + spec_enc_output(s[i]));
    }
}

pub proof fn lemma_enc_txs_snoc(s: Seq<TransactionV>, i: int)
    requires
        0 <= i < s.len(),
    ensures
        spec_enc_txs(s.take(i + 1)) == spec_enc_txs(s.take(i)) + spec_enc_tx(s[i]),
    decreases i,
{
    if i == 0 {
        assert(s.take(1).first() == s[0]);
        assert(s.take(1).drop_first() =~= s.take(0));
        assert(spec_enc_txs(s.take(0)) + spec_enc_tx(s[0]) =~= spec_enc_tx(s[0]) + spec_enc_txs(
            s.take(0),
        ));
    } else {
        let t = s.drop_first();
        assert(s.take(i + 1).first() == s[0]);
        assert(s.take(i + 1).drop_first() =~= t.take(i));
        assert(s.take(i).first() == s[0]);
        assert(s.take(i).drop_first() =~= t.take(i - 1));
        lemma_enc_txs_snoc(t, i - 1);
        assert(t[i - 1] == s[i]);
        assert(spec_enc_tx(s[0]) + (spec_enc_txs(t.take(i - 1)) + spec_enc_tx(s[i])) =~= (
        spec_enc_tx(s[0]) + spec_enc_txs(t.take(i - 1))) + spec_enc_tx(s[i]));
    }
}

// ---------------------------------------------------------------------------
// Reading recovers what was encoded.
// ---------------------------------------------------------------------------

pub proof fn lemma_read_outpoint_of_enc(b: Seq<u8>, i: int, o: OutPointV)
    requires
        o.wf(),
        0 <= i,
        i + spec_enc_outpoint(o).len() <= b.len(),
        b.subrange(i, i + spec_enc_outpoint(o).len()) == spec_enc_outpoint(o),
    ensures
        spec_read_outpoint(b, i) == Ok::<(OutPointV, int), DecodeError>((o, i + 36)),
{
    lemma_subrange_split(b, i, o.hash, spec_u32_le(o.index));
    lemma_read_exact_of_enc(b, i, o.hash);
    lemma_read_u32_of_enc(b, i + 32, o.index);
    assert(spec_read_outpoint(b, i)->Ok_0.0 =~= o);
}

pub proof fn lemma_read_input_of_enc(b: Seq<u8>, i: int, c: CellInputV)
    requires
        c.wf(),
        0 <= i,
        i + spec_enc_input(c).len() <= b.len(),
        b.subrange(i, i + spec_enc_input(c).len()) == spec_enc_input(c),
    ensures
        spec_read_input(b, i) == Ok::<(CellInputV, int), DecodeError>(
            (c, i + 40 + c.unlock.len()),
        ),
{
    lemma_subrange_split(b, i, spec_enc_outpoint(c.previous_output), spec_enc_bytes(c.unlock));
    lemma_read_outpoint_of_enc(b, i, c.previous_output);
    lemma_read_bytes_of_enc(b, i + 36, c.unlock);
    assert(spec_read_input(b, i)->Ok_0.0 =~= c);
}

pub proof fn lemma_read_output_of_enc(b: Seq<u8>, i: int, c: CellOutputV)
    requires
        c.wf(),
        0 <= i,
        i + spec_enc_output(c).len() <= b.len(),
        b.subrange(i, i + spec_enc_output(c).len()) == spec_enc_output(c),
    ensures
        spec_read_output(b, i) == Ok::<(CellOutputV, int), DecodeError>(
            (c, i + 44 + c.data.len()),
        ),
{
    assert(spec_enc_output(c) =~= spec_u64_le(c.capacity) + (spec_enc_bytes(c.data) + c.lock));
    lemma_subrange_split(b, i, spec_u64_le(c.capacity), spec_enc_bytes(c.data) + c.lock);
    lemma_subrange_split(b, i + 8, spec_enc_bytes(c.data), c.lock);
    lemma_read_u64_of_enc(b, i, c.capacity);
    lemma_read_bytes_of_enc(b, i + 8, c.data);
    lemma_read_exact_of_enc(b, i + 12 + c.data.len(), c.lock);
    assert(spec_read_output(b, i)->Ok_0.0 =~= c);
}

pub proof fn lemma_read_deps_of_enc(b: Seq<u8>, i: int, s: Seq<OutPointV>)
    requires
        0 <= i,
        forall|k: int| 0 <= k < s.len() ==> (#[trigger] s[k]).wf(),
        i + spec_enc_deps(s).len() <= b.len(),
        b.subrange(i, i + spec_enc_deps(s).len()) == spec_enc_deps(s),
    ensures
        spec_read_deps(b, i, s.len() as nat) == Ok::<(Seq<OutPointV>, int), DecodeError>(
            (s, i + spec_enc_deps(s).len()),
        ),
    decreases s.len(),
{
    if s.len() == 0 {
        assert(s =~= Seq::<OutPointV>::empty());
    } else {
        let e1 = spec_enc_outpoint(s.first());
        let e2 = spec_enc_deps(s.drop_first());
        lemma_subrange_split(b, i, e1, e2);
        lemma_read_outpoint_of_enc(b, i, s.first());
        assert forall|k: int| 0 <= k < s.drop_first().len() implies (#[trigger] s.drop_first()[k]).wf() by {
            assert(s.drop_first()[k] == s[k + 1]);
        }
        lemma_read_deps_of_enc(b, i + e1.len(), s.drop_first());
        assert(seq![s.first()] + s.drop_first() =~= s);
    }
}

pub proof fn lemma_read_inputs_of_enc(b: Seq<u8>, i: int, s: Seq<CellInputV>)
    requires
        0 <= i,
        forall|k: int| 0 <= k < s.len() ==> (#[trigger] s[k]).wf(),
        i + spec_enc_inputs(s).len() <= b.len(),
        b.subrange(i, i + spec_enc_inputs(s).len()) == spec_enc_inputs(s),
    ensures
        spec_read_inputs(b, i, s.len() as nat) == Ok::<(Seq<CellInputV>, int), DecodeError>(
            (s, i + spec_enc_inputs(s).len()),
        ),
    decreases s.len(),
{
    if s.len() == 0 {
        assert(s =~= Seq::<CellInputV>::empty());
    } else {
        let e1 = spec_enc_input(s.first());
        let e2 = spec_enc_inputs(s.drop_first());
        lemma_subrange_split(b, i, e1, e2);
        lemma_read_input_of_enc(b, i, s.first());
        assert forall|k: int| 0 <= k < s.drop_first().len() implies (#[trigger] s.drop_first()[k]).wf() by {
            assert(s.drop_first()[k] == s[k + 1]);
        }
        lemma_read_inputs_of_enc(b, i + e1.len(), s.drop_first());
        assert(seq![s.first()] + s.drop_first() =~= s);
    }
}

pub proof fn lemma_read_outputs_of_enc(b: Seq<u8>, i: int, s: Seq<CellOutputV>)
    requires
        0 <= i,
        forall|k: int| 0 <= k < s.len() ==> (#[trigger] s[k]).wf(),
        i + spec_enc_outputs(s).len() <= b.len(),
        b.subrange(i, i + spec_enc_outputs(s).len()) == spec_enc_outputs(s),
    ensures
        spec_read_outputs(b, i, s.len() as nat) == Ok::<(Seq<CellOutputV>, int), DecodeError>(
            (s, i + spec_enc_outputs(s).len()),
        ),
    decreases s.len(),
{
    if s.len() == 0 {
        assert(s =~= Seq::<CellOutputV>::empty());
    } else {
        let e1 = spec_enc_output(s.first());
        let e2 = spec_enc_outputs(s.drop_first());
        lemma_subrange_split(b, i, e1, e2);
        lemma_read_output_of_enc(b, i, s.first());
        assert forall|k: int| 0 <= k < s.drop_first().len() implies (#[trigger] s.drop_first()[k]).wf() by {
            assert(s.drop_first()[k] == s[k + 1]);
        }
        lemma_read_outputs_of_enc(b, i + e1.len(), s.drop_first());
        assert(seq![s.first()] + s.drop_first() =~= s);
    }
}

pub proof fn lemma_read_tx_of_enc(b: Seq<u8>, i: int, t: TransactionV)
    requires
        t.wf(),
        0 <= i,
        i + spec_enc_tx(t).len() <= b.len(),
        b.subrange(i, i + spec_enc_tx(t).len()) == spec_enc_tx(t),
    ensures
        spec_read_tx(b, i) == Ok::<(TransactionV, int), DecodeError>((t, i + spec_enc_tx(t).len())),
{
    let c1 = spec_u32_le(t.version);
    let c2 = spec_u32_le(t.deps.len() as u32);
    let c3 = spec_enc_deps(t.deps);
    let c4 = spec_u32_le(t.inputs.len() as u32);
    let c5 = spec_enc_inputs(t.inputs);
    let c6 = spec_u32_le(t.outputs.len() as u32);
    let c7 = spec_enc_outputs(t.outputs);
    assert(spec_enc_tx(t) =~= c1 + (c2 + (c3 + (c4 + (c5 + (c6 + c7))))));
    lemma_subrange_split(b, i, c1, c2 + (c3 + (c4 + (c5 + (c6 + c7)))));
    let i1 = i + 4;
    lemma_subrange_split(b, i1, c2, c3 + (c4 + (c5 + (c6 + c7))));
    let i2 = i1 + 4;
    lemma_subrange_split(b, i2, c3, c4 + (c5 + (c6 + c7)));
    let i3 = i2 + c3.len();
    lemma_subrange_split(b, i3, c4, c5 + (c6 + c7));
    let i4 = i3 + 4;
    lemma_subrange_split(b, i4, c5, c6 + c7);
    let i5 = i4 + c5.len();
    lemma_subrange_split(b, i5, c6, c7);
    let i6 = i5 + 4;
    lemma_read_u32_of_enc(b, i, t.version);
    lemma_read_u32_of_enc(b, i1, t.deps.len() as u32);
    lemma_read_deps_of_enc(b, i2, t.deps);
    lemma_read_u32_of_enc(b, i3, t.inputs.len() as u32);
    lemma_read_inputs_of_enc(b, i4, t.inputs);
    lemma_read_u32_of_enc(b, i5, t.outputs.len() as u32);
    lemma_read_outputs_of_enc(b, i6, t.outputs);
    assert((t.deps.len() as u32) as nat == t.deps.len());
    assert((t.inputs.len() as u32) as nat == t.inputs.len());
    assert((t.outputs.len() as u32) as nat == t.outputs.len());
    assert(spec_read_tx(b, i)->Ok_0.0 =~= t);
}

pub proof fn lemma_read_txs_of_enc(b: Seq<u8>, i: int, s: Seq<TransactionV>)
    requires
        0 <= i,
        forall|k: int| 0 <= k < s.len() ==> (#[trigger] s[k]).wf(),
        i + spec_enc_txs(s).len() <= b.len(),
        b.subrange(i, i + spec_enc_txs(s).len()) == spec_enc_txs(s),
    ensures
        spec_read_txs(b, i, s.len() as nat) == Ok::<(Seq<TransactionV>, int), DecodeError>(
            (s, i + spec_enc_txs(s).len()),
        ),
    decreases s.len(),
{
    if s.len() == 0 {
        assert(s =~= Seq::<TransactionV>::empty());
    } else {
        let e1 = spec_enc_tx(s.first());
        let e2 = spec_enc_txs(s.drop_first());
        lemma_subrange_split(b, i, e1, e2);
        lemma_read_tx_of_enc(b, i, s.first());
        assert forall|k: int| 0 <= k < s.drop_first().len() implies (#[trigger] s.drop_first()[k]).wf() by {
            assert(s.drop_first()[k] == s[k + 1]);
        }
        lemma_read_txs_of_enc(b, i + e1.len(), s.drop_first());
        assert(seq![s.first()] + s.drop_first() =~= s);
    }
}

pub proof fn lemma_read_header_of_enc(b: Seq<u8>, i: int, h: HeaderV)
    requires
        h.wf(),
        0 <= i,
        i + spec_enc_header(h).len() <= b.len(),
        b.subrange(i, i + spec_enc_header(h).len()) == spec_enc_header(h),
    ensures
        spec_read_header(b, i) == Ok::<(HeaderV, int), DecodeError>(
            (h, i + spec_enc_header(h).len()),
        ),
{
    let c1 = spec_u32_le(h.version);
    let c2 = h.parent_hash;
    let c3 = spec_u64_le(h.timestamp);
    let c4 = spec_u64_le(h.number);
    let c5 = h.txs_commit;
    let c6 = h.txs_proposal;
    let c7 = spec_u256_be(h.difficulty);
    let c8 = h.cellbase_id;
    let c9 = h.uncles_hash;
    let c10 = spec_u64_le(h.seal.nonce);
    let c11 = spec_enc_bytes(h.seal.proof);
    assert(spec_enc_header(h) =~= c1 + (c2 + (c3 + (c4 + (c5 + (c6 + (c7 + (c8 + (c9 + (c10
        + c11))))))))));
    lemma_subrange_split(b, i, c1, c2 + (c3 + (c4 + (c5 + (c6 + (c7 + (c8 + (c9 + (c10 + c11)))))))));
    let i1 = i + 4;
    lemma_subrange_split(b, i1, c2, c3 + (c4 + (c5 + (c6 + (c7 + (c8 + (c9 + (c10 + c11))))))));
    let i2 = i1 + 32;
    lemma_subrange_split(b, i2, c3, c4 + (c5 + (c6 + (c7 + (c8 + (c9 + (c10 + c11)))))));
    let i3 = i2 + 8;
    lemma_subrange_split(b, i3, c4, c5 + (c6 + (c7 + (c8 + (c9 + (c10 + c11))))));
    let i4 = i3 + 8;
    lemma_subrange_split(b, i4, c5, c6 + (c7 + (c8 + (c9 + (c10 + c11)))));
    let i5 = i4 + 32;
    lemma_subrange_split(b, i5, c6, c7 + (c8 + (c9 + (c10 + c11))));
    let i6 = i5 + 32;
    lemma_subrange_split(b, i6, c7, c8 + (c9 + (c10 + c11)));
    let i7 = i6 + 32;
    lemma_subrange_split(b, i7, c8, c9 + (c10 + c11));
    let i8 = i7 + 32;
    lemma_subrange_split(b, i8, c9, c10 + c11);
    let i9 = i8 + 32;
    lemma_subrange_split(b, i9, c10, c11);
    let i10 = i9 + 8;
    lemma_read_u32_of_enc(b, i, h.version);
    lemma_read_exact_of_enc(b, i1, h.parent_hash);
    lemma_read_u64_of_enc(b, i2, h.timestamp);
    lemma_read_u64_of_enc(b, i3, h.number);
    lemma_read_exact_of_enc(b, i4, h.txs_commit);
    lemma_read_exact_of_enc(b, i5, h.txs_proposal);
    lemma_read_u256_of_enc(b, i6, h.difficulty);
    lemma_read_exact_of_enc(b, i7, h.cellbase_id);
    lemma_read_exact_of_enc(b, i8, h.uncles_hash);
    lemma_read_u64_of_enc(b, i9, h.seal.nonce);
    lemma_read_bytes_of_enc(b, i10, h.seal.proof);
    assert(spec_read_header(b, i)->Ok_0.0 =~= h);
}

pub proof fn lemma_read_block_of_enc(b: Seq<u8>, i: int, bl: BlockV)
    requires
        bl.wf(),
        0 <= i,
        i + spec_enc_block(bl).len() <= b.len(),
        b.subrange(i, i + spec_enc_block(bl).len()) == spec_enc_block(bl),
    ensures
        spec_read_block(b, i) == Ok::<(BlockV, int), DecodeError>(
            (bl, i + spec_enc_block(bl).len()),
        ),
{
    let c1 = spec_enc_header(bl.header);
    let c2 = spec_u32_le(bl.transactions.len() as u32);
    let c3 = spec_enc_txs(bl.transactions);
    assert(spec_enc_block(bl) =~= c1 + (c2 + c3));
    lemma_subrange_split(b, i, c1, c2 + c3);
    let i1 = i + c1.len();
    lemma_subrange_split(b, i1, c2, c3);
    let i2 = i1 + 4;
    lemma_read_header_of_enc(b, i, bl.header);
    lemma_read_u32_of_enc(b, i1, bl.transactions.len() as u32);
    lemma_read_txs_of_enc(b, i2, bl.transactions);
    assert((bl.transactions.len() as u32) as nat == bl.transactions.len());
    assert(spec_read_block(b, i)->Ok_0.0 =~= bl);
}

// ---------------------------------------------------------------------------
// Composing partial reads of a sequence.
// ---------------------------------------------------------------------------

pub proof fn lemma_read_deps_concat(b: Seq<u8>, i: int, s1: Seq<OutPointV>, j: int, m: nat)
    requires
        spec_read_deps(b, i, s1.len() as nat) == Ok::<(Seq<OutPointV>, int), DecodeError>((s1, j)),
    ensures
        spec_read_deps(b, i, (s1.len() + m) as nat) == (match spec_read_deps(b, j, m) {
            Ok((s2, k)) => Ok::<(Seq<OutPointV>, int), DecodeError>((s1 + s2, k)),
            Err(e) => Err::<(Seq<OutPointV>, int), DecodeError>(e),
        }),
    decreases s1.len(),
{
    if s1.len() == 0 {
        assert(j == i);
        match spec_read_deps(b, j, m) {
            Ok((s2, k)) => {
                assert(s1 + s2 =~= s2);
            },
            Err(e) => {},
        }
    } else {
        let r0 = spec_read_outpoint(b, i);
        assert(r0 is Ok);
        let p0 = r0->Ok_0;
        let r1 = spec_read_deps(b, p0.1, (s1.len() - 1) as nat);
        assert(r1 is Ok);
        let p1 = r1->Ok_0;
        assert(s1 == seq![p0.0] + p1.0);
        assert(p1.0 =~= s1.drop_first());
        assert(p1.0.len() == s1.len() - 1);
        lemma_read_deps_concat(b, p0.1, p1.0, j, m);
        match spec_read_deps(b, j, m) {
            Ok((s2, k)) => {
                assert(seq![p0.0] + (p1.0 + s2) =~= s1 + s2);
            },
            Err(e) => {},
        }
    }
}

pub proof fn lemma_read_inputs_concat(b: Seq<u8>, i: int, s1: Seq<CellInputV>, j: int, m: nat)
    requires
        spec_read_inputs(b, i, s1.len() as nat) == Ok::<(Seq<CellInputV>, int), DecodeError>(
            (s1, j),
        ),
    ensures
        spec_read_inputs(b, i, (s1.len() + m) as nat) == (match spec_read_inputs(b, j, m) {
            Ok((s2, k)) => Ok::<(Seq<CellInputV>, int), DecodeError>((s1 + s2, k)),
            Err(e) => Err::<(Seq<CellInputV>, int), DecodeError>(e),
        }),
    decreases s1.len(),
{
    if s1.len() == 0 {
        assert(j == i);
        match spec_read_inputs(b, j, m) {
            Ok((s2, k)) => {
                assert(s1 + s2 =~= s2);
            },
            Err(e) => {},
        }
    } else {
        let r0 = spec_read_input(b, i);
        assert(r0 is Ok);
        let p0 = r0->Ok_0;
        let r1 = spec_read_inputs(b, p0.1, (s1.len() - 1) as nat);
        assert(r1 is Ok);
        let p1 = r1->Ok_0;
        assert(s1 == seq![p0.0] + p1.0);
        assert(p1.0 =~= s1.drop_first());
        assert(p1.0.len() == s1.len() - 1);
        lemma_read_inputs_concat(b, p0.1, p1.0, j, m);
        match spec_read_inputs(b, j, m) {
            Ok((s2, k)) => {
                assert(seq![p0.0] + (p1.0 + s2) =~= s1 + s2);
            },
            Err(e) => {},
        }
    }
}

pub proof fn lemma_read_outputs_concat(b: Seq<u8>, i: int, s1: Seq<CellOutputV>, j: int, m: nat)
    requires
        spec_read_outputs(b, i, s1.len() as nat) == Ok::<(Seq<CellOutputV>, int), DecodeError>(
            (s1, j),
        ),
    ensures
        spec_read_outputs(b, i, (s1.len() + m) as nat) == (match spec_read_outputs(b, j, m) {
            Ok((s2, k)) => Ok::<(Seq<CellOutputV>, int), DecodeError>((s1 + s2, k)),
            Err(e) => Err::<(Seq<CellOutputV>, int), DecodeError>(e),
        }),
    decreases s1.len(),
{
    if s1.len() == 0 {
        assert(j == i);
        match spec_read_outputs(b, j, m) {
            Ok((s2, k)) => {
                assert(s1 + s2 =~= s2);
            },
            Err(e) => {},
        }
    } else {
        let r0 = spec_read_output(b, i);
        assert(r0 is Ok);
        let p0 = r0->Ok_0;
        let r1 = spec_read_outputs(b, p0.1, (s1.len() - 1) as nat);
        assert(r1 is Ok);
        let p1 = r1->Ok_0;
        assert(s1 == seq![p0.0] + p1.0);
        assert(p1.0 =~= s1.drop_first());
        assert(p1.0.len() == s1.len() - 1);
        lemma_read_outputs_concat(b, p0.1, p1.0, j, m);
        match spec_read_outputs(b, j, m) {
            Ok((s2, k)) => {
                assert(seq![p0.0] + (p1.0 + s2) =~= s1 + s2);
            },
            Err(e) => {},
        }
    }
}

pub proof fn lemma_read_txs_concat(b: Seq<u8>, i: int, s1: Seq<TransactionV>, j: int, m: nat)
    requires
        spec_read_txs(b, i, s1.len() as nat) == Ok::<(Seq<TransactionV>, int), DecodeError>(
            (s1, j),
        ),
    ensures
        spec_read_txs(b, i, (s1.len() + m) as nat) == (match spec_read_txs(b, j, m) {
            Ok((s2, k)) => Ok::<(Seq<TransactionV>, int), DecodeError>((s1 + s2, k)),
            Err(e) => Err::<(Seq<TransactionV>, int), DecodeError>(e),
        }),
    decreases s1.len(),
{
    if s1.len() == 0 {
        assert(j == i);
        match spec_read_txs(b, j, m) {
            Ok((s2, k)) => {
                assert(s1 + s2 =~= s2);
            },
            Err(e) => {},
        }
    } else {
        let r0 = spec_read_tx(b, i);
        assert(r0 is Ok);
        let p0 = r0->Ok_0;
        let r1 = spec_read_txs(b, p0.1, (s1.len() - 1) as nat);
        assert(r1 is Ok);
        let p1 = r1->Ok_0;
        assert(s1 == seq![p0.0] + p1.0);
        assert(p1.0 =~= s1.drop_first());
        assert(p1.0.len() == s1.len() - 1);
        lemma_read_txs_concat(b, p0.1, p1.0, j, m);
        match spec_read_txs(b, j, m) {
            Ok((s2, k)) => {
                assert(seq![p0.0] + (p1.0 + s2) =~= s1 + s2);
            },
            Err(e) => {},
        }
    }
}

// ---------------------------------------------------------------------------
// Every rejection by the fixed layout is a truncation: the only error any of
// its readers can return is `TooShort`, and a successful header or block read
// consumes at least the fixed minimum.
// ---------------------------------------------------------------------------

pub proof fn lemma_read_deps_err(b: Seq<u8>, i: int, n: nat)
    ensures
        spec_read_deps(b, i, n) is Err ==> spec_read_deps(b, i, n) == Err::<
            (Seq<OutPointV>, int),
            DecodeError,
        >(DecodeError::TooShort),
    decreases n,
{
    if n > 0 {
        if spec_read_outpoint(b, i) is Ok {
            let p = spec_read_outpoint(b, i)->Ok_0;
            lemma_read_deps_err(b, p.1, (n - 1) as nat);
        }
    }
}

pub proof fn lemma_read_inputs_err(b: Seq<u8>, i: int, n: nat)
    ensures
        spec_read_inputs(b, i, n) is Err ==> spec_read_inputs(b, i, n) == Err::<
            (Seq<CellInputV>, int),
            DecodeError,
        >(DecodeError::TooShort),
    decreases n,
{
    if n > 0 {
        if spec_read_input(b, i) is Ok {
            let p = spec_read_input(b, i)->Ok_0;
            lemma_read_inputs_err(b, p.1, (n - 1) as nat);
        }
    }
}

pub proof fn lemma_read_outputs_err(b: Seq<u8>, i: int, n: nat)
    ensures
        spec_read_outputs(b, i, n) is Err ==> spec_read_outputs(b, i, n) == Err::<
            (Seq<CellOutputV>, int),
            DecodeError,
        >(DecodeError::TooShort),
    decreases n,
{
    if n > 0 {
        if spec_read_output(b, i) is Ok {
            let p = spec_read_output(b, i)->Ok_0;
            lemma_read_outputs_err(b, p.1, (n - 1) as nat);
        }
    }
}

pub proof fn lemma_read_tx_err(b: Seq<u8>, i: int)
    ensures
        spec_read_tx(b, i) is Err ==> spec_read_tx(b, i) == Err::<
            (TransactionV, int),
            DecodeError,
        >(DecodeError::TooShort),
{
    if spec_read_u32(b, i) is Ok {
        let p0 = spec_read_u32(b, i)->Ok_0;
        if spec_read_u32(b, p0.1) is Ok {
            let p1 = spec_read_u32(b, p0.1)->Ok_0;
            lemma_read_deps_err(b, p1.1, p1.0 as nat);
            if spec_read_deps(b, p1.1, p1.0 as nat) is Ok {
                let p2 = spec_read_deps(b, p1.1, p1.0 as nat)->Ok_0;
                if spec_read_u32(b, p2.1) is Ok {
                    let p3 = spec_read_u32(b, p2.1)->Ok_0;
                    lemma_read_inputs_err(b, p3.1, p3.0 as nat);
                    if spec_read_inputs(b, p3.1, p3.0 as nat) is Ok {
                        let p4 = spec_read_inputs(b, p3.1, p3.0 as nat)->Ok_0;
                        if spec_read_u32(b, p4.1) is Ok {
                            let p5 = spec_read_u32(b, p4.1)->Ok_0;
                            lemma_read_outputs_err(b, p5.1, p5.0 as nat);
                        }
                    }
                }
            }
        }
    }
}

pub proof fn lemma_read_txs_err(b: Seq<u8>, i: int, n: nat)
    ensures
        spec_read_txs(b, i, n) is Err ==> spec_read_txs(b, i, n) == Err::<
            (Seq<TransactionV>, int),
            DecodeError,
        >(DecodeError::TooShort),
    decreases n,
{
    if n > 0 {
        lemma_read_tx_err(b, i);
        if spec_read_tx(b, i) is Ok {
            let p = spec_read_tx(b, i)->Ok_0;
            lemma_read_txs_err(b, p.1, (n - 1) as nat);
        }
    }
}

pub proof fn lemma_read_header_err(b: Seq<u8>, i: int)
    ensures
        spec_read_header(b, i) is Err ==> spec_read_header(b, i) == Err::<
            (HeaderV, int),
            DecodeError,
        >(DecodeError::TooShort),
        spec_read_header(b, i) is Ok ==> i + HEADER_MIN_LEN <= b.len() && i + HEADER_MIN_LEN
            <= spec_read_header(b, i)->Ok_0.1,
{
}

pub proof fn lemma_read_block_err(b: Seq<u8>, i: int)
    ensures
        spec_read_block(b, i) is Err ==> spec_read_block(b, i) == Err::<
            (BlockV, int),
            DecodeError,
        >(DecodeError::TooShort),
        spec_read_block(b, i) is Ok ==> i + HEADER_MIN_LEN + 4 <= b.len(),
{
    lemma_read_header_err(b, i);
    if spec_read_header(b, i) is Ok {
        let p0 = spec_read_header(b, i)->Ok_0;
        if spec_read_u32(b, p0.1) is Ok {
            let p1 = spec_read_u32(b, p0.1)->Ok_0;
            lemma_read_txs_err(b, p1.1, p1.0 as nat);
        }
    }
}

// ---------------------------------------------------------------------------
// Executable encoders.
// ---------------------------------------------------------------------------

pub(crate) fn enc_outpoint(o: &OutPoint, out: &mut Vec<u8>)
    requires
        o@.wf(),
    ensures
        final(out)@ == old(out)@ + spec_enc_outpoint(o@),
{
    push_slice(out, o.hash.as_slice());
    push_u32_le(out, o.index);
    proof {
        assert(out@ =~= old(out)@ + spec_enc_outpoint(o@));
    }
}

pub(crate) fn enc_input(c: &CellInput, out: &mut Vec<u8>)
    requires
        c@.wf(),
    ensures
        final(out)@ == old(out)@ + spec_enc_input(c@),
{
    enc_outpoint(&c.previous_output, out);
    push_bytes(out, c.unlock.as_slice());
    proof {
        assert(out@ =~= old(out)@ + spec_enc_input(c@));
    }
}

pub(crate) fn enc_output(c: &CellOutput, out: &mut Vec<u8>)
    requires
        c@.wf(),
    ensures
        final(out)@ == old(out)@ + spec_enc_output(c@),
{
    push_u64_le(out, c.capacity);
    push_bytes(out, c.data.as_slice());
    push_slice(out, c.lock.as_slice());
    proof {
        assert(out@ =~= old(out)@ + spec_enc_output(c@));
    }
}

pub(crate) fn enc_tx(t: &Transaction, out: &mut Vec<u8>)
    requires
        t@.wf(),
    ensures
        final(out)@ == old(out)@ + spec_enc_tx(t@),
{
    proof {
        assert(t@.deps.len() == t.deps@.len());
        assert(t@.inputs.len() == t.inputs@.len());
        assert(t@.outputs.len() == t.outputs@.len());
    }
    push_u32_le(out, t.version);
    push_u32_le(out, t.deps.len() as u32);
    let ghost base1 = old(out)@ + spec_u32_le(t.version) + spec_u32_le(t.deps.len() as u32);
    let mut k: usize = 0;
    while k < t.deps.len()
        invariant
            t@.wf(),
            t@.deps.len() == t.deps@.len(),
            k <= t.deps@.len(),
            out@ == base1 + spec_enc_deps(t@.deps.take(k as int)),
        decreases t.deps@.len() - k,
    {
        proof {
            assert(t@.deps[k as int] == t.deps@[k as int]@);
            assert((#[trigger] t@.deps[k as int]).wf());
        }
        enc_outpoint(&t.deps[k], out);
        proof {
            lemma_enc_deps_snoc(t@.deps, k as int);
            assert(out@ =~= base1 + spec_enc_deps(t@.deps.take(k as int + 1)));
        }
        k = k + 1;
    }
    proof {
        assert(t@.deps.take(t@.deps.len() as int) =~= t@.deps);
    }
    push_u32_le(out, t.inputs.len() as u32);
    let ghost base2 = base1 + spec_enc_deps(t@.deps) + spec_u32_le(t.inputs.len() as u32);
    let mut k2: usize = 0;
    while k2 < t.inputs.len()
        invariant
            t@.wf(),
            t@.inputs.len() == t.inputs@.len(),
            k2 <= t.inputs@.len(),
            out@ == base2 + spec_enc_inputs(t@.inputs.take(k2 as int)),
        decreases t.inputs@.len() - k2,
    {
        proof {
            assert(t@.inputs[k2 as int] == t.inputs@[k2 as int]@);
            assert((#[trigger] t@.inputs[k2 as int]).wf());
        }
        enc_input(&t.inputs[k2], out);
        proof {
            lemma_enc_inputs_snoc(t@.inputs, k2 as int);
            assert(out@ =~= base2 + spec_enc_inputs(t@.inputs.take(k2 as int + 1)));
        }
        k2 = k2 + 1;
    }
    proof {
        assert(t@.inputs.take(t@.inputs.len() as int) =~= t@.inputs);
    }
    push_u32_le(out, t.outputs.len() as u32);
    let ghost base3 = base2 + spec_enc_inputs(t@.inputs) + spec_u32_le(t.outputs.len() as u32);
    let mut k3: usize = 0;
    while k3 < t.outputs.len()
        invariant
            t@.wf(),
            t@.outputs.len() == t.outputs@.len(),
            k3 <= t.outputs@.len(),
            out@ == base3 + spec_enc_outputs(t@.outputs.take(k3 as int)),
        decreases t.outputs@.len() - k3,
    {
        proof {
            assert(t@.outputs[k3 as int] == t.outputs@[k3 as int]@);
            assert((#[trigger] t@.outputs[k3 as int]).wf());
        }
        enc_output(&t.outputs[k3], out);
        proof {
            lemma_enc_outputs_snoc(t@.outputs, k3 as int);
            assert(out@ =~= base3 + spec_enc_outputs(t@.outputs.take(k3 as int + 1)));
        }
        k3 = k3 + 1;
    }
    proof {
        assert(t@.outputs.take(t@.outputs.len() as int) =~= t@.outputs);
        assert(out@ =~= old(out)@ + spec_enc_tx(t@));
    }
}

pub(crate) fn enc_header(h: &Header, out: &mut Vec<u8>)
    requires
        h@.wf(),
    ensures
        final(out)@ == old(out)@ + spec_enc_header(h@),
{
    push_u32_le(out, h.version);
    push_slice(out, h.parent_hash.as_slice());
    push_u64_le(out, h.timestamp);
    push_u64_le(out, h.number);
    push_slice(out, h.txs_commit.as_slice());
    push_slice(out, h.txs_proposal.as_slice());
    push_u256_be(out, h.difficulty);
    push_slice(out, h.cellbase_id.as_slice());
    push_slice(out, h.uncles_hash.as_slice());
    push_u64_le(out, h.seal.nonce);
    push_bytes(out, h.seal.proof.as_slice());
    proof {
        assert(out@ =~= old(out)@ + spec_enc_header(h@));
    }
}

pub(crate) fn enc_block(bl: &Block, out: &mut Vec<u8>)
    requires
        bl@.wf(),
    ensures
        final(out)@ == old(out)@ + spec_enc_block(bl@),
{
    proof {
        assert(bl@.transactions.len() == bl.transactions@.len());
    }
    enc_header(&bl.header, out);
    push_u32_le(out, bl.transactions.len() as u32);
    let ghost base = old(out)@ + spec_enc_header(bl@.header) + spec_u32_le(
        bl.transactions.len() as u32,
    );
    let mut k: usize = 0;
    while k < bl.transactions.len()
        invariant
            bl@.wf(),
            bl@.transactions.len() == bl.transactions@.len(),
            k <= bl.transactions@.len(),
            out@ == base + spec_enc_txs(bl@.transactions.take(k as int)),
        decreases bl.transactions@.len() - k,
    {
        proof {
            assert(bl@.transactions[k as int] == bl.transactions@[k as int]@);
            assert((#[trigger] bl@.transactions[k as int]).wf());
        }
        enc_tx(&bl.transactions[k], out);
        proof {
            lemma_enc_txs_snoc(bl@.transactions, k as int);
            assert(out@ =~= base + spec_enc_txs(bl@.transactions.take(k as int + 1)));
        }
        k = k + 1;
    }
    proof {
        assert(bl@.transactions.take(bl@.transactions.len() as int) =~= bl@.transactions);
        assert(out@ =~= old(out)@ + spec_enc_block(bl@));
    }
}

// ---------------------------------------------------------------------------
// Executable decoders.
// ---------------------------------------------------------------------------

pub(crate) fn read_outpoint(b: &[u8], i: usize) -> (r: Result<(OutPoint, usize), DecodeError>)
    ensures
        match r {
            Ok((o, j)) => spec_read_outpoint(b@, i as int) == Ok::<(OutPointV, int), DecodeError>(
                (o@, j as int),
            ) && i <= j <= b@.len() && o@.wf(),
            Err(e) => spec_read_outpoint(b@, i as int) == Err::<(OutPointV, int), DecodeError>(e),
        },
{
    let (h, j) = match read_exact(b, i, 32) {
        Ok(p) => p,
        Err(e) => {
            return Err(e);
        },
    };
    let (x, k) = match read_u32_le(b, j) {
        Ok(p) => p,
        Err(e) => {
            return Err(e);
        },
    };
    Ok((OutPoint { hash: h, index: x }, k))
}

pub(crate) fn read_input(b: &[u8], i: usize) -> (r: Result<(CellInput, usize), DecodeError>)
    ensures
        match r {
            Ok((c, j)) => spec_read_input(b@, i as int) == Ok::<(CellInputV, int), DecodeError>(
                (c@, j as int),
            ) && i <= j <= b@.len() && c@.wf(),
            Err(e) => spec_read_input(b@, i as int) == Err::<(CellInputV, int), DecodeError>(e),
        },
{
    let (o, j) = match read_outpoint(b, i) {
        Ok(p) => p,
        Err(e) => {
            return Err(e);
        },
    };
    let (u, k) = match read_bytes(b, j) {
        Ok(p) => p,
        Err(e) => {
            return Err(e);
        },
    };
    Ok((CellInput { previous_output: o, unlock: u }, k))
}

pub(crate) fn read_output(b: &[u8], i: usize) -> (r: Result<(CellOutput, usize), DecodeError>)
    ensures
        match r {
            Ok((c, j)) => spec_read_output(b@, i as int) == Ok::<(CellOutputV, int), DecodeError>(
                (c@, j as int),
            ) && i <= j <= b@.len() && c@.wf(),
            Err(e) => spec_read_output(b@, i as int) == Err::<(CellOutputV, int), DecodeError>(e),
        },
{
    let (cap, j) = match read_u64_le(b, i) {
        Ok(p) => p,
        Err(e) => {
            return Err(e);
        },
    };
    let (d, k) = match read_bytes(b, j) {
        Ok(p) => p,
        Err(e) => {
            return Err(e);
        },
    };
    let (l, m) = match read_exact(b, k, 32) {
        Ok(p) => p,
        Err(e) => {
            return Err(e);
        },
    };
    Ok((CellOutput { capacity: cap, data: d, lock: l }, m))
}

pub(crate) fn read_deps(b: &[u8], i: usize, n: u32) -> (r: Result<
    (Vec<OutPoint>, usize),
    DecodeError,
>)
    requires
        i <= b@.len(),
    ensures
        match r {
            Ok((v, j)) => spec_read_deps(b@, i as int, n as nat) == Ok::<
                (Seq<OutPointV>, int),
                DecodeError,
            >((deps_view(v@), j as int)) && i <= j <= b@.len() && v@.len() == n && (forall|m: int|
                0 <= m < v@.len() ==> (#[trigger] deps_view(v@)[m]).wf()),
            Err(e) => spec_read_deps(b@, i as int, n as nat) == Err::<
                (Seq<OutPointV>, int),
                DecodeError,
            >(e),
        },
{
    let mut acc: Vec<OutPoint> = Vec::new();
    let mut cur: usize = i;
    let mut k: u32 = 0;
    proof {
        assert(deps_view(acc@) =~= Seq::<OutPointV>::empty());
    }
    while k < n
        invariant
            k <= n,
            i <= cur <= b@.len(),
            acc@.len() == k,
            spec_read_deps(b@, i as int, k as nat) == Ok::<(Seq<OutPointV>, int), DecodeError>(
                (deps_view(acc@), cur as int),
            ),
            forall|m: int| 0 <= m < acc@.len() ==> (#[trigger] deps_view(acc@)[m]).wf(),
        decreases n - k,
    {
        match read_outpoint(b, cur) {
            Ok((o, j)) => {
                proof {
                    lemma_read_deps_concat(b@, i as int, deps_view(acc@), cur as int, 1);
                    assert(spec_read_deps(b@, j as int, 0) == Ok::<
                        (Seq<OutPointV>, int),
                        DecodeError,
                    >((Seq::empty(), j as int)));
                    assert(seq![o@] + Seq::<OutPointV>::empty() =~= seq![o@]);
                    assert(deps_view(acc@.push(o)) =~= deps_view(acc@) + seq![o@]);
                }
                acc.push(o);
                cur = j;
                k = k + 1;
            },
            Err(e) => {
                proof {
                    lemma_read_deps_concat(b@, i as int, deps_view(acc@), cur as int, (n - k) as nat);
                }
                return Err(e);
            },
        }
    }
    Ok((acc, cur))
}

pub(crate) fn read_inputs(b: &[u8], i: usize, n: u32) -> (r: Result<
    (Vec<CellInput>, usize),
    DecodeError,
>)
    requires
        i <= b@.len(),
    ensures
        match r {
            Ok((v, j)) => spec_read_inputs(b@, i as int, n as nat) == Ok::<
                (Seq<CellInputV>, int),
                DecodeError,
            >((inputs_view(v@), j as int)) && i <= j <= b@.len() && v@.len() == n && (forall|m: int|
                0 <= m < v@.len() ==> (#[trigger] inputs_view(v@)[m]).wf()),
            Err(e) => spec_read_inputs(b@, i as int, n as nat) == Err::<
                (Seq<CellInputV>, int),
                DecodeError,
            >(e),
        },
{
    let mut acc: Vec<CellInput> = Vec::new();
    let mut cur: usize = i;
    let mut k: u32 = 0;
    proof {
        assert(inputs_view(acc@) =~= Seq::<CellInputV>::empty());
    }
    while k < n
        invariant
            k <= n,
            i <= cur <= b@.len(),
            acc@.len() == k,
            spec_read_inputs(b@, i as int, k as nat) == Ok::<(Seq<CellInputV>, int), DecodeError>(
                (inputs_view(acc@), cur as int),
            ),
            forall|m: int| 0 <= m < acc@.len() ==> (#[trigger] inputs_view(acc@)[m]).wf(),
        decreases n - k,
    {
        match read_input(b, cur) {
            Ok((c, j)) => {
                proof {
                    lemma_read_inputs_concat(b@, i as int, inputs_view(acc@), cur as int, 1);
                    assert(spec_read_inputs(b@, j as int, 0) == Ok::<
                        (Seq<CellInputV>, int),
                        DecodeError,
                    >((Seq::empty(), j as int)));
                    assert(seq![c@] + Seq::<CellInputV>::empty() =~= seq![c@]);
                    assert(inputs_view(acc@.push(c)) =~= inputs_view(acc@) + seq![c@]);
                }
                acc.push(c);
                cur = j;
                k = k + 1;
            },
            Err(e) => {
                proof {
                    lemma_read_inputs_concat(b@, i as int, inputs_view(acc@), cur as int, (n
                        - k) as nat);
                }
                return Err(e);
            },
        }
    }
    Ok((acc, cur))
}

pub(crate) fn read_outputs(b: &[u8], i: usize, n: u32) -> (r: Result<
    (Vec<CellOutput>, usize),
    DecodeError,
>)
    requires
        i <= b@.len(),
    ensures
        match r {
            Ok((v, j)) => spec_read_outputs(b@, i as int, n as nat) == Ok::<
                (Seq<CellOutputV>, int),
                DecodeError,
            >((outputs_view(v@), j as int)) && i <= j <= b@.len() && v@.len() == n && (forall|
                m: int,
            |
                0 <= m < v@.len() ==> (#[trigger] outputs_view(v@)[m]).wf()),
            Err(e) => spec_read_outputs(b@, i as int, n as nat) == Err::<
                (Seq<CellOutputV>, int),
                DecodeError,
            >(e),
        },
{
    let mut acc: Vec<CellOutput> = Vec::new();
    let mut cur: usize = i;
    let mut k: u32 = 0;
    proof {
        assert(outputs_view(acc@) =~= Seq::<CellOutputV>::empty());
    }
    while k < n
        invariant
            k <= n,
            i <= cur <= b@.len(),
            acc@.len() == k,
            spec_read_outputs(b@, i as int, k as nat) == Ok::<
                (Seq<CellOutputV>, int),
                DecodeError,
            >((outputs_view(acc@), cur as int)),
            forall|m: int| 0 <= m < acc@.len() ==> (#[trigger] outputs_view(acc@)[m]).wf(),
        decreases n - k,
    {
        match read_output(b, cur) {
            Ok((c, j)) => {
                proof {
                    lemma_read_outputs_concat(b@, i as int, outputs_view(acc@), cur as int, 1);
                    assert(spec_read_outputs(b@, j as int, 0) == Ok::<
                        (Seq<CellOutputV>, int),
                        DecodeError,
                    >((Seq::empty(), j as int)));
                    assert(seq![c@] + Seq::<CellOutputV>::empty() =~= seq![c@]);
                    assert(outputs_view(acc@.push(c)) =~= outputs_view(acc@) + seq![c@]);
                }
                acc.push(c);
                cur = j;
                k = k + 1;
            },
            Err(e) => {
                proof {
                    lemma_read_outputs_concat(b@, i as int, outputs_view(acc@), cur as int, (n
                        - k) as nat);
                }
                return Err(e);
            },
        }
    }
    Ok((acc, cur))
}

pub(crate) fn read_tx(b: &[u8], i: usize) -> (r: Result<(Transaction, usize), DecodeError>)
    ensures
        match r {
            Ok((t, j)) => spec_read_tx(b@, i as int) == Ok::<(TransactionV, int), DecodeError>(
                (t@, j as int),
            ) && i <= j <= b@.len() && t@.wf(),
            Err(e) => spec_read_tx(b@, i as int) == Err::<(TransactionV, int), DecodeError>(e),
        },
{
    let (v, j0) = match read_u32_le(b, i) {
        Ok(p) => p,
        Err(e) => {
            return Err(e);
        },
    };
    let (nd, j1) = match read_u32_le(b, j0) {
        Ok(p) => p,
        Err(e) => {
            return Err(e);
        },
    };
    let (ds, j2) = match read_deps(b, j1, nd) {
        Ok(p) => p,
        Err(e) => {
            return Err(e);
        },
    };
    let (ni, j3) = match read_u32_le(b, j2) {
        Ok(p) => p,
        Err(e) => {
            return Err(e);
        },
    };
    let (is_, j4) = match read_inputs(b, j3, ni) {
        Ok(p) => p,
        Err(e) => {
            return Err(e);
        },
    };
    let (no, j5) = match read_u32_le(b, j4) {
        Ok(p) => p,
        Err(e) => {
            return Err(e);
        },
    };
    let (os, j6) = match read_outputs(b, j5, no) {
        Ok(p) => p,
        Err(e) => {
            return Err(e);
        },
    };
    let t = Transaction { version: v, deps: ds, inputs: is_, outputs: os };
    proof {
        assert(spec_read_tx(b@, i as int)->Ok_0.0 =~= t@);
    }
    Ok((t, j6))
}

pub(crate) fn read_txs(b: &[u8], i: usize, n: u32) -> (r: Result<
    (Vec<Transaction>, usize),
    DecodeError,
>)
    requires
        i <= b@.len(),
    ensures
        match r {
            Ok((v, j)) => spec_read_txs(b@, i as int, n as nat) == Ok::<
                (Seq<TransactionV>, int),
                DecodeError,
            >((txs_view(v@), j as int)) && i <= j <= b@.len() && v@.len() == n && (forall|m: int|
                0 <= m < v@.len() ==> (#[trigger] txs_view(v@)[m]).wf()),
            Err(e) => spec_read_txs(b@, i as int, n as nat) == Err::<
                (Seq<TransactionV>, int),
                DecodeError,
            >(e),
        },
{
    let mut acc: Vec<Transaction> = Vec::new();
    let mut cur: usize = i;
    let mut k: u32 = 0;
    proof {
        assert(txs_view(acc@) =~= Seq::<TransactionV>::empty());
    }
    while k < n
        invariant
            k <= n,
            i <= cur <= b@.len(),
            acc@.len() == k,
            spec_read_txs(b@, i as int, k as nat) == Ok::<(Seq<TransactionV>, int), DecodeError>(
                (txs_view(acc@), cur as int),
            ),
            forall|m: int| 0 <= m < acc@.len() ==> (#[trigger] txs_view(acc@)[m]).wf(),
        decreases n - k,
    {
        match read_tx(b, cur) {
            Ok((t, j)) => {
                proof {
                    lemma_read_txs_concat(b@, i as int, txs_view(acc@), cur as int, 1);
                    assert(spec_read_txs(b@, j as int, 0) == Ok::<
                        (Seq<TransactionV>, int),
                        DecodeError,
                    >((Seq::empty(), j as int)));
                    assert(seq![t@] + Seq::<TransactionV>::empty() =~= seq![t@]);
                    assert(txs_view(acc@.push(t)) =~= txs_view(acc@) + seq![t@]);
                }
                acc.push(t);
                cur = j;
                k = k + 1;
            },
            Err(e) => {
                proof {
                    lemma_read_txs_concat(b@, i as int, txs_view(acc@), cur as int, (n - k) as nat);
                }
                return Err(e);
            },
        }
    }
    Ok((acc, cur))
}

pub(crate) fn read_header(b: &[u8], i: usize) -> (r: Result<(Header, usize), DecodeError>)
    ensures
        match r {
            Ok((h, j)) => spec_read_header(b@, i as int) == Ok::<(HeaderV, int), DecodeError>(
                (h@, j as int),
            ) && i <= j <= b@.len() && h@.wf(),
            Err(e) => spec_read_header(b@, i as int) == Err::<(HeaderV, int), DecodeError>(e),
        },
{
    let (v, j0) = match read_u32_le(b, i) {
        Ok(p) => p,
        Err(e) => {
            return Err(e);
        },
    };
    let (ph, j1) = match read_exact(b, j0, 32) {
        Ok(p) => p,
        Err(e) => {
            return Err(e);
        },
    };
    let (ts, j2) = match read_u64_le(b, j1) {
        Ok(p) => p,
        Err(e) => {
            return Err(e);
        },
    };
    let (num, j3) = match read_u64_le(b, j2) {
        Ok(p) => p,
        Err(e) => {
            return Err(e);
        },
    };
    let (tc, j4) = match read_exact(b, j3, 32) {
        Ok(p) => p,
        Err(e) => {
            return Err(e);
        },
    };
    let (tp, j5) = match read_exact(b, j4, 32) {
        Ok(p) => p,
        Err(e) => {
            return Err(e);
        },
    };
    let (d, j6) = match read_u256_be(b, j5) {
        Ok(p) => p,
        Err(e) => {
            return Err(e);
        },
    };
    let (ci, j7) = match read_exact(b, j6, 32) {
        Ok(p) => p,
        Err(e) => {
            return Err(e);
        },
    };
    let (uh, j8) = match read_exact(b, j7, 32) {
        Ok(p) => p,
        Err(e) => {
            return Err(e);
        },
    };
    let (nonce, j9) = match read_u64_le(b, j8) {
        Ok(p) => p,
        Err(e) => {
            return Err(e);
        },
    };
    let (pf, j10) = match read_bytes(b, j9) {
        Ok(p) => p,
        Err(e) => {
            return Err(e);
        },
    };
    let h = Header {
        version: v,
        parent_hash: ph,
        timestamp: ts,
        number: num,
        txs_commit: tc,
        txs_proposal: tp,
        difficulty: d,
        cellbase_id: ci,
        uncles_hash: uh,
        seal: Seal { nonce, proof: pf },
    };
    proof {
        assert(spec_read_header(b@, i as int)->Ok_0.0 =~= h@);
    }
    Ok((h, j10))
}

pub(crate) fn read_block(b: &[u8], i: usize) -> (r: Result<(Block, usize), DecodeError>)
    ensures
        match r {
            Ok((bl, j)) => spec_read_block(b@, i as int) == Ok::<(BlockV, int), DecodeError>(
                (bl@, j as int),
            ) && i <= j <= b@.len() && bl@.wf(),
            Err(e) => spec_read_block(b@, i as int) == Err::<(BlockV, int), DecodeError>(e),
        },
{
    let (h, j0) = match read_header(b, i) {
        Ok(p) => p,
        Err(e) => {
            return Err(e);
        },
    };
    let (n, j1) = match read_u32_le(b, j0) {
        Ok(p) => p,
        Err(e) => {
            return Err(e);
        },
    };
    let (ts, j2) = match read_txs(b, j1, n) {
        Ok(p) => p,
        Err(e) => {
            return Err(e);
        },
    };
    let bl = Block { header: h, transactions: ts };
    proof {
        assert(spec_read_block(b@, i as int)->Ok_0.0 =~= bl@);
    }
    Ok((bl, j2))
}

// ---------------------------------------------------------------------------
// The adapter surface.
// ---------------------------------------------------------------------------

impl Header {
    /// Encode this header in the fixed layout.
    pub fn to_fixed(&self) -> (r: Vec<u8>)
        requires
            self@.wf(),
        ensures
            r@ == spec_enc_header(self@),
    {
        let mut out: Vec<u8> = Vec::new();
        enc_header(self, &mut out);
        out
    }

    /// Decode a fixed-layout header from the front of `data`; trailing bytes
    /// are ignored.
    pub fn from_fixed(data: &[u8]) -> (r: Result<Header, DecodeError>)
        ensures
            match r {
                Ok(h) => spec_read_header(data@, 0) is Ok && h@ == spec_read_header(
                    data@,
                    0,
                )->Ok_0.0 && h@.wf(),
                Err(e) => spec_read_header(data@, 0) == Err::<(HeaderV, int), DecodeError>(e),
            },
    {
        match read_header(data, 0) {
            Ok((h, _)) => Ok(h),
            Err(e) => Err(e),
        }
    }
}

impl Block {
    /// Encode this block in the fixed layout.
    pub fn to_fixed(&self) -> (r: Vec<u8>)
        requires
            self@.wf(),
        ensures
            r@ == spec_enc_block(self@),
    {
        let mut out: Vec<u8> = Vec::new();
        enc_block(self, &mut out);
        out
    }

    /// Decode a fixed-layout block from the front of `data`; trailing bytes
    /// are ignored.
    pub fn from_fixed(data: &[u8]) -> (r: Result<Block, DecodeError>)
        ensures
            match r {
                Ok(bl) => spec_read_block(data@, 0) is Ok && bl@ == spec_read_block(
                    data@,
                    0,
                )->Ok_0.0 && bl@.wf(),
                Err(e) => spec_read_block(data@, 0) == Err::<(BlockV, int), DecodeError>(e),
            },
    {
        match read_block(data, 0) {
            Ok((bl, _)) => Ok(bl),
            Err(e) => Err(e),
        }
    }
}

} // verus!
