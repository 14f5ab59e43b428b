//! The compact table-based wire format.  Every record is a table: a 32-bit
//! total size, one 32-bit offset per field (relative to the table start),
//! then the field payloads back to back.  Nested records are tables of their
//! own, and sequences carry a 32-bit count followed by self-delimiting
//! elements.  Offset integrity is validated while reading: a first offset
//! that does not point just past the offset table is `BadOffset`, as is any
//! later offset that disagrees with the bytes a field actually spans, and a
//! total size that disagrees with the last field is `BadLength`.

use vstd::prelude::*;

use crate::bytes::{
    lemma_read_bytes_of_enc, lemma_read_exact_of_enc, lemma_read_u32_of_enc, lemma_read_u64_of_enc,
    lemma_subrange_split, push_bytes, push_slice, push_u32_le, push_u64_le, read_bytes, read_exact,
    read_u32_le, read_u64_le, spec_enc_bytes, spec_read_bytes, spec_read_exact, spec_read_u32,
    spec_read_u64, spec_u32_le, spec_u64_le,
};
use crate::errors::DecodeError;
use crate::model::{
    deps_view, inputs_view, lemma_read_u256_of_enc, outputs_view, push_u256_be, read_u256_be,
    spec_u256_be, spec_u256_be_at, txs_view, Block, BlockV, CellInput, CellInputV, CellOutput,
    CellOutputV, Header, HeaderV, OutPoint, OutPointV, Seal, SealV, Transaction, TransactionV,
};

verus! {

// ---------------------------------------------------------------------------
// Encoded tables.
// ---------------------------------------------------------------------------

pub open spec fn spec_enc_outpoint(o: OutPointV) -> Seq<u8>
    recommends
        o.wf(),
{
    spec_u32_le(48) + spec_u32_le(12) + spec_u32_le(44) + o.hash + spec_u32_le(o.index)
}

pub open spec fn spec_enc_input(c: CellInputV) -> Seq<u8>
    recommends
        c.wf(),
        c.unlock.len() + 56 <= u32::MAX,
{
    spec_u32_le((56 + c.unlock.len()) as u32) + spec_u32_le(16) + spec_u32_le(48) + spec_u32_le(52)
        + c.previous_output.hash + spec_u32_le(c.previous_output.index) + spec_enc_bytes(c.unlock)
}

pub open spec fn spec_enc_output(c: CellOutputV) -> Seq<u8>
    recommends
        c.wf(),
        c.data.len() + 60 <= u32::MAX,
{
    spec_u32_le((60 + c.data.len()) as u32) + spec_u32_le(16) + spec_u32_le(24) + spec_u32_le(
        (28 + c.data.len()) as u32,
    ) + spec_u64_le(c.capacity) + spec_enc_bytes(c.data) + c.lock
}

pub open spec fn spec_enc_deps(s: Seq<OutPointV>) -> Seq<u8>
    decreases s.len(),
{
    if s.len() == 0 {
        Seq::empty()
    } else {
        spec_enc_outpoint(s.first()) + spec_enc_deps(s.drop_first())
    }
}

pub open spec fn spec_enc_inputs(s: Seq<CellInputV>) -> Seq<u8>
    decreases s.len(),
{
    if s.len() == 0 {
        Seq::empty()
    } else {
        spec_enc_input(s.first()) + spec_enc_inputs(s.drop_first())
    }
}

pub open spec fn spec_enc_outputs(s: Seq<CellOutputV>) -> Seq<u8>
    decreases s.len(),
{
    if s.len() == 0 {
        Seq::empty()
    } else {
        spec_enc_output(s.first()) + spec_enc_outputs(s.drop_first())
    }
}

/// The size and offset slots of a transaction table.
pub open spec fn spec_tx_head(t: TransactionV) -> Seq<u8>
    recommends
        t.wf(),
{
    let dlen = 4 + spec_enc_deps(t.deps).len();
    let ilen = 4 + spec_enc_inputs(t.inputs).len();
    let olen = 4 + spec_enc_outputs(t.outputs).len();
    spec_u32_le((24 + dlen + ilen + olen) as u32) + spec_u32_le(20) + spec_u32_le(24) + spec_u32_le(
        (24 + dlen) as u32,
    ) + spec_u32_le((24 + dlen + ilen) as u32)
}

/// The four field payloads of a transaction table.
pub open spec fn spec_tx_tail(t: TransactionV) -> Seq<u8>
    recommends
        t.wf(),
{
    spec_u32_le(t.version) + spec_u32_le(t.deps.len() as u32) + spec_enc_deps(t.deps) + spec_u32_le(
        t.inputs.len() as u32,
    ) + spec_enc_inputs(t.inputs) + spec_u32_le(t.outputs.len() as u32) + spec_enc_outputs(
        t.outputs,
    )
}

/// The transaction table: version, then three sequence fields.
pub open spec fn spec_enc_tx(t: TransactionV) -> Seq<u8>
    recommends
        t.wf(),
{
    spec_tx_head(t) + spec_tx_tail(t)
}

pub open spec fn spec_enc_txs(s: Seq<TransactionV>) -> Seq<u8>
    decreases s.len(),
{
    if s.len() == 0 {
        Seq::empty()
    } else {
        spec_enc_tx(s.first()) + spec_enc_txs(s.drop_first())
    }
}

/// The size and offset slots of a header table.
pub open spec fn spec_header_head(h: HeaderV) -> Seq<u8>
    recommends
        h.wf(),
{
    let p = h.seal.proof.len();
    spec_u32_le((272 + p) as u32) + spec_u32_le(48) + spec_u32_le(52) + spec_u32_le(84)
        + spec_u32_le(92) + spec_u32_le(100) + spec_u32_le(132) + spec_u32_le(164) + spec_u32_le(
        196,
    ) + spec_u32_le(204) + spec_u32_le((208 + p) as u32) + spec_u32_le((240 + p) as u32)
}

/// The eleven field payloads of a header table.
pub open spec fn spec_header_tail(h: HeaderV) -> Seq<u8>
    recommends
        h.wf(),
{
    spec_u32_le(h.version) + h.parent_hash + spec_u64_le(h.timestamp) + spec_u64_le(h.number)
        + h.txs_commit + h.txs_proposal + spec_u256_be(h.difficulty) + spec_u64_le(h.seal.nonce)
        + spec_enc_bytes(h.seal.proof) + h.cellbase_id + h.uncles_hash
}

/// The header table: eleven fields, the ninth (the proof) variable-length.
pub open spec fn spec_enc_header(h: HeaderV) -> Seq<u8>
    recommends
        h.wf(),
{
    spec_header_head(h) + spec_header_tail(h)
}

/// The block table: a header table and a transaction sequence.
pub open spec fn spec_enc_block(b: BlockV) -> Seq<u8>
    recommends
        b.wf(),
{
    let htbl = spec_enc_header(b.header);
    let tvec = spec_u32_le(b.transactions.len() as u32) + spec_enc_txs(b.transactions);
    spec_u32_le((12 + htbl.len() + tvec.len()) as u32) + spec_u32_le(12) + spec_u32_le(
        (12 + htbl.len()) as u32,
    ) + htbl + tvec
}

/// The 32-bit size and offset slots demand that each table fits 32 bits.
pub open spec fn header_size_ok(h: HeaderV) -> bool {
    spec_enc_header(h).len() <= u32::MAX
}

pub open spec fn tx_sizes_ok(t: TransactionV) -> bool {
    &&& spec_enc_tx(t).len() <= u32::MAX
    &&& forall|k: int|
        0 <= k < t.inputs.len() ==> spec_enc_input(#[trigger] t.inputs[k]).len() <= u32::MAX
    &&& forall|k: int|
        0 <= k < t.outputs.len() ==> spec_enc_output(#[trigger] t.outputs[k]).len() <= u32::MAX
}

pub open spec fn block_sizes_ok(b: BlockV) -> bool {
    &&& header_size_ok(b.header)
    &&& spec_enc_block(b).len() <= u32::MAX
    &&& forall|k: int|
        0 <= k < b.transactions.len() ==> spec_enc_tx(#[trigger] b.transactions[k]).len()
            <= u32::MAX && tx_sizes_ok(b.transactions[k])
}

// ---------------------------------------------------------------------------
// Reading at an offset.
// ---------------------------------------------------------------------------

pub open spec fn spec_read_outpoint(b: Seq<u8>, i: int) -> Result<(OutPointV, int), DecodeError> {
    match spec_read_u32(b, i) {
        Ok((s_, p0)) => match spec_read_u32(b, p0) {
            Ok((o1, p1)) => match spec_read_u32(b, p1) {
                Ok((o2, p2)) => if o1 != 12 {
                    Err(DecodeError::BadOffset)
                } else {
                    match spec_read_exact(b, p2, 32) {
                        Ok((h, q1)) => if q1 != i + o2 {
                            Err(DecodeError::BadOffset)
                        } else {
                            match spec_read_u32(b, q1) {
                                Ok((x, q2)) => if q2 != i + s_ {
                                    Err(DecodeError::BadLength)
                                } else {
                                    Ok((OutPointV { hash: h, index: x }, q2))
                                },
                                Err(e) => Err(e),
                            }
                        },
                        Err(e) => Err(e),
                    }
                },
                Err(e) => Err(e),
            },
            Err(e) => Err(e),
        },
        Err(e) => Err(e),
    }
}

pub open spec fn spec_read_input(b: Seq<u8>, i: int) -> Result<(CellInputV, int), DecodeError> {
    match spec_read_u32(b, i) {
        Ok((s_, p0)) => match spec_read_u32(b, p0) {
            Ok((o1, p1)) => match spec_read_u32(b, p1) {
                Ok((o2, p2)) => match spec_read_u32(b, p2) {
                    Ok((o3, p3)) => if o1 != 16 {
                        Err(DecodeError::BadOffset)
                    } else {
                        match spec_read_exact(b, p3, 32) {
                            Ok((h, q1)) => if q1 != i + o2 {
                                Err(DecodeError::BadOffset)
                            } else {
                                match spec_read_u32(b, q1) {
                                    Ok((x, q2)) => if q2 != i + o3 {
                                        Err(DecodeError::BadOffset)
                                    } else {
                                        match spec_read_bytes(b, q2) {
                                            Ok((u, q3)) => if q3 != i + s_ {
                                                Err(DecodeError::BadLength)
                                            } else {
                                                Ok(
                                                    (
                                                        CellInputV {
                                                            previous_output: OutPointV {
                                                                hash: h,
                                                                index: x,
                                                            },
                                                            unlock: u,
                                                        },
                                                        q3,
                                                    ),
                                                )
                                            },
                                            Err(e) => Err(e),
                                        }
                                    },
                                    Err(e) => Err(e),
                                }
                            },
                            Err(e) => Err(e),
                        }
                    },
                    Err(e) => Err(e),
                },
                Err(e) => Err(e),
            },
            Err(e) => Err(e),
        },
        Err(e) => Err(e),
    }
}

pub open spec fn spec_read_output(b: Seq<u8>, i: int) -> Result<(CellOutputV, int), DecodeError> {
    match spec_read_u32(b, i) {
        Ok((s_, p0)) => match spec_read_u32(b, p0) {
            Ok((o1, p1)) => match spec_read_u32(b, p1) {
                Ok((o2, p2)) => match spec_read_u32(b, p2) {
                    Ok((o3, p3)) => if o1 != 16 {
                        Err(DecodeError::BadOffset)
                    } else {
                        match spec_read_u64(b, p3) {
                            Ok((c, q1)) => if q1 != i + o2 {
                                Err(DecodeError::BadOffset)
                            } else {
                                match spec_read_bytes(b, q1) {
                                    Ok((d, q2)) => if q2 != i + o3 {
                                        Err(DecodeError::BadOffset)
                                    } else {
                                        match spec_read_exact(b, q2, 32) {
                                            Ok((l, q3)) => if q3 != i + s_ {
                                                Err(DecodeError::BadLength)
                                            } else {
                                                Ok(
                                                    (
                                                        CellOutputV {
                                                            capacity: c,
                                                            data: d,
                                                            lock: l,
                                                        },
                                                        q3,
                                                    ),
                                                )
                                            },
                                            Err(e) => Err(e),
                                        }
                                    },
                                    Err(e) => Err(e),
                                }
                            },
                            Err(e) => Err(e),
                        }
                    },
                    Err(e) => Err(e),
                },
                Err(e) => Err(e),
            },
            Err(e) => Err(e),
        },
        Err(e) => Err(e),
    }
}

pub open spec fn spec_read_deps(b: Seq<u8>, i: int, n: nat) -> Result<
    (Seq<OutPointV>, int),
    DecodeError,
>
    decreases n,
{
    if n == 0 {
        Ok((Seq::empty(), i))
    } else {
        match spec_read_outpoint(b, i) {
            Ok((o, j)) => match spec_read_deps(b, j, (n - 1) as nat) {
                Ok((s, k)) => Ok((seq![o] + s, k)),
                Err(e) => Err(e),
            },
            Err(e) => Err(e),
        }
    }
}

pub open spec fn spec_read_inputs(b: Seq<u8>, i: int, n: nat) -> Result<
    (Seq<CellInputV>, int),
    DecodeError,
>
    decreases n,
{
    if n == 0 {
        Ok((Seq::empty(), i))
    } else {
        match spec_read_input(b, i) {
            Ok((c, j)) => match spec_read_inputs(b, j, (n - 1) as nat) {
                Ok((s, k)) => Ok((seq![c] + s, k)),
                Err(e) => Err(e),
            },
            Err(e) => Err(e),
        }
    }
}

pub open spec fn spec_read_outputs(b: Seq<u8>, i: int, n: nat) -> Result<
    (Seq<CellOutputV>, int),
    DecodeError,
>
    decreases n,
{
    if n == 0 {
        Ok((Seq::empty(), i))
    } else {
        match spec_read_output(b, i) {
            Ok((c, j)) => match spec_read_outputs(b, j, (n - 1) as nat) {
                Ok((s, k)) => Ok((seq![c] + s, k)),
                Err(e) => Err(e),
            },
            Err(e) => Err(e),
        }
    }
}

/// The four payload fields of a transaction table, read once the offset
/// table is in hand.
pub open spec fn spec_read_tx_fields(
    b: Seq<u8>,
    i: int,
    s_: u32,
    o2: u32,
    o3: u32,
    o4: u32,
    p: int,
) -> Result<(TransactionV, int), DecodeError> {
    match spec_read_u32(b, p) {
        Ok((v, q1)) => if q1 != i + o2 {
            Err(DecodeError::BadOffset)
        } else {
            match spec_read_u32(b, q1) {
                Ok((nd, qd)) => match spec_read_deps(b, qd, nd as nat) {
                    Ok((ds, q2)) => if q2 != i + o3 {
                        Err(DecodeError::BadOffset)
                    } else {
                        match spec_read_u32(b, q2) {
                            Ok((ni, qi)) => match spec_read_inputs(b, qi, ni as nat) {
                                Ok((is, q3)) => if q3 != i + o4 {
                                    Err(DecodeError::BadOffset)
                                } else {
                                    match spec_read_u32(b, q3) {
                                        Ok((no, qo)) => match spec_read_outputs(b, qo, no as nat) {
                                            Ok((os, q4)) => if q4 != i + s_ {
                                                Err(DecodeError::BadLength)
                                            } else {
                                                Ok(
                                                    (
                                                        TransactionV {
                                                            version: v,
                                                            deps: ds,
                                                            inputs: is,
                                                            outputs: os,
                                                        },
                                                        q4,
                                                    ),
                                                )
                                            },
                                            Err(e) => Err(e),
                                        },
                                        Err(e) => Err(e),
                                    }
                                },
                                Err(e) => Err(e),
                            },
                            Err(e) => Err(e),
                        }
                    },
                    Err(e) => Err(e),
                },
                Err(e) => Err(e),
            }
        },
        Err(e) => Err(e),
    }
}

#[verifier::opaque]
pub open spec fn spec_read_tx(b: Seq<u8>, i: int) -> Result<(TransactionV, int), DecodeError> {
    match spec_read_u32(b, i) {
        Ok((s_, p0)) => match spec_read_u32(b, p0) {
            Ok((o1, p1)) => match spec_read_u32(b, p1) {
                Ok((o2, p2)) => match spec_read_u32(b, p2) {
                    Ok((o3, p3)) => match spec_read_u32(b, p3) {
                        Ok((o4, p4)) => if o1 != 20 {
                            Err(DecodeError::BadOffset)
                        } else {
                            spec_read_tx_fields(b, i, s_, o2, o3, o4, p4)
                        },
                        Err(e) => Err(e),
                    },
                    Err(e) => Err(e),
                },
                Err(e) => Err(e),
            },
            Err(e) => Err(e),
        },
        Err(e) => Err(e),
    }
}

pub open spec fn spec_read_txs(b: Seq<u8>, i: int, n: nat) -> Result<
    (Seq<TransactionV>, int),
    DecodeError,
>
    decreases n,
{
    if n == 0 {
        Ok((Seq::empty(), i))
    } else {
        match spec_read_tx(b, i) {
            Ok((t, j)) => match spec_read_txs(b, j, (n - 1) as nat) {
                Ok((s, k)) => Ok((seq![t] + s, k)),
                Err(e) => Err(e),
            },
            Err(e) => Err(e),
        }
    }
}

#[verifier::opaque]
pub open spec fn spec_read_header(b: Seq<u8>, i: int) -> Result<(HeaderV, int), DecodeError> {
    match spec_read_u32(b, i) {
        Ok((s_, p0)) => match spec_read_u32(b, p0) {
            Ok((o1, p1)) => match spec_read_u32(b, p1) {
                Ok((o2, p2)) => match spec_read_u32(b, p2) {
                    Ok((o3, p3)) => match spec_read_u32(b, p3) {
                        Ok((o4, p4)) => match spec_read_u32(b, p4) {
                            Ok((o5, p5)) => match spec_read_u32(b, p5) {
                                Ok((o6, p6)) => match spec_read_u32(b, p6) {
                                    Ok((o7, p7)) => match spec_read_u32(b, p7) {
                                        Ok((o8, p8)) => match spec_read_u32(b, p8) {
                                            Ok((o9, p9)) => match spec_read_u32(b, p9) {
                                                Ok((o10, p10)) => match spec_read_u32(b, p10) {
                                                    Ok((o11, p11)) => if o1 != 48 {
                                                        Err(DecodeError::BadOffset)
                                                    } else {
                                                        spec_read_header_fields(
                                                            b,
                                                            i,
                                                            s_,
                                                            o2,
                                                            o3,
                                                            o4,
                                                            o5,
                                                            o6,
                                                            o7,
                                                            o8,
                                                            o9,
                                                            o10,
                                                            o11,
                                                            p11,
                                                        )
                                                    },
                                                    Err(e) => Err(e),
                                                },
                                                Err(e) => Err(e),
                                            },
                                            Err(e) => Err(e),
                                        },
                                        Err(e) => Err(e),
                                    },
                                    Err(e) => Err(e),
                                },
                                Err(e) => Err(e),
                            },
                            Err(e) => Err(e),
                        },
                        Err(e) => Err(e),
                    },
                    Err(e) => Err(e),
                },
                Err(e) => Err(e),
            },
            Err(e) => Err(e),
        },
        Err(e) => Err(e),
    }
}

/// The eleven payload fields of a header table, read once the offset table
/// is in hand.
pub open spec fn spec_read_header_fields(
    b: Seq<u8>,
    i: int,
    s_: u32,
    o2: u32,
    o3: u32,
    o4: u32,
    o5: u32,
    o6: u32,
    o7: u32,
    o8: u32,
    o9: u32,
    o10: u32,
    o11: u32,
    p: int,
) -> Result<(HeaderV, int), DecodeError> {
    match spec_read_u32(b, p) {
        Ok((v, q1)) => if q1 != i + o2 {
            Err(DecodeError::BadOffset)
        } else {
            match spec_read_exact(b, q1, 32) {
                Ok((ph, q2)) => if q2 != i + o3 {
                    Err(DecodeError::BadOffset)
                } else {
                    match spec_read_u64(b, q2) {
                        Ok((ts, q3)) => if q3 != i + o4 {
                            Err(DecodeError::BadOffset)
                        } else {
                            match spec_read_u64(b, q3) {
                                Ok((num, q4)) => if q4 != i + o5 {
                                    Err(DecodeError::BadOffset)
                                } else {
                                    match spec_read_exact(b, q4, 32) {
                                        Ok((tc, q5)) => if q5 != i + o6 {
                                            Err(DecodeError::BadOffset)
                                        } else {
                                            match spec_read_exact(b, q5, 32) {
                                                Ok((tp, q6)) => if q6 != i + o7 {
                                                    Err(DecodeError::BadOffset)
                                                } else if q6 + 32 > b.len() {
                                                    Err(DecodeError::TooShort)
                                                } else {
                                                    let d = spec_u256_be_at(b, q6);
                                                    let q7 = q6 + 32;
                                                    if q7 != i + o8 {
                                                        Err(DecodeError::BadOffset)
                                                    } else {
                                                        match spec_read_u64(b, q7) {
                                                            Ok((nonce, q8)) => if q8 != i + o9 {
                                                                Err(DecodeError::BadOffset)
                                                            } else {
                                                                match spec_read_bytes(b, q8) {
                                                                    Ok((pf, q9)) => if q9 != i
                                                                        + o10 {
                                                                        Err(DecodeError::BadOffset)
                                                                    } else {
                                                                        match spec_read_exact(
                                                                            b,
                                                                            q9,
                                                                            32,
                                                                        ) {
                                                                            Ok((ci, q10)) => if q10
                                                                                != i + o11 {
                                                                                Err(
                                                                                    DecodeError::BadOffset,
                                                                                )
                                                                            } else {
                                                                                match spec_read_exact(
                                                                                    b,
                                                                                    q10,
                                                                                    32,
                                                                                ) {
                                                                                    Ok(
                                                                                        (uh, q11),
                                                                                    ) => if q11 != i
                                                                                        + s_ {
                                                                                        Err(
                                                                                            DecodeError::BadLength,
                                                                                        )
                                                                                    } else {
                                                                                        Ok(
                                                                                            (
                                                                                                HeaderV {
                                                                                                    version: v,
                                                                                                    parent_hash: ph,
                                                                                                    timestamp: ts,
                                                                                                    number: num,
                                                                                                    txs_commit: tc,
                                                                                                    txs_proposal: tp,
                                                                                                    difficulty: d,
                                                                                                    cellbase_id: ci,
                                                                                                    uncles_hash: uh,
                                                                                                    seal: SealV {
                                                                                                        nonce: nonce,
                                                                                                        proof: pf,
                                                                                                    },
                                                                                                },
                                                                                                q11,
                                                                                            ),
                                                                                        )
                                                                                    },
                                                                                    Err(e) => Err(
                                                                                        e,
                                                                                    ),
                                                                                }
                                                                            },
                                                                            Err(e) => Err(e),
                                                                        }
                                                                    },
                                                                    Err(e) => Err(e),
                                                                }
                                                            },
                                                            Err(e) => Err(e),
                                                        }
                                                    }
                                                },
                                                Err(e) => Err(e),
                                            }
                                        },
                                        Err(e) => Err(e),
                                    }
                                },
                                Err(e) => Err(e),
                            }
                        },
                        Err(e) => Err(e),
                    }
                },
                Err(e) => Err(e),
            }
        },
        Err(e) => Err(e),
    }
}

#[verifier::opaque]
pub open spec fn spec_read_block(b: Seq<u8>, i: int) -> Result<(BlockV, int), DecodeError> {
    match spec_read_u32(b, i) {
        Ok((s_, p0)) => match spec_read_u32(b, p0) {
            Ok((o1, p1)) => match spec_read_u32(b, p1) {
                Ok((o2, p2)) => if o1 != 12 {
                    Err(DecodeError::BadOffset)
                } else {
                    match spec_read_header(b, p2) {
                        Ok((h, q1)) => if q1 != i + o2 {
                            Err(DecodeError::BadOffset)
                        } else {
                            match spec_read_u32(b, q1) {
                                Ok((n, qt)) => match spec_read_txs(b, qt, n as nat) {
                                    Ok((ts, q2)) => if q2 != i + s_ {
                                        Err(DecodeError::BadLength)
                                    } else {
                                        Ok((BlockV { header: h, transactions: ts }, q2))
                                    },
                                    Err(e) => Err(e),
                                },
                                Err(e) => Err(e),
                            }
                        },
                        Err(e) => Err(e),
                    }
                },
                Err(e) => Err(e),
            },
            Err(e) => Err(e),
        },
        Err(e) => Err(e),
    }
}


// ---------------------------------------------------------------------------
// Appending one element to an encoded prefix of a sequence.
// ---------------------------------------------------------------------------

pub proof fn lemma_enc_deps_snoc(s: Seq<OutPointV>, i: int)
    requires
        0 <= i < s.len(),
    ensures
        spec_enc_deps(s.take(i + 1)) == spec_enc_deps(s.take(i)) + spec_enc_outpoint(s[i]),
    decreases i,
{
    if i == 0 {
        assert(s.take(1).first() == s[0]);
        assert(s.take(1).drop_first() =~= s.take(0));
        assert(spec_enc_deps(s.take(0)) + spec_enc_outpoint(s[0]) =~= spec_enc_outpoint(s[0])
            + spec_enc_deps(s.take(0)));
    } else {
        let t = s.drop_first();
        assert(s.take(i + 1).first() == s[0]);
        assert(s.take(i + 1).drop_first() =~= t.take(i));
        assert(s.take(i).first() == s[0]);
        assert(s.take(i).drop_first() =~= t.take(i - 1));
        lemma_enc_deps_snoc(t, i - 1);
        assert(t[i - 1] == s[i]);
        assert(spec_enc_outpoint(s[0]) + (spec_enc_deps(t.take(i - 1)) + spec_enc_outpoint(s[i]))
            =~= (spec_enc_outpoint(s[0]) + spec_enc_deps(t.take(i - 1))) + spec_enc_outpoint(s[i]));
    }
}

pub proof fn lemma_enc_inputs_snoc(s: Seq<CellInputV>, i: int)
    requires
        0 <= i < s.len(),
    ensures
        spec_enc_inputs(s.take(i + 1)) == spec_enc_inputs(s.take(i)) + spec_enc_input(s[i]),
    decreases i,
{
    if i == 0 {
        assert(s.take(1).first() == s[0]);
        assert(s.take(1).drop_first() =~= s.take(0));
        assert(spec_enc_inputs(s.take(0)) + spec_enc_input(s[0]) =~= spec_enc_input(s[0])
            + spec_enc_inputs(s.take(0)));
    } else {
        let t = s.drop_first();
        assert(s.take(i + 1).first() == s[0]);
        assert(s.take(i + 1).drop_first() =~= t.take(i));
        assert(s.take(i).first() == s[0]);
        assert(s.take(i).drop_first() =~= t.take(i - 1));
        lemma_enc_inputs_snoc(t, i - 1);
        assert(t[i - 1] == s[i]);
        assert(spec_enc_input(s[0]) + (spec_enc_inputs(t.take(i - 1)) + spec_enc_input(s[i])) =~= (
        spec_enc_input(s[0]) + spec_enc_inputs(t.take(i - 1))) + spec_enc_input(s[i]));
    }
}

pub proof fn lemma_enc_outputs_snoc(s: Seq<CellOutputV>, i: int)
    requires
        0 <= i < s.len(),
    ensures
        spec_enc_outputs(s.take(i + 1)) == spec_enc_outputs(s.take(i)) + spec_enc_output(s[i]),
    decreases i,
{
    if i == 0 {
        assert(s.take(1).first() == s[0]);
        assert(s.take(1).drop_first() =~= s.take(0));
        assert(spec_enc_outputs(s.take(0)) + spec_enc_output(s[0]) =~= spec_enc_output(s[0])
            + spec_enc_outputs(s.take(0)));
    } else {
        let t = s.drop_first();
        assert(s.take(i + 1).first() == s[0]);
        assert(s.take(i + 1).drop_first() =~= t.take(i));
        assert(s.take(i).first() == s[0]);
        assert(s.take(i).drop_first() =~= t.take(i - 1));
        lemma_enc_outputs_snoc(t, i - 1);
        assert(t[i - 1] == s[i]);
        assert(spec_enc_output(s[0]) + (spec_enc_outputs(t.take(i - 1)) + spec_enc_output(s[i]))
            =~= (spec_enc_output(s[0]) + spec_enc_outputs(t.take(i - 1))) + spec_enc_output(s[i]));
    }
}

pub proof fn lemma_enc_txs_snoc(s: Seq<TransactionV>, i: int)
    requires
        0 <= i < s.len(),
    ensures
        spec_enc_txs(s.take(i + 1)) == spec_enc_txs(s.take(i)) + spec_enc_tx(s[i]),
    decreases i,
{
    if i == 0 {
        assert(s.take(1).first() == s[0]);
        assert(s.take(1).drop_first() =~= s.take(0));
        assert(spec_enc_txs(s.take(0)) + spec_enc_tx(s[0]) =~= spec_enc_tx(s[0]) + spec_enc_txs(
            s.take(0),
        ));
    } else {
        let t = s.drop_first();
        assert(s.take(i + 1).first() == s[0]);
        assert(s.take(i + 1).drop_first() =~= t.take(i));
        assert(s.take(i).first() == s[0]);
        assert(s.take(i).drop_first() =~= t.take(i - 1));
        lemma_enc_txs_snoc(t, i - 1);
        assert(t[i - 1] == s[i]);
        assert(spec_enc_tx(s[0]) + (spec_enc_txs(t.take(i - 1)) + spec_enc_tx(s[i])) =~= (
        spec_enc_tx(s[0]) + spec_enc_txs(t.take(i - 1))) + spec_enc_tx(s[i]));
    }
}

// ---------------------------------------------------------------------------
// Reading recovers what was encoded.
// ---------------------------------------------------------------------------

pub proof fn lemma_read_outpoint_of_enc(b: Seq<u8>, i: int, o: OutPointV)
    requires
        o.wf(),
        0 <= i,
        i + spec_enc_outpoint(o).len() <= b.len(),
        b.subrange(i, i + spec_enc_outpoint(o).len()) == spec_enc_outpoint(o),
    ensures
        spec_read_outpoint(b, i) == Ok::<(OutPointV, int), DecodeError>((o, i + 48)),
{
    let c1 = spec_u32_le(48);
    let c2 = spec_u32_le(12);
    let c3 = spec_u32_le(44);
    let c4 = o.hash;
    let c5 = spec_u32_le(o.index);
    assert(spec_enc_outpoint(o) =~= c1 + (c2 + (c3 + (c4 + c5))));
    lemma_subrange_split(b, i, c1, c2 + (c3 + (c4 + c5)));
    lemma_subrange_split(b, i + 4, c2, c3 + (c4 + c5));
    lemma_subrange_split(b, i + 8, c3, c4 + c5);
    lemma_subrange_split(b, i + 12, c4, c5);
    lemma_read_u32_of_enc(b, i, 48);
    lemma_read_u32_of_enc(b, i + 4, 12);
    lemma_read_u32_of_enc(b, i + 8, 44);
    lemma_read_exact_of_enc(b, i + 12, o.hash);
    lemma_read_u32_of_enc(b, i + 44, o.index);
    assert(spec_read_outpoint(b, i)->Ok_0.0 =~= o);
}

pub proof fn lemma_read_input_of_enc(b: Seq<u8>, i: int, c: CellInputV)
    requires
        c.wf(),
        spec_enc_input(c).len() <= u32::MAX,
        0 <= i,
        i + spec_enc_input(c).len() <= b.len(),
        b.subrange(i, i + spec_enc_input(c).len()) == spec_enc_input(c),
    ensures
        spec_read_input(b, i) == Ok::<(CellInputV, int), DecodeError>(
            (c, i + 56 + c.unlock.len()),
        ),
{
    let u = c.unlock.len();
    let c1 = spec_u32_le((56 + u) as u32);
    let c2 = spec_u32_le(16);
    let c3 = spec_u32_le(48);
    let c4 = spec_u32_le(52);
    let c5 = c.previous_output.hash;
    let c6 = spec_u32_le(c.previous_output.index);
    let c7 = spec_enc_bytes(c.unlock);
    assert(spec_enc_input(c) =~= c1 + (c2 + (c3 + (c4 + (c5 + (c6 + c7))))));
    lemma_subrange_split(b, i, c1, c2 + (c3 + (c4 + (c5 + (c6 + c7)))));
    lemma_subrange_split(b, i + 4, c2, c3 + (c4 + (c5 + (c6 + c7))));
    lemma_subrange_split(b, i + 8, c3, c4 + (c5 + (c6 + c7)));
    lemma_subrange_split(b, i + 12, c4, c5 + (c6 + c7));
    lemma_subrange_split(b, i + 16, c5, c6 + c7);
    lemma_subrange_split(b, i + 48, c6, c7);
    lemma_read_u32_of_enc(b, i, (56 + u) as u32);
    lemma_read_u32_of_enc(b, i + 4, 16);
    lemma_read_u32_of_enc(b, i + 8, 48);
    lemma_read_u32_of_enc(b, i + 12, 52);
    lemma_read_exact_of_enc(b, i + 16, c.previous_output.hash);
    lemma_read_u32_of_enc(b, i + 48, c.previous_output.index);
    lemma_read_bytes_of_enc(b, i + 52, c.unlock);
    assert(spec_read_input(b, i)->Ok_0.0 =~= c);
}

pub proof fn lemma_read_output_of_enc(b: Seq<u8>, i: int, c: CellOutputV)
    requires
        c.wf(),
        spec_enc_output(c).len() <= u32::MAX,
        0 <= i,
        i + spec_enc_output(c).len() <= b.len(),
        b.subrange(i, i + spec_enc_output(c).len()) == spec_enc_output(c),
    ensures
        spec_read_output(b, i) == Ok::<(CellOutputV, int), DecodeError>(
            (c, i + 60 + c.data.len()),
        ),
{
    let d = c.data.len();
    let c1 = spec_u32_le((60 + d) as u32);
    let c2 = spec_u32_le(16);
    let c3 = spec_u32_le(24);
    let c4 = spec_u32_le((28 + d) as u32);
    let c5 = spec_u64_le(c.capacity);
    let c6 = spec_enc_bytes(c.data);
    let c7 = c.lock;
    assert(spec_enc_output(c) =~= c1 + (c2 + (c3 + (c4 + (c5 + (c6 + c7))))));
    lemma_subrange_split(b, i, c1, c2 + (c3 + (c4 + (c5 + (c6 + c7)))));
    lemma_subrange_split(b, i + 4, c2, c3 + (c4 + (c5 + (c6 + c7))));
    lemma_subrange_split(b, i + 8, c3, c4 + (c5 + (c6 + c7)));
    lemma_subrange_split(b, i + 12, c4, c5 + (c6 + c7));
    lemma_subrange_split(b, i + 16, c5, c6 + c7);
    lemma_subrange_split(b, i + 24, c6, c7);
    lemma_read_u32_of_enc(b, i, (60 + d) as u32);
    lemma_read_u32_of_enc(b, i + 4, 16);
    lemma_read_u32_of_enc(b, i + 8, 24);
    lemma_read_u32_of_enc(b, i + 12, (28 + d) as u32);
    lemma_read_u64_of_enc(b, i + 16, c.capacity);
    lemma_read_bytes_of_enc(b, i + 24, c.data);
    lemma_read_exact_of_enc(b, i + 28 + d, c.lock);
    assert(spec_read_output(b, i)->Ok_0.0 =~= c);
}

pub proof fn lemma_read_deps_of_enc(b: Seq<u8>, i: int, s: Seq<OutPointV>)
    requires
        0 <= i,
        forall|k: int| 0 <= k < s.len() ==> (#[trigger] s[k]).wf(),
        i + spec_enc_deps(s).len() <= b.len(),
        b.subrange(i, i + spec_enc_deps(s).len()) == spec_enc_deps(s),
    ensures
        spec_read_deps(b, i, s.len() as nat) == Ok::<(Seq<OutPointV>, int), DecodeError>(
            (s, i + spec_enc_deps(s).len()),
        ),
    decreases s.len(),
{
    if s.len() == 0 {
        assert(s =~= Seq::<OutPointV>::empty());
    } else {
        let e1 = spec_enc_outpoint(s.first());
        let e2 = spec_enc_deps(s.drop_first());
        lemma_subrange_split(b, i, e1, e2);
        lemma_read_outpoint_of_enc(b, i, s.first());
        assert forall|k: int| 0 <= k < s.drop_first().len() implies (#[trigger] s.drop_first()[k]).wf() by {
            assert(s.drop_first()[k] == s[k + 1]);
        }
        lemma_read_deps_of_enc(b, i + e1.len(), s.drop_first());
        assert(seq![s.first()] + s.drop_first() =~= s);
    }
}

pub proof fn lemma_read_inputs_of_enc(b: Seq<u8>, i: int, s: Seq<CellInputV>)
    requires
        0 <= i,
        forall|k: int| 0 <= k < s.len() ==> (#[trigger] s[k]).wf(),
        forall|k: int| 0 <= k < s.len() ==> spec_enc_input(#[trigger] s[k]).len() <= u32::MAX,
        i + spec_enc_inputs(s).len() <= b.len(),
        b.subrange(i, i + spec_enc_inputs(s).len()) == spec_enc_inputs(s),
    ensures
        spec_read_inputs(b, i, s.len() as nat) == Ok::<(Seq<CellInputV>, int), DecodeError>(
            (s, i + spec_enc_inputs(s).len()),
        ),
    decreases s.len(),
{
    if s.len() == 0 {
        assert(s =~= Seq::<CellInputV>::empty());
    } else {
        let e1 = spec_enc_input(s.first());
        let e2 = spec_enc_inputs(s.drop_first());
        lemma_subrange_split(b, i, e1, e2);
        lemma_read_input_of_enc(b, i, s.first());
        assert forall|k: int| 0 <= k < s.drop_first().len() implies (#[trigger] s.drop_first()[k]).wf()
            && spec_enc_input(s.drop_first()[k]).len() <= u32::MAX by {
            assert(s.drop_first()[k] == s[k + 1]);
        }
        lemma_read_inputs_of_enc(b, i + e1.len(), s.drop_first());
        assert(seq![s.first()] + s.drop_first() =~= s);
    }
}

pub proof fn lemma_read_outputs_of_enc(b: Seq<u8>, i: int, s: Seq<CellOutputV>)
    requires
        0 <= i,
        forall|k: int| 0 <= k < s.len() ==> (#[trigger] s[k]).wf(),
        forall|k: int| 0 <= k < s.len() ==> spec_enc_output(#[trigger] s[k]).len() <= u32::MAX,
        i + spec_enc_outputs(s).len() <= b.len(),
        b.subrange(i, i + spec_enc_outputs(s).len()) == spec_enc_outputs(s),
    ensures
        spec_read_outputs(b, i, s.len() as nat) == Ok::<(Seq<CellOutputV>, int), DecodeError>(
            (s, i + spec_enc_outputs(s).len()),
        ),
    decreases s.len(),
{
    if s.len() == 0 {
        assert(s =~= Seq::<CellOutputV>::empty());
    } else {
        let e1 = spec_enc_output(s.first());
        let e2 = spec_enc_outputs(s.drop_first());
        lemma_subrange_split(b, i, e1, e2);
        lemma_read_output_of_enc(b, i, s.first());
        assert forall|k: int| 0 <= k < s.drop_first().len() implies (#[trigger] s.drop_first()[k]).wf()
            && spec_enc_output(s.drop_first()[k]).len() <= u32::MAX by {
            assert(s.drop_first()[k] == s[k + 1]);
        }
        lemma_read_outputs_of_enc(b, i + e1.len(), s.drop_first());
        assert(seq![s.first()] + s.drop_first() =~= s);
    }
}

#[verifier::rlimit(100)]
proof fn lemma_read_tx_head_of_enc(b: Seq<u8>, i: int, t: TransactionV)
    requires
        t.wf(),
        tx_sizes_ok(t),
        0 <= i,
        i + 20 <= b.len(),
        b.subrange(i, i + 20) == spec_tx_head(t),
    ensures
        spec_read_u32(b, i) == Ok::<(u32, int), DecodeError>(
            (spec_enc_tx(t).len() as u32, i + 4),
        ),
        spec_read_u32(b, i + 4) == Ok::<(u32, int), DecodeError>((20, i + 8)),
        spec_read_u32(b, i + 8) == Ok::<(u32, int), DecodeError>((24, i + 12)),
        spec_read_u32(b, i + 12) == Ok::<(u32, int), DecodeError>(
            ((28 + spec_enc_deps(t.deps).len()) as u32, i + 16),
        ),
        spec_read_u32(b, i + 16) == Ok::<(u32, int), DecodeError>(
            ((32 + spec_enc_deps(t.deps).len() + spec_enc_inputs(t.inputs).len()) as u32, i + 20),
        ),
{
    let dlen = 4 + spec_enc_deps(t.deps).len();
    let ilen = 4 + spec_enc_inputs(t.inputs).len();
    let olen = 4 + spec_enc_outputs(t.outputs).len();
    let c1 = spec_u32_le((24 + dlen + ilen + olen) as u32);
    let c2 = spec_u32_le(20);
    let c3 = spec_u32_le(24);
    let c4 = spec_u32_le((24 + dlen) as u32);
    let c5 = spec_u32_le((24 + dlen + ilen) as u32);
    assert(spec_tx_head(t) =~= c1 + (c2 + (c3 + (c4 + c5))));
    lemma_subrange_split(b, i, c1, c2 + (c3 + (c4 + c5)));
    lemma_subrange_split(b, i + 4, c2, c3 + (c4 + c5));
    lemma_subrange_split(b, i + 8, c3, c4 + c5);
    lemma_subrange_split(b, i + 12, c4, c5);
    lemma_read_u32_of_enc(b, i, (24 + dlen + ilen + olen) as u32);
    lemma_read_u32_of_enc(b, i + 4, 20);
    lemma_read_u32_of_enc(b, i + 8, 24);
    lemma_read_u32_of_enc(b, i + 12, (24 + dlen) as u32);
    lemma_read_u32_of_enc(b, i + 16, (24 + dlen + ilen) as u32);
    assert(spec_enc_tx(t).len() == 24 + dlen + ilen + olen);
}

#[verifier::rlimit(100)]
proof fn lemma_read_tx_tail_of_enc(b: Seq<u8>, i: int, t: TransactionV)
    requires
        t.wf(),
        tx_sizes_ok(t),
        0 <= i,
        i + 20 + spec_tx_tail(t).len() <= b.len(),
        b.subrange(i + 20, i + 20 + spec_tx_tail(t).len()) == spec_tx_tail(t),
    ensures
        spec_read_tx_fields(
            b,
            i,
            spec_enc_tx(t).len() as u32,
            24,
            (28 + spec_enc_deps(t.deps).len()) as u32,
            (32 + spec_enc_deps(t.deps).len() + spec_enc_inputs(t.inputs).len()) as u32,
            i + 20,
        ) == Ok::<(TransactionV, int), DecodeError>((t, i + spec_enc_tx(t).len())),
{
    let f1 = spec_u32_le(t.version);
    let dv = spec_u32_le(t.deps.len() as u32);
    let de = spec_enc_deps(t.deps);
    let iv = spec_u32_le(t.inputs.len() as u32);
    let ie = spec_enc_inputs(t.inputs);
    let ov = spec_u32_le(t.outputs.len() as u32);
    let oe = spec_enc_outputs(t.outputs);
    assert(spec_tx_tail(t) =~= f1 + (dv + (de + (iv + (ie + (ov + oe))))));
    lemma_subrange_split(b, i + 20, f1, dv + (de + (iv + (ie + (ov + oe)))));
    lemma_subrange_split(b, i + 24, dv, de + (iv + (ie + (ov + oe))));
    lemma_subrange_split(b, i + 28, de, iv + (ie + (ov + oe)));
    lemma_subrange_split(b, i + 28 + de.len(), iv, ie + (ov + oe));
    lemma_subrange_split(b, i + 32 + de.len(), ie, ov + oe);
    lemma_subrange_split(b, i + 32 + de.len() + ie.len(), ov, oe);
    lemma_read_u32_of_enc(b, i + 20, t.version);
    lemma_read_u32_of_enc(b, i + 24, t.deps.len() as u32);
    lemma_read_deps_of_enc(b, i + 28, t.deps);
    lemma_read_u32_of_enc(b, i + 28 + de.len(), t.inputs.len() as u32);
    lemma_read_inputs_of_enc(b, i + 32 + de.len(), t.inputs);
    lemma_read_u32_of_enc(b, i + 32 + de.len() + ie.len(), t.outputs.len() as u32);
    lemma_read_outputs_of_enc(b, i + 36 + de.len() + ie.len(), t.outputs);
    assert((t.deps.len() as u32) as nat == t.deps.len());
    assert((t.inputs.len() as u32) as nat == t.inputs.len());
    assert((t.outputs.len() as u32) as nat == t.outputs.len());
    assert(spec_enc_tx(t).len() == 24 + (4 + de.len()) + (4 + ie.len()) + (4 + oe.len()));
    assert(spec_read_tx_fields(
        b,
        i,
        spec_enc_tx(t).len() as u32,
        24,
        (28 + de.len()) as u32,
        (32 + de.len() + ie.len()) as u32,
        i + 20,
    )->Ok_0.0 =~= t);
}

#[verifier::rlimit(100)]
pub proof fn lemma_read_tx_of_enc(b: Seq<u8>, i: int, t: TransactionV)
    requires
        t.wf(),
        tx_sizes_ok(t),
        0 <= i,
        i + spec_enc_tx(t).len() <= b.len(),
        b.subrange(i, i + spec_enc_tx(t).len()) == spec_enc_tx(t),
    ensures
        spec_read_tx(b, i) == Ok::<(TransactionV, int), DecodeError>((t, i + spec_enc_tx(t).len())),
{
    reveal(spec_read_tx);
    lemma_subrange_split(b, i, spec_tx_head(t), spec_tx_tail(t));
    lemma_read_tx_head_of_enc(b, i, t);
    lemma_read_tx_tail_of_enc(b, i, t);
}

#[verifier::rlimit(100)]
pub proof fn lemma_read_txs_of_enc(b: Seq<u8>, i: int, s: Seq<TransactionV>)
    requires
        0 <= i,
        forall|k: int| 0 <= k < s.len() ==> (#[trigger] s[k]).wf(),
        forall|k: int| 0 <= k < s.len() ==> tx_sizes_ok(#[trigger] s[k]),
        i + spec_enc_txs(s).len() <= b.len(),
        b.subrange(i, i + spec_enc_txs(s).len()) == spec_enc_txs(s),
    ensures
        spec_read_txs(b, i, s.len() as nat) == Ok::<(Seq<TransactionV>, int), DecodeError>(
            (s, i + spec_enc_txs(s).len()),
        ),
    decreases s.len(),
{
    if s.len() == 0 {
        assert(s =~= Seq::<TransactionV>::empty());
    } else {
        let e1 = spec_enc_tx(s.first());
        let e2 = spec_enc_txs(s.drop_first());
        lemma_subrange_split(b, i, e1, e2);
        lemma_read_tx_of_enc(b, i, s.first());
        assert forall|k: int| 0 <= k < s.drop_first().len() implies (#[trigger] s.drop_first()[k]).wf()
            && tx_sizes_ok(s.drop_first()[k]) by {
            assert(s.drop_first()[k] == s[k + 1]);
        }
        lemma_read_txs_of_enc(b, i + e1.len(), s.drop_first());
        assert(seq![s.first()] + s.drop_first() =~= s);
    }
}

#[verifier::rlimit(100)]
proof fn lemma_read_header_head_of_enc(b: Seq<u8>, i: int, h: HeaderV)
    requires
        h.wf(),
        header_size_ok(h),
        0 <= i,
        i + 48 <= b.len(),
        b.subrange(i, i + 48) == spec_header_head(h),
    ensures
        spec_read_u32(b, i) == Ok::<(u32, int), DecodeError>(
            ((272 + h.seal.proof.len()) as u32, i + 4),
        ),
        spec_read_u32(b, i + 4) == Ok::<(u32, int), DecodeError>((48, i + 8)),
        spec_read_u32(b, i + 8) == Ok::<(u32, int), DecodeError>((52, i + 12)),
        spec_read_u32(b, i + 12) == Ok::<(u32, int), DecodeError>((84, i + 16)),
        spec_read_u32(b, i + 16) == Ok::<(u32, int), DecodeError>((92, i + 20)),
        spec_read_u32(b, i + 20) == Ok::<(u32, int), DecodeError>((100, i + 24)),
        spec_read_u32(b, i + 24) == Ok::<(u32, int), DecodeError>((132, i + 28)),
        spec_read_u32(b, i + 28) == Ok::<(u32, int), DecodeError>((164, i + 32)),
        spec_read_u32(b, i + 32) == Ok::<(u32, int), DecodeError>((196, i + 36)),
        spec_read_u32(b, i + 36) == Ok::<(u32, int), DecodeError>((204, i + 40)),
        spec_read_u32(b, i + 40) == Ok::<(u32, int), DecodeError>(
            ((208 + h.seal.proof.len()) as u32, i + 44),
        ),
        spec_read_u32(b, i + 44) == Ok::<(u32, int), DecodeError>(
            ((240 + h.seal.proof.len()) as u32, i + 48),
        ),
{
    let p = h.seal.proof.len();
    let c1 = spec_u32_le((272 + p) as u32);
    let c2 = spec_u32_le(48);
    let c3 = spec_u32_le(52);
    let c4 = spec_u32_le(84);
    let c5 = spec_u32_le(92);
    let c6 = spec_u32_le(100);
    let c7 = spec_u32_le(132);
    let c8 = spec_u32_le(164);
    let c9 = spec_u32_le(196);
    let c10 = spec_u32_le(204);
    let c11 = spec_u32_le((208 + p) as u32);
    let c12 = spec_u32_le((240 + p) as u32);
    assert(spec_header_head(h) =~= c1 + (c2 + (c3 + (c4 + (c5 + (c6 + (c7 + (c8 + (c9 + (c10 + (
    c11 + c12)))))))))));
    lemma_subrange_split(b, i, c1, c2 + (c3 + (c4 + (c5 + (c6 + (c7 + (c8 + (c9 + (c10 + (c11
        + c12))))))))));
    lemma_subrange_split(b, i + 4, c2, c3 + (c4 + (c5 + (c6 + (c7 + (c8 + (c9 + (c10 + (c11
        + c12)))))))));
    lemma_subrange_split(b, i + 8, c3, c4 + (c5 + (c6 + (c7 + (c8 + (c9 + (c10 + (c11 + c12))))))));
    lemma_subrange_split(b, i + 12, c4, c5 + (c6 + (c7 + (c8 + (c9 + (c10 + (c11 + c12)))))));
    lemma_subrange_split(b, i + 16, c5, c6 + (c7 + (c8 + (c9 + (c10 + (c11 + c12))))));
    lemma_subrange_split(b, i + 20, c6, c7 + (c8 + (c9 + (c10 + (c11 + c12)))));
    lemma_subrange_split(b, i + 24, c7, c8 + (c9 + (c10 + (c11 + c12))));
    lemma_subrange_split(b, i + 28, c8, c9 + (c10 + (c11 + c12)));
    lemma_subrange_split(b, i + 32, c9, c10 + (c11 + c12));
    lemma_subrange_split(b, i + 36, c10, c11 + c12);
    lemma_subrange_split(b, i + 40, c11, c12);
    lemma_read_u32_of_enc(b, i, (272 + p) as u32);
    lemma_read_u32_of_enc(b, i + 4, 48);
    lemma_read_u32_of_enc(b, i + 8, 52);
    lemma_read_u32_of_enc(b, i + 12, 84);
    lemma_read_u32_of_enc(b, i + 16, 92);
    lemma_read_u32_of_enc(b, i + 20, 100);
    lemma_read_u32_of_enc(b, i + 24, 132);
    lemma_read_u32_of_enc(b, i + 28, 164);
    lemma_read_u32_of_enc(b, i + 32, 196);
    lemma_read_u32_of_enc(b, i + 36, 204);
    lemma_read_u32_of_enc(b, i + 40, (208 + p) as u32);
    lemma_read_u32_of_enc(b, i + 44, (240 + p) as u32);
}

#[verifier::rlimit(100)]
proof fn lemma_read_header_tail_of_enc(b: Seq<u8>, i: int, h: HeaderV)
    requires
        h.wf(),
        header_size_ok(h),
        0 <= i,
        i + 48 + spec_header_tail(h).len() <= b.len(),
        b.subrange(i + 48, i + 48 + spec_header_tail(h).len()) == spec_header_tail(h),
    ensures
        spec_read_header_fields(
            b,
            i,
            (272 + h.seal.proof.len()) as u32,
            52,
            84,
            92,
            100,
            132,
            164,
            196,
            204,
            (208 + h.seal.proof.len()) as u32,
            (240 + h.seal.proof.len()) as u32,
            i + 48,
        ) == Ok::<(HeaderV, int), DecodeError>((h, i + 272 + h.seal.proof.len())),
{
    let p = h.seal.proof.len();
    let f1 = spec_u32_le(h.version);
    let f2 = h.parent_hash;
    let f3 = spec_u64_le(h.timestamp);
    let f4 = spec_u64_le(h.number);
    let f5 = h.txs_commit;
    let f6 = h.txs_proposal;
    let f7 = spec_u256_be(h.difficulty);
    let f8 = spec_u64_le(h.seal.nonce);
    let f9 = spec_enc_bytes(h.seal.proof);
    let f10 = h.cellbase_id;
    let f11 = h.uncles_hash;
    assert(spec_header_tail(h) =~= f1 + (f2 + (f3 + (f4 + (f5 + (f6 + (f7 + (f8 + (f9 + (f10
        + f11))))))))));
    lemma_subrange_split(b, i + 48, f1, f2 + (f3 + (f4 + (f5 + (f6 + (f7 + (f8 + (f9 + (f10
        + f11)))))))));
    lemma_subrange_split(b, i + 52, f2, f3 + (f4 + (f5 + (f6 + (f7 + (f8 + (f9 + (f10 + f11))))))));
    lemma_subrange_split(b, i + 84, f3, f4 + (f5 + (f6 + (f7 + (f8 + (f9 + (f10 + f11)))))));
    lemma_subrange_split(b, i + 92, f4, f5 + (f6 + (f7 + (f8 + (f9 + (f10 + f11))))));
    lemma_subrange_split(b, i + 100, f5, f6 + (f7 + (f8 + (f9 + (f10 + f11)))));
    lemma_subrange_split(b, i + 132, f6, f7 + (f8 + (f9 + (f10 + f11))));
    lemma_subrange_split(b, i + 164, f7, f8 + (f9 + (f10 + f11)));
    lemma_subrange_split(b, i + 196, f8, f9 + (f10 + f11));
    lemma_subrange_split(b, i + 204, f9, f10 + f11);
    lemma_subrange_split(b, i + 208 + p, f10, f11);
    lemma_read_u32_of_enc(b, i + 48, h.version);
    lemma_read_exact_of_enc(b, i + 52, h.parent_hash);
    lemma_read_u64_of_enc(b, i + 84, h.timestamp);
    lemma_read_u64_of_enc(b, i + 92, h.number);
    lemma_read_exact_of_enc(b, i + 100, h.txs_commit);
    lemma_read_exact_of_enc(b, i + 132, h.txs_proposal);
    lemma_read_u256_of_enc(b, i + 164, h.difficulty);
    lemma_read_u64_of_enc(b, i + 196, h.seal.nonce);
    lemma_read_bytes_of_enc(b, i + 204, h.seal.proof);
    lemma_read_exact_of_enc(b, i + 208 + p, h.cellbase_id);
    lemma_read_exact_of_enc(b, i + 240 + p, h.uncles_hash);
    assert(spec_read_header_fields(
        b,
        i,
        (272 + p) as u32,
        52,
        84,
        92,
        100,
        132,
        164,
        196,
        204,
        (208 + p) as u32,
        (240 + p) as u32,
        i + 48,
    )->Ok_0.0 =~= h);
}

#[verifier::rlimit(100)]
pub proof fn lemma_read_header_of_enc(b: Seq<u8>, i: int, h: HeaderV)
    requires
        h.wf(),
        header_size_ok(h),
        0 <= i,
        i + spec_enc_header(h).len() <= b.len(),
        b.subrange(i, i + spec_enc_header(h).len()) == spec_enc_header(h),
    ensures
        spec_read_header(b, i) == Ok::<(HeaderV, int), DecodeError>(
            (h, i + spec_enc_header(h).len()),
        ),
{
    reveal(spec_read_header);
    lemma_subrange_split(b, i, spec_header_head(h), spec_header_tail(h));
    lemma_read_header_head_of_enc(b, i, h);
    lemma_read_header_tail_of_enc(b, i, h);
}

#[verifier::rlimit(100)]
pub proof fn lemma_read_block_of_enc(b: Seq<u8>, i: int, bl: BlockV)
    requires
        bl.wf(),
        block_sizes_ok(bl),
        0 <= i,
        i + spec_enc_block(bl).len() <= b.len(),
        b.subrange(i, i + spec_enc_block(bl).len()) == spec_enc_block(bl),
    ensures
        spec_read_block(b, i) == Ok::<(BlockV, int), DecodeError>(
            (bl, i + spec_enc_block(bl).len()),
        ),
{
    reveal(spec_read_block);
    let htbl = spec_enc_header(bl.header);
    let tv = spec_u32_le(bl.transactions.len() as u32);
    let te = spec_enc_txs(bl.transactions);
    let c1 = spec_u32_le((12 + htbl.len() + 4 + te.len()) as u32);
    let c2 = spec_u32_le(12);
    let c3 = spec_u32_le((12 + htbl.len()) as u32);
    assert(12 + htbl.len() + (tv + te).len() == 12 + htbl.len() + 4 + te.len());
    assert(spec_enc_block(bl) =~= c1 + (c2 + (c3 + (htbl + (tv + te)))));
    lemma_subrange_split(b, i, c1, c2 + (c3 + (htbl + (tv + te))));
    lemma_subrange_split(b, i + 4, c2, c3 + (htbl + (tv + te)));
    lemma_subrange_split(b, i + 8, c3, htbl + (tv + te));
    lemma_subrange_split(b, i + 12, htbl, tv + te);
    lemma_subrange_split(b, i + 12 + htbl.len(), tv, te);
    lemma_read_u32_of_enc(b, i, (12 + htbl.len() + 4 + te.len()) as u32);
    lemma_read_u32_of_enc(b, i + 4, 12);
    lemma_read_u32_of_enc(b, i + 8, (12 + htbl.len()) as u32);
    lemma_read_header_of_enc(b, i + 12, bl.header);
    lemma_read_u32_of_enc(b, i + 12 + htbl.len(), bl.transactions.len() as u32);
    lemma_read_txs_of_enc(b, i + 16 + htbl.len(), bl.transactions);
    assert((bl.transactions.len() as u32) as nat == bl.transactions.len());
    assert(spec_read_block(b, i)->Ok_0.0 =~= bl);
}

// ---------------------------------------------------------------------------
// Composing partial reads of a sequence.
// ---------------------------------------------------------------------------

pub proof fn lemma_read_deps_concat(b: Seq<u8>, i: int, s1: Seq<OutPointV>, j: int, m: nat)
    requires
        spec_read_deps(b, i, s1.len() as nat) == Ok::<(Seq<OutPointV>, int), DecodeError>((s1, j)),
    ensures
        spec_read_deps(b, i, (s1.len() + m) as nat) == (match spec_read_deps(b, j, m) {
            Ok((s2, k)) => Ok::<(Seq<OutPointV>, int), DecodeError>((s1 + s2, k)),
            Err(e) => Err::<(Seq<OutPointV>, int), DecodeError>(e),
        }),
    decreases s1.len(),
{
    if s1.len() == 0 {
        assert(j == i);
        match spec_read_deps(b, j, m) {
            Ok((s2, k)) => {
                assert(s1 + s2 =~= s2);
            },
            Err(e) => {},
        }
    } else {
        let r0 = spec_read_outpoint(b, i);
        assert(r0 is Ok);
        let p0 = r0->Ok_0;
        let r1 = spec_read_deps(b, p0.1, (s1.len() - 1) as nat);
        assert(r1 is Ok);
        let p1 = r1->Ok_0;
        assert(s1 == seq![p0.0] + p1.0);
        assert(p1.0 =~= s1.drop_first());
        assert(p1.0.len() == s1.len() - 1);
        lemma_read_deps_concat(b, p0.1, p1.0, j, m);
        match spec_read_deps(b, j, m) {
            Ok((s2, k)) => {
                assert(seq![p0.0] + (p1.0 + s2) =~= s1 + s2);
            },
            Err(e) => {},
        }
    }
}

pub proof fn lemma_read_inputs_concat(b: Seq<u8>, i: int, s1: Seq<CellInputV>, j: int, m: nat)
    requires
        spec_read_inputs(b, i, s1.len() as nat) == Ok::<(Seq<CellInputV>, int), DecodeError>(
            (s1, j),
        ),
    ensures
        spec_read_inputs(b, i, (s1.len() + m) as nat) == (match spec_read_inputs(b, j, m) {
            Ok((s2, k)) => Ok::<(Seq<CellInputV>, int), DecodeError>((s1 + s2, k)),
            Err(e) => Err::<(Seq<CellInputV>, int), DecodeError>(e),
        }),
    decreases s1.len(),
{
    if s1.len() == 0 {
        assert(j == i);
        match spec_read_inputs(b, j, m) {
            Ok((s2, k)) => {
                assert(s1 + s2 =~= s2);
            },
            Err(e) => {},
        }
    } else {
        let r0 = spec_read_input(b, i);
        assert(r0 is Ok);
        let p0 = r0->Ok_0;
        let r1 = spec_read_inputs(b, p0.1, (s1.len() - 1) as nat);
        assert(r1 is Ok);
        let p1 = r1->Ok_0;
        assert(s1 == seq![p0.0] + p1.0);
        assert(p1.0 =~= s1.drop_first());
        assert(p1.0.len() == s1.len() - 1);
        lemma_read_inputs_concat(b, p0.1, p1.0, j, m);
        match spec_read_inputs(b, j, m) {
            Ok((s2, k)) => {
                assert(seq![p0.0] + (p1.0 + s2) =~= s1 + s2);
            },
            Err(e) => {},
        }
    }
}

pub proof fn lemma_read_outputs_concat(b: Seq<u8>, i: int, s1: Seq<CellOutputV>, j: int, m: nat)
    requires
        spec_read_outputs(b, i, s1.len() as nat) == Ok::<(Seq<CellOutputV>, int), DecodeError>(
            (s1, j),
        ),
    ensures
        spec_read_outputs(b, i, (s1.len() + m) as nat) == (match spec_read_outputs(b, j, m) {
            Ok((s2, k)) => Ok::<(Seq<CellOutputV>, int), DecodeError>((s1 + s2, k)),
            Err(e) => Err::<(Seq<CellOutputV>, int), DecodeError>(e),
        }),
    decreases s1.len(),
{
    if s1.len() == 0 {
        assert(j == i);
        match spec_read_outputs(b, j, m) {
            Ok((s2, k)) => {
                assert(s1 + s2 =~= s2);
            },
            Err(e) => {},
        }
    } else {
        let r0 = spec_read_output(b, i);
        assert(r0 is Ok);
        let p0 = r0->Ok_0;
        let r1 = spec_read_outputs(b, p0.1, (s1.len() - 1) as nat);
        assert(r1 is Ok);
        let p1 = r1->Ok_0;
        assert(s1 == seq![p0.0] + p1.0);
        assert(p1.0 =~= s1.drop_first());
        assert(p1.0.len() == s1.len() - 1);
        lemma_read_outputs_concat(b, p0.1, p1.0, j, m);
        match spec_read_outputs(b, j, m) {
            Ok((s2, k)) => {
                assert(seq![p0.0] + (p1.0 + s2) =~= s1 + s2);
            },
            Err(e) => {},
        }
    }
}

#[verifier::rlimit(100)]
pub proof fn lemma_read_txs_concat(b: Seq<u8>, i: int, s1: Seq<TransactionV>, j: int, m: nat)
    requires
        spec_read_txs(b, i, s1.len() as nat) == Ok::<(Seq<TransactionV>, int), DecodeError>(
            (s1, j),
        ),
    ensures
        spec_read_txs(b, i, (s1.len() + m) as nat) == (match spec_read_txs(b, j, m) {
            Ok((s2, k)) => Ok::<(Seq<TransactionV>, int), DecodeError>((s1 + s2, k)),
            Err(e) => Err::<(Seq<TransactionV>, int), DecodeError>(e),
        }),
    decreases s1.len(),
{
    if s1.len() == 0 {
        assert(j == i);
        match spec_read_txs(b, j, m) {
            Ok((s2, k)) => {
                assert(s1 + s2 =~= s2);
            },
            Err(e) => {},
        }
    } else {
        let r0 = spec_read_tx(b, i);
        assert(r0 is Ok);
        let p0 = r0->Ok_0;
        let r1 = spec_read_txs(b, p0.1, (s1.len() - 1) as nat);
        assert(r1 is Ok);
        let p1 = r1->Ok_0;
        assert(s1 == seq![p0.0] + p1.0);
        assert(p1.0 =~= s1.drop_first());
        assert(p1.0.len() == s1.len() - 1);
        lemma_read_txs_concat(b, p0.1, p1.0, j, m);
        match spec_read_txs(b, j, m) {
            Ok((s2, k)) => {
                assert(seq![p0.0] + (p1.0 + s2) =~= s1 + s2);
            },
            Err(e) => {},
        }
    }
}


// ---------------------------------------------------------------------------
// Executable encoders.
// ---------------------------------------------------------------------------

pub(crate) fn enc_outpoint(o: &OutPoint, out: &mut Vec<u8>)
    requires
        o@.wf(),
    ensures
        final(out)@ == old(out)@ + spec_enc_outpoint(o@),
{
    push_u32_le(out, 48);
    push_u32_le(out, 12);
    push_u32_le(out, 44);
    push_slice(out, o.hash.as_slice());
    push_u32_le(out, o.index);
    proof {
        assert(out@ =~= old(out)@ + spec_enc_outpoint(o@));
    }
}

pub(crate) fn enc_input(c: &CellInput, out: &mut Vec<u8>)
    requires
        c@.wf(),
        spec_enc_input(c@).len() <= u32::MAX,
    ensures
        final(out)@ == old(out)@ + spec_enc_input(c@),
{
    proof {
        assert(spec_enc_input(c@).len() == 56 + c@.unlock.len());
        assert(c@.unlock.len() == c.unlock@.len());
    }
    push_u32_le(out, (56 + c.unlock.len()) as u32);
    push_u32_le(out, 16);
    push_u32_le(out, 48);
    push_u32_le(out, 52);
    push_slice(out, c.previous_output.hash.as_slice());
    push_u32_le(out, c.previous_output.index);
    push_bytes(out, c.unlock.as_slice());
    proof {
        assert(out@ =~= old(out)@ + spec_enc_input(c@));
    }
}

pub(crate) fn enc_output(c: &CellOutput, out: &mut Vec<u8>)
    requires
        c@.wf(),
        spec_enc_output(c@).len() <= u32::MAX,
    ensures
        final(out)@ == old(out)@ + spec_enc_output(c@),
{
    proof {
        assert(spec_enc_output(c@).len() == 60 + c@.data.len());
        assert(c@.data.len() == c.data@.len());
    }
    push_u32_le(out, (60 + c.data.len()) as u32);
    push_u32_le(out, 16);
    push_u32_le(out, 24);
    push_u32_le(out, (28 + c.data.len()) as u32);
    push_u64_le(out, c.capacity);
    push_bytes(out, c.data.as_slice());
    push_slice(out, c.lock.as_slice());
    proof {
        assert(out@ =~= old(out)@ + spec_enc_output(c@));
    }
}

#[verifier::rlimit(100)]
pub(crate) fn enc_tx(t: &Transaction, out: &mut Vec<u8>)
    requires
        t@.wf(),
        tx_sizes_ok(t@),
    ensures
        final(out)@ == old(out)@ + spec_enc_tx(t@),
{
    proof {
        assert(t@.deps.len() == t.deps@.len());
        assert(t@.inputs.len() == t.inputs@.len());
        assert(t@.outputs.len() == t.outputs@.len());
    }
    let mut dbuf: Vec<u8> = Vec::new();
    push_u32_le(&mut dbuf, t.deps.len() as u32);
    let ghost dbase = spec_u32_le(t.deps.len() as u32);
    let mut k: usize = 0;
    while k < t.deps.len()
        invariant
            t@.wf(),
            t@.deps.len() == t.deps@.len(),
            k <= t.deps@.len(),
            dbuf@ == dbase + spec_enc_deps(t@.deps.take(k as int)),
        decreases t.deps@.len() - k,
    {
        proof {
            assert(t@.deps[k as int] == t.deps@[k as int]@);
            assert((#[trigger] t@.deps[k as int]).wf());
        }
        enc_outpoint(&t.deps[k], &mut dbuf);
        proof {
            lemma_enc_deps_snoc(t@.deps, k as int);
            assert(dbuf@ =~= dbase + spec_enc_deps(t@.deps.take(k as int + 1)));
        }
        k = k + 1;
    }
    proof {
        assert(t@.deps.take(t@.deps.len() as int) =~= t@.deps);
    }
    let mut ibuf: Vec<u8> = Vec::new();
    push_u32_le(&mut ibuf, t.inputs.len() as u32);
    let ghost ibase = spec_u32_le(t.inputs.len() as u32);
    let mut k2: usize = 0;
    while k2 < t.inputs.len()
        invariant
            t@.wf(),
            tx_sizes_ok(t@),
            t@.inputs.len() == t.inputs@.len(),
            k2 <= t.inputs@.len(),
            ibuf@ == ibase + spec_enc_inputs(t@.inputs.take(k2 as int)),
        decreases t.inputs@.len() - k2,
    {
        proof {
            assert(t@.inputs[k2 as int] == t.inputs@[k2 as int]@);
            assert((#[trigger] t@.inputs[k2 as int]).wf());
            assert(spec_enc_input(t@.inputs[k2 as int]).len() <= u32::MAX);
        }
        enc_input(&t.inputs[k2], &mut ibuf);
        proof {
            lemma_enc_inputs_snoc(t@.inputs, k2 as int);
            assert(ibuf@ =~= ibase + spec_enc_inputs(t@.inputs.take(k2 as int + 1)));
        }
        k2 = k2 + 1;
    }
    proof {
        assert(t@.inputs.take(t@.inputs.len() as int) =~= t@.inputs);
    }
    let mut obuf: Vec<u8> = Vec::new();
    push_u32_le(&mut obuf, t.outputs.len() as u32);
    let ghost obase = spec_u32_le(t.outputs.len() as u32);
    let mut k3: usize = 0;
    while k3 < t.outputs.len()
        invariant
            t@.wf(),
            tx_sizes_ok(t@),
            t@.outputs.len() == t.outputs@.len(),
            k3 <= t.outputs@.len(),
            obuf@ == obase + spec_enc_outputs(t@.outputs.take(k3 as int)),
        decreases t.outputs@.len() - k3,
    {
        proof {
            assert(t@.outputs[k3 as int] == t.outputs@[k3 as int]@);
            assert((#[trigger] t@.outputs[k3 as int]).wf());
            assert(spec_enc_output(t@.outputs[k3 as int]).len() <= u32::MAX);
        }
        enc_output(&t.outputs[k3], &mut obuf);
        proof {
            lemma_enc_outputs_snoc(t@.outputs, k3 as int);
            assert(obuf@ =~= obase + spec_enc_outputs(t@.outputs.take(k3 as int + 1)));
        }
        k3 = k3 + 1;
    }
    proof {
        assert(t@.outputs.take(t@.outputs.len() as int) =~= t@.outputs);
        assert(spec_enc_tx(t@).len() == 24 + dbuf@.len() + ibuf@.len() + obuf@.len());
    }
    push_u32_le(out, (24 + dbuf.len() + ibuf.len() + obuf.len()) as u32);
    push_u32_le(out, 20);
    push_u32_le(out, 24);
    push_u32_le(out, (24 + dbuf.len()) as u32);
    push_u32_le(out, (24 + dbuf.len() + ibuf.len()) as u32);
    push_u32_le(out, t.version);
    push_slice(out, dbuf.as_slice());
    push_slice(out, ibuf.as_slice());
    push_slice(out, obuf.as_slice());
    proof {
        assert(out@ =~= old(out)@ + spec_enc_tx(t@));
    }
}

#[verifier::rlimit(100)]
pub(crate) fn enc_header(h: &Header, out: &mut Vec<u8>)
    requires
        h@.wf(),
        header_size_ok(h@),
    ensures
        final(out)@ == old(out)@ + spec_enc_header(h@),
{
    proof {
        assert(spec_enc_header(h@).len() == 272 + h@.seal.proof.len());
        assert(h@.seal.proof.len() == h.seal.proof@.len());
    }
    let p = h.seal.proof.len();
    push_u32_le(out, (272 + p) as u32);
    push_u32_le(out, 48);
    push_u32_le(out, 52);
    push_u32_le(out, 84);
    push_u32_le(out, 92);
    push_u32_le(out, 100);
    push_u32_le(out, 132);
    push_u32_le(out, 164);
    push_u32_le(out, 196);
    push_u32_le(out, 204);
    push_u32_le(out, (208 + p) as u32);
    push_u32_le(out, (240 + p) as u32);
    push_u32_le(out, h.version);
    push_slice(out, h.parent_hash.as_slice());
    push_u64_le(out, h.timestamp);
    push_u64_le(out, h.number);
    push_slice(out, h.txs_commit.as_slice());
    push_slice(out, h.txs_proposal.as_slice());
    push_u256_be(out, h.difficulty);
    push_u64_le(out, h.seal.nonce);
    push_bytes(out, h.seal.proof.as_slice());
    push_slice(out, h.cellbase_id.as_slice());
    push_slice(out, h.uncles_hash.as_slice());
    proof {
        assert(out@ =~= old(out)@ + (spec_header_head(h@) + spec_header_tail(h@)));
    }
}

#[verifier::rlimit(100)]
pub(crate) fn enc_block(bl: &Block, out: &mut Vec<u8>)
    requires
        bl@.wf(),
        block_sizes_ok(bl@),
    ensures
        final(out)@ == old(out)@ + spec_enc_block(bl@),
{
    proof {
        assert(bl@.transactions.len() == bl.transactions@.len());
    }
    let mut hbuf: Vec<u8> = Vec::new();
    enc_header(&bl.header, &mut hbuf);
    let mut tbuf: Vec<u8> = Vec::new();
    push_u32_le(&mut tbuf, bl.transactions.len() as u32);
    let ghost tbase = spec_u32_le(bl.transactions.len() as u32);
    let mut k: usize = 0;
    while k < bl.transactions.len()
        invariant
            bl@.wf(),
            block_sizes_ok(bl@),
            bl@.transactions.len() == bl.transactions@.len(),
            k <= bl.transactions@.len(),
            tbuf@ == tbase + spec_enc_txs(bl@.transactions.take(k as int)),
        decreases bl.transactions@.len() - k,
    {
        proof {
            assert(bl@.transactions[k as int] == bl.transactions@[k as int]@);
            assert((#[trigger] bl@.transactions[k as int]).wf());
            assert(tx_sizes_ok(bl@.transactions[k as int]));
        }
        enc_tx(&bl.transactions[k], &mut tbuf);
        proof {
            lemma_enc_txs_snoc(bl@.transactions, k as int);
            assert(tbuf@ =~= tbase + spec_enc_txs(bl@.transactions.take(k as int + 1)));
        }
        k = k + 1;
    }
    proof {
        assert(bl@.transactions.take(bl@.transactions.len() as int) =~= bl@.transactions);
        assert(spec_enc_block(bl@).len() == 12 + hbuf@.len() + tbuf@.len());
    }
    push_u32_le(out, (12 + hbuf.len() + tbuf.len()) as u32);
    push_u32_le(out, 12);
    push_u32_le(out, (12 + hbuf.len()) as u32);
    push_slice(out, hbuf.as_slice());
    push_slice(out, tbuf.as_slice());
    proof {
        assert(out@ =~= old(out)@ + spec_enc_block(bl@));
    }
}

// ---------------------------------------------------------------------------
// Executable decoders.
// ---------------------------------------------------------------------------

pub(crate) fn read_outpoint(b: &[u8], i: usize) -> (r: Result<(OutPoint, usize), DecodeError>)
    ensures
        match r {
            Ok((o, j)) => spec_read_outpoint(b@, i as int) == Ok::<(OutPointV, int), DecodeError>(
                (o@, j as int),
            ) && i <= j <= b@.len() && o@.wf(),
            Err(e) => spec_read_outpoint(b@, i as int) == Err::<(OutPointV, int), DecodeError>(e),
        },
{
    let (s_, p0) = match read_u32_le(b, i) {
        Ok(p) => p,
        Err(e) => {
            return Err(e);
        },
    };
    let (o1, p1) = match read_u32_le(b, p0) {
        Ok(p) => p,
        Err(e) => {
            return Err(e);
        },
    };
    let (o2, p2) = match read_u32_le(b, p1) {
        Ok(p) => p,
        Err(e) => {
            return Err(e);
        },
    };
    if o1 != 12 {
        return Err(DecodeError::BadOffset);
    }
    let (h, q1) = match read_exact(b, p2, 32) {
        Ok(p) => p,
        Err(e) => {
            return Err(e);
        },
    };
    if q1 - i != o2 as usize {
        return Err(DecodeError::BadOffset);
    }
    let (x, q2) = match read_u32_le(b, q1) {
        Ok(p) => p,
        Err(e) => {
            return Err(e);
        },
    };
    if q2 - i != s_ as usize {
        return Err(DecodeError::BadLength);
    }
    Ok((OutPoint { hash: h, index: x }, q2))
}

pub(crate) fn read_input(b: &[u8], i: usize) -> (r: Result<(CellInput, usize), DecodeError>)
    ensures
        match r {
            Ok((c, j)) => spec_read_input(b@, i as int) == Ok::<(CellInputV, int), DecodeError>(
                (c@, j as int),
            ) && i <= j <= b@.len() && c@.wf(),
            Err(e) => spec_read_input(b@, i as int) == Err::<(CellInputV, int), DecodeError>(e),
        },
{
    let (s_, p0) = match read_u32_le(b, i) {
        Ok(p) => p,
        Err(e) => {
            return Err(e);
        },
    };
    let (o1, p1) = match read_u32_le(b, p0) {
        Ok(p) => p,
        Err(e) => {
            return Err(e);
        },
    };
    let (o2, p2) = match read_u32_le(b, p1) {
        Ok(p) => p,
        Err(e) => {
            return Err(e);
        },
    };
    let (o3, p3) = match read_u32_le(b, p2) {
        Ok(p) => p,
        Err(e) => {
            return Err(e);
        },
    };
    if o1 != 16 {
        return Err(DecodeError::BadOffset);
    }
    let (h, q1) = match read_exact(b, p3, 32) {
        Ok(p) => p,
        Err(e) => {
            return Err(e);
        },
    };
    if q1 - i != o2 as usize {
        return Err(DecodeError::BadOffset);
    }
    let (x, q2) = match read_u32_le(b, q1) {
        Ok(p) => p,
        Err(e) => {
            return Err(e);
        },
    };
    if q2 - i != o3 as usize {
        return Err(DecodeError::BadOffset);
    }
    let (u, q3) = match read_bytes(b, q2) {
        Ok(p) => p,
        Err(e) => {
            return Err(e);
        },
    };
    if q3 - i != s_ as usize {
        return Err(DecodeError::BadLength);
    }
    Ok((CellInput { previous_output: OutPoint { hash: h, index: x }, unlock: u }, q3))
}

pub(crate) fn read_output(b: &[u8], i: usize) -> (r: Result<(CellOutput, usize), DecodeError>)
    ensures
        match r {
            Ok((c, j)) => spec_read_output(b@, i as int) == Ok::<(CellOutputV, int), DecodeError>(
                (c@, j as int),
            ) && i <= j <= b@.len() && c@.wf(),
            Err(e) => spec_read_output(b@, i as int) == Err::<(CellOutputV, int), DecodeError>(e),
        },
{
    let (s_, p0) = match read_u32_le(b, i) {
        Ok(p) => p,
        Err(e) => {
            return Err(e);
        },
    };
    let (o1, p1) = match read_u32_le(b, p0) {
        Ok(p) => p,
        Err(e) => {
            return Err(e);
        },
    };
    let (o2, p2) = match read_u32_le(b, p1) {
        Ok(p) => p,
        Err(e) => {
            return Err(e);
        },
    };
    let (o3, p3) = match read_u32_le(b, p2) {
        Ok(p) => p,
        Err(e) => {
            return Err(e);
        },
    };
    if o1 != 16 {
        return Err(DecodeError::BadOffset);
    }
    let (cap, q1) = match read_u64_le(b, p3) {
        Ok(p) => p,
        Err(e) => {
            return Err(e);
        },
    };
    if q1 - i != o2 as usize {
        return Err(DecodeError::BadOffset);
    }
    let (d, q2) = match read_bytes(b, q1) {
        Ok(p) => p,
        Err(e) => {
            return Err(e);
        },
    };
    if q2 - i != o3 as usize {
        return Err(DecodeError::BadOffset);
    }
    let (l, q3) = match read_exact(b, q2, 32) {
        Ok(p) => p,
        Err(e) => {
            return Err(e);
        },
    };
    if q3 - i != s_ as usize {
        return Err(DecodeError::BadLength);
    }
    Ok((CellOutput { capacity: cap, data: d, lock: l }, q3))
}

pub(crate) fn read_deps(b: &[u8], i: usize, n: u32) -> (r: Result<
    (Vec<OutPoint>, usize),
    DecodeError,
>)
    requires
        i <= b@.len(),
    ensures
        match r {
            Ok((v, j)) => spec_read_deps(b@, i as int, n as nat) == Ok::<
                (Seq<OutPointV>, int),
                DecodeError,
            >((deps_view(v@), j as int)) && i <= j <= b@.len() && v@.len() == n && (forall|m: int|
                0 <= m < v@.len() ==> (#[trigger] deps_view(v@)[m]).wf()),
            Err(e) => spec_read_deps(b@, i as int, n as nat) == Err::<
                (Seq<OutPointV>, int),
                DecodeError,
            >(e),
        },
{
    let mut acc: Vec<OutPoint> = Vec::new();
    let mut cur: usize = i;
    let mut k: u32 = 0;
    proof {
        assert(deps_view(acc@) =~= Seq::<OutPointV>::empty());
    }
    while k < n
        invariant
            k <= n,
            i <= cur <= b@.len(),
            acc@.len() == k,
            spec_read_deps(b@, i as int, k as nat) == Ok::<(Seq<OutPointV>, int), DecodeError>(
                (deps_view(acc@), cur as int),
            ),
            forall|m: int| 0 <= m < acc@.len() ==> (#[trigger] deps_view(acc@)[m]).wf(),
        decreases n - k,
    {
        match read_outpoint(b, cur) {
            Ok((o, j)) => {
                proof {
                    lemma_read_deps_concat(b@, i as int, deps_view(acc@), cur as int, 1);
                    assert(spec_read_deps(b@, j as int, 0) == Ok::<
                        (Seq<OutPointV>, int),
                        DecodeError,
                    >((Seq::empty(), j as int)));
                    assert(seq![o@] + Seq::<OutPointV>::empty() =~= seq![o@]);
                    assert(deps_view(acc@.push(o)) =~= deps_view(acc@) + seq![o@]);
                }
                acc.push(o);
                cur = j;
                k = k + 1;
            },
            Err(e) => {
                proof {
                    lemma_read_deps_concat(b@, i as int, deps_view(acc@), cur as int, (n - k) as nat);
                }
                return Err(e);
            },
        }
    }
    Ok((acc, cur))
}

pub(crate) fn read_inputs(b: &[u8], i: usize, n: u32) -> (r: Result<
    (Vec<CellInput>, usize),
    DecodeError,
>)
    requires
        i <= b@.len(),
    ensures
        match r {
            Ok((v, j)) => spec_read_inputs(b@, i as int, n as nat) == Ok::<
                (Seq<CellInputV>, int),
                DecodeError,
            >((inputs_view(v@), j as int)) && i <= j <= b@.len() && v@.len() == n && (forall|m: int|
                0 <= m < v@.len() ==> (#[trigger] inputs_view(v@)[m]).wf()),
            Err(e) => spec_read_inputs(b@, i as int, n as nat) == Err::<
                (Seq<CellInputV>, int),
                DecodeError,
            >(e),
        },
{
    let mut acc: Vec<CellInput> = Vec::new();
    let mut cur: usize = i;
    let mut k: u32 = 0;
    proof {
        assert(inputs_view(acc@) =~= Seq::<CellInputV>::empty());
    }
    while k < n
        invariant
            k <= n,
            i <= cur <= b@.len(),
            acc@.len() == k,
            spec_read_inputs(b@, i as int, k as nat) == Ok::<(Seq<CellInputV>, int), DecodeError>(
                (inputs_view(acc@), cur as int),
            ),
            forall|m: int| 0 <= m < acc@.len() ==> (#[trigger] inputs_view(acc@)[m]).wf(),
        decreases n - k,
    {
        match read_input(b, cur) {
            Ok((c, j)) => {
                proof {
                    lemma_read_inputs_concat(b@, i as int, inputs_view(acc@), cur as int, 1);
                    assert(spec_read_inputs(b@, j as int, 0) == Ok::<
                        (Seq<CellInputV>, int),
                        DecodeError,
                    >((Seq::empty(), j as int)));
                    assert(seq![c@] + Seq::<CellInputV>::empty() =~= seq![c@]);
                    assert(inputs_view(acc@.push(c)) =~= inputs_view(acc@) + seq![c@]);
                }
                acc.push(c);
                cur = j;
                k = k + 1;
            },
            Err(e) => {
                proof {
                    lemma_read_inputs_concat(b@, i as int, inputs_view(acc@), cur as int, (n
                        - k) as nat);
                }
                return Err(e);
            },
        }
    }
    Ok((acc, cur))
}

pub(crate) fn read_outputs(b: &[u8], i: usize, n: u32) -> (r: Result<
    (Vec<CellOutput>, usize),
    DecodeError,
>)
    requires
        i <= b@.len(),
    ensures
        match r {
            Ok((v, j)) => spec_read_outputs(b@, i as int, n as nat) == Ok::<
                (Seq<CellOutputV>, int),
                DecodeError,
            >((outputs_view(v@), j as int)) && i <= j <= b@.len() && v@.len() == n && (forall|
                m: int,
            |
                0 <= m < v@.len() ==> (#[trigger] outputs_view(v@)[m]).wf()),
            Err(e) => spec_read_outputs(b@, i as int, n as nat) == Err::<
                (Seq<CellOutputV>, int),
                DecodeError,
            >(e),
        },
{
    let mut acc: Vec<CellOutput> = Vec::new();
    let mut cur: usize = i;
    let mut k: u32 = 0;
    proof {
        assert(outputs_view(acc@) =~= Seq::<CellOutputV>::empty());
    }
    while k < n
        invariant
            k <= n,
            i <= cur <= b@.len(),
            acc@.len() == k,
            spec_read_outputs(b@, i as int, k as nat) == Ok::<
                (Seq<CellOutputV>, int),
                DecodeError,
            >((outputs_view(acc@), cur as int)),
            forall|m: int| 0 <= m < acc@.len() ==> (#[trigger] outputs_view(acc@)[m]).wf(),
        decreases n - k,
    {
        match read_output(b, cur) {
            Ok((c, j)) => {
                proof {
                    lemma_read_outputs_concat(b@, i as int, outputs_view(acc@), cur as int, 1);
                    assert(spec_read_outputs(b@, j as int, 0) == Ok::<
                        (Seq<CellOutputV>, int),
                        DecodeError,
                    >((Seq::empty(), j as int)));
                    assert(seq![c@] + Seq::<CellOutputV>::empty() =~= seq![c@]);
                    assert(outputs_view(acc@.push(c)) =~= outputs_view(acc@) + seq![c@]);
                }
                acc.push(c);
                cur = j;
                k = k + 1;
            },
            Err(e) => {
                proof {
                    lemma_read_outputs_concat(b@, i as int, outputs_view(acc@), cur as int, (n
                        - k) as nat);
                }
                return Err(e);
            },
        }
    }
    Ok((acc, cur))
}

#[verifier::rlimit(100)]
pub(crate) fn read_tx(b: &[u8], i: usize) -> (r: Result<(Transaction, usize), DecodeError>)
    ensures
        match r {
            Ok((t, j)) => spec_read_tx(b@, i as int) == Ok::<(TransactionV, int), DecodeError>(
                (t@, j as int),
            ) && i <= j <= b@.len() && t@.wf(),
            Err(e) => spec_read_tx(b@, i as int) == Err::<(TransactionV, int), DecodeError>(e),
        },
{
    proof {
        reveal(spec_read_tx);
    }
    let (s_, p0) = match read_u32_le(b, i) {
        Ok(p) => p,
        Err(e) => {
            return Err(e);
        },
    };
    let (o1, p1) = match read_u32_le(b, p0) {
        Ok(p) => p,
        Err(e) => {
            return Err(e);
        },
    };
    let (o2, p2) = match read_u32_le(b, p1) {
        Ok(p) => p,
        Err(e) => {
            return Err(e);
        },
    };
    let (o3, p3) = match read_u32_le(b, p2) {
        Ok(p) => p,
        Err(e) => {
            return Err(e);
        },
    };
    let (o4, p4) = match read_u32_le(b, p3) {
        Ok(p) => p,
        Err(e) => {
            return Err(e);
        },
    };
    if o1 != 20 {
        return Err(DecodeError::BadOffset);
    }
    let (v, q1) = match read_u32_le(b, p4) {
        Ok(p) => p,
        Err(e) => {
            return Err(e);
        },
    };
    if q1 - i != o2 as usize {
        return Err(DecodeError::BadOffset);
    }
    let (nd, qd) = match read_u32_le(b, q1) {
        Ok(p) => p,
        Err(e) => {
            return Err(e);
        },
    };
    let (ds, q2) = match read_deps(b, qd, nd) {
        Ok(p) => p,
        Err(e) => {
            return Err(e);
        },
    };
    if q2 - i != o3 as usize {
        return Err(DecodeError::BadOffset);
    }
    let (ni, qi) = match read_u32_le(b, q2) {
        Ok(p) => p,
        Err(e) => {
            return Err(e);
        },
    };
    let (is_, q3) = match read_inputs(b, qi, ni) {
        Ok(p) => p,
        Err(e) => {
            return Err(e);
        },
    };
    if q3 - i != o4 as usize {
        return Err(DecodeError::BadOffset);
    }
    let (no, qo) = match read_u32_le(b, q3) {
        Ok(p) => p,
        Err(e) => {
            return Err(e);
        },
    };
    let (os, q4) = match read_outputs(b, qo, no) {
        Ok(p) => p,
        Err(e) => {
            return Err(e);
        },
    };
    if q4 - i != s_ as usize {
        return Err(DecodeError::BadLength);
    }
    let t = Transaction { version: v, deps: ds, inputs: is_, outputs: os };
    proof {
        assert(spec_read_tx(b@, i as int)->Ok_0.0 =~= t@);
    }
    Ok((t, q4))
}

pub(crate) fn read_txs(b: &[u8], i: usize, n: u32) -> (r: Result<
    (Vec<Transaction>, usize),
    DecodeError,
>)
    requires
        i <= b@.len(),
    ensures
        match r {
            Ok((v, j)) => spec_read_txs(b@, i as int, n as nat) == Ok::<
                (Seq<TransactionV>, int),
                DecodeError,
            >((txs_view(v@), j as int)) && i <= j <= b@.len() && v@.len() == n && (forall|m: int|
                0 <= m < v@.len() ==> (#[trigger] txs_view(v@)[m]).wf()),
            Err(e) => spec_read_txs(b@, i as int, n as nat) == Err::<
                (Seq<TransactionV>, int),
                DecodeError,
            >(e),
        },
{
    let mut acc: Vec<Transaction> = Vec::new();
    let mut cur: usize = i;
    let mut k: u32 = 0;
    proof {
        assert(txs_view(acc@) =~= Seq::<TransactionV>::empty());
    }
    while k < n
        invariant
            k <= n,
            i <= cur <= b@.len(),
            acc@.len() == k,
            spec_read_txs(b@, i as int, k as nat) == Ok::<(Seq<TransactionV>, int), DecodeError>(
                (txs_view(acc@), cur as int),
            ),
            forall|m: int| 0 <= m < acc@.len() ==> (#[trigger] txs_view(acc@)[m]).wf(),
        decreases n - k,
    {
        match read_tx(b, cur) {
            Ok((t, j)) => {
                proof {
                    lemma_read_txs_concat(b@, i as int, txs_view(acc@), cur as int, 1);
                    assert(spec_read_txs(b@, j as int, 0) == Ok::<
                        (Seq<TransactionV>, int),
                        DecodeError,
                    >((Seq::empty(), j as int)));
                    assert(seq![t@] + Seq::<TransactionV>::empty() =~= seq![t@]);
                    assert(txs_view(acc@.push(t)) =~= txs_view(acc@) + seq![t@]);
                }
                acc.push(t);
                cur = j;
                k = k + 1;
            },
            Err(e) => {
                proof {
                    lemma_read_txs_concat(b@, i as int, txs_view(acc@), cur as int, (n - k) as nat);
                }
                return Err(e);
            },
        }
    }
    Ok((acc, cur))
}

#[verifier::rlimit(100)]
pub(crate) fn read_header(b: &[u8], i: usize) -> (r: Result<(Header, usize), DecodeError>)
    ensures
        match r {
            Ok((h, j)) => spec_read_header(b@, i as int) == Ok::<(HeaderV, int), DecodeError>(
                (h@, j as int),
            ) && i <= j <= b@.len() && h@.wf(),
            Err(e) => spec_read_header(b@, i as int) == Err::<(HeaderV, int), DecodeError>(e),
        },
{
    proof {
        reveal(spec_read_header);
    }
    let (s_, p0) = match read_u32_le(b, i) {
        Ok(p) => p,
        Err(e) => {
            return Err(e);
        },
    };
    let (o1, p1) = match read_u32_le(b, p0) {
        Ok(p) => p,
        Err(e) => {
            return Err(e);
        },
    };
    let (o2, p2) = match read_u32_le(b, p1) {
        Ok(p) => p,
        Err(e) => {
            return Err(e);
        },
    };
    let (o3, p3) = match read_u32_le(b, p2) {
        Ok(p) => p,
        Err(e) => {
            return Err(e);
        },
    };
    let (o4, p4) = match read_u32_le(b, p3) {
        Ok(p) => p,
        Err(e) => {
            return Err(e);
        },
    };
    let (o5, p5) = match read_u32_le(b, p4) {
        Ok(p) => p,
        Err(e) => {
            return Err(e);
        },
    };
    let (o6, p6) = match read_u32_le(b, p5) {
        Ok(p) => p,
        Err(e) => {
            return Err(e);
        },
    };
    let (o7, p7) = match read_u32_le(b, p6) {
        Ok(p) => p,
        Err(e) => {
            return Err(e);
        },
    };
    let (o8, p8) = match read_u32_le(b, p7) {
        Ok(p) => p,
        Err(e) => {
            return Err(e);
        },
    };
    let (o9, p9) = match read_u32_le(b, p8) {
        Ok(p) => p,
        Err(e) => {
            return Err(e);
        },
    };
    let (o10, p10) = match read_u32_le(b, p9) {
        Ok(p) => p,
        Err(e) => {
            return Err(e);
        },
    };
    let (o11, p11) = match read_u32_le(b, p10) {
        Ok(p) => p,
        Err(e) => {
            return Err(e);
        },
    };
    if o1 != 48 {
        return Err(DecodeError::BadOffset);
    }
    let (v, q1) = match read_u32_le(b, p11) {
        Ok(p) => p,
        Err(e) => {
            return Err(e);
        },
    };
    if q1 - i != o2 as usize {
        return Err(DecodeError::BadOffset);
    }
    let (ph, q2) = match read_exact(b, q1, 32) {
        Ok(p) => p,
        Err(e) => {
            return Err(e);
        },
    };
    if q2 - i != o3 as usize {
        return Err(DecodeError::BadOffset);
    }
    let (ts, q3) = match read_u64_le(b, q2) {
        Ok(p) => p,
        Err(e) => {
            return Err(e);
        },
    };
    if q3 - i != o4 as usize {
        return Err(DecodeError::BadOffset);
    }
    let (num, q4) = match read_u64_le(b, q3) {
        Ok(p) => p,
        Err(e) => {
            return Err(e);
        },
    };
    if q4 - i != o5 as usize {
        return Err(DecodeError::BadOffset);
    }
    let (tc, q5) = match read_exact(b, q4, 32) {
        Ok(p) => p,
        Err(e) => {
            return Err(e);
        },
    };
    if q5 - i != o6 as usize {
        return Err(DecodeError::BadOffset);
    }
    let (tp, q6) = match read_exact(b, q5, 32) {
        Ok(p) => p,
        Err(e) => {
            return Err(e);
        },
    };
    if q6 - i != o7 as usize {
        return Err(DecodeError::BadOffset);
    }
    let (d, q7) = match read_u256_be(b, q6) {
        Ok(p) => p,
        Err(e) => {
            return Err(e);
        },
    };
    if q7 - i != o8 as usize {
        return Err(DecodeError::BadOffset);
    }
    let (nonce, q8) = match read_u64_le(b, q7) {
        Ok(p) => p,
        Err(e) => {
            return Err(e);
        },
    };
    if q8 - i != o9 as usize {
        return Err(DecodeError::BadOffset);
    }
    let (pf, q9) = match read_bytes(b, q8) {
        Ok(p) => p,
        Err(e) => {
            return Err(e);
        },
    };
    if q9 - i != o10 as usize {
        return Err(DecodeError::BadOffset);
    }
    let (ci, q10) = match read_exact(b, q9, 32) {
        Ok(p) => p,
        Err(e) => {
            return Err(e);
        },
    };
    if q10 - i != o11 as usize {
        return Err(DecodeError::BadOffset);
    }
    let (uh, q11) = match read_exact(b, q10, 32) {
        Ok(p) => p,
        Err(e) => {
            return Err(e);
        },
    };
    if q11 - i != s_ as usize {
        return Err(DecodeError::BadLength);
    }
    let h = Header {
        version: v,
        parent_hash: ph,
        timestamp: ts,
        number: num,
        txs_commit: tc,
        txs_proposal: tp,
        difficulty: d,
        cellbase_id: ci,
        uncles_hash: uh,
        seal: Seal { nonce, proof: pf },
    };
    proof {
        assert(spec_read_header(b@, i as int)->Ok_0.0 =~= h@);
    }
    Ok((h, q11))
}

pub(crate) fn read_block(b: &[u8], i: usize) -> (r: Result<(Block, usize), DecodeError>)
    ensures
        match r {
            Ok((bl, j)) => spec_read_block(b@, i as int) == Ok::<(BlockV, int), DecodeError>(
                (bl@, j as int),
            ) && i <= j <= b@.len() && bl@.wf(),
            Err(e) => spec_read_block(b@, i as int) == Err::<(BlockV, int), DecodeError>(e),
        },
{
    proof {
        reveal(spec_read_block);
    }
    let (s_, p0) = match read_u32_le(b, i) {
        Ok(p) => p,
        Err(e) => {
            return Err(e);
        },
    };
    let (o1, p1) = match read_u32_le(b, p0) {
        Ok(p) => p,
        Err(e) => {
            return Err(e);
        },
    };
    let (o2, p2) = match read_u32_le(b, p1) {
        Ok(p) => p,
        Err(e) => {
            return Err(e);
        },
    };
    if o1 != 12 {
        return Err(DecodeError::BadOffset);
    }
    let (h, q1) = match read_header(b, p2) {
        Ok(p) => p,
        Err(e) => {
            return Err(e);
        },
    };
    if q1 - i != o2 as usize {
        return Err(DecodeError::BadOffset);
    }
    let (n, qt) = match read_u32_le(b, q1) {
        Ok(p) => p,
        Err(e) => {
            return Err(e);
        },
    };
    let (ts, q2) = match read_txs(b, qt, n) {
        Ok(p) => p,
        Err(e) => {
            return Err(e);
        },
    };
    if q2 - i != s_ as usize {
        return Err(DecodeError::BadLength);
    }
    let bl = Block { header: h, transactions: ts };
    proof {
        assert(spec_read_block(b@, i as int)->Ok_0.0 =~= bl@);
    }
    Ok((bl, q2))
}

// ---------------------------------------------------------------------------
// The adapter surface.
// ---------------------------------------------------------------------------

impl Header {
    /// Encode this header in the table-based layout.
    pub fn to_molecule(&self) -> (r: Vec<u8>)
        requires
            self@.wf(),
            header_size_ok(self@),
        ensures
            r@ == spec_enc_header(self@),
    {
        let mut out: Vec<u8> = Vec::new();
        enc_header(self, &mut out);
        out
    }

    /// Decode a table-based header from the front of `data`; trailing bytes
    /// are ignored.
    pub fn from_molecule(data: &[u8]) -> (r: Result<Header, DecodeError>)
        ensures
            match r {
                Ok(h) => spec_read_header(data@, 0) is Ok && h@ == spec_read_header(
                    data@,
                    0,
                )->Ok_0.0 && h@.wf(),
                Err(e) => spec_read_header(data@, 0) == Err::<(HeaderV, int), DecodeError>(e),
            },
    {
        match read_header(data, 0) {
            Ok((h, _)) => Ok(h),
            Err(e) => Err(e),
        }
    }
}

impl Block {
    /// Encode this block in the table-based layout.
    pub fn to_molecule(&self) -> (r: Vec<u8>)
        requires
            self@.wf(),
            block_sizes_ok(self@),
        ensures
            r@ == spec_enc_block(self@),
    {
        let mut out: Vec<u8> = Vec::new();
        enc_block(self, &mut out);
        out
    }

    /// Decode a table-based block from the front of `data`; trailing bytes
    /// are ignored.
    pub fn from_molecule(data: &[u8]) -> (r: Result<Block, DecodeError>)
        ensures
            match r {
                Ok(bl) => spec_read_block(data@, 0) is Ok && bl@ == spec_read_block(
                    data@,
                    0,
                )->Ok_0.0 && bl@.wf(),
                Err(e) => spec_read_block(data@, 0) == Err::<(BlockV, int), DecodeError>(e),
            },
    {
        match read_block(data, 0) {
            Ok((bl, _)) => Ok(bl),
            Err(e) => Err(e),
        }
    }
}

} // verus!
