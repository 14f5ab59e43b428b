//! The offset-based wire format.  Each record is a fixed-size table whose
//! reference slots hold forward distances to the objects they own: a slot's
//! value is added to the slot's own position, zero marks an absent field, and
//! decoding follows the references instead of walking the buffer linearly.
//! Byte objects carry a 32-bit length; vectors carry a count and one slot per
//! element.  Encoding therefore serializes every child before the table that
//! references it.  Decoding validates eagerly: an absent required field is
//! `MissingField`, a digest object of the wrong length is `BadLength`, and a
//! reference leading past the buffer is `TooShort`.
//!
//! The whole buffer begins with one slot giving the distance to the root
//! table.

use vstd::prelude::*;

use crate::bytes::{
    lemma_read_bytes_of_enc, lemma_read_exact_of_enc, lemma_read_u32_of_enc, lemma_read_u64_of_enc,
    lemma_subrange_of_subrange, lemma_subrange_split, push_bytes, push_slice, push_u32_le, push_u64_le, read_bytes, read_exact,
    read_u32_le, read_u64_le, spec_enc_bytes, spec_read_bytes, spec_read_exact, spec_read_u32,
    spec_read_u64, spec_u32_le, spec_u64_le,
};
use crate::errors::DecodeError;
use crate::model::{
    deps_view, inputs_view, lemma_read_u256_of_enc, outputs_view, push_u256_be, read_u256_be,
    spec_u256_be, spec_u256_be_at, txs_view, Block, BlockV, CellInput, CellInputV, CellOutput,
    CellOutputV, Header, HeaderV, OutPoint, OutPointV, Seal, SealV, Transaction, TransactionV,
    U256,
};

verus! {

// ---------------------------------------------------------------------------
// Objects behind a reference slot.
// ---------------------------------------------------------------------------

/// A digest object: a 32-bit length that must be 32, then the bytes.
pub open spec fn spec_enc_dobj(h: Seq<u8>) -> Seq<u8>
    recommends
        h.len() == 32,
{
    spec_u32_le(32) + h
}

/// A 256-bit integer object: a 32-bit length that must be 32, then the
/// big-endian bytes.
pub open spec fn spec_enc_uobj(d: U256) -> Seq<u8> {
    spec_u32_le(32) + spec_u256_be(d)
}

/// Follow a digest reference: `d` is the distance forward from the slot.
pub open spec fn spec_dref(b: Seq<u8>, slot: int, d: u32) -> Result<Seq<u8>, DecodeError> {
    if d == 0 {
        Err(DecodeError::MissingField)
    } else {
        match spec_read_u32(b, slot + d) {
            Ok((n, q)) => if n == 32 {
                match spec_read_exact(b, q, 32) {
                    Ok((h, _)) => Ok(h),
                    Err(e) => Err(e),
                }
            } else {
                Err(DecodeError::BadLength)
            },
            Err(e) => Err(e),
        }
    }
}

/// Follow a variable-length byte reference.
pub open spec fn spec_bref(b: Seq<u8>, slot: int, d: u32) -> Result<Seq<u8>, DecodeError> {
    if d == 0 {
        Err(DecodeError::MissingField)
    } else {
        match spec_read_bytes(b, slot + d) {
            Ok((s, _)) => Ok(s),
            Err(e) => Err(e),
        }
    }
}

/// Follow a 256-bit integer reference.
pub open spec fn spec_uref(b: Seq<u8>, slot: int, d: u32) -> Result<U256, DecodeError> {
    if d == 0 {
        Err(DecodeError::MissingField)
    } else {
        match spec_read_u32(b, slot + d) {
            Ok((n, q)) => if n == 32 {
                if q + 32 <= b.len() {
                    Ok(spec_u256_be_at(b, q))
                } else {
                    Err(DecodeError::TooShort)
                }
            } else {
                Err(DecodeError::BadLength)
            },
            Err(e) => Err(e),
        }
    }
}

// ---------------------------------------------------------------------------
// Encoded record chunks.  A chunk is the table followed by the objects it
// references; the chunk is position-independent because every reference is a
// distance.
// ---------------------------------------------------------------------------

/// An out-point chunk: table `[hash_ref, index]`, then the hash object.
pub open spec fn spec_enc_outpoint(o: OutPointV) -> Seq<u8>
    recommends
        o.wf(),
{
    spec_u32_le(8) + spec_u32_le(o.index) + spec_enc_dobj(o.hash)
}

/// An input chunk: table `[hash_ref, index, unlock_ref]`, then the objects.
pub open spec fn spec_enc_input(c: CellInputV) -> Seq<u8>
    recommends
        c.wf(),
{
    spec_u32_le(12) + spec_u32_le(c.previous_output.index) + spec_u32_le(40) + spec_enc_dobj(
        c.previous_output.hash,
    ) + spec_enc_bytes(c.unlock)
}

/// An output chunk: table `[capacity, data_ref, lock_ref]`, then the objects.
pub open spec fn spec_enc_output(c: CellOutputV) -> Seq<u8>
    recommends
        c.wf(),
        8 + c.data.len() <= u32::MAX,
{
    spec_u64_le(c.capacity) + spec_u32_le(8) + spec_u32_le((8 + c.data.len()) as u32)
        + spec_enc_bytes(c.data) + spec_enc_dobj(c.lock)
}

// ---------------------------------------------------------------------------
// Vectors: a count, one slot per element, then the element chunks.
// ---------------------------------------------------------------------------

pub open spec fn deps_chunks(s: Seq<OutPointV>) -> Seq<u8>
    decreases s.len(),
{
    if s.len() == 0 {
        Seq::empty()
    } else {
        spec_enc_outpoint(s.first()) + deps_chunks(s.drop_first())
    }
}

/// The slot for element `k`: the distance from the slot to the element chunk.
pub open spec fn deps_slot_val(s: Seq<OutPointV>, k: int) -> int {
    4 * (s.len() - k) + deps_chunks(s.take(k)).len()
}

/// The slots for elements `k ..`.
pub open spec fn deps_slots(s: Seq<OutPointV>, k: int) -> Seq<u8>
    decreases s.len() - k,
{
    if k < 0 || k >= s.len() {
        Seq::empty()
    } else {
        spec_u32_le(deps_slot_val(s, k) as u32) + deps_slots(s, k + 1)
    }
}

pub open spec fn spec_enc_depvec(s: Seq<OutPointV>) -> Seq<u8> {
    spec_u32_le(s.len() as u32) + deps_slots(s, 0) + deps_chunks(s)
}

pub open spec fn inputs_chunks(s: Seq<CellInputV>) -> Seq<u8>
    decreases s.len(),
{
    if s.len() == 0 {
        Seq::empty()
    } else {
        spec_enc_input(s.first()) + inputs_chunks(s.drop_first())
    }
}

pub open spec fn inputs_slot_val(s: Seq<CellInputV>, k: int) -> int {
    4 * (s.len() - k) + inputs_chunks(s.take(k)).len()
}

pub open spec fn inputs_slots(s: Seq<CellInputV>, k: int) -> Seq<u8>
    decreases s.len() - k,
{
    if k < 0 || k >= s.len() {
        Seq::empty()
    } else {
        spec_u32_le(inputs_slot_val(s, k) as u32) + inputs_slots(s, k + 1)
    }
}

pub open spec fn spec_enc_inpvec(s: Seq<CellInputV>) -> Seq<u8> {
    spec_u32_le(s.len() as u32) + inputs_slots(s, 0) + inputs_chunks(s)
}

pub open spec fn outputs_chunks(s: Seq<CellOutputV>) -> Seq<u8>
    decreases s.len(),
{
    if s.len() == 0 {
        Seq::empty()
    } else {
        spec_enc_output(s.first()) + outputs_chunks(s.drop_first())
    }
}

pub open spec fn outputs_slot_val(s: Seq<CellOutputV>, k: int) -> int {
    4 * (s.len() - k) + outputs_chunks(s.take(k)).len()
}

pub open spec fn outputs_slots(s: Seq<CellOutputV>, k: int) -> Seq<u8>
    decreases s.len() - k,
{
    if k < 0 || k >= s.len() {
        Seq::empty()
    } else {
        spec_u32_le(outputs_slot_val(s, k) as u32) + outputs_slots(s, k + 1)
    }
}

pub open spec fn spec_enc_outvec(s: Seq<CellOutputV>) -> Seq<u8> {
    spec_u32_le(s.len() as u32) + outputs_slots(s, 0) + outputs_chunks(s)
}

/// A transaction chunk: table `[version, deps_ref, inputs_ref, outputs_ref]`,
/// then the three vectors.
pub open spec fn spec_enc_tx(t: TransactionV) -> Seq<u8>
    recommends
        t.wf(),
{
    let dv = spec_enc_depvec(t.deps);
    let iv = spec_enc_inpvec(t.inputs);
    spec_u32_le(t.version) + spec_u32_le(12) + spec_u32_le((8 + dv.len()) as u32) + spec_u32_le(
        (4 + dv.len() + iv.len()) as u32,
    ) + dv + iv + spec_enc_outvec(t.outputs)
}

pub open spec fn txs_chunks(s: Seq<TransactionV>) -> Seq<u8>
    decreases s.len(),
{
    if s.len() == 0 {
        Seq::empty()
    } else {
        spec_enc_tx(s.first()) + txs_chunks(s.drop_first())
    }
}

pub open spec fn txs_slot_val(s: Seq<TransactionV>, k: int) -> int {
    4 * (s.len() - k) + txs_chunks(s.take(k)).len()
}

pub open spec fn txs_slots(s: Seq<TransactionV>, k: int) -> Seq<u8>
    decreases s.len() - k,
{
    if k < 0 || k >= s.len() {
        Seq::empty()
    } else {
        spec_u32_le(txs_slot_val(s, k) as u32) + txs_slots(s, k + 1)
    }
}

pub open spec fn spec_enc_txvec(s: Seq<TransactionV>) -> Seq<u8> {
    spec_u32_le(s.len() as u32) + txs_slots(s, 0) + txs_chunks(s)
}

/// The 56-byte table of a header chunk.
pub open spec fn spec_header_table(h: HeaderV) -> Seq<u8>
    recommends
        h.wf(),
{
    let p = h.seal.proof.len();
    spec_u32_le(h.version) + spec_u32_le(52) + spec_u64_le(h.timestamp) + spec_u64_le(h.number)
        + spec_u32_le(68) + spec_u32_le(100) + spec_u32_le(132) + spec_u64_le(h.seal.nonce)
        + spec_u32_le(156) + spec_u32_le((156 + p) as u32) + spec_u32_le((188 + p) as u32)
}

/// The seven objects a header table references.
pub open spec fn spec_header_objects(h: HeaderV) -> Seq<u8>
    recommends
        h.wf(),
{
    spec_enc_dobj(h.parent_hash) + spec_enc_dobj(h.txs_commit) + spec_enc_dobj(h.txs_proposal)
        + spec_enc_uobj(h.difficulty) + spec_enc_bytes(h.seal.proof) + spec_enc_dobj(h.cellbase_id)
        + spec_enc_dobj(h.uncles_hash)
}

/// A header chunk: a 56-byte table, then the seven referenced objects.
pub open spec fn spec_enc_header(h: HeaderV) -> Seq<u8>
    recommends
        h.wf(),
{
    spec_header_table(h) + spec_header_objects(h)
}

/// A block chunk: table `[header_ref, txs_ref]`, then the header chunk and
/// the transaction vector.
pub open spec fn spec_enc_block(b: BlockV) -> Seq<u8>
    recommends
        b.wf(),
{
    let hc = spec_enc_header(b.header);
    spec_u32_le(8) + spec_u32_le((4 + hc.len()) as u32) + hc + spec_enc_txvec(b.transactions)
}

/// A whole buffer: the root slot, then the root chunk.
pub open spec fn spec_enc_root_header(h: HeaderV) -> Seq<u8> {
    spec_u32_le(4) + spec_enc_header(h)
}

pub open spec fn spec_enc_root_block(b: BlockV) -> Seq<u8> {
    spec_u32_le(4) + spec_enc_block(b)
}

/// The reference slots hold 32-bit distances, so every chunk must fit.
pub open spec fn tx_sizes_ok(t: TransactionV) -> bool {
    &&& spec_enc_tx(t).len() <= u32::MAX
    &&& forall|k: int|
        0 <= k < t.inputs.len() ==> spec_enc_input(#[trigger] t.inputs[k]).len() <= u32::MAX
    &&& forall|k: int|
        0 <= k < t.outputs.len() ==> spec_enc_output(#[trigger] t.outputs[k]).len() <= u32::MAX
}

pub open spec fn header_size_ok(h: HeaderV) -> bool {
    spec_enc_header(h).len() <= u32::MAX
}

pub open spec fn block_sizes_ok(b: BlockV) -> bool {
    &&& header_size_ok(b.header)
    &&& 4 + spec_enc_block(b).len() <= u32::MAX
    &&& forall|k: int|
        0 <= k < b.transactions.len() ==> spec_enc_tx(#[trigger] b.transactions[k]).len()
            <= u32::MAX && tx_sizes_ok(b.transactions[k])
}

// ---------------------------------------------------------------------------
// Reading records at a table position.
// ---------------------------------------------------------------------------

pub open spec fn spec_read_outpoint(b: Seq<u8>, t: int) -> Result<OutPointV, DecodeError> {
    match spec_read_u32(b, t) {
        Ok((dh, _)) => match spec_read_u32(b, t + 4) {
            Ok((x, _)) => match spec_dref(b, t, dh) {
                Ok(h) => Ok(OutPointV { hash: h, index: x }),
                Err(e) => Err(e),
            },
            Err(e) => Err(e),
        },
        Err(e) => Err(e),
    }
}

pub open spec fn spec_read_input(b: Seq<u8>, t: int) -> Result<CellInputV, DecodeError> {
    match spec_read_u32(b, t) {
        Ok((dh, _)) => match spec_read_u32(b, t + 4) {
            Ok((x, _)) => match spec_read_u32(b, t + 8) {
                Ok((du, _)) => match spec_dref(b, t, dh) {
                    Ok(h) => match spec_bref(b, t + 8, du) {
                        Ok(u) => Ok(
                            CellInputV {
                                previous_output: OutPointV { hash: h, index: x },
                                unlock: u,
                            },
                        ),
                        Err(e) => Err(e),
                    },
                    Err(e) => Err(e),
                },
                Err(e) => Err(e),
            },
            Err(e) => Err(e),
        },
        Err(e) => Err(e),
    }
}

pub open spec fn spec_read_output(b: Seq<u8>, t: int) -> Result<CellOutputV, DecodeError> {
    match spec_read_u64(b, t) {
        Ok((cap, _)) => match spec_read_u32(b, t + 8) {
            Ok((dd, _)) => match spec_read_u32(b, t + 12) {
                Ok((dl, _)) => match spec_bref(b, t + 8, dd) {
                    Ok(d) => match spec_dref(b, t + 12, dl) {
                        Ok(l) => Ok(CellOutputV { capacity: cap, data: d, lock: l }),
                        Err(e) => Err(e),
                    },
                    Err(e) => Err(e),
                },
                Err(e) => Err(e),
            },
            Err(e) => Err(e),
        },
        Err(e) => Err(e),
    }
}

/// Read the elements of an out-point vector whose slots begin at `p`.
pub open spec fn spec_read_dep_elems(b: Seq<u8>, p: int, n: nat) -> Result<
    Seq<OutPointV>,
    DecodeError,
>
    decreases n,
{
    if n == 0 {
        Ok(Seq::empty())
    } else {
        match spec_read_u32(b, p) {
            Ok((d, _)) => if d == 0 {
                Err(DecodeError::MissingField)
            } else {
                match spec_read_outpoint(b, p + d) {
                    Ok(o) => match spec_read_dep_elems(b, p + 4, (n - 1) as nat) {
                        Ok(s) => Ok(seq![o] + s),
                        Err(e) => Err(e),
                    },
                    Err(e) => Err(e),
                }
            },
            Err(e) => Err(e),
        }
    }
}

pub open spec fn spec_read_depvec(b: Seq<u8>, v: int) -> Result<Seq<OutPointV>, DecodeError> {
    match spec_read_u32(b, v) {
        Ok((n, p)) => spec_read_dep_elems(b, p, n as nat),
        Err(e) => Err(e),
    }
}

pub open spec fn spec_read_input_elems(b: Seq<u8>, p: int, n: nat) -> Result<
    Seq<CellInputV>,
    DecodeError,
>
    decreases n,
{
    if n == 0 {
        Ok(Seq::empty())
    } else {
        match spec_read_u32(b, p) {
            Ok((d, _)) => if d == 0 {
                Err(DecodeError::MissingField)
            } else {
                match spec_read_input(b, p + d) {
                    Ok(c) => match spec_read_input_elems(b, p + 4, (n - 1) as nat) {
                        Ok(s) => Ok(seq![c] + s),
                        Err(e) => Err(e),
                    },
                    Err(e) => Err(e),
                }
            },
            Err(e) => Err(e),
        }
    }
}

pub open spec fn spec_read_inpvec(b: Seq<u8>, v: int) -> Result<Seq<CellInputV>, DecodeError> {
    match spec_read_u32(b, v) {
        Ok((n, p)) => spec_read_input_elems(b, p, n as nat),
        Err(e) => Err(e),
    }
}

pub open spec fn spec_read_output_elems(b: Seq<u8>, p: int, n: nat) -> Result<
    Seq<CellOutputV>,
    DecodeError,
>
    decreases n,
{
    if n == 0 {
        Ok(Seq::empty())
    } else {
        match spec_read_u32(b, p) {
            Ok((d, _)) => if d == 0 {
                Err(DecodeError::MissingField)
            } else {
                match spec_read_output(b, p + d) {
                    Ok(c) => match spec_read_output_elems(b, p + 4, (n - 1) as nat) {
                        Ok(s) => Ok(seq![c] + s),
                        Err(e) => Err(e),
                    },
                    Err(e) => Err(e),
                }
            },
            Err(e) => Err(e),
        }
    }
}

pub open spec fn spec_read_outvec(b: Seq<u8>, v: int) -> Result<Seq<CellOutputV>, DecodeError> {
    match spec_read_u32(b, v) {
        Ok((n, p)) => spec_read_output_elems(b, p, n as nat),
        Err(e) => Err(e),
    }
}

#[verifier::opaque]
pub open spec fn spec_read_tx(b: Seq<u8>, t: int) -> Result<TransactionV, DecodeError> {
    match spec_read_u32(b, t) {
        Ok((v, _)) => match spec_read_u32(b, t + 4) {
            Ok((dd, _)) => match spec_read_u32(b, t + 8) {
                Ok((di, _)) => match spec_read_u32(b, t + 12) {
                    Ok((dout, _)) => if dd == 0 || di == 0 || dout == 0 {
                        Err(DecodeError::MissingField)
                    } else {
                        match spec_read_depvec(b, t + 4 + dd) {
                            Ok(ds) => match spec_read_inpvec(b, t + 8 + di) {
                                Ok(is) => match spec_read_outvec(b, t + 12 + dout) {
                                    Ok(os) => Ok(
                                        TransactionV {
                                            version: v,
                                            deps: ds,
                                            inputs: is,
                                            outputs: os,
                                        },
                                    ),
                                    Err(e) => Err(e),
                                },
                                Err(e) => Err(e),
                            },
                            Err(e) => Err(e),
                        }
                    },
                    Err(e) => Err(e),
                },
                Err(e) => Err(e),
            },
            Err(e) => Err(e),
        },
        Err(e) => Err(e),
    }
}

pub open spec fn spec_read_tx_elems(b: Seq<u8>, p: int, n: nat) -> Result<
    Seq<TransactionV>,
    DecodeError,
>
    decreases n,
{
    if n == 0 {
        Ok(Seq::empty())
    } else {
        match spec_read_u32(b, p) {
            Ok((d, _)) => if d == 0 {
                Err(DecodeError::MissingField)
            } else {
                match spec_read_tx(b, p + d) {
                    Ok(t) => match spec_read_tx_elems(b, p + 4, (n - 1) as nat) {
                        Ok(s) => Ok(seq![t] + s),
                        Err(e) => Err(e),
                    },
                    Err(e) => Err(e),
                }
            },
            Err(e) => Err(e),
        }
    }
}

pub open spec fn spec_read_txvec(b: Seq<u8>, v: int) -> Result<Seq<TransactionV>, DecodeError> {
    match spec_read_u32(b, v) {
        Ok((n, p)) => spec_read_tx_elems(b, p, n as nat),
        Err(e) => Err(e),
    }
}

#[verifier::opaque]
pub open spec fn spec_read_header(b: Seq<u8>, t: int) -> Result<HeaderV, DecodeError> {
    match spec_read_u32(b, t) {
        Ok((v, _)) => match spec_read_u32(b, t + 4) {
            Ok((dp, _)) => match spec_read_u64(b, t + 8) {
                Ok((ts, _)) => match spec_read_u64(b, t + 16) {
                    Ok((num, _)) => match spec_read_u32(b, t + 24) {
                        Ok((dc, _)) => match spec_read_u32(b, t + 28) {
                            Ok((dpr, _)) => match spec_read_u32(b, t + 32) {
                                Ok((dd, _)) => match spec_read_u64(b, t + 36) {
                                    Ok((nonce, _)) => match spec_read_u32(b, t + 44) {
                                        Ok((dpf, _)) => match spec_read_u32(b, t + 48) {
                                            Ok((dcb, _)) => match spec_read_u32(b, t + 52) {
                                                Ok((dun, _)) => match spec_dref(b, t + 4, dp) {
                                                    Ok(ph) => match spec_dref(b, t + 24, dc) {
                                                        Ok(tc) => match spec_dref(b, t + 28, dpr) {
                                                            Ok(tp) => match spec_uref(
                                                                b,
                                                                t + 32,
                                                                dd,
                                                            ) {
                                                                Ok(d) => match spec_bref(
                                                                    b,
                                                                    t + 44,
                                                                    dpf,
                                                                ) {
                                                                    Ok(pf) => match spec_dref(
                                                                        b,
                                                                        t + 48,
                                                                        dcb,
                                                                    ) {
                                                                        Ok(ci) => match spec_dref(
                                                                            b,
                                                                            t + 52,
                                                                            dun,
                                                                        ) {
                                                                            Ok(uh) => Ok(
                                                                                HeaderV {
                                                                                    version: v,
                                                                                    parent_hash: ph,
                                                                                    timestamp: ts,
                                                                                    number: num,
                                                                                    txs_commit: tc,
                                                                                    txs_proposal: tp,
                                                                                    difficulty: d,
                                                                                    cellbase_id: ci,
                                                                                    uncles_hash: uh,
                                                                                    seal: SealV {
                                                                                        nonce: nonce,
                                                                                        proof: pf,
                                                                                    },
                                                                                },
                                                                            ),
                                                                            Err(e) => Err(e),
                                                                        },
                                                                        Err(e) => Err(e),
                                                                    },
                                                                    Err(e) => Err(e),
                                                                },
                                                                Err(e) => Err(e),
                                                            },
                                                            Err(e) => Err(e),
                                                        },
                                                        Err(e) => Err(e),
                                                    },
                                                    Err(e) => Err(e),
                                                },
                                                Err(e) => Err(e),
                                            },
                                            Err(e) => Err(e),
                                        },
                                        Err(e) => Err(e),
                                    },
                                    Err(e) => Err(e),
                                },
                                Err(e) => Err(e),
                            },
                            Err(e) => Err(e),
                        },
                        Err(e) => Err(e),
                    },
                    Err(e) => Err(e),
                },
                Err(e) => Err(e),
            },
            Err(e) => Err(e),
        },
        Err(e) => Err(e),
    }
}

#[verifier::opaque]
pub open spec fn spec_read_block(b: Seq<u8>, t: int) -> Result<BlockV, DecodeError> {
    match spec_read_u32(b, t) {
        Ok((dh, _)) => match spec_read_u32(b, t + 4) {
            Ok((dt, _)) => if dh == 0 || dt == 0 {
                Err(DecodeError::MissingField)
            } else {
                match spec_read_header(b, t + dh) {
                    Ok(h) => match spec_read_txvec(b, t + 4 + dt) {
                        Ok(ts) => Ok(BlockV { header: h, transactions: ts }),
                        Err(e) => Err(e),
                    },
                    Err(e) => Err(e),
                }
            },
            Err(e) => Err(e),
        },
        Err(e) => Err(e),
    }
}

/// Read the root slot, then the root header table.
pub open spec fn spec_read_root_header(b: Seq<u8>) -> Result<HeaderV, DecodeError> {
    match spec_read_u32(b, 0) {
        Ok((d, _)) => if d == 0 {
            Err(DecodeError::MissingField)
        } else {
            spec_read_header(b, d as int)
        },
        Err(e) => Err(e),
    }
}

/// Read the root slot, then the root block table.
pub open spec fn spec_read_root_block(b: Seq<u8>) -> Result<BlockV, DecodeError> {
    match spec_read_u32(b, 0) {
        Ok((d, _)) => if d == 0 {
            Err(DecodeError::MissingField)
        } else {
            spec_read_block(b, d as int)
        },
        Err(e) => Err(e),
    }
}

// ---------------------------------------------------------------------------
// Lemmas.
// ---------------------------------------------------------------------------

pub proof fn lemma_deps_slots_len(s: Seq<OutPointV>, k: int)
    requires
        0 <= k <= s.len(),
    ensures
        deps_slots(s, k).len() == 4 * (s.len() - k),
    decreases s.len() - k,
{
    if k < s.len() {
        lemma_deps_slots_len(s, k + 1);
    }
}

pub proof fn lemma_inputs_slots_len(s: Seq<CellInputV>, k: int)
    requires
        0 <= k <= s.len(),
    ensures
        inputs_slots(s, k).len() == 4 * (s.len() - k),
    decreases s.len() - k,
{
    if k < s.len() {
        lemma_inputs_slots_len(s, k + 1);
    }
}

pub proof fn lemma_outputs_slots_len(s: Seq<CellOutputV>, k: int)
    requires
        0 <= k <= s.len(),
    ensures
        outputs_slots(s, k).len() == 4 * (s.len() - k),
    decreases s.len() - k,
{
    if k < s.len() {
        lemma_outputs_slots_len(s, k + 1);
    }
}

pub proof fn lemma_txs_slots_len(s: Seq<TransactionV>, k: int)
    requires
        0 <= k <= s.len(),
    ensures
        txs_slots(s, k).len() == 4 * (s.len() - k),
    decreases s.len() - k,
{
    if k < s.len() {
        lemma_txs_slots_len(s, k + 1);
    }
}

// ---------------------------------------------------------------------------
// Following a reference recovers the object that was written for it.
// ---------------------------------------------------------------------------

proof fn lemma_dref_of_enc(b: Seq<u8>, slot: int, d: u32, h: Seq<u8>)
    requires
        1 <= d,
        0 <= slot,
        h.len() == 32,
        slot + d + 36 <= b.len(),
        b.subrange(slot + d, slot + d + 36) == spec_enc_dobj(h),
    ensures
        spec_dref(b, slot, d) == Ok::<Seq<u8>, DecodeError>(h),
{
    lemma_subrange_split(b, slot + d, spec_u32_le(32), h);
    lemma_read_u32_of_enc(b, slot + d, 32);
    lemma_read_exact_of_enc(b, slot + d + 4, h);
}

proof fn lemma_bref_of_enc(b: Seq<u8>, slot: int, d: u32, s: Seq<u8>)
    requires
        1 <= d,
        0 <= slot,
        s.len() <= u32::MAX,
        slot + d + spec_enc_bytes(s).len() <= b.len(),
        b.subrange(slot + d, slot + d + spec_enc_bytes(s).len()) == spec_enc_bytes(s),
    ensures
        spec_bref(b, slot, d) == Ok::<Seq<u8>, DecodeError>(s),
{
    lemma_read_bytes_of_enc(b, slot + d, s);
}

proof fn lemma_uref_of_enc(b: Seq<u8>, slot: int, d: u32, x: U256)
    requires
        1 <= d,
        0 <= slot,
        slot + d + 36 <= b.len(),
        b.subrange(slot + d, slot + d + 36) == spec_enc_uobj(x),
    ensures
        spec_uref(b, slot, d) == Ok::<U256, DecodeError>(x),
{
    lemma_subrange_split(b, slot + d, spec_u32_le(32), spec_u256_be(x));
    lemma_read_u32_of_enc(b, slot + d, 32);
    lemma_read_u256_of_enc(b, slot + d + 4, x);
}

// ---------------------------------------------------------------------------
// Reading a record at its table recovers what was encoded.
// ---------------------------------------------------------------------------

pub proof fn lemma_read_outpoint_of_enc(b: Seq<u8>, a: int, o: OutPointV)
    requires
        o.wf(),
        0 <= a,
        a + spec_enc_outpoint(o).len() <= b.len(),
        b.subrange(a, a + spec_enc_outpoint(o).len()) == spec_enc_outpoint(o),
    ensures
        spec_read_outpoint(b, a) == Ok::<OutPointV, DecodeError>(o),
{
    let c1 = spec_u32_le(8);
    let c2 = spec_u32_le(o.index);
    let c3 = spec_enc_dobj(o.hash);
    assert(spec_enc_outpoint(o) =~= c1 + (c2 + c3));
    lemma_subrange_split(b, a, c1, c2 + c3);
    lemma_subrange_split(b, a + 4, c2, c3);
    lemma_read_u32_of_enc(b, a, 8);
    lemma_read_u32_of_enc(b, a + 4, o.index);
    lemma_dref_of_enc(b, a, 8, o.hash);
    assert(spec_read_outpoint(b, a)->Ok_0 =~= o);
}

pub proof fn lemma_read_input_of_enc(b: Seq<u8>, a: int, c: CellInputV)
    requires
        c.wf(),
        0 <= a,
        a + spec_enc_input(c).len() <= b.len(),
        b.subrange(a, a + spec_enc_input(c).len()) == spec_enc_input(c),
    ensures
        spec_read_input(b, a) == Ok::<CellInputV, DecodeError>(c),
{
    let c1 = spec_u32_le(12);
    let c2 = spec_u32_le(c.previous_output.index);
    let c3 = spec_u32_le(40);
    let c4 = spec_enc_dobj(c.previous_output.hash);
    let c5 = spec_enc_bytes(c.unlock);
    assert(spec_enc_input(c) =~= c1 + (c2 + (c3 + (c4 + c5))));
    lemma_subrange_split(b, a, c1, c2 + (c3 + (c4 + c5)));
    lemma_subrange_split(b, a + 4, c2, c3 + (c4 + c5));
    lemma_subrange_split(b, a + 8, c3, c4 + c5);
    lemma_subrange_split(b, a + 12, c4, c5);
    lemma_read_u32_of_enc(b, a, 12);
    lemma_read_u32_of_enc(b, a + 4, c.previous_output.index);
    lemma_read_u32_of_enc(b, a + 8, 40);
    lemma_dref_of_enc(b, a, 12, c.previous_output.hash);
    lemma_bref_of_enc(b, a + 8, 40, c.unlock);
    assert(spec_read_input(b, a)->Ok_0 =~= c);
}

pub proof fn lemma_read_output_of_enc(b: Seq<u8>, a: int, c: CellOutputV)
    requires
        c.wf(),
        spec_enc_output(c).len() <= u32::MAX,
        0 <= a,
        a + spec_enc_output(c).len() <= b.len(),
        b.subrange(a, a + spec_enc_output(c).len()) == spec_enc_output(c),
    ensures
        spec_read_output(b, a) == Ok::<CellOutputV, DecodeError>(c),
{
    let c1 = spec_u64_le(c.capacity);
    let c2 = spec_u32_le(8);
    let c3 = spec_u32_le((8 + c.data.len()) as u32);
    let c4 = spec_enc_bytes(c.data);
    let c5 = spec_enc_dobj(c.lock);
    assert(spec_enc_output(c) =~= c1 + (c2 + (c3 + (c4 + c5))));
    lemma_subrange_split(b, a, c1, c2 + (c3 + (c4 + c5)));
    lemma_subrange_split(b, a + 8, c2, c3 + (c4 + c5));
    lemma_subrange_split(b, a + 12, c3, c4 + c5);
    lemma_subrange_split(b, a + 16, c4, c5);
    lemma_read_u64_of_enc(b, a, c.capacity);
    lemma_read_u32_of_enc(b, a + 8, 8);
    lemma_read_u32_of_enc(b, a + 12, (8 + c.data.len()) as u32);
    lemma_bref_of_enc(b, a + 8, 8, c.data);
    lemma_dref_of_enc(b, a + 12, (8 + c.data.len()) as u32, c.lock);
    assert(spec_read_output(b, a)->Ok_0 =~= c);
}

proof fn lemma_deps_chunk_at(s: Seq<OutPointV>, k: int)
    requires
        0 <= k < s.len(),
    ensures
        deps_chunks(s.take(k)).len() + spec_enc_outpoint(s[k]).len() <= deps_chunks(s).len(),
        deps_chunks(s).subrange(
            deps_chunks(s.take(k)).len() as int,
            (deps_chunks(s.take(k)).len() + spec_enc_outpoint(s[k]).len()) as int,
        ) == spec_enc_outpoint(s[k]),
    decreases k,
{
    if k == 0 {
        assert(s.take(0).len() == 0);
        assert(deps_chunks(s).subrange(0, spec_enc_outpoint(s[0]).len() as int) =~= spec_enc_outpoint(s[0]));
    } else {
        let t = s.drop_first();
        lemma_deps_chunk_at(t, k - 1);
        assert(s.take(k).first() == s[0]);
        assert(s.take(k).drop_first() =~= t.take(k - 1));
        assert(t[k - 1] == s[k]);
        let l0 = spec_enc_outpoint(s[0]).len() as int;
        let pfx = deps_chunks(t.take(k - 1)).len() as int;
        let lk = spec_enc_outpoint(s[k]).len() as int;
        assert(deps_chunks(s.take(k)).len() == l0 + pfx);
        assert forall|m: int| 0 <= m < lk implies deps_chunks(s)[l0 + pfx + m] == spec_enc_outpoint(
            s[k],
        )[m] by {
            assert(deps_chunks(s)[l0 + (pfx + m)] == deps_chunks(t)[pfx + m]);
            assert(deps_chunks(t).subrange(pfx, pfx + lk)[m] == deps_chunks(t)[pfx + m]);
        }
        assert(deps_chunks(s).subrange(l0 + pfx, l0 + pfx + lk) =~= spec_enc_outpoint(s[k]));
    }
}

proof fn lemma_deps_chunks_snoc(s: Seq<OutPointV>, i: int)
    requires
        0 <= i < s.len(),
    ensures
        deps_chunks(s.take(i + 1)) == deps_chunks(s.take(i)) + spec_enc_outpoint(s[i]),
    decreases i,
{
    if i == 0 {
        assert(s.take(1).first() == s[0]);
        assert(s.take(1).drop_first() =~= s.take(0));
        assert(deps_chunks(s.take(0)) + spec_enc_outpoint(s[0]) =~= spec_enc_outpoint(s[0]) + deps_chunks(s.take(0)));
    } else {
        let t = s.drop_first();
        assert(s.take(i + 1).first() == s[0]);
        assert(s.take(i + 1).drop_first() =~= t.take(i));
        assert(s.take(i).first() == s[0]);
        assert(s.take(i).drop_first() =~= t.take(i - 1));
        lemma_deps_chunks_snoc(t, i - 1);
        assert(t[i - 1] == s[i]);
        assert(spec_enc_outpoint(s[0]) + (deps_chunks(t.take(i - 1)) + spec_enc_outpoint(s[i])) =~= (spec_enc_outpoint(
            s[0],
        ) + deps_chunks(t.take(i - 1))) + spec_enc_outpoint(s[i]));
    }
}

#[verifier::rlimit(100)]
proof fn lemma_read_deps_elems_of_enc(b: Seq<u8>, p: int, s: Seq<OutPointV>, k: int)
    requires
        0 <= k <= s.len(),
        forall|m: int| 0 <= m < s.len() ==> (#[trigger] s[m]).wf(),
        4 * s.len() + deps_chunks(s).len() <= u32::MAX,
        0 <= p,
        p + 4 * (s.len() - k) + deps_chunks(s).len() <= b.len(),
        b.subrange(p, p + 4 * (s.len() - k) + deps_chunks(s).len()) == deps_slots(s, k) + deps_chunks(s),
    ensures
        spec_read_dep_elems(b, p, (s.len() - k) as nat) == Ok::<Seq<OutPointV>, DecodeError>(
            s.skip(k),
        ),
    decreases s.len() - k,
{
    let n = s.len() as int;
    if k == n {
        assert(s.skip(k) =~= Seq::<OutPointV>::empty());
    } else {
        lemma_deps_chunk_at(s, k);
        let sv = deps_slot_val(s, k);
        let e1 = spec_u32_le(sv as u32);
        let rest = deps_slots(s, k + 1) + deps_chunks(s);
        assert(deps_slots(s, k) + deps_chunks(s) =~= e1 + rest);
        lemma_subrange_split(b, p, e1, rest);
        lemma_read_u32_of_enc(b, p, sv as u32);
        let cb = p + 4 * (n - k);
        let pfx = deps_chunks(s.take(k)).len() as int;
        let lk = spec_enc_outpoint(s[k]).len() as int;
        assert(b.subrange(p + 4, p + 4 + (4 * (n - k - 1) + deps_chunks(s).len())) =~= deps_slots(
            s,
            k + 1,
        ) + deps_chunks(s));
        lemma_subrange_split(b, p + 4, deps_slots(s, k + 1), deps_chunks(s));
        assert(b.subrange(cb, cb + deps_chunks(s).len() as int) == deps_chunks(s));
        lemma_subrange_of_subrange(b, cb, deps_chunks(s), pfx, pfx + lk);
        assert(b.subrange(cb + pfx, cb + pfx + lk) == spec_enc_outpoint(s[k]));
        lemma_read_outpoint_of_enc(b, cb + pfx, s[k]);
        lemma_read_deps_elems_of_enc(b, p + 4, s, k + 1);
        assert(seq![s[k]] + s.skip(k + 1) =~= s.skip(k));
    }
}

pub proof fn lemma_read_deps_vec_of_enc(b: Seq<u8>, v: int, s: Seq<OutPointV>)
    requires
        forall|m: int| 0 <= m < s.len() ==> (#[trigger] s[m]).wf(),
        4 * s.len() + deps_chunks(s).len() <= u32::MAX,
        0 <= v,
        v + spec_enc_depvec(s).len() <= b.len(),
        b.subrange(v, v + spec_enc_depvec(s).len()) == spec_enc_depvec(s),
    ensures
        spec_read_depvec(b, v) == Ok::<Seq<OutPointV>, DecodeError>(s),
{
    assert(spec_enc_depvec(s) =~= spec_u32_le(s.len() as u32) + (deps_slots(s, 0) + deps_chunks(s)));
    lemma_subrange_split(b, v, spec_u32_le(s.len() as u32), deps_slots(s, 0) + deps_chunks(s));
    lemma_read_u32_of_enc(b, v, s.len() as u32);
    assert((s.len() as u32) as nat == s.len());
    lemma_deps_slots_len(s, 0);
    lemma_read_deps_elems_of_enc(b, v + 4, s, 0);
    assert(s.skip(0) =~= s);
}

pub proof fn lemma_read_deps_elems_concat(b: Seq<u8>, p: int, s1: Seq<OutPointV>, m: nat)
    requires
        spec_read_dep_elems(b, p, s1.len() as nat) == Ok::<Seq<OutPointV>, DecodeError>(s1),
    ensures
        spec_read_dep_elems(b, p, (s1.len() + m) as nat) == (match spec_read_dep_elems(
            b,
            p + 4 * s1.len(),
            m,
        ) {
            Ok(s2) => Ok::<Seq<OutPointV>, DecodeError>(s1 + s2),
            Err(e) => Err::<Seq<OutPointV>, DecodeError>(e),
        }),
    decreases s1.len(),
{
    if s1.len() == 0 {
        match spec_read_dep_elems(b, p, m) {
            Ok(s2) => {
                assert(s1 + s2 =~= s2);
            },
            Err(e) => {},
        }
    } else {
        let q0 = spec_read_u32(b, p);
        assert(q0 is Ok);
        let pr = q0->Ok_0;
        let r0 = spec_read_outpoint(b, p + pr.0);
        assert(r0 is Ok);
        let o0 = r0->Ok_0;
        let r1 = spec_read_dep_elems(b, p + 4, (s1.len() - 1) as nat);
        assert(r1 is Ok);
        let t1 = r1->Ok_0;
        assert(s1 == seq![o0] + t1);
        assert(t1 =~= s1.drop_first());
        assert(t1.len() == s1.len() - 1);
        lemma_read_deps_elems_concat(b, p + 4, t1, m);
        assert(p + 4 + 4 * t1.len() == p + 4 * s1.len());
        match spec_read_dep_elems(b, p + 4 * s1.len(), m) {
            Ok(s2) => {
                assert(seq![o0] + (t1 + s2) =~= s1 + s2);
            },
            Err(e) => {},
        }
    }
}


proof fn lemma_inputs_chunk_at(s: Seq<CellInputV>, k: int)
    requires
        0 <= k < s.len(),
    ensures
        inputs_chunks(s.take(k)).len() + spec_enc_input(s[k]).len() <= inputs_chunks(s).len(),
        inputs_chunks(s).subrange(
            inputs_chunks(s.take(k)).len() as int,
            (inputs_chunks(s.take(k)).len() + spec_enc_input(s[k]).len()) as int,
        ) == spec_enc_input(s[k]),
    decreases k,
{
    if k == 0 {
        assert(s.take(0).len() == 0);
        assert(inputs_chunks(s).subrange(0, spec_enc_input(s[0]).len() as int) =~= spec_enc_input(s[0]));
    } else {
        let t = s.drop_first();
        lemma_inputs_chunk_at(t, k - 1);
        assert(s.take(k).first() == s[0]);
        assert(s.take(k).drop_first() =~= t.take(k - 1));
        assert(t[k - 1] == s[k]);
        let l0 = spec_enc_input(s[0]).len() as int;
        let pfx = inputs_chunks(t.take(k - 1)).len() as int;
        let lk = spec_enc_input(s[k]).len() as int;
        assert(inputs_chunks(s.take(k)).len() == l0 + pfx);
        assert forall|m: int| 0 <= m < lk implies inputs_chunks(s)[l0 + pfx + m] == spec_enc_input(
            s[k],
        )[m] by {
            assert(inputs_chunks(s)[l0 + (pfx + m)] == inputs_chunks(t)[pfx + m]);
            assert(inputs_chunks(t).subrange(pfx, pfx + lk)[m] == inputs_chunks(t)[pfx + m]);
        }
        assert(inputs_chunks(s).subrange(l0 + pfx, l0 + pfx + lk) =~= spec_enc_input(s[k]));
    }
}

proof fn lemma_inputs_chunks_snoc(s: Seq<CellInputV>, i: int)
    requires
        0 <= i < s.len(),
    ensures
        inputs_chunks(s.take(i + 1)) == inputs_chunks(s.take(i)) + spec_enc_input(s[i]),
    decreases i,
{
    if i == 0 {
        assert(s.take(1).first() == s[0]);
        assert(s.take(1).drop_first() =~= s.take(0));
        assert(inputs_chunks(s.take(0)) + spec_enc_input(s[0]) =~= spec_enc_input(s[0]) + inputs_chunks(s.take(0)));
    } else {
        let t = s.drop_first();
        assert(s.take(i + 1).first() == s[0]);
        assert(s.take(i + 1).drop_first() =~= t.take(i));
        assert(s.take(i).first() == s[0]);
        assert(s.take(i).drop_first() =~= t.take(i - 1));
        lemma_inputs_chunks_snoc(t, i - 1);
        assert(t[i - 1] == s[i]);
        assert(spec_enc_input(s[0]) + (inputs_chunks(t.take(i - 1)) + spec_enc_input(s[i])) =~= (spec_enc_input(
            s[0],
        ) + inputs_chunks(t.take(i - 1))) + spec_enc_input(s[i]));
    }
}

#[verifier::rlimit(100)]
proof fn lemma_read_inputs_elems_of_enc(b: Seq<u8>, p: int, s: Seq<CellInputV>, k: int)
    requires
        0 <= k <= s.len(),
        forall|m: int| 0 <= m < s.len() ==> (#[trigger] s[m]).wf(),
        4 * s.len() + inputs_chunks(s).len() <= u32::MAX,
        0 <= p,
        p + 4 * (s.len() - k) + inputs_chunks(s).len() <= b.len(),
        b.subrange(p, p + 4 * (s.len() - k) + inputs_chunks(s).len()) == inputs_slots(s, k) + inputs_chunks(s),
    ensures
        spec_read_input_elems(b, p, (s.len() - k) as nat) == Ok::<Seq<CellInputV>, DecodeError>(
            s.skip(k),
        ),
    decreases s.len() - k,
{
    let n = s.len() as int;
    if k == n {
        assert(s.skip(k) =~= Seq::<CellInputV>::empty());
    } else {
        lemma_inputs_chunk_at(s, k);
        let sv = inputs_slot_val(s, k);
        let e1 = spec_u32_le(sv as u32);
        let rest = inputs_slots(s, k + 1) + inputs_chunks(s);
        assert(inputs_slots(s, k) + inputs_chunks(s) =~= e1 + rest);
        lemma_subrange_split(b, p, e1, rest);
        lemma_read_u32_of_enc(b, p, sv as u32);
        let cb = p + 4 * (n - k);
        let pfx = inputs_chunks(s.take(k)).len() as int;
        let lk = spec_enc_input(s[k]).len() as int;
        assert(b.subrange(p + 4, p + 4 + (4 * (n - k - 1) + inputs_chunks(s).len())) =~= inputs_slots(
            s,
            k + 1,
        ) + inputs_chunks(s));
        lemma_subrange_split(b, p + 4, inputs_slots(s, k + 1), inputs_chunks(s));
        assert(b.subrange(cb, cb + inputs_chunks(s).len() as int) == inputs_chunks(s));
        lemma_subrange_of_subrange(b, cb, inputs_chunks(s), pfx, pfx + lk);
        assert(b.subrange(cb + pfx, cb + pfx + lk) == spec_enc_input(s[k]));
        lemma_read_input_of_enc(b, cb + pfx, s[k]);
        lemma_read_inputs_elems_of_enc(b, p + 4, s, k + 1);
        assert(seq![s[k]] + s.skip(k + 1) =~= s.skip(k));
    }
}

pub proof fn lemma_read_inputs_vec_of_enc(b: Seq<u8>, v: int, s: Seq<CellInputV>)
    requires
        forall|m: int| 0 <= m < s.len() ==> (#[trigger] s[m]).wf(),
        4 * s.len() + inputs_chunks(s).len() <= u32::MAX,
        0 <= v,
        v + spec_enc_inpvec(s).len() <= b.len(),
        b.subrange(v, v + spec_enc_inpvec(s).len()) == spec_enc_inpvec(s),
    ensures
        spec_read_inpvec(b, v) == Ok::<Seq<CellInputV>, DecodeError>(s),
{
    assert(spec_enc_inpvec(s) =~= spec_u32_le(s.len() as u32) + (inputs_slots(s, 0) + inputs_chunks(s)));
    lemma_subrange_split(b, v, spec_u32_le(s.len() as u32), inputs_slots(s, 0) + inputs_chunks(s));
    lemma_read_u32_of_enc(b, v, s.len() as u32);
    assert((s.len() as u32) as nat == s.len());
    lemma_inputs_slots_len(s, 0);
    lemma_read_inputs_elems_of_enc(b, v + 4, s, 0);
    assert(s.skip(0) =~= s);
}

pub proof fn lemma_read_inputs_elems_concat(b: Seq<u8>, p: int, s1: Seq<CellInputV>, m: nat)
    requires
        spec_read_input_elems(b, p, s1.len() as nat) == Ok::<Seq<CellInputV>, DecodeError>(s1),
    ensures
        spec_read_input_elems(b, p, (s1.len() + m) as nat) == (match spec_read_input_elems(
            b,
            p + 4 * s1.len(),
            m,
        ) {
            Ok(s2) => Ok::<Seq<CellInputV>, DecodeError>(s1 + s2),
            Err(e) => Err::<Seq<CellInputV>, DecodeError>(e),
        }),
    decreases s1.len(),
{
    if s1.len() == 0 {
        match spec_read_input_elems(b, p, m) {
            Ok(s2) => {
                assert(s1 + s2 =~= s2);
            },
            Err(e) => {},
        }
    } else {
        let q0 = spec_read_u32(b, p);
        assert(q0 is Ok);
        let pr = q0->Ok_0;
        let r0 = spec_read_input(b, p + pr.0);
        assert(r0 is Ok);
        let o0 = r0->Ok_0;
        let r1 = spec_read_input_elems(b, p + 4, (s1.len() - 1) as nat);
        assert(r1 is Ok);
        let t1 = r1->Ok_0;
        assert(s1 == seq![o0] + t1);
        assert(t1 =~= s1.drop_first());
        assert(t1.len() == s1.len() - 1);
        lemma_read_inputs_elems_concat(b, p + 4, t1, m);
        assert(p + 4 + 4 * t1.len() == p + 4 * s1.len());
        match spec_read_input_elems(b, p + 4 * s1.len(), m) {
            Ok(s2) => {
                assert(seq![o0] + (t1 + s2) =~= s1 + s2);
            },
            Err(e) => {},
        }
    }
}


proof fn lemma_outputs_chunk_at(s: Seq<CellOutputV>, k: int)
    requires
        0 <= k < s.len(),
    ensures
        outputs_chunks(s.take(k)).len() + spec_enc_output(s[k]).len() <= outputs_chunks(s).len(),
        outputs_chunks(s).subrange(
            outputs_chunks(s.take(k)).len() as int,
            (outputs_chunks(s.take(k)).len() + spec_enc_output(s[k]).len()) as int,
        ) == spec_enc_output(s[k]),
    decreases k,
{
    if k == 0 {
        assert(s.take(0).len() == 0);
        assert(outputs_chunks(s).subrange(0, spec_enc_output(s[0]).len() as int) =~= spec_enc_output(s[0]));
    } else {
        let t = s.drop_first();
        lemma_outputs_chunk_at(t, k - 1);
        assert(s.take(k).first() == s[0]);
        assert(s.take(k).drop_first() =~= t.take(k - 1));
        assert(t[k - 1] == s[k]);
        let l0 = spec_enc_output(s[0]).len() as int;
        let pfx = outputs_chunks(t.take(k - 1)).len() as int;
        let lk = spec_enc_output(s[k]).len() as int;
        assert(outputs_chunks(s.take(k)).len() == l0 + pfx);
        assert forall|m: int| 0 <= m < lk implies outputs_chunks(s)[l0 + pfx + m] == spec_enc_output(
            s[k],
        )[m] by {
            assert(outputs_chunks(s)[l0 + (pfx + m)] == outputs_chunks(t)[pfx + m]);
            assert(outputs_chunks(t).subrange(pfx, pfx + lk)[m] == outputs_chunks(t)[pfx + m]);
        }
        assert(outputs_chunks(s).subrange(l0 + pfx, l0 + pfx + lk) =~= spec_enc_output(s[k]));
    }
}

proof fn lemma_outputs_chunks_snoc(s: Seq<CellOutputV>, i: int)
    requires
        0 <= i < s.len(),
    ensures
        outputs_chunks(s.take(i + 1)) == outputs_chunks(s.take(i)) + spec_enc_output(s[i]),
    decreases i,
{
    if i == 0 {
        assert(s.take(1).first() == s[0]);
        assert(s.take(1).drop_first() =~= s.take(0));
        assert(outputs_chunks(s.take(0)) + spec_enc_output(s[0]) =~= spec_enc_output(s[0]) + outputs_chunks(s.take(0)));
    } else {
        let t = s.drop_first();
        assert(s.take(i + 1).first() == s[0]);
        assert(s.take(i + 1).drop_first() =~= t.take(i));
        assert(s.take(i).first() == s[0]);
        assert(s.take(i).drop_first() =~= t.take(i - 1));
        lemma_outputs_chunks_snoc(t, i - 1);
        assert(t[i - 1] == s[i]);
        assert(spec_enc_output(s[0]) + (outputs_chunks(t.take(i - 1)) + spec_enc_output(s[i])) =~= (spec_enc_output(
            s[0],
        ) + outputs_chunks(t.take(i - 1))) + spec_enc_output(s[i]));
    }
}

#[verifier::rlimit(100)]
proof fn lemma_read_outputs_elems_of_enc(b: Seq<u8>, p: int, s: Seq<CellOutputV>, k: int)
    requires
        0 <= k <= s.len(),
        forall|m: int| 0 <= m < s.len() ==> (#[trigger] s[m]).wf(),
        forall|m: int| 0 <= m < s.len() ==> spec_enc_output(#[trigger] s[m]).len() <= u32::MAX,
        4 * s.len() + outputs_chunks(s).len() <= u32::MAX,
        0 <= p,
        p + 4 * (s.len() - k) + outputs_chunks(s).len() <= b.len(),
        b.subrange(p, p + 4 * (s.len() - k) + outputs_chunks(s).len()) == outputs_slots(s, k) + outputs_chunks(s),
    ensures
        spec_read_output_elems(b, p, (s.len() - k) as nat) == Ok::<Seq<CellOutputV>, DecodeError>(
            s.skip(k),
        ),
    decreases s.len() - k,
{
    let n = s.len() as int;
    if k == n {
        assert(s.skip(k) =~= Seq::<CellOutputV>::empty());
    } else {
        lemma_outputs_chunk_at(s, k);
        let sv = outputs_slot_val(s, k);
        let e1 = spec_u32_le(sv as u32);
        let rest = outputs_slots(s, k + 1) + outputs_chunks(s);
        assert(outputs_slots(s, k) + outputs_chunks(s) =~= e1 + rest);
        lemma_subrange_split(b, p, e1, rest);
        lemma_read_u32_of_enc(b, p, sv as u32);
        let cb = p + 4 * (n - k);
        let pfx = outputs_chunks(s.take(k)).len() as int;
        let lk = spec_enc_output(s[k]).len() as int;
        assert(b.subrange(p + 4, p + 4 + (4 * (n - k - 1) + outputs_chunks(s).len())) =~= outputs_slots(
            s,
            k + 1,
        ) + outputs_chunks(s));
        lemma_subrange_split(b, p + 4, outputs_slots(s, k + 1), outputs_chunks(s));
        assert(b.subrange(cb, cb + outputs_chunks(s).len() as int) == outputs_chunks(s));
        lemma_subrange_of_subrange(b, cb, outputs_chunks(s), pfx, pfx + lk);
        assert(b.subrange(cb + pfx, cb + pfx + lk) == spec_enc_output(s[k]));
        lemma_read_output_of_enc(b, cb + pfx, s[k]);
        lemma_read_outputs_elems_of_enc(b, p + 4, s, k + 1);
        assert(seq![s[k]] + s.skip(k + 1) =~= s.skip(k));
    }
}

pub proof fn lemma_read_outputs_vec_of_enc(b: Seq<u8>, v: int, s: Seq<CellOutputV>)
    requires
        forall|m: int| 0 <= m < s.len() ==> (#[trigger] s[m]).wf(),
        forall|m: int| 0 <= m < s.len() ==> spec_enc_output(#[trigger] s[m]).len() <= u32::MAX,
        4 * s.len() + outputs_chunks(s).len() <= u32::MAX,
        0 <= v,
        v + spec_enc_outvec(s).len() <= b.len(),
        b.subrange(v, v + spec_enc_outvec(s).len()) == spec_enc_outvec(s),
    ensures
        spec_read_outvec(b, v) == Ok::<Seq<CellOutputV>, DecodeError>(s),
{
    assert(spec_enc_outvec(s) =~= spec_u32_le(s.len() as u32) + (outputs_slots(s, 0) + outputs_chunks(s)));
    lemma_subrange_split(b, v, spec_u32_le(s.len() as u32), outputs_slots(s, 0) + outputs_chunks(s));
    lemma_read_u32_of_enc(b, v, s.len() as u32);
    assert((s.len() as u32) as nat == s.len());
    lemma_outputs_slots_len(s, 0);
    lemma_read_outputs_elems_of_enc(b, v + 4, s, 0);
    assert(s.skip(0) =~= s);
}

pub proof fn lemma_read_outputs_elems_concat(b: Seq<u8>, p: int, s1: Seq<CellOutputV>, m: nat)
    requires
        spec_read_output_elems(b, p, s1.len() as nat) == Ok::<Seq<CellOutputV>, DecodeError>(s1),
    ensures
        spec_read_output_elems(b, p, (s1.len() + m) as nat) == (match spec_read_output_elems(
            b,
            p + 4 * s1.len(),
            m,
        ) {
            Ok(s2) => Ok::<Seq<CellOutputV>, DecodeError>(s1 + s2),
            Err(e) => Err::<Seq<CellOutputV>, DecodeError>(e),
        }),
    decreases s1.len(),
{
    if s1.len() == 0 {
        match spec_read_output_elems(b, p, m) {
            Ok(s2) => {
                assert(s1 + s2 =~= s2);
            },
            Err(e) => {},
        }
    } else {
        let q0 = spec_read_u32(b, p);
        assert(q0 is Ok);
        let pr = q0->Ok_0;
        let r0 = spec_read_output(b, p + pr.0);
        assert(r0 is Ok);
        let o0 = r0->Ok_0;
        let r1 = spec_read_output_elems(b, p + 4, (s1.len() - 1) as nat);
        assert(r1 is Ok);
        let t1 = r1->Ok_0;
        assert(s1 == seq![o0] + t1);
        assert(t1 =~= s1.drop_first());
        assert(t1.len() == s1.len() - 1);
        lemma_read_outputs_elems_concat(b, p + 4, t1, m);
        assert(p + 4 + 4 * t1.len() == p + 4 * s1.len());
        match spec_read_output_elems(b, p + 4 * s1.len(), m) {
            Ok(s2) => {
                assert(seq![o0] + (t1 + s2) =~= s1 + s2);
            },
            Err(e) => {},
        }
    }
}


#[verifier::rlimit(100)]
proof fn lemma_txs_chunk_at(s: Seq<TransactionV>, k: int)
    requires
        0 <= k < s.len(),
    ensures
        txs_chunks(s.take(k)).len() + spec_enc_tx(s[k]).len() <= txs_chunks(s).len(),
        txs_chunks(s).subrange(
            txs_chunks(s.take(k)).len() as int,
            (txs_chunks(s.take(k)).len() + spec_enc_tx(s[k]).len()) as int,
        ) == spec_enc_tx(s[k]),
    decreases k,
{
    if k == 0 {
        assert(s.take(0).len() == 0);
        assert(txs_chunks(s).subrange(0, spec_enc_tx(s[0]).len() as int) =~= spec_enc_tx(s[0]));
    } else {
        let t = s.drop_first();
        lemma_txs_chunk_at(t, k - 1);
        assert(s.take(k).first() == s[0]);
        assert(s.take(k).drop_first() =~= t.take(k - 1));
        assert(t[k - 1] == s[k]);
        let l0 = spec_enc_tx(s[0]).len() as int;
        let pfx = txs_chunks(t.take(k - 1)).len() as int;
        let lk = spec_enc_tx(s[k]).len() as int;
        assert(txs_chunks(s.take(k)).len() == l0 + pfx);
        assert forall|m: int| 0 <= m < lk implies txs_chunks(s)[l0 + pfx + m] == spec_enc_tx(
            s[k],
        )[m] by {
            assert(txs_chunks(s)[l0 + (pfx + m)] == txs_chunks(t)[pfx + m]);
            assert(txs_chunks(t).subrange(pfx, pfx + lk)[m] == txs_chunks(t)[pfx + m]);
        }
        assert(txs_chunks(s).subrange(l0 + pfx, l0 + pfx + lk) =~= spec_enc_tx(s[k]));
    }
}

#[verifier::rlimit(100)]
proof fn lemma_txs_chunks_snoc(s: Seq<TransactionV>, i: int)
    requires
        0 <= i < s.len(),
    ensures
        txs_chunks(s.take(i + 1)) == txs_chunks(s.take(i)) + spec_enc_tx(s[i]),
    decreases i,
{
    if i == 0 {
        assert(s.take(1).first() == s[0]);
        assert(s.take(1).drop_first() =~= s.take(0));
        assert(txs_chunks(s.take(0)) + spec_enc_tx(s[0]) =~= spec_enc_tx(s[0]) + txs_chunks(s.take(0)));
    } else {
        let t = s.drop_first();
        assert(s.take(i + 1).first() == s[0]);
        assert(s.take(i + 1).drop_first() =~= t.take(i));
        assert(s.take(i).first() == s[0]);
        assert(s.take(i).drop_first() =~= t.take(i - 1));
        lemma_txs_chunks_snoc(t, i - 1);
        assert(t[i - 1] == s[i]);
        assert(spec_enc_tx(s[0]) + (txs_chunks(t.take(i - 1)) + spec_enc_tx(s[i])) =~= (spec_enc_tx(
            s[0],
        ) + txs_chunks(t.take(i - 1))) + spec_enc_tx(s[i]));
    }
}

#[verifier::rlimit(100)]
proof fn lemma_read_txs_elems_of_enc(b: Seq<u8>, p: int, s: Seq<TransactionV>, k: int)
    requires
        0 <= k <= s.len(),
        forall|m: int| 0 <= m < s.len() ==> (#[trigger] s[m]).wf(),
        forall|m: int| 0 <= m < s.len() ==> spec_enc_tx(#[trigger] s[m]).len() <= u32::MAX && tx_sizes_ok(#[trigger] s[m]),
        4 * s.len() + txs_chunks(s).len() <= u32::MAX,
        0 <= p,
        p + 4 * (s.len() - k) + txs_chunks(s).len() <= b.len(),
        b.subrange(p, p + 4 * (s.len() - k) + txs_chunks(s).len()) == txs_slots(s, k) + txs_chunks(s),
    ensures
        spec_read_tx_elems(b, p, (s.len() - k) as nat) == Ok::<Seq<TransactionV>, DecodeError>(
            s.skip(k),
        ),
    decreases s.len() - k,
{
    let n = s.len() as int;
    if k == n {
        assert(s.skip(k) =~= Seq::<TransactionV>::empty());
    } else {
        lemma_txs_chunk_at(s, k);
        let sv = txs_slot_val(s, k);
        let e1 = spec_u32_le(sv as u32);
        let rest = txs_slots(s, k + 1) + txs_chunks(s);
        assert(txs_slots(s, k) + txs_chunks(s) =~= e1 + rest);
        lemma_subrange_split(b, p, e1, rest);
        lemma_read_u32_of_enc(b, p, sv as u32);
        let cb = p + 4 * (n - k);
        let pfx = txs_chunks(s.take(k)).len() as int;
        let lk = spec_enc_tx(s[k]).len() as int;
        assert(b.subrange(p + 4, p + 4 + (4 * (n - k - 1) + txs_chunks(s).len())) =~= txs_slots(
            s,
            k + 1,
        ) + txs_chunks(s));
        lemma_subrange_split(b, p + 4, txs_slots(s, k + 1), txs_chunks(s));
        assert(b.subrange(cb, cb + txs_chunks(s).len() as int) == txs_chunks(s));
        lemma_subrange_of_subrange(b, cb, txs_chunks(s), pfx, pfx + lk);
        assert(b.subrange(cb + pfx, cb + pfx + lk) == spec_enc_tx(s[k]));
        lemma_read_tx_of_enc(b, cb + pfx, s[k]);
        lemma_read_txs_elems_of_enc(b, p + 4, s, k + 1);
        assert(seq![s[k]] + s.skip(k + 1) =~= s.skip(k));
    }
}

pub proof fn lemma_read_txs_vec_of_enc(b: Seq<u8>, v: int, s: Seq<TransactionV>)
    requires
        forall|m: int| 0 <= m < s.len() ==> (#[trigger] s[m]).wf(),
        forall|m: int| 0 <= m < s.len() ==> spec_enc_tx(#[trigger] s[m]).len() <= u32::MAX && tx_sizes_ok(#[trigger] s[m]),
        4 * s.len() + txs_chunks(s).len() <= u32::MAX,
        0 <= v,
        v + spec_enc_txvec(s).len() <= b.len(),
        b.subrange(v, v + spec_enc_txvec(s).len()) == spec_enc_txvec(s),
    ensures
        spec_read_txvec(b, v) == Ok::<Seq<TransactionV>, DecodeError>(s),
{
    assert(spec_enc_txvec(s) =~= spec_u32_le(s.len() as u32) + (txs_slots(s, 0) + txs_chunks(s)));
    lemma_subrange_split(b, v, spec_u32_le(s.len() as u32), txs_slots(s, 0) + txs_chunks(s));
    lemma_read_u32_of_enc(b, v, s.len() as u32);
    assert((s.len() as u32) as nat == s.len());
    lemma_txs_slots_len(s, 0);
    lemma_read_txs_elems_of_enc(b, v + 4, s, 0);
    assert(s.skip(0) =~= s);
}

pub proof fn lemma_read_txs_elems_concat(b: Seq<u8>, p: int, s1: Seq<TransactionV>, m: nat)
    requires
        spec_read_tx_elems(b, p, s1.len() as nat) == Ok::<Seq<TransactionV>, DecodeError>(s1),
    ensures
        spec_read_tx_elems(b, p, (s1.len() + m) as nat) == (match spec_read_tx_elems(
            b,
            p + 4 * s1.len(),
            m,
        ) {
            Ok(s2) => Ok::<Seq<TransactionV>, DecodeError>(s1 + s2),
            Err(e) => Err::<Seq<TransactionV>, DecodeError>(e),
        }),
    decreases s1.len(),
{
    if s1.len() == 0 {
        match spec_read_tx_elems(b, p, m) {
            Ok(s2) => {
                assert(s1 + s2 =~= s2);
            },
            Err(e) => {},
        }
    } else {
        let q0 = spec_read_u32(b, p);
        assert(q0 is Ok);
        let pr = q0->Ok_0;
        let r0 = spec_read_tx(b, p + pr.0);
        assert(r0 is Ok);
        let o0 = r0->Ok_0;
        let r1 = spec_read_tx_elems(b, p + 4, (s1.len() - 1) as nat);
        assert(r1 is Ok);
        let t1 = r1->Ok_0;
        assert(s1 == seq![o0] + t1);
        assert(t1 =~= s1.drop_first());
        assert(t1.len() == s1.len() - 1);
        lemma_read_txs_elems_concat(b, p + 4, t1, m);
        assert(p + 4 + 4 * t1.len() == p + 4 * s1.len());
        match spec_read_tx_elems(b, p + 4 * s1.len(), m) {
            Ok(s2) => {
                assert(seq![o0] + (t1 + s2) =~= s1 + s2);
            },
            Err(e) => {},
        }
    }
}

#[verifier::rlimit(100)]
pub proof fn lemma_read_tx_of_enc(b: Seq<u8>, a: int, t: TransactionV)
    requires
        t.wf(),
        tx_sizes_ok(t),
        0 <= a,
        a + spec_enc_tx(t).len() <= b.len(),
        b.subrange(a, a + spec_enc_tx(t).len()) == spec_enc_tx(t),
    ensures
        spec_read_tx(b, a) == Ok::<TransactionV, DecodeError>(t),
{
    reveal(spec_read_tx);
    let dv = spec_enc_depvec(t.deps);
    let iv = spec_enc_inpvec(t.inputs);
    let ov = spec_enc_outvec(t.outputs);
    let c1 = spec_u32_le(t.version);
    let c2 = spec_u32_le(12);
    let c3 = spec_u32_le((8 + dv.len()) as u32);
    let c4 = spec_u32_le((4 + dv.len() + iv.len()) as u32);
    assert(spec_enc_tx(t) =~= c1 + (c2 + (c3 + (c4 + (dv + (iv + ov))))));
    lemma_subrange_split(b, a, c1, c2 + (c3 + (c4 + (dv + (iv + ov)))));
    lemma_subrange_split(b, a + 4, c2, c3 + (c4 + (dv + (iv + ov))));
    lemma_subrange_split(b, a + 8, c3, c4 + (dv + (iv + ov)));
    lemma_subrange_split(b, a + 12, c4, dv + (iv + ov));
    lemma_subrange_split(b, a + 16, dv, iv + ov);
    lemma_subrange_split(b, a + 16 + dv.len(), iv, ov);
    lemma_read_u32_of_enc(b, a, t.version);
    lemma_read_u32_of_enc(b, a + 4, 12);
    lemma_read_u32_of_enc(b, a + 8, (8 + dv.len()) as u32);
    lemma_read_u32_of_enc(b, a + 12, (4 + dv.len() + iv.len()) as u32);
    lemma_deps_slots_len(t.deps, 0);
    lemma_inputs_slots_len(t.inputs, 0);
    lemma_outputs_slots_len(t.outputs, 0);
    assert(4 * t.deps.len() + deps_chunks(t.deps).len() <= u32::MAX);
    assert(4 * t.inputs.len() + inputs_chunks(t.inputs).len() <= u32::MAX);
    assert(4 * t.outputs.len() + outputs_chunks(t.outputs).len() <= u32::MAX);
    lemma_read_deps_vec_of_enc(b, a + 16, t.deps);
    lemma_read_inputs_vec_of_enc(b, a + 16 + dv.len(), t.inputs);
    lemma_read_outputs_vec_of_enc(b, a + 16 + dv.len() + iv.len(), t.outputs);
    assert(spec_read_tx(b, a)->Ok_0 =~= t);
}

#[verifier::rlimit(100)]
proof fn lemma_read_header_table_of_enc(b: Seq<u8>, a: int, h: HeaderV)
    requires
        h.wf(),
        header_size_ok(h),
        0 <= a,
        a + 56 <= b.len(),
        b.subrange(a, a + 56) == spec_header_table(h),
    ensures
        spec_read_u32(b, a) == Ok::<(u32, int), DecodeError>((h.version, a + 4)),
        spec_read_u32(b, a + 4) == Ok::<(u32, int), DecodeError>((52, a + 8)),
        spec_read_u64(b, a + 8) == Ok::<(u64, int), DecodeError>((h.timestamp, a + 16)),
        spec_read_u64(b, a + 16) == Ok::<(u64, int), DecodeError>((h.number, a + 24)),
        spec_read_u32(b, a + 24) == Ok::<(u32, int), DecodeError>((68, a + 28)),
        spec_read_u32(b, a + 28) == Ok::<(u32, int), DecodeError>((100, a + 32)),
        spec_read_u32(b, a + 32) == Ok::<(u32, int), DecodeError>((132, a + 36)),
        spec_read_u64(b, a + 36) == Ok::<(u64, int), DecodeError>((h.seal.nonce, a + 44)),
        spec_read_u32(b, a + 44) == Ok::<(u32, int), DecodeError>((156, a + 48)),
        spec_read_u32(b, a + 48) == Ok::<(u32, int), DecodeError>(
            ((156 + h.seal.proof.len()) as u32, a + 52),
        ),
        spec_read_u32(b, a + 52) == Ok::<(u32, int), DecodeError>(
            ((188 + h.seal.proof.len()) as u32, a + 56),
        ),
{
    let p = h.seal.proof.len();
    let c1 = spec_u32_le(h.version);
    let c2 = spec_u32_le(52);
    let c3 = spec_u64_le(h.timestamp);
    let c4 = spec_u64_le(h.number);
    let c5 = spec_u32_le(68);
    let c6 = spec_u32_le(100);
    let c7 = spec_u32_le(132);
    let c8 = spec_u64_le(h.seal.nonce);
    let c9 = spec_u32_le(156);
    let c10 = spec_u32_le((156 + p) as u32);
    let c11 = spec_u32_le((188 + p) as u32);
    assert(spec_header_table(h) =~= c1 + (c2 + (c3 + (c4 + (c5 + (c6 + (c7 + (c8 + (c9 + (c10
        + c11))))))))));
    lemma_subrange_split(b, a, c1, c2 + (c3 + (c4 + (c5 + (c6 + (c7 + (c8 + (c9 + (c10 + c11)))))))));
    lemma_subrange_split(b, a + 4, c2, c3 + (c4 + (c5 + (c6 + (c7 + (c8 + (c9 + (c10 + c11))))))));
    lemma_subrange_split(b, a + 8, c3, c4 + (c5 + (c6 + (c7 + (c8 + (c9 + (c10 + c11)))))));
    lemma_subrange_split(b, a + 16, c4, c5 + (c6 + (c7 + (c8 + (c9 + (c10 + c11))))));
    lemma_subrange_split(b, a + 24, c5, c6 + (c7 + (c8 + (c9 + (c10 + c11)))));
    lemma_subrange_split(b, a + 28, c6, c7 + (c8 + (c9 + (c10 + c11))));
    lemma_subrange_split(b, a + 32, c7, c8 + (c9 + (c10 + c11)));
    lemma_subrange_split(b, a + 36, c8, c9 + (c10 + c11));
    lemma_subrange_split(b, a + 44, c9, c10 + c11);
    lemma_subrange_split(b, a + 48, c10, c11);
    lemma_read_u32_of_enc(b, a, h.version);
    lemma_read_u32_of_enc(b, a + 4, 52);
    lemma_read_u64_of_enc(b, a + 8, h.timestamp);
    lemma_read_u64_of_enc(b, a + 16, h.number);
    lemma_read_u32_of_enc(b, a + 24, 68);
    lemma_read_u32_of_enc(b, a + 28, 100);
    lemma_read_u32_of_enc(b, a + 32, 132);
    lemma_read_u64_of_enc(b, a + 36, h.seal.nonce);
    lemma_read_u32_of_enc(b, a + 44, 156);
    lemma_read_u32_of_enc(b, a + 48, (156 + p) as u32);
    lemma_read_u32_of_enc(b, a + 52, (188 + p) as u32);
}

#[verifier::rlimit(100)]
proof fn lemma_read_header_objects_of_enc(b: Seq<u8>, a: int, h: HeaderV)
    requires
        h.wf(),
        header_size_ok(h),
        0 <= a,
        a + 56 + spec_header_objects(h).len() <= b.len(),
        b.subrange(a + 56, a + 56 + spec_header_objects(h).len()) == spec_header_objects(h),
    ensures
        spec_dref(b, a + 4, 52) == Ok::<Seq<u8>, DecodeError>(h.parent_hash),
        spec_dref(b, a + 24, 68) == Ok::<Seq<u8>, DecodeError>(h.txs_commit),
        spec_dref(b, a + 28, 100) == Ok::<Seq<u8>, DecodeError>(h.txs_proposal),
        spec_uref(b, a + 32, 132) == Ok::<U256, DecodeError>(h.difficulty),
        spec_bref(b, a + 44, 156) == Ok::<Seq<u8>, DecodeError>(h.seal.proof),
        spec_dref(b, a + 48, (156 + h.seal.proof.len()) as u32) == Ok::<Seq<u8>, DecodeError>(
            h.cellbase_id,
        ),
        spec_dref(b, a + 52, (188 + h.seal.proof.len()) as u32) == Ok::<Seq<u8>, DecodeError>(
            h.uncles_hash,
        ),
{
    let p = h.seal.proof.len();
    let o1 = spec_enc_dobj(h.parent_hash);
    let o2 = spec_enc_dobj(h.txs_commit);
    let o3 = spec_enc_dobj(h.txs_proposal);
    let o4 = spec_enc_uobj(h.difficulty);
    let o5 = spec_enc_bytes(h.seal.proof);
    let o6 = spec_enc_dobj(h.cellbase_id);
    let o7 = spec_enc_dobj(h.uncles_hash);
    assert(spec_header_objects(h) =~= o1 + (o2 + (o3 + (o4 + (o5 + (o6 + o7))))));
    lemma_subrange_split(b, a + 56, o1, o2 + (o3 + (o4 + (o5 + (o6 + o7)))));
    lemma_subrange_split(b, a + 92, o2, o3 + (o4 + (o5 + (o6 + o7))));
    lemma_subrange_split(b, a + 128, o3, o4 + (o5 + (o6 + o7)));
    lemma_subrange_split(b, a + 164, o4, o5 + (o6 + o7));
    lemma_subrange_split(b, a + 200, o5, o6 + o7);
    lemma_subrange_split(b, a + 204 + p, o6, o7);
    lemma_dref_of_enc(b, a + 4, 52, h.parent_hash);
    lemma_dref_of_enc(b, a + 24, 68, h.txs_commit);
    lemma_dref_of_enc(b, a + 28, 100, h.txs_proposal);
    lemma_uref_of_enc(b, a + 32, 132, h.difficulty);
    lemma_bref_of_enc(b, a + 44, 156, h.seal.proof);
    lemma_dref_of_enc(b, a + 48, (156 + p) as u32, h.cellbase_id);
    lemma_dref_of_enc(b, a + 52, (188 + p) as u32, h.uncles_hash);
}

#[verifier::rlimit(100)]
pub proof fn lemma_read_header_of_enc(b: Seq<u8>, a: int, h: HeaderV)
    requires
        h.wf(),
        header_size_ok(h),
        0 <= a,
        a + spec_enc_header(h).len() <= b.len(),
        b.subrange(a, a + spec_enc_header(h).len()) == spec_enc_header(h),
    ensures
        spec_read_header(b, a) == Ok::<HeaderV, DecodeError>(h),
{
    reveal(spec_read_header);
    assert(spec_enc_header(h) =~= spec_header_table(h) + spec_header_objects(h));
    lemma_subrange_split(b, a, spec_header_table(h), spec_header_objects(h));
    lemma_read_header_table_of_enc(b, a, h);
    lemma_read_header_objects_of_enc(b, a, h);
    assert(spec_read_header(b, a)->Ok_0 =~= h);
}

#[verifier::rlimit(100)]
pub proof fn lemma_read_block_of_enc(b: Seq<u8>, a: int, bl: BlockV)
    requires
        bl.wf(),
        block_sizes_ok(bl),
        0 <= a,
        a + spec_enc_block(bl).len() <= b.len(),
        b.subrange(a, a + spec_enc_block(bl).len()) == spec_enc_block(bl),
    ensures
        spec_read_block(b, a) == Ok::<BlockV, DecodeError>(bl),
{
    reveal(spec_read_block);
    let hc = spec_enc_header(bl.header);
    let tv = spec_enc_txvec(bl.transactions);
    let c1 = spec_u32_le(8);
    let c2 = spec_u32_le((4 + hc.len()) as u32);
    assert(spec_enc_block(bl) =~= c1 + (c2 + (hc + tv)));
    lemma_subrange_split(b, a, c1, c2 + (hc + tv));
    lemma_subrange_split(b, a + 4, c2, hc + tv);
    lemma_subrange_split(b, a + 8, hc, tv);
    lemma_read_u32_of_enc(b, a, 8);
    lemma_read_u32_of_enc(b, a + 4, (4 + hc.len()) as u32);
    lemma_read_header_of_enc(b, a + 8, bl.header);
    lemma_txs_slots_len(bl.transactions, 0);
    assert(4 * bl.transactions.len() + txs_chunks(bl.transactions).len() <= u32::MAX);
    lemma_read_txs_vec_of_enc(b, a + 8 + hc.len(), bl.transactions);
    assert(spec_read_block(b, a)->Ok_0 =~= bl);
}

pub proof fn lemma_read_root_header_of_enc(b: Seq<u8>, h: HeaderV)
    requires
        h.wf(),
        header_size_ok(h),
        spec_enc_root_header(h).len() <= b.len(),
        b.subrange(0, spec_enc_root_header(h).len() as int) == spec_enc_root_header(h),
    ensures
        spec_read_root_header(b) == Ok::<HeaderV, DecodeError>(h),
{
    lemma_subrange_split(b, 0, spec_u32_le(4), spec_enc_header(h));
    lemma_read_u32_of_enc(b, 0, 4);
    lemma_read_header_of_enc(b, 4, h);
}

pub proof fn lemma_read_root_block_of_enc(b: Seq<u8>, bl: BlockV)
    requires
        bl.wf(),
        block_sizes_ok(bl),
        spec_enc_root_block(bl).len() <= b.len(),
        b.subrange(0, spec_enc_root_block(bl).len() as int) == spec_enc_root_block(bl),
    ensures
        spec_read_root_block(b) == Ok::<BlockV, DecodeError>(bl),
{
    lemma_subrange_split(b, 0, spec_u32_le(4), spec_enc_block(bl));
    lemma_read_u32_of_enc(b, 0, 4);
    lemma_read_block_of_enc(b, 4, bl);
}


// ---------------------------------------------------------------------------
// An iterator over the slot values of a decoded vector.
// ---------------------------------------------------------------------------

/// Walks the element slots of a decoded vector in order.
pub struct FlatbuffersVectorIterator {
    pub vector: Vec<u32>,
    pub counter: usize,
}

impl FlatbuffersVectorIterator {
    /// Wrap the slot values of a decoded vector.
    pub fn new(vector: Vec<u32>) -> (s: Self)
        ensures
            s.vector@ == vector@,
            s.counter == 0,
    {
        Self { vector, counter: 0 }
    }

    /// The next slot value, if one remains.
    pub fn next(&mut self) -> (r: Option<u32>)
        ensures
            old(self).counter < old(self).vector@.len() ==> r == Some(
                old(self).vector@[old(self).counter as int],
            ) && final(self).counter == old(self).counter + 1 && final(self).vector@ == old(
                self,
            ).vector@,
            old(self).counter >= old(self).vector@.len() ==> r == None::<u32> && *final(self)
                == *old(self),
    {
        if self.counter < self.vector.len() {
            let result = self.vector[self.counter];
            self.counter = self.counter + 1;
            Some(result)
        } else {
            None
        }
    }
}

// ---------------------------------------------------------------------------
// Executable reference follows.
// ---------------------------------------------------------------------------

fn follow_dref(b: &[u8], slot: usize, d: u32) -> (r: Result<Vec<u8>, DecodeError>)
    requires
        slot <= b@.len(),
    ensures
        match r {
            Ok(v) => spec_dref(b@, slot as int, d) == Ok::<Seq<u8>, DecodeError>(v@) && v@.len()
                == 32,
            Err(e) => spec_dref(b@, slot as int, d) == Err::<Seq<u8>, DecodeError>(e),
        },
{
    if d == 0 {
        return Err(DecodeError::MissingField);
    }
    if !(d as usize <= b.len() && slot <= b.len() - d as usize) {
        return Err(DecodeError::TooShort);
    }
    let pos = slot + d as usize;
    let (n, q) = match read_u32_le(b, pos) {
        Ok(p) => p,
        Err(e) => {
            return Err(e);
        },
    };
    if n == 32 {
        match read_exact(b, q, 32) {
            Ok((h, _)) => Ok(h),
            Err(e) => Err(e),
        }
    } else {
        Err(DecodeError::BadLength)
    }
}

fn follow_bref(b: &[u8], slot: usize, d: u32) -> (r: Result<Vec<u8>, DecodeError>)
    requires
        slot <= b@.len(),
    ensures
        match r {
            Ok(v) => spec_bref(b@, slot as int, d) == Ok::<Seq<u8>, DecodeError>(v@) && v@.len()
                <= u32::MAX,
            Err(e) => spec_bref(b@, slot as int, d) == Err::<Seq<u8>, DecodeError>(e),
        },
{
    if d == 0 {
        return Err(DecodeError::MissingField);
    }
    if !(d as usize <= b.len() && slot <= b.len() - d as usize) {
        return Err(DecodeError::TooShort);
    }
    let pos = slot + d as usize;
    match read_bytes(b, pos) {
        Ok((v, _)) => Ok(v),
        Err(e) => Err(e),
    }
}

fn follow_uref(b: &[u8], slot: usize, d: u32) -> (r: Result<U256, DecodeError>)
    requires
        slot <= b@.len(),
    ensures
        match r {
            Ok(x) => spec_uref(b@, slot as int, d) == Ok::<U256, DecodeError>(x),
            Err(e) => spec_uref(b@, slot as int, d) == Err::<U256, DecodeError>(e),
        },
{
    if d == 0 {
        return Err(DecodeError::MissingField);
    }
    if !(d as usize <= b.len() && slot <= b.len() - d as usize) {
        return Err(DecodeError::TooShort);
    }
    let pos = slot + d as usize;
    let (n, q) = match read_u32_le(b, pos) {
        Ok(p) => p,
        Err(e) => {
            return Err(e);
        },
    };
    if n == 32 {
        match read_u256_be(b, q) {
            Ok((x, _)) => Ok(x),
            Err(e) => Err(e),
        }
    } else {
        Err(DecodeError::BadLength)
    }
}

// ---------------------------------------------------------------------------
// Executable record encoders.
// ---------------------------------------------------------------------------

pub(crate) fn enc_outpoint(o: &OutPoint, out: &mut Vec<u8>)
    requires
        o@.wf(),
    ensures
        final(out)@ == old(out)@ + spec_enc_outpoint(o@),
{
    push_u32_le(out, 8);
    push_u32_le(out, o.index);
    push_u32_le(out, 32);
    push_slice(out, o.hash.as_slice());
    proof {
        assert(out@ =~= old(out)@ + spec_enc_outpoint(o@));
    }
}

pub(crate) fn enc_input(c: &CellInput, out: &mut Vec<u8>)
    requires
        c@.wf(),
    ensures
        final(out)@ == old(out)@ + spec_enc_input(c@),
{
    push_u32_le(out, 12);
    push_u32_le(out, c.previous_output.index);
    push_u32_le(out, 40);
    push_u32_le(out, 32);
    push_slice(out, c.previous_output.hash.as_slice());
    push_bytes(out, c.unlock.as_slice());
    proof {
        assert(out@ =~= old(out)@ + spec_enc_input(c@));
    }
}

pub(crate) fn enc_output(c: &CellOutput, out: &mut Vec<u8>)
    requires
        c@.wf(),
        spec_enc_output(c@).len() <= u32::MAX,
    ensures
        final(out)@ == old(out)@ + spec_enc_output(c@),
{
    proof {
        assert(spec_enc_output(c@).len() == 56 + c@.data.len());
        assert(c@.data.len() == c.data@.len());
    }
    push_u64_le(out, c.capacity);
    push_u32_le(out, 8);
    push_u32_le(out, (8 + c.data.len()) as u32);
    push_bytes(out, c.data.as_slice());
    push_u32_le(out, 32);
    push_slice(out, c.lock.as_slice());
    proof {
        assert(out@ =~= old(out)@ + spec_enc_output(c@));
    }
}

pub(crate) fn enc_depvec(deps: &Vec<OutPoint>, out: &mut Vec<u8>)
    requires
        forall|m: int| 0 <= m < deps_view(deps@).len() ==> (#[trigger] deps_view(deps@)[m]).wf(),
        4 * deps@.len() + deps_chunks(deps_view(deps@)).len() <= u32::MAX,
    ensures
        final(out)@ == old(out)@ + spec_enc_depvec(deps_view(deps@)),
{
    let ghost s = deps_view(deps@);
    proof {
        assert(s.len() == deps@.len());
    }
    let n = deps.len();
    push_u32_le(out, n as u32);
    let mut slots: Vec<u8> = Vec::new();
    let mut chunks_buf: Vec<u8> = Vec::new();
    let mut k: usize = 0;
    while k < n
        invariant
            s == deps_view(deps@),
            forall|m: int| 0 <= m < s.len() ==> (#[trigger] s[m]).wf(),
            4 * s.len() + deps_chunks(s).len() <= u32::MAX,
            n == deps@.len(),
            s.len() == n,
            k <= n,
            chunks_buf@ == deps_chunks(s.take(k as int)),
            deps_slots(s, 0) == slots@ + deps_slots(s, k as int),
        decreases n - k,
    {
        proof {
            lemma_deps_chunk_at(s, k as int);
            assert(s[k as int] == deps@[k as int]@);
            assert((#[trigger] s[k as int]).wf());
        }
        let sv = 4 * (n - k) + chunks_buf.len();
        push_u32_le(&mut slots, sv as u32);
        proof {
            assert(sv == deps_slot_val(s, k as int));
            assert(slots@ + deps_slots(s, k as int + 1) =~= deps_slots(s, 0));
        }
        enc_outpoint(&deps[k], &mut chunks_buf);
        proof {
            lemma_deps_chunks_snoc(s, k as int);
            assert(chunks_buf@ =~= deps_chunks(s.take(k as int + 1)));
        }
        k = k + 1;
    }
    proof {
        assert(s.take(n as int) =~= s);
        assert(deps_slots(s, n as int) =~= Seq::<u8>::empty());
        assert(slots@ =~= deps_slots(s, 0));
    }
    push_slice(out, slots.as_slice());
    push_slice(out, chunks_buf.as_slice());
    proof {
        assert(out@ =~= old(out)@ + spec_enc_depvec(s));
    }
}

pub(crate) fn enc_inpvec(inputs: &Vec<CellInput>, out: &mut Vec<u8>)
    requires
        forall|m: int| 0 <= m < inputs_view(inputs@).len() ==> (#[trigger] inputs_view(inputs@)[m]).wf(),
        4 * inputs@.len() + inputs_chunks(inputs_view(inputs@)).len() <= u32::MAX,
    ensures
        final(out)@ == old(out)@ + spec_enc_inpvec(inputs_view(inputs@)),
{
    let ghost s = inputs_view(inputs@);
    proof {
        assert(s.len() == inputs@.len());
    }
    let n = inputs.len();
    push_u32_le(out, n as u32);
    let mut slots: Vec<u8> = Vec::new();
    let mut chunks_buf: Vec<u8> = Vec::new();
    let mut k: usize = 0;
    while k < n
        invariant
            s == inputs_view(inputs@),
            forall|m: int| 0 <= m < s.len() ==> (#[trigger] s[m]).wf(),
            4 * s.len() + inputs_chunks(s).len() <= u32::MAX,
            n == inputs@.len(),
            s.len() == n,
            k <= n,
            chunks_buf@ == inputs_chunks(s.take(k as int)),
            inputs_slots(s, 0) == slots@ + inputs_slots(s, k as int),
        decreases n - k,
    {
        proof {
            lemma_inputs_chunk_at(s, k as int);
            assert(s[k as int] == inputs@[k as int]@);
            assert((#[trigger] s[k as int]).wf());
        }
        let sv = 4 * (n - k) + chunks_buf.len();
        push_u32_le(&mut slots, sv as u32);
        proof {
            assert(sv == inputs_slot_val(s, k as int));
            assert(slots@ + inputs_slots(s, k as int + 1) =~= inputs_slots(s, 0));
        }
        enc_input(&inputs[k], &mut chunks_buf);
        proof {
            lemma_inputs_chunks_snoc(s, k as int);
            assert(chunks_buf@ =~= inputs_chunks(s.take(k as int + 1)));
        }
        k = k + 1;
    }
    proof {
        assert(s.take(n as int) =~= s);
        assert(inputs_slots(s, n as int) =~= Seq::<u8>::empty());
        assert(slots@ =~= inputs_slots(s, 0));
    }
    push_slice(out, slots.as_slice());
    push_slice(out, chunks_buf.as_slice());
    proof {
        assert(out@ =~= old(out)@ + spec_enc_inpvec(s));
    }
}

pub(crate) fn enc_outvec(outputs: &Vec<CellOutput>, out: &mut Vec<u8>)
    requires
        forall|m: int| 0 <= m < outputs_view(outputs@).len() ==> (#[trigger] outputs_view(outputs@)[m]).wf(),
        forall|m: int| 0 <= m < outputs_view(outputs@).len() ==> spec_enc_output(#[trigger] outputs_view(outputs@)[m]).len() <= u32::MAX,
        4 * outputs@.len() + outputs_chunks(outputs_view(outputs@)).len() <= u32::MAX,
    ensures
        final(out)@ == old(out)@ + spec_enc_outvec(outputs_view(outputs@)),
{
    let ghost s = outputs_view(outputs@);
    proof {
        assert(s.len() == outputs@.len());
    }
    let n = outputs.len();
    push_u32_le(out, n as u32);
    let mut slots: Vec<u8> = Vec::new();
    let mut chunks_buf: Vec<u8> = Vec::new();
    let mut k: usize = 0;
    while k < n
        invariant
            s == outputs_view(outputs@),
            forall|m: int| 0 <= m < s.len() ==> (#[trigger] s[m]).wf(),
            forall|m: int| 0 <= m < s.len() ==> spec_enc_output(#[trigger] s[m]).len() <= u32::MAX,
            4 * s.len() + outputs_chunks(s).len() <= u32::MAX,
            n == outputs@.len(),
            s.len() == n,
            k <= n,
            chunks_buf@ == outputs_chunks(s.take(k as int)),
            outputs_slots(s, 0) == slots@ + outputs_slots(s, k as int),
        decreases n - k,
    {
        proof {
            lemma_outputs_chunk_at(s, k as int);
            assert(s[k as int] == outputs@[k as int]@);
            assert((#[trigger] s[k as int]).wf());
            assert(spec_enc_output(s[k as int]).len() <= u32::MAX);
        }
        let sv = 4 * (n - k) + chunks_buf.len();
        push_u32_le(&mut slots, sv as u32);
        proof {
            assert(sv == outputs_slot_val(s, k as int));
            assert(slots@ + outputs_slots(s, k as int + 1) =~= outputs_slots(s, 0));
        }
        enc_output(&outputs[k], &mut chunks_buf);
        proof {
            lemma_outputs_chunks_snoc(s, k as int);
            assert(chunks_buf@ =~= outputs_chunks(s.take(k as int + 1)));
        }
        k = k + 1;
    }
    proof {
        assert(s.take(n as int) =~= s);
        assert(outputs_slots(s, n as int) =~= Seq::<u8>::empty());
        assert(slots@ =~= outputs_slots(s, 0));
    }
    push_slice(out, slots.as_slice());
    push_slice(out, chunks_buf.as_slice());
    proof {
        assert(out@ =~= old(out)@ + spec_enc_outvec(s));
    }
}

#[verifier::rlimit(100)]
pub(crate) fn enc_tx(t: &Transaction, out: &mut Vec<u8>)
    requires
        t@.wf(),
        tx_sizes_ok(t@),
    ensures
        final(out)@ == old(out)@ + spec_enc_tx(t@),
{
    proof {
        lemma_deps_slots_len(t@.deps, 0);
        lemma_inputs_slots_len(t@.inputs, 0);
        lemma_outputs_slots_len(t@.outputs, 0);
        assert(t@.deps.len() == t.deps@.len());
        assert(t@.inputs.len() == t.inputs@.len());
        assert(t@.outputs.len() == t.outputs@.len());
    }
    let mut dvb: Vec<u8> = Vec::new();
    enc_depvec(&t.deps, &mut dvb);
    let mut ivb: Vec<u8> = Vec::new();
    enc_inpvec(&t.inputs, &mut ivb);
    let mut ovb: Vec<u8> = Vec::new();
    enc_outvec(&t.outputs, &mut ovb);
    proof {
        assert(spec_enc_tx(t@).len() == 16 + dvb@.len() + ivb@.len() + ovb@.len());
    }
    push_u32_le(out, t.version);
    push_u32_le(out, 12);
    push_u32_le(out, (8 + dvb.len()) as u32);
    push_u32_le(out, (4 + dvb.len() + ivb.len()) as u32);
    push_slice(out, dvb.as_slice());
    push_slice(out, ivb.as_slice());
    push_slice(out, ovb.as_slice());
    proof {
        assert(out@ =~= old(out)@ + spec_enc_tx(t@));
    }
}

pub(crate) fn enc_txvec(txs: &Vec<Transaction>, out: &mut Vec<u8>)
    requires
        forall|m: int| 0 <= m < txs_view(txs@).len() ==> (#[trigger] txs_view(txs@)[m]).wf(),
        forall|m: int| 0 <= m < txs_view(txs@).len() ==> spec_enc_tx(#[trigger] txs_view(txs@)[m]).len() <= u32::MAX && tx_sizes_ok(#[trigger] txs_view(txs@)[m]),
        4 * txs@.len() + txs_chunks(txs_view(txs@)).len() <= u32::MAX,
    ensures
        final(out)@ == old(out)@ + spec_enc_txvec(txs_view(txs@)),
{
    let ghost s = txs_view(txs@);
    proof {
        assert(s.len() == txs@.len());
    }
    let n = txs.len();
    push_u32_le(out, n as u32);
    let mut slots: Vec<u8> = Vec::new();
    let mut chunks_buf: Vec<u8> = Vec::new();
    let mut k: usize = 0;
    while k < n
        invariant
            s == txs_view(txs@),
            forall|m: int| 0 <= m < s.len() ==> (#[trigger] s[m]).wf(),
            forall|m: int| 0 <= m < s.len() ==> spec_enc_tx(#[trigger] s[m]).len() <= u32::MAX && tx_sizes_ok(#[trigger] s[m]),
            4 * s.len() + txs_chunks(s).len() <= u32::MAX,
            n == txs@.len(),
            s.len() == n,
            k <= n,
            chunks_buf@ == txs_chunks(s.take(k as int)),
            txs_slots(s, 0) == slots@ + txs_slots(s, k as int),
        decreases n - k,
    {
        proof {
            lemma_txs_chunk_at(s, k as int);
            assert(s[k as int] == txs@[k as int]@);
            assert((#[trigger] s[k as int]).wf());
            assert(spec_enc_tx(s[k as int]).len() <= u32::MAX);
            assert(tx_sizes_ok(s[k as int]));
        }
        let sv = 4 * (n - k) + chunks_buf.len();
        push_u32_le(&mut slots, sv as u32);
        proof {
            assert(sv == txs_slot_val(s, k as int));
            assert(slots@ + txs_slots(s, k as int + 1) =~= txs_slots(s, 0));
        }
        enc_tx(&txs[k], &mut chunks_buf);
        proof {
            lemma_txs_chunks_snoc(s, k as int);
            assert(chunks_buf@ =~= txs_chunks(s.take(k as int + 1)));
        }
        k = k + 1;
    }
    proof {
        assert(s.take(n as int) =~= s);
        assert(txs_slots(s, n as int) =~= Seq::<u8>::empty());
        assert(slots@ =~= txs_slots(s, 0));
    }
    push_slice(out, slots.as_slice());
    push_slice(out, chunks_buf.as_slice());
    proof {
        assert(out@ =~= old(out)@ + spec_enc_txvec(s));
    }
}

#[verifier::rlimit(100)]
pub(crate) fn enc_header(h: &Header, out: &mut Vec<u8>)
    requires
        h@.wf(),
        header_size_ok(h@),
    ensures
        final(out)@ == old(out)@ + spec_enc_header(h@),
{
    proof {
        assert(spec_enc_header(h@).len() == 276 + h@.seal.proof.len());
        assert(h@.seal.proof.len() == h.seal.proof@.len());
    }
    let p = h.seal.proof.len();
    push_u32_le(out, h.version);
    push_u32_le(out, 52);
    push_u64_le(out, h.timestamp);
    push_u64_le(out, h.number);
    push_u32_le(out, 68);
    push_u32_le(out, 100);
    push_u32_le(out, 132);
    push_u64_le(out, h.seal.nonce);
    push_u32_le(out, 156);
    push_u32_le(out, (156 + p) as u32);
    push_u32_le(out, (188 + p) as u32);
    push_u32_le(out, 32);
    push_slice(out, h.parent_hash.as_slice());
    push_u32_le(out, 32);
    push_slice(out, h.txs_commit.as_slice());
    push_u32_le(out, 32);
    push_slice(out, h.txs_proposal.as_slice());
    push_u32_le(out, 32);
    push_u256_be(out, h.difficulty);
    push_bytes(out, h.seal.proof.as_slice());
    push_u32_le(out, 32);
    push_slice(out, h.cellbase_id.as_slice());
    push_u32_le(out, 32);
    push_slice(out, h.uncles_hash.as_slice());
    proof {
        assert(out@ =~= old(out)@ + (spec_header_table(h@) + spec_header_objects(h@)));
    }
}

#[verifier::rlimit(100)]
pub(crate) fn enc_block(bl: &Block, out: &mut Vec<u8>)
    requires
        bl@.wf(),
        block_sizes_ok(bl@),
    ensures
        final(out)@ == old(out)@ + spec_enc_block(bl@),
{
    proof {
        lemma_txs_slots_len(bl@.transactions, 0);
        assert(bl@.transactions.len() == bl.transactions@.len());
    }
    let mut hb: Vec<u8> = Vec::new();
    enc_header(&bl.header, &mut hb);
    let mut tvb: Vec<u8> = Vec::new();
    enc_txvec(&bl.transactions, &mut tvb);
    proof {
        assert(spec_enc_block(bl@).len() == 8 + hb@.len() + tvb@.len());
    }
    push_u32_le(out, 8);
    push_u32_le(out, (4 + hb.len()) as u32);
    push_slice(out, hb.as_slice());
    push_slice(out, tvb.as_slice());
    proof {
        assert(out@ =~= old(out)@ + spec_enc_block(bl@));
    }
}

// ---------------------------------------------------------------------------
// Executable record decoders.
// ---------------------------------------------------------------------------

pub(crate) fn read_outpoint(b: &[u8], t: usize) -> (r: Result<OutPoint, DecodeError>)
    ensures
        match r {
            Ok(o) => spec_read_outpoint(b@, t as int) == Ok::<OutPointV, DecodeError>(o@)
                && o@.wf(),
            Err(e) => spec_read_outpoint(b@, t as int) == Err::<OutPointV, DecodeError>(e),
        },
{
    let (dh, _j0) = match read_u32_le(b, t) {
        Ok(p) => p,
        Err(e) => {
            return Err(e);
        },
    };
    let (x, _j1) = match read_u32_le(b, t + 4) {
        Ok(p) => p,
        Err(e) => {
            return Err(e);
        },
    };
    let h = match follow_dref(b, t, dh) {
        Ok(h) => h,
        Err(e) => {
            return Err(e);
        },
    };
    Ok(OutPoint { hash: h, index: x })
}

pub(crate) fn read_input(b: &[u8], t: usize) -> (r: Result<CellInput, DecodeError>)
    ensures
        match r {
            Ok(c) => spec_read_input(b@, t as int) == Ok::<CellInputV, DecodeError>(c@) && c@.wf(),
            Err(e) => spec_read_input(b@, t as int) == Err::<CellInputV, DecodeError>(e),
        },
{
    let (dh, _j0) = match read_u32_le(b, t) {
        Ok(p) => p,
        Err(e) => {
            return Err(e);
        },
    };
    let (x, _j1) = match read_u32_le(b, t + 4) {
        Ok(p) => p,
        Err(e) => {
            return Err(e);
        },
    };
    let (du, _j2) = match read_u32_le(b, t + 8) {
        Ok(p) => p,
        Err(e) => {
            return Err(e);
        },
    };
    let h = match follow_dref(b, t, dh) {
        Ok(h) => h,
        Err(e) => {
            return Err(e);
        },
    };
    let u = match follow_bref(b, t + 8, du) {
        Ok(u) => u,
        Err(e) => {
            return Err(e);
        },
    };
    Ok(CellInput { previous_output: OutPoint { hash: h, index: x }, unlock: u })
}

pub(crate) fn read_output(b: &[u8], t: usize) -> (r: Result<CellOutput, DecodeError>)
    ensures
        match r {
            Ok(c) => spec_read_output(b@, t as int) == Ok::<CellOutputV, DecodeError>(c@)
                && c@.wf(),
            Err(e) => spec_read_output(b@, t as int) == Err::<CellOutputV, DecodeError>(e),
        },
{
    let (cap, _j0) = match read_u64_le(b, t) {
        Ok(p) => p,
        Err(e) => {
            return Err(e);
        },
    };
    let (dd, _j1) = match read_u32_le(b, t + 8) {
        Ok(p) => p,
        Err(e) => {
            return Err(e);
        },
    };
    let (dl, _j2) = match read_u32_le(b, t + 12) {
        Ok(p) => p,
        Err(e) => {
            return Err(e);
        },
    };
    let d = match follow_bref(b, t + 8, dd) {
        Ok(d) => d,
        Err(e) => {
            return Err(e);
        },
    };
    let l = match follow_dref(b, t + 12, dl) {
        Ok(l) => l,
        Err(e) => {
            return Err(e);
        },
    };
    Ok(CellOutput { capacity: cap, data: d, lock: l })
}

pub(crate) fn read_depvec(b: &[u8], v: usize) -> (r: Result<Vec<OutPoint>, DecodeError>)
    ensures
        match r {
            Ok(es) => spec_read_depvec(b@, v as int) == Ok::<Seq<OutPointV>, DecodeError>(
                deps_view(es@),
            ) && es@.len() <= u32::MAX && (forall|m: int|
                0 <= m < es@.len() ==> (#[trigger] deps_view(es@)[m]).wf()),
            Err(e) => spec_read_depvec(b@, v as int) == Err::<Seq<OutPointV>, DecodeError>(e),
        },
{
    let (n, p0) = match read_u32_le(b, v) {
        Ok(p) => p,
        Err(e) => {
            return Err(e);
        },
    };
    let mut acc: Vec<OutPoint> = Vec::new();
    let mut cur: usize = p0;
    let mut k: u32 = 0;
    proof {
        assert(deps_view(acc@) =~= Seq::<OutPointV>::empty());
    }
    while k < n
        invariant
            k <= n,
            spec_read_u32(b@, v as int) == Ok::<(u32, int), DecodeError>((n, p0 as int)),
            p0 + 4 * k == cur,
            cur <= b@.len(),
            acc@.len() == k,
            spec_read_dep_elems(b@, p0 as int, k as nat) == Ok::<Seq<OutPointV>, DecodeError>(
                deps_view(acc@),
            ),
            forall|m: int| 0 <= m < acc@.len() ==> (#[trigger] deps_view(acc@)[m]).wf(),
        decreases n - k,
    {
        let (d, c4) = match read_u32_le(b, cur) {
            Ok(p) => p,
            Err(e) => {
                proof {
                    lemma_read_deps_elems_concat(b@, p0 as int, deps_view(acc@), (n - k) as nat);
                }
                return Err(e);
            },
        };
        if d == 0 {
            proof {
                lemma_read_deps_elems_concat(b@, p0 as int, deps_view(acc@), (n - k) as nat);
            }
            return Err(DecodeError::MissingField);
        }
        if !(d as usize <= b.len() && cur <= b.len() - d as usize) {
            proof {
                lemma_read_deps_elems_concat(b@, p0 as int, deps_view(acc@), (n - k) as nat);
                assert(spec_read_outpoint(b@, cur + d) == Err::<OutPointV, DecodeError>(
                    DecodeError::TooShort,
                ));
            }
            return Err(DecodeError::TooShort);
        }
        match read_outpoint(b, cur + d as usize) {
            Ok(o) => {
                proof {
                    lemma_read_deps_elems_concat(b@, p0 as int, deps_view(acc@), 1);
                    assert(spec_read_dep_elems(b@, cur as int + 4, 0) == Ok::<
                        Seq<OutPointV>,
                        DecodeError,
                    >(Seq::empty()));
                    assert(seq![o@] + Seq::<OutPointV>::empty() =~= seq![o@]);
                    assert(deps_view(acc@.push(o)) =~= deps_view(acc@) + seq![o@]);
                }
                acc.push(o);
                cur = c4;
                k = k + 1;
            },
            Err(e) => {
                proof {
                    lemma_read_deps_elems_concat(b@, p0 as int, deps_view(acc@), (n - k) as nat);
                }
                return Err(e);
            },
        }
    }
    Ok(acc)
}

pub(crate) fn read_inpvec(b: &[u8], v: usize) -> (r: Result<Vec<CellInput>, DecodeError>)
    ensures
        match r {
            Ok(es) => spec_read_inpvec(b@, v as int) == Ok::<Seq<CellInputV>, DecodeError>(
                inputs_view(es@),
            ) && es@.len() <= u32::MAX && (forall|m: int|
                0 <= m < es@.len() ==> (#[trigger] inputs_view(es@)[m]).wf()),
            Err(e) => spec_read_inpvec(b@, v as int) == Err::<Seq<CellInputV>, DecodeError>(e),
        },
{
    let (n, p0) = match read_u32_le(b, v) {
        Ok(p) => p,
        Err(e) => {
            return Err(e);
        },
    };
    let mut acc: Vec<CellInput> = Vec::new();
    let mut cur: usize = p0;
    let mut k: u32 = 0;
    proof {
        assert(inputs_view(acc@) =~= Seq::<CellInputV>::empty());
    }
    while k < n
        invariant
            k <= n,
            spec_read_u32(b@, v as int) == Ok::<(u32, int), DecodeError>((n, p0 as int)),
            p0 + 4 * k == cur,
            cur <= b@.len(),
            acc@.len() == k,
            spec_read_input_elems(b@, p0 as int, k as nat) == Ok::<Seq<CellInputV>, DecodeError>(
                inputs_view(acc@),
            ),
            forall|m: int| 0 <= m < acc@.len() ==> (#[trigger] inputs_view(acc@)[m]).wf(),
        decreases n - k,
    {
        let (d, c4) = match read_u32_le(b, cur) {
            Ok(p) => p,
            Err(e) => {
                proof {
                    lemma_read_inputs_elems_concat(b@, p0 as int, inputs_view(acc@), (n - k) as nat);
                }
                return Err(e);
            },
        };
        if d == 0 {
            proof {
                lemma_read_inputs_elems_concat(b@, p0 as int, inputs_view(acc@), (n - k) as nat);
            }
            return Err(DecodeError::MissingField);
        }
        if !(d as usize <= b.len() && cur <= b.len() - d as usize) {
            proof {
                lemma_read_inputs_elems_concat(b@, p0 as int, inputs_view(acc@), (n - k) as nat);
                assert(spec_read_input(b@, cur + d) == Err::<CellInputV, DecodeError>(
                    DecodeError::TooShort,
                ));
            }
            return Err(DecodeError::TooShort);
        }
        match read_input(b, cur + d as usize) {
            Ok(o) => {
                proof {
                    lemma_read_inputs_elems_concat(b@, p0 as int, inputs_view(acc@), 1);
                    assert(spec_read_input_elems(b@, cur as int + 4, 0) == Ok::<
                        Seq<CellInputV>,
                        DecodeError,
                    >(Seq::empty()));
                    assert(seq![o@] + Seq::<CellInputV>::empty() =~= seq![o@]);
                    assert(inputs_view(acc@.push(o)) =~= inputs_view(acc@) + seq![o@]);
                }
                acc.push(o);
                cur = c4;
                k = k + 1;
            },
            Err(e) => {
                proof {
                    lemma_read_inputs_elems_concat(b@, p0 as int, inputs_view(acc@), (n - k) as nat);
                }
                return Err(e);
            },
        }
    }
    Ok(acc)
}

pub(crate) fn read_outvec(b: &[u8], v: usize) -> (r: Result<Vec<CellOutput>, DecodeError>)
    ensures
        match r {
            Ok(es) => spec_read_outvec(b@, v as int) == Ok::<Seq<CellOutputV>, DecodeError>(
                outputs_view(es@),
            ) && es@.len() <= u32::MAX && (forall|m: int|
                0 <= m < es@.len() ==> (#[trigger] outputs_view(es@)[m]).wf()),
            Err(e) => spec_read_outvec(b@, v as int) == Err::<Seq<CellOutputV>, DecodeError>(e),
        },
{
    let (n, p0) = match read_u32_le(b, v) {
        Ok(p) => p,
        Err(e) => {
            return Err(e);
        },
    };
    let mut acc: Vec<CellOutput> = Vec::new();
    let mut cur: usize = p0;
    let mut k: u32 = 0;
    proof {
        assert(outputs_view(acc@) =~= Seq::<CellOutputV>::empty());
    }
    while k < n
        invariant
            k <= n,
            spec_read_u32(b@, v as int) == Ok::<(u32, int), DecodeError>((n, p0 as int)),
            p0 + 4 * k == cur,
            cur <= b@.len(),
            acc@.len() == k,
            spec_read_output_elems(b@, p0 as int, k as nat) == Ok::<Seq<CellOutputV>, DecodeError>(
                outputs_view(acc@),
            ),
            forall|m: int| 0 <= m < acc@.len() ==> (#[trigger] outputs_view(acc@)[m]).wf(),
        decreases n - k,
    {
        let (d, c4) = match read_u32_le(b, cur) {
            Ok(p) => p,
            Err(e) => {
                proof {
                    lemma_read_outputs_elems_concat(b@, p0 as int, outputs_view(acc@), (n - k) as nat);
                }
                return Err(e);
            },
        };
        if d == 0 {
            proof {
                lemma_read_outputs_elems_concat(b@, p0 as int, outputs_view(acc@), (n - k) as nat);
            }
            return Err(DecodeError::MissingField);
        }
        if !(d as usize <= b.len() && cur <= b.len() - d as usize) {
            proof {
                lemma_read_outputs_elems_concat(b@, p0 as int, outputs_view(acc@), (n - k) as nat);
                assert(spec_read_output(b@, cur + d) == Err::<CellOutputV, DecodeError>(
                    DecodeError::TooShort,
                ));
            }
            return Err(DecodeError::TooShort);
        }
        match read_output(b, cur + d as usize) {
            Ok(o) => {
                proof {
                    lemma_read_outputs_elems_concat(b@, p0 as int, outputs_view(acc@), 1);
                    assert(spec_read_output_elems(b@, cur as int + 4, 0) == Ok::<
                        Seq<CellOutputV>,
                        DecodeError,
                    >(Seq::empty()));
                    assert(seq![o@] + Seq::<CellOutputV>::empty() =~= seq![o@]);
                    assert(outputs_view(acc@.push(o)) =~= outputs_view(acc@) + seq![o@]);
                }
                acc.push(o);
                cur = c4;
                k = k + 1;
            },
            Err(e) => {
                proof {
                    lemma_read_outputs_elems_concat(b@, p0 as int, outputs_view(acc@), (n - k) as nat);
                }
                return Err(e);
            },
        }
    }
    Ok(acc)
}

#[verifier::rlimit(100)]
pub(crate) fn read_tx(b: &[u8], t: usize) -> (r: Result<Transaction, DecodeError>)
    ensures
        match r {
            Ok(tx) => spec_read_tx(b@, t as int) == Ok::<TransactionV, DecodeError>(tx@)
                && tx@.wf(),
            Err(e) => spec_read_tx(b@, t as int) == Err::<TransactionV, DecodeError>(e),
        },
{
    proof {
        reveal(spec_read_tx);
    }
    let (v, _j0) = match read_u32_le(b, t) {
        Ok(p) => p,
        Err(e) => {
            return Err(e);
        },
    };
    let (dd, _j1) = match read_u32_le(b, t + 4) {
        Ok(p) => p,
        Err(e) => {
            return Err(e);
        },
    };
    let (di, _j2) = match read_u32_le(b, t + 8) {
        Ok(p) => p,
        Err(e) => {
            return Err(e);
        },
    };
    let (dout, _j3) = match read_u32_le(b, t + 12) {
        Ok(p) => p,
        Err(e) => {
            return Err(e);
        },
    };
    if dd == 0 || di == 0 || dout == 0 {
        return Err(DecodeError::MissingField);
    }
    let ds = if dd as usize <= b.len() && t + 4 <= b.len() - dd as usize {
        match read_depvec(b, t + 4 + dd as usize) {
            Ok(p) => p,
            Err(e) => {
                return Err(e);
            },
        }
    } else {
        return Err(DecodeError::TooShort);
    };
    let is_ = if di as usize <= b.len() && t + 8 <= b.len() - di as usize {
        match read_inpvec(b, t + 8 + di as usize) {
            Ok(p) => p,
            Err(e) => {
                return Err(e);
            },
        }
    } else {
        return Err(DecodeError::TooShort);
    };
    let os = if dout as usize <= b.len() && t + 12 <= b.len() - dout as usize {
        match read_outvec(b, t + 12 + dout as usize) {
            Ok(p) => p,
            Err(e) => {
                return Err(e);
            },
        }
    } else {
        return Err(DecodeError::TooShort);
    };
    let tx = Transaction { version: v, deps: ds, inputs: is_, outputs: os };
    proof {
        assert(spec_read_tx(b@, t as int)->Ok_0 =~= tx@);
    }
    Ok(tx)
}

pub(crate) fn read_txvec(b: &[u8], v: usize) -> (r: Result<Vec<Transaction>, DecodeError>)
    ensures
        match r {
            Ok(es) => spec_read_txvec(b@, v as int) == Ok::<Seq<TransactionV>, DecodeError>(
                txs_view(es@),
            ) && es@.len() <= u32::MAX && (forall|m: int|
                0 <= m < es@.len() ==> (#[trigger] txs_view(es@)[m]).wf()),
            Err(e) => spec_read_txvec(b@, v as int) == Err::<Seq<TransactionV>, DecodeError>(e),
        },
{
    let (n, p0) = match read_u32_le(b, v) {
        Ok(p) => p,
        Err(e) => {
            return Err(e);
        },
    };
    let mut acc: Vec<Transaction> = Vec::new();
    let mut cur: usize = p0;
    let mut k: u32 = 0;
    proof {
        assert(txs_view(acc@) =~= Seq::<TransactionV>::empty());
    }
    while k < n
        invariant
            k <= n,
            spec_read_u32(b@, v as int) == Ok::<(u32, int), DecodeError>((n, p0 as int)),
            p0 + 4 * k == cur,
            cur <= b@.len(),
            acc@.len() == k,
            spec_read_tx_elems(b@, p0 as int, k as nat) == Ok::<Seq<TransactionV>, DecodeError>(
                txs_view(acc@),
            ),
            forall|m: int| 0 <= m < acc@.len() ==> (#[trigger] txs_view(acc@)[m]).wf(),
        decreases n - k,
    {
        let (d, c4) = match read_u32_le(b, cur) {
            Ok(p) => p,
            Err(e) => {
                proof {
                    lemma_read_txs_elems_concat(b@, p0 as int, txs_view(acc@), (n - k) as nat);
                }
                return Err(e);
            },
        };
        if d == 0 {
            proof {
                lemma_read_txs_elems_concat(b@, p0 as int, txs_view(acc@), (n - k) as nat);
            }
            return Err(DecodeError::MissingField);
        }
        if !(d as usize <= b.len() && cur <= b.len() - d as usize) {
            proof {
                lemma_read_txs_elems_concat(b@, p0 as int, txs_view(acc@), (n - k) as nat);
                reveal(spec_read_tx);
                assert(spec_read_tx(b@, cur + d) == Err::<TransactionV, DecodeError>(
                    DecodeError::TooShort,
                ));
            }
            return Err(DecodeError::TooShort);
        }
        match read_tx(b, cur + d as usize) {
            Ok(tx) => {
                proof {
                    lemma_read_txs_elems_concat(b@, p0 as int, txs_view(acc@), 1);
                    assert(spec_read_tx_elems(b@, cur as int + 4, 0) == Ok::<
                        Seq<TransactionV>,
                        DecodeError,
                    >(Seq::empty()));
                    assert(seq![tx@] + Seq::<TransactionV>::empty() =~= seq![tx@]);
                    assert(txs_view(acc@.push(tx)) =~= txs_view(acc@) + seq![tx@]);
                }
                acc.push(tx);
                cur = c4;
                k = k + 1;
            },
            Err(e) => {
                proof {
                    lemma_read_txs_elems_concat(b@, p0 as int, txs_view(acc@), (n - k) as nat);
                }
                return Err(e);
            },
        }
    }
    Ok(acc)
}

#[verifier::rlimit(100)]
pub(crate) fn read_header(b: &[u8], t: usize) -> (r: Result<Header, DecodeError>)
    ensures
        match r {
            Ok(h) => spec_read_header(b@, t as int) == Ok::<HeaderV, DecodeError>(h@) && h@.wf(),
            Err(e) => spec_read_header(b@, t as int) == Err::<HeaderV, DecodeError>(e),
        },
{
    proof {
        reveal(spec_read_header);
    }
    let (v, _q0) = match read_u32_le(b, t) {
        Ok(p) => p,
        Err(e) => {
            return Err(e);
        },
    };
    let (dp, _q1) = match read_u32_le(b, t + 4) {
        Ok(p) => p,
        Err(e) => {
            return Err(e);
        },
    };
    let (ts, _q2) = match read_u64_le(b, t + 8) {
        Ok(p) => p,
        Err(e) => {
            return Err(e);
        },
    };
    let (num, _q3) = match read_u64_le(b, t + 16) {
        Ok(p) => p,
        Err(e) => {
            return Err(e);
        },
    };
    let (dc, _q4) = match read_u32_le(b, t + 24) {
        Ok(p) => p,
        Err(e) => {
            return Err(e);
        },
    };
    let (dpr, _q5) = match read_u32_le(b, t + 28) {
        Ok(p) => p,
        Err(e) => {
            return Err(e);
        },
    };
    let (dd, _q6) = match read_u32_le(b, t + 32) {
        Ok(p) => p,
        Err(e) => {
            return Err(e);
        },
    };
    let (nonce, _q7) = match read_u64_le(b, t + 36) {
        Ok(p) => p,
        Err(e) => {
            return Err(e);
        },
    };
    let (dpf, _q8) = match read_u32_le(b, t + 44) {
        Ok(p) => p,
        Err(e) => {
            return Err(e);
        },
    };
    let (dcb, _q9) = match read_u32_le(b, t + 48) {
        Ok(p) => p,
        Err(e) => {
            return Err(e);
        },
    };
    let (dun, _q10) = match read_u32_le(b, t + 52) {
        Ok(p) => p,
        Err(e) => {
            return Err(e);
        },
    };
    let ph = match follow_dref(b, t + 4, dp) {
        Ok(h) => h,
        Err(e) => {
            return Err(e);
        },
    };
    let tc = match follow_dref(b, t + 24, dc) {
        Ok(h) => h,
        Err(e) => {
            return Err(e);
        },
    };
    let tp = match follow_dref(b, t + 28, dpr) {
        Ok(h) => h,
        Err(e) => {
            return Err(e);
        },
    };
    let d = match follow_uref(b, t + 32, dd) {
        Ok(x) => x,
        Err(e) => {
            return Err(e);
        },
    };
    let pf = match follow_bref(b, t + 44, dpf) {
        Ok(s) => s,
        Err(e) => {
            return Err(e);
        },
    };
    let ci = match follow_dref(b, t + 48, dcb) {
        Ok(h) => h,
        Err(e) => {
            return Err(e);
        },
    };
    let uh = match follow_dref(b, t + 52, dun) {
        Ok(h) => h,
        Err(e) => {
            return Err(e);
        },
    };
    let h = Header {
        version: v,
        parent_hash: ph,
        timestamp: ts,
        number: num,
        txs_commit: tc,
        txs_proposal: tp,
        difficulty: d,
        cellbase_id: ci,
        uncles_hash: uh,
        seal: Seal { nonce, proof: pf },
    };
    proof {
        assert(spec_read_header(b@, t as int)->Ok_0 =~= h@);
    }
    Ok(h)
}

pub(crate) fn read_block(b: &[u8], t: usize) -> (r: Result<Block, DecodeError>)
    ensures
        match r {
            Ok(bl) => spec_read_block(b@, t as int) == Ok::<BlockV, DecodeError>(bl@) && bl@.wf(),
            Err(e) => spec_read_block(b@, t as int) == Err::<BlockV, DecodeError>(e),
        },
{
    proof {
        reveal(spec_read_block);
    }
    let (dh, _q0) = match read_u32_le(b, t) {
        Ok(p) => p,
        Err(e) => {
            return Err(e);
        },
    };
    let (dt, _q1) = match read_u32_le(b, t + 4) {
        Ok(p) => p,
        Err(e) => {
            return Err(e);
        },
    };
    if dh == 0 || dt == 0 {
        return Err(DecodeError::MissingField);
    }
    let h = if dh as usize <= b.len() && t <= b.len() - dh as usize {
        match read_header(b, t + dh as usize) {
            Ok(h) => h,
            Err(e) => {
                return Err(e);
            },
        }
    } else {
        proof {
            reveal(spec_read_header);
        }
        return Err(DecodeError::TooShort);
    };
    let ts = if dt as usize <= b.len() && t + 4 <= b.len() - dt as usize {
        match read_txvec(b, t + 4 + dt as usize) {
            Ok(ts) => ts,
            Err(e) => {
                return Err(e);
            },
        }
    } else {
        return Err(DecodeError::TooShort);
    };
    let bl = Block { header: h, transactions: ts };
    proof {
        assert(spec_read_block(b@, t as int)->Ok_0 =~= bl@);
    }
    Ok(bl)
}

// ---------------------------------------------------------------------------
// The adapter surface.
// ---------------------------------------------------------------------------

impl Header {
    /// Encode this header in the offset-based layout, root slot first.
    pub fn to_flatbuffers(&self) -> (r: Vec<u8>)
        requires
            self@.wf(),
            header_size_ok(self@),
        ensures
            r@ == spec_enc_root_header(self@),
    {
        let mut out: Vec<u8> = Vec::new();
        push_u32_le(&mut out, 4);
        enc_header(self, &mut out);
        proof {
            assert(out@ =~= spec_enc_root_header(self@));
        }
        out
    }

    /// Decode an offset-based header buffer.
    pub fn from_flatbuffers(data: &[u8]) -> (r: Result<Header, DecodeError>)
        ensures
            match r {
                Ok(h) => spec_read_root_header(data@) == Ok::<HeaderV, DecodeError>(h@) && h@.wf(),
                Err(e) => spec_read_root_header(data@) == Err::<HeaderV, DecodeError>(e),
            },
    {
        let (d, _q) = match read_u32_le(data, 0) {
            Ok(p) => p,
            Err(e) => {
                return Err(e);
            },
        };
        if d == 0 {
            return Err(DecodeError::MissingField);
        }
        if d as usize > data.len() {
            proof {
                reveal(spec_read_header);
            }
            return Err(DecodeError::TooShort);
        }
        match read_header(data, d as usize) {
            Ok(h) => Ok(h),
            Err(e) => Err(e),
        }
    }
}

impl Block {
    /// Encode this block in the offset-based layout, root slot first.
    pub fn to_flatbuffers(&self) -> (r: Vec<u8>)
        requires
            self@.wf(),
            block_sizes_ok(self@),
        ensures
            r@ == spec_enc_root_block(self@),
    {
        let mut out: Vec<u8> = Vec::new();
        push_u32_le(&mut out, 4);
        enc_block(self, &mut out);
        proof {
            assert(out@ =~= spec_enc_root_block(self@));
        }
        out
    }

    /// Decode an offset-based block buffer.
    pub fn from_flatbuffers(data: &[u8]) -> (r: Result<Block, DecodeError>)
        ensures
            match r {
                Ok(bl) => spec_read_root_block(data@) == Ok::<BlockV, DecodeError>(bl@)
                    && bl@.wf(),
                Err(e) => spec_read_root_block(data@) == Err::<BlockV, DecodeError>(e),
            },
    {
        let (d, _q) = match read_u32_le(data, 0) {
            Ok(p) => p,
            Err(e) => {
                return Err(e);
            },
        };
        if d == 0 {
            return Err(DecodeError::MissingField);
        }
        if d as usize > data.len() {
            proof {
                reveal(spec_read_block);
            }
            return Err(DecodeError::TooShort);
        }
        match read_block(data, d as usize) {
            Ok(bl) => Ok(bl),
            Err(e) => Err(e),
        }
    }
}

} // verus!
