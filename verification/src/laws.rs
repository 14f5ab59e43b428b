//! The laws the library guarantees, stated once over the format
//! specifications and proved from the per-format lemmas: decoding an encoding
//! yields the original value in every format, transaction order is preserved,
//! the 256-bit difficulty survives its 32-byte big-endian form, all four
//! formats agree on the recovered value, and the fixed layout rejects a
//! buffer only by truncation.

use vstd::prelude::*;

use crate::errors::DecodeError;
use crate::fixed;
use crate::model::{
    lemma_read_u256_of_enc, spec_u256_be, spec_u256_be_at, BlockV, HeaderV, U256,
};
use crate::proto;
use crate::table;
use crate::tagged;

verus! {

// ---------------------------------------------------------------------------
// Round trips: decoding what was encoded yields the original, format by
// format, for headers and for whole blocks with all their nested sequences.
// ---------------------------------------------------------------------------

/// Fixed layout: decode of encode is the identity on headers.
pub proof fn lemma_round_trip_header_fixed(h: HeaderV)
    requires
        h.wf(),
    ensures
        fixed::spec_read_header(fixed::spec_enc_header(h), 0) == Ok::<(HeaderV, int), DecodeError>(
            (h, fixed::spec_enc_header(h).len() as int),
        ),
{
    let e = fixed::spec_enc_header(h);
    assert(e.subrange(0, e.len() as int) =~= e);
    fixed::lemma_read_header_of_enc(e, 0, h);
}

/// Fixed layout: decode of encode is the identity on blocks.
pub proof fn lemma_round_trip_block_fixed(bl: BlockV)
    requires
        bl.wf(),
    ensures
        fixed::spec_read_block(fixed::spec_enc_block(bl), 0) == Ok::<(BlockV, int), DecodeError>(
            (bl, fixed::spec_enc_block(bl).len() as int),
        ),
{
    let e = fixed::spec_enc_block(bl);
    assert(e.subrange(0, e.len() as int) =~= e);
    fixed::lemma_read_block_of_enc(e, 0, bl);
}

/// Tag-prefixed layout: decode of encode is the identity on headers.
pub proof fn lemma_round_trip_header_proto(h: HeaderV)
    requires
        h.wf(),
    ensures
        proto::spec_read_header(proto::spec_enc_header(h), 0) == Ok::<(HeaderV, int), DecodeError>(
            (h, proto::spec_enc_header(h).len() as int),
        ),
{
    let e = proto::spec_enc_header(h);
    assert(e.subrange(0, e.len() as int) =~= e);
    proto::lemma_read_header_of_enc(e, 0, h);
}

/// Tag-prefixed layout: decode of encode is the identity on blocks.
pub proof fn lemma_round_trip_block_proto(bl: BlockV)
    requires
        bl.wf(),
        proto::block_sizes_ok(bl),
    ensures
        proto::spec_read_block(proto::spec_enc_block(bl), 0) == Ok::<(BlockV, int), DecodeError>(
            (bl, proto::spec_enc_block(bl).len() as int),
        ),
{
    let e = proto::spec_enc_block(bl);
    assert(e.subrange(0, e.len() as int) =~= e);
    proto::lemma_read_block_of_enc(e, 0, bl);
}

/// Table-based layout: decode of encode is the identity on headers.
pub proof fn lemma_round_trip_header_table(h: HeaderV)
    requires
        h.wf(),
        table::header_size_ok(h),
    ensures
        table::spec_read_header(table::spec_enc_header(h), 0) == Ok::<(HeaderV, int), DecodeError>(
            (h, table::spec_enc_header(h).len() as int),
        ),
{
    let e = table::spec_enc_header(h);
    assert(e.subrange(0, e.len() as int) =~= e);
    table::lemma_read_header_of_enc(e, 0, h);
}

/// Table-based layout: decode of encode is the identity on blocks.
pub proof fn lemma_round_trip_block_table(bl: BlockV)
    requires
        bl.wf(),
        table::block_sizes_ok(bl),
    ensures
        table::spec_read_block(table::spec_enc_block(bl), 0) == Ok::<(BlockV, int), DecodeError>(
            (bl, table::spec_enc_block(bl).len() as int),
        ),
{
    let e = table::spec_enc_block(bl);
    assert(e.subrange(0, e.len() as int) =~= e);
    table::lemma_read_block_of_enc(e, 0, bl);
}

/// Offset-based layout: decode of encode is the identity on headers.
pub proof fn lemma_round_trip_header_tagged(h: HeaderV)
    requires
        h.wf(),
        tagged::header_size_ok(h),
    ensures
        tagged::spec_read_root_header(tagged::spec_enc_root_header(h)) == Ok::<
            HeaderV,
            DecodeError,
        >(h),
{
    let e = tagged::spec_enc_root_header(h);
    assert(e.subrange(0, e.len() as int) =~= e);
    tagged::lemma_read_root_header_of_enc(e, h);
}

/// Offset-based layout: decode of encode is the identity on blocks.
pub proof fn lemma_round_trip_block_tagged(bl: BlockV)
    requires
        bl.wf(),
        tagged::block_sizes_ok(bl),
    ensures
        tagged::spec_read_root_block(tagged::spec_enc_root_block(bl)) == Ok::<BlockV, DecodeError>(
            bl,
        ),
{
    let e = tagged::spec_enc_root_block(bl);
    assert(e.subrange(0, e.len() as int) =~= e);
    tagged::lemma_read_root_block_of_enc(e, bl);
}

// ---------------------------------------------------------------------------
// Sequence order: each format returns the transactions in the order they
// were encoded.
// ---------------------------------------------------------------------------

/// Decoding an encoded block yields its transactions in their original
/// order, in every format.
pub proof fn lemma_transaction_order_preserved(bl: BlockV)
    requires
        bl.wf(),
        proto::block_sizes_ok(bl),
        table::block_sizes_ok(bl),
        tagged::block_sizes_ok(bl),
    ensures
        fixed::spec_read_block(fixed::spec_enc_block(bl), 0)->Ok_0.0.transactions
            == bl.transactions,
        proto::spec_read_block(proto::spec_enc_block(bl), 0)->Ok_0.0.transactions
            == bl.transactions,
        table::spec_read_block(table::spec_enc_block(bl), 0)->Ok_0.0.transactions
            == bl.transactions,
        tagged::spec_read_root_block(tagged::spec_enc_root_block(bl))->Ok_0.transactions
            == bl.transactions,
{
    lemma_round_trip_block_fixed(bl);
    lemma_round_trip_block_proto(bl);
    lemma_round_trip_block_table(bl);
    lemma_round_trip_block_tagged(bl);
}

// ---------------------------------------------------------------------------
// The difficulty round trip.
// ---------------------------------------------------------------------------

/// Encoding a 256-bit value as its 32 big-endian bytes and reading those
/// bytes back yields exactly the value, for every value.
pub proof fn lemma_difficulty_round_trip(d: U256)
    ensures
        spec_u256_be(d).len() == 32,
        spec_u256_be_at(spec_u256_be(d), 0) == d,
{
    let e = spec_u256_be(d);
    assert(e.subrange(0, 32) =~= e);
    lemma_read_u256_of_enc(e, 0, d);
}

// ---------------------------------------------------------------------------
// Cross-format equivalence.
// ---------------------------------------------------------------------------

/// All four formats preserve the same canonical header: for one header, the
/// decode-of-encode result of any two formats is the same value.
pub proof fn lemma_cross_format_header(h: HeaderV)
    requires
        h.wf(),
        table::header_size_ok(h),
        tagged::header_size_ok(h),
    ensures
        fixed::spec_read_header(fixed::spec_enc_header(h), 0)->Ok_0.0 == h,
        proto::spec_read_header(proto::spec_enc_header(h), 0)->Ok_0.0 == h,
        table::spec_read_header(table::spec_enc_header(h), 0)->Ok_0.0 == h,
        tagged::spec_read_root_header(tagged::spec_enc_root_header(h))->Ok_0 == h,
        fixed::spec_read_header(fixed::spec_enc_header(h), 0)->Ok_0.0
            == proto::spec_read_header(proto::spec_enc_header(h), 0)->Ok_0.0,
        proto::spec_read_header(proto::spec_enc_header(h), 0)->Ok_0.0
            == table::spec_read_header(table::spec_enc_header(h), 0)->Ok_0.0,
        table::spec_read_header(table::spec_enc_header(h), 0)->Ok_0.0
            == tagged::spec_read_root_header(tagged::spec_enc_root_header(h))->Ok_0,
{
    lemma_round_trip_header_fixed(h);
    lemma_round_trip_header_proto(h);
    lemma_round_trip_header_table(h);
    lemma_round_trip_header_tagged(h);
}

// ---------------------------------------------------------------------------
// Fixed-layout failures are truncations.
// ---------------------------------------------------------------------------

/// The fixed layout rejects a buffer only because it is too short: every
/// decode failure is `TooShort`, and a successful header read demands at
/// least the fixed minimum number of bytes.
pub proof fn lemma_fixed_rejects_only_truncation(b: Seq<u8>, i: int)
    ensures
        fixed::spec_read_header(b, i) is Err ==> fixed::spec_read_header(b, i) == Err::<
            (HeaderV, int),
            DecodeError,
        >(DecodeError::TooShort),
        fixed::spec_read_block(b, i) is Err ==> fixed::spec_read_block(b, i) == Err::<
            (BlockV, int),
            DecodeError,
        >(DecodeError::TooShort),
        fixed::spec_read_header(b, i) is Ok ==> i + fixed::HEADER_MIN_LEN <= b.len(),
{
    fixed::lemma_read_header_err(b, i);
    fixed::lemma_read_block_err(b, i);
}

} // verus!
