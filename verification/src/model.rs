//! The canonical in-memory data model: a block header, a block, transactions
//! and their substructures.  Each type has a mathematical view, and a
//! well-formedness predicate saying that digest fields hold exactly 32 bytes
//! and that variable-length fields fit a 32-bit length prefix.

use vstd::prelude::*;

use crate::bytes::{
    push_u64_be, read_u64_be, spec_u64_be, spec_u64_be_at, lemma_subrange_split,
    lemma_read_u64_be_of_enc,
};
use crate::errors::DecodeError;

verus! {

// ---------------------------------------------------------------------------
// A 256-bit unsigned integer.
// ---------------------------------------------------------------------------

/// A 256-bit unsigned integer held as four 64-bit words, least significant
/// word first.  On the wire it always travels as its 32 big-endian bytes.
#[derive(Clone, Copy, Debug, PartialEq, Eq, Structural)]
pub struct U256 {
    pub w0: u64,
    pub w1: u64,
    pub w2: u64,
    pub w3: u64,
}

/// The 32 big-endian bytes of `d`: most significant word first.
pub open spec fn spec_u256_be(d: U256) -> Seq<u8> {
    spec_u64_be(d.w3) + spec_u64_be(d.w2) + spec_u64_be(d.w1) + spec_u64_be(d.w0)
}

/// The 256-bit integer whose big-endian bytes stand at offset `i` of `b`.
pub open spec fn spec_u256_be_at(b: Seq<u8>, i: int) -> U256
    recommends
        0 <= i,
        i + 32 <= b.len(),
{
    U256 {
        w3: spec_u64_be_at(b, i),
        w2: spec_u64_be_at(b, i + 8),
        w1: spec_u64_be_at(b, i + 16),
        w0: spec_u64_be_at(b, i + 24),
    }
}

impl U256 {
    /// The 32 big-endian bytes of this value.
    pub fn to_be_bytes(&self) -> (r: Vec<u8>)
        ensures
            r@ == spec_u256_be(*self),
            r@.len() == 32,
    {
        let mut out: Vec<u8> = Vec::new();
        push_u64_be(&mut out, self.w3);
        push_u64_be(&mut out, self.w2);
        push_u64_be(&mut out, self.w1);
        push_u64_be(&mut out, self.w0);
        proof {
            assert(out@ =~= spec_u256_be(*self));
        }
        out
    }
}

/// Append the 32 big-endian bytes of `d`.
pub fn push_u256_be(out: &mut Vec<u8>, d: U256)
    ensures
        final(out)@ == old(out)@ + spec_u256_be(d),
{
    push_u64_be(out, d.w3);
    push_u64_be(out, d.w2);
    push_u64_be(out, d.w1);
    push_u64_be(out, d.w0);
    proof {
        assert(out@ =~= old(out)@ + spec_u256_be(d));
    }
}

/// Read a 256-bit integer from its 32 big-endian bytes at offset `i`;
/// fails exactly when fewer than 32 bytes remain.
pub fn read_u256_be(b: &[u8], i: usize) -> (r: Result<(U256, usize), DecodeError>)
    ensures
        match r {
            Ok((d, j)) => i + 32 <= b@.len() && d == spec_u256_be_at(b@, i as int) && j == i + 32,
            Err(e) => i + 32 > b@.len() && e == DecodeError::TooShort,
        },
{
    if i <= b.len() && b.len() - i >= 32 {
        let (w3, j1) = match read_u64_be(b, i) {
            Ok(p) => p,
            Err(e) => {
                return Err(e);
            },
        };
        let (w2, j2) = match read_u64_be(b, j1) {
            Ok(p) => p,
            Err(e) => {
                return Err(e);
            },
        };
        let (w1, j3) = match read_u64_be(b, j2) {
            Ok(p) => p,
            Err(e) => {
                return Err(e);
            },
        };
        let (w0, j4) = match read_u64_be(b, j3) {
            Ok(p) => p,
            Err(e) => {
                return Err(e);
            },
        };
        Ok((U256 { w0, w1, w2, w3 }, j4))
    } else {
        Err(DecodeError::TooShort)
    }
}

/// Reading the 32 big-endian bytes written for `d` yields `d` again, at any
/// offset of any buffer that holds them.
pub proof fn lemma_read_u256_of_enc(b: Seq<u8>, i: int, d: U256)
    requires
        0 <= i,
        i + 32 <= b.len(),
        b.subrange(i, i + 32) == spec_u256_be(d),
    ensures
        spec_u256_be_at(b, i) == d,
{
    let e3 = spec_u64_be(d.w3);
    let e2 = spec_u64_be(d.w2);
    let e1 = spec_u64_be(d.w1);
    let e0 = spec_u64_be(d.w0);
    assert(spec_u256_be(d) =~= e3 + (e2 + (e1 + e0)));
    lemma_subrange_split(b, i, e3, e2 + (e1 + e0));
    lemma_subrange_split(b, i + 8, e2, e1 + e0);
    lemma_subrange_split(b, i + 16, e1, e0);
    lemma_read_u64_be_of_enc(b, i, d.w3);
    lemma_read_u64_be_of_enc(b, i + 8, d.w2);
    lemma_read_u64_be_of_enc(b, i + 16, d.w1);
    lemma_read_u64_be_of_enc(b, i + 24, d.w0);
}

// ---------------------------------------------------------------------------
// The domain model.
// ---------------------------------------------------------------------------

/// The proof-of-work seal of a header.
#[derive(Clone, Debug, PartialEq, Eq)]
pub struct Seal {
    pub nonce: u64,
    pub proof: Vec<u8>,
}

/// A block header.  Digest fields hold 32 bytes each.
#[derive(Clone, Debug, PartialEq, Eq)]
pub struct Header {
    pub version: u32,
    pub parent_hash: Vec<u8>,
    pub timestamp: u64,
    pub number: u64,
    pub txs_commit: Vec<u8>,
    pub txs_proposal: Vec<u8>,
    pub difficulty: U256,
    pub cellbase_id: Vec<u8>,
    pub uncles_hash: Vec<u8>,
    pub seal: Seal,
}

/// A reference to an output of an earlier transaction.
#[derive(Clone, Debug, PartialEq, Eq)]
pub struct OutPoint {
    pub hash: Vec<u8>,
    pub index: u32,
}

/// A transaction input: the output it spends and an unlock script.
#[derive(Clone, Debug, PartialEq, Eq)]
pub struct CellInput {
    pub previous_output: OutPoint,
    pub unlock: Vec<u8>,
}

/// A transaction output: its capacity, payload and lock digest.
#[derive(Clone, Debug, PartialEq, Eq)]
pub struct CellOutput {
    pub capacity: u64,
    pub data: Vec<u8>,
    pub lock: Vec<u8>,
}

/// A transaction: ordered dependencies, inputs and outputs.
#[derive(Clone, Debug, PartialEq, Eq)]
pub struct Transaction {
    pub version: u32,
    pub deps: Vec<OutPoint>,
    pub inputs: Vec<CellInput>,
    pub outputs: Vec<CellOutput>,
}

/// A block: one header and an ordered sequence of transactions.
#[derive(Clone, Debug, PartialEq, Eq)]
pub struct Block {
    pub header: Header,
    pub transactions: Vec<Transaction>,
}

// ---------------------------------------------------------------------------
// Mathematical views.
// ---------------------------------------------------------------------------

#[verifier::ext_equal]
pub struct SealV {
    pub nonce: u64,
    pub proof: Seq<u8>,
}

#[verifier::ext_equal]
pub struct HeaderV {
    pub version: u32,
    pub parent_hash: Seq<u8>,
    pub timestamp: u64,
    pub number: u64,
    pub txs_commit: Seq<u8>,
    pub txs_proposal: Seq<u8>,
    pub difficulty: U256,
    pub cellbase_id: Seq<u8>,
    pub uncles_hash: Seq<u8>,
    pub seal: SealV,
}

#[verifier::ext_equal]
pub struct OutPointV {
    pub hash: Seq<u8>,
    pub index: u32,
}

#[verifier::ext_equal]
pub struct CellInputV {
    pub previous_output: OutPointV,
    pub unlock: Seq<u8>,
}

#[verifier::ext_equal]
pub struct CellOutputV {
    pub capacity: u64,
    pub data: Seq<u8>,
    pub lock: Seq<u8>,
}

#[verifier::ext_equal]
pub struct TransactionV {
    pub version: u32,
    pub deps: Seq<OutPointV>,
    pub inputs: Seq<CellInputV>,
    pub outputs: Seq<CellOutputV>,
}

#[verifier::ext_equal]
pub struct BlockV {
    pub header: HeaderV,
    pub transactions: Seq<TransactionV>,
}

impl View for Seal {
    type V = SealV;

    open spec fn view(&self) -> SealV {
        SealV { nonce: self.nonce, proof: self.proof@ }
    }
}

impl View for Header {
    type V = HeaderV;

    open spec fn view(&self) -> HeaderV {
        HeaderV {
            version: self.version,
            parent_hash: self.parent_hash@,
            timestamp: self.timestamp,
            number: self.number,
            txs_commit: self.txs_commit@,
            txs_proposal: self.txs_proposal@,
            difficulty: self.difficulty,
            cellbase_id: self.cellbase_id@,
            uncles_hash: self.uncles_hash@,
            seal: self.seal@,
        }
    }
}

impl View for OutPoint {
    type V = OutPointV;

    open spec fn view(&self) -> OutPointV {
        OutPointV { hash: self.hash@, index: self.index }
    }
}

impl View for CellInput {
    type V = CellInputV;

    open spec fn view(&self) -> CellInputV {
        CellInputV { previous_output: self.previous_output@, unlock: self.unlock@ }
    }
}

impl View for CellOutput {
    type V = CellOutputV;

    open spec fn view(&self) -> CellOutputV {
        CellOutputV { capacity: self.capacity, data: self.data@, lock: self.lock@ }
    }
}

/// The views of a sequence of out-points, element by element.
pub open spec fn deps_view(s: Seq<OutPoint>) -> Seq<OutPointV> {
    s.map_values(|o: OutPoint| o@)
}

/// The views of a sequence of inputs, element by element.
pub open spec fn inputs_view(s: Seq<CellInput>) -> Seq<CellInputV> {
    s.map_values(|c: CellInput| c@)
}

/// The views of a sequence of outputs, element by element.
pub open spec fn outputs_view(s: Seq<CellOutput>) -> Seq<CellOutputV> {
    s.map_values(|c: CellOutput| c@)
}

/// The views of a sequence of transactions, element by element.
pub open spec fn txs_view(s: Seq<Transaction>) -> Seq<TransactionV> {
    s.map_values(|t: Transaction| t@)
}

impl View for Transaction {
    type V = TransactionV;

    open spec fn view(&self) -> TransactionV {
        TransactionV {
            version: self.version,
            deps: deps_view(self.deps@),
            inputs: inputs_view(self.inputs@),
            outputs: outputs_view(self.outputs@),
        }
    }
}

impl View for Block {
    type V = BlockV;

    open spec fn view(&self) -> BlockV {
        BlockV { header: self.header@, transactions: txs_view(self.transactions@) }
    }
}

// ---------------------------------------------------------------------------
// Well-formedness: digests hold 32 bytes; variable-length data fits a 32-bit
// length prefix.
// ---------------------------------------------------------------------------

impl SealV {
    pub open spec fn wf(self) -> bool {
        self.proof.len() <= u32::MAX
    }
}

impl HeaderV {
    pub open spec fn wf(self) -> bool {
        &&& self.parent_hash.len() == 32
        &&& self.txs_commit.len() == 32
        &&& self.txs_proposal.len() == 32
        &&& self.cellbase_id.len() == 32
        &&& self.uncles_hash.len() == 32
        &&& self.seal.wf()
    }
}

impl OutPointV {
    pub open spec fn wf(self) -> bool {
        self.hash.len() == 32
    }
}

impl CellInputV {
    pub open spec fn wf(self) -> bool {
        &&& self.previous_output.wf()
        &&& self.unlock.len() <= u32::MAX
    }
}

impl CellOutputV {
    pub open spec fn wf(self) -> bool {
        &&& self.data.len() <= u32::MAX
        &&& self.lock.len() == 32
    }
}

impl TransactionV {
    pub open spec fn wf(self) -> bool {
        &&& self.deps.len() <= u32::MAX
        &&& self.inputs.len() <= u32::MAX
        &&& self.outputs.len() <= u32::MAX
        &&& forall|k: int| 0 <= k < self.deps.len() ==> (#[trigger] self.deps[k]).wf()
        &&& forall|k: int| 0 <= k < self.inputs.len() ==> (#[trigger] self.inputs[k]).wf()
        &&& forall|k: int| 0 <= k < self.outputs.len() ==> (#[trigger] self.outputs[k]).wf()
    }
}

impl BlockV {
    pub open spec fn wf(self) -> bool {
        &&& self.header.wf()
        &&& self.transactions.len() <= u32::MAX
        &&& forall|k: int|
            0 <= k < self.transactions.len() ==> (#[trigger] self.transactions[k]).wf()
    }
}

} // verus!
