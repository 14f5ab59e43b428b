//! Pseudo-random instances of the data model, used as fixtures when the wire
//! formats are exercised.  Every numeric field is drawn from a named bounded
//! range and every digest is 32 independently drawn bytes.  The source of
//! randomness is not seeded, so two calls need not agree: callers check
//! properties (round trips), never exact values.

use vstd::prelude::*;

use crate::model::{
    deps_view, inputs_view, outputs_view, read_u256_be, txs_view, Block, CellInput, CellOutput,
    Header, OutPoint, Seal, Transaction, U256,
};

verus! {

pub const VERSION_MIN: u32 = 1;

pub const VERSION_END: u32 = 10;

pub const TIMESTAMP_MIN: u64 = 1500000000;

pub const TIMESTAMP_END: u64 = 1600000000;

pub const NUMBER_END: u64 = 100000;

pub const NONCE_END: u64 = 100000;

pub const INDEX_MIN: u32 = 1;

pub const INDEX_END: u32 = 10;

pub const CAPACITY_MIN: u64 = 600;

pub const CAPACITY_END: u64 = 1000;

pub const PROOF_LEN: usize = 32;

pub const UNLOCK_LEN: usize = 100;

pub const DATA_LEN: usize = 600;

/// Relies on rand::random_range: returns a value drawn from the given
/// range, which panics when the range is empty and otherwise returns a
/// member of it.
#[verifier::external_body]
fn random_u64_in(lo: u64, hi: u64) -> (r: u64)
    requires
        lo < hi,
    ensures
        lo <= r < hi,
{
    rand::random_range(lo..hi)
}

/// Relies on rand::random: any byte may come back, so nothing is promised.
#[verifier::external_body]
fn random_byte() -> u8 {
    rand::random()
}

fn random_u32_in(lo: u32, hi: u32) -> (r: u32)
    requires
        lo < hi,
    ensures
        lo <= r < hi,
{
    random_u64_in(lo as u64, hi as u64) as u32
}

fn random_bytes(n: usize) -> (r: Vec<u8>)
    ensures
        r@.len() == n,
{
    let mut v: Vec<u8> = Vec::new();
    let mut k: usize = 0;
    while k < n
        invariant
            k <= n,
            v@.len() == k,
        decreases n - k,
    {
        v.push(random_byte());
        k = k + 1;
    }
    v
}

fn random_u256() -> (d: U256)
{
    let bytes = random_bytes(32);
    match read_u256_be(bytes.as_slice(), 0) {
        Ok((d, _)) => d,
        Err(_) => {
            proof {
                assert(false);
            }
            U256 { w0: 0, w1: 0, w2: 0, w3: 0 }
        },
    }
}

impl Header {
    /// A pseudo-random header: bounded numeric fields, fresh random digests,
    /// and a 32-byte proof.
    pub fn random() -> (h: Header)
        ensures
            h@.wf(),
            VERSION_MIN <= h.version < VERSION_END,
            TIMESTAMP_MIN <= h.timestamp < TIMESTAMP_END,
            h.number < NUMBER_END,
            h.seal.nonce < NONCE_END,
            h@.seal.proof.len() == PROOF_LEN,
    {
        Header {
            version: random_u32_in(VERSION_MIN, VERSION_END),
            parent_hash: random_bytes(32),
            timestamp: random_u64_in(TIMESTAMP_MIN, TIMESTAMP_END),
            number: random_u64_in(0, NUMBER_END),
            txs_commit: random_bytes(32),
            txs_proposal: random_bytes(32),
            difficulty: random_u256(),
            cellbase_id: random_bytes(32),
            uncles_hash: random_bytes(32),
            seal: Seal { nonce: random_u64_in(0, NONCE_END), proof: random_bytes(PROOF_LEN) },
        }
    }
}

impl OutPoint {
    /// A pseudo-random out-point.
    pub fn random() -> (o: OutPoint)
        ensures
            o@.wf(),
            INDEX_MIN <= o.index < INDEX_END,
    {
        OutPoint { hash: random_bytes(32), index: random_u32_in(INDEX_MIN, INDEX_END) }
    }
}

impl CellInput {
    /// A pseudo-random input with a 100-byte unlock script.
    pub fn random() -> (c: CellInput)
        ensures
            c@.wf(),
            c@.unlock.len() == UNLOCK_LEN,
    {
        CellInput { previous_output: OutPoint::random(), unlock: random_bytes(UNLOCK_LEN) }
    }
}

impl CellOutput {
    /// A pseudo-random output with a 600-byte payload.
    pub fn random() -> (c: CellOutput)
        ensures
            c@.wf(),
            CAPACITY_MIN <= c.capacity < CAPACITY_END,
            c@.data.len() == DATA_LEN,
    {
        CellOutput {
            capacity: random_u64_in(CAPACITY_MIN, CAPACITY_END),
            data: random_bytes(DATA_LEN),
            lock: random_bytes(32),
        }
    }
}

impl Transaction {
    /// A pseudo-random transaction with `io_size` dependencies, inputs and
    /// outputs each.
    pub fn random(io_size: usize) -> (t: Transaction)
        requires
            io_size <= u32::MAX,
        ensures
            t@.wf(),
            t@.deps.len() == io_size,
            t@.inputs.len() == io_size,
            t@.outputs.len() == io_size,
            VERSION_MIN <= t.version < VERSION_END,
    {
        let mut deps: Vec<OutPoint> = Vec::new();
        let mut k: usize = 0;
        while k < io_size
            invariant
                k <= io_size,
                deps@.len() == k,
                forall|m: int| 0 <= m < deps@.len() ==> (#[trigger] deps_view(deps@)[m]).wf(),
            decreases io_size - k,
        {
            let o = OutPoint::random();
            proof {
                assert(deps_view(deps@.push(o)) =~= deps_view(deps@) + seq![o@]);
            }
            deps.push(o);
            k = k + 1;
        }
        let mut inputs: Vec<CellInput> = Vec::new();
        let mut k2: usize = 0;
        while k2 < io_size
            invariant
                k2 <= io_size,
                inputs@.len() == k2,
                forall|m: int| 0 <= m < inputs@.len() ==> (#[trigger] inputs_view(inputs@)[m]).wf(),
            decreases io_size - k2,
        {
            let c = CellInput::random();
            proof {
                assert(inputs_view(inputs@.push(c)) =~= inputs_view(inputs@) + seq![c@]);
            }
            inputs.push(c);
            k2 = k2 + 1;
        }
        let mut outputs: Vec<CellOutput> = Vec::new();
        let mut k3: usize = 0;
        while k3 < io_size
            invariant
                k3 <= io_size,
                outputs@.len() == k3,
                forall|m: int|
                    0 <= m < outputs@.len() ==> (#[trigger] outputs_view(outputs@)[m]).wf(),
            decreases io_size - k3,
        {
            let c = CellOutput::random();
            proof {
                assert(outputs_view(outputs@.push(c)) =~= outputs_view(outputs@) + seq![c@]);
            }
            outputs.push(c);
            k3 = k3 + 1;
        }
        Transaction { version: random_u32_in(VERSION_MIN, VERSION_END), deps, inputs, outputs }
    }
}

impl Block {
    /// A pseudo-random block with `transactions_size` transactions, each with
    /// `io_size` dependencies, inputs and outputs.
    pub fn random(transactions_size: usize, io_size: usize) -> (b: Block)
        requires
            transactions_size <= u32::MAX,
            io_size <= u32::MAX,
        ensures
            b@.wf(),
            b@.transactions.len() == transactions_size,
            forall|m: int|
                0 <= m < b@.transactions.len() ==> (#[trigger] b@.transactions[m]).deps.len()
                    == io_size && b@.transactions[m].inputs.len() == io_size
                    && b@.transactions[m].outputs.len() == io_size,
    {
        let header = Header::random();
        let mut txs: Vec<Transaction> = Vec::new();
        let mut k: usize = 0;
        while k < transactions_size
            invariant
                io_size <= u32::MAX,
                k <= transactions_size,
                txs@.len() == k,
                forall|m: int| 0 <= m < txs@.len() ==> (#[trigger] txs_view(txs@)[m]).wf(),
                forall|m: int|
                    0 <= m < txs@.len() ==> (#[trigger] txs_view(txs@)[m]).deps.len() == io_size
                        && txs_view(txs@)[m].inputs.len() == io_size
                        && txs_view(txs@)[m].outputs.len() == io_size,
            decreases transactions_size - k,
        {
            let t = Transaction::random(io_size);
            proof {
                assert(txs_view(txs@.push(t)) =~= txs_view(txs@) + seq![t@]);
            }
            txs.push(t);
            k = k + 1;
        }
        Block { header, transactions: txs }
    }
}

} // verus!
