use serde_bench::{Block, CellInput, CellOutput, Header, OutPoint, Transaction, U256};

fn sample_header() -> Header {
    Header::random()
}

fn tx_with_version(version: u32) -> Transaction {
    Transaction {
        version,
        deps: vec![OutPoint::random()],
        inputs: vec![CellInput::random()],
        outputs: vec![CellOutput::random()],
    }
}

#[test]
fn difficulty_round_trip_zero() {
    let zero = U256 {
        w0: 0,
        w1: 0,
        w2: 0,
        w3: 0,
    };
    let bytes = zero.to_be_bytes();
    assert_eq!(bytes, vec![0u8; 32]);
    let (back, _) = serde_bench::model::read_u256_be(&bytes, 0).unwrap();
    assert_eq!(back, zero);
}

#[test]
fn difficulty_round_trip_max() {
    let max = U256 {
        w0: u64::MAX,
        w1: u64::MAX,
        w2: u64::MAX,
        w3: u64::MAX,
    };
    let bytes = max.to_be_bytes();
    assert_eq!(bytes, vec![0xffu8; 32]);
    let (back, _) = serde_bench::model::read_u256_be(&bytes, 0).unwrap();
    assert_eq!(back, max);
}

#[test]
fn difficulty_round_trip_mid() {
    let mid = U256 {
        w0: 0x0123_4567_89ab_cdef,
        w1: 0xfedc_ba98_7654_3210,
        w2: 0x0f0e_0d0c_0b0a_0908,
        w3: 0x0102_0304_0506_0708,
    };
    let bytes = mid.to_be_bytes();
    let (back, _) = serde_bench::model::read_u256_be(&bytes, 0).unwrap();
    assert_eq!(back, mid);
}

#[test]
fn difficulty_bytes_match_bigint() {
    let value = U256 {
        w0: 0x1111_2222_3333_4444,
        w1: 0x5555_6666_7777_8888,
        w2: 0x9999_aaaa_bbbb_cccc,
        w3: 0xdddd_eeee_ff00_1122,
    };
    let reference = bigint::U256([value.w0, value.w1, value.w2, value.w3]);
    let expected: [u8; 32] = reference.into();
    assert_eq!(value.to_be_bytes(), expected.to_vec());
}

#[test]
fn transaction_order_is_preserved() {
    let block = Block {
        header: sample_header(),
        transactions: vec![tx_with_version(1), tx_with_version(2), tx_with_version(3)],
    };
    let versions = |b: &Block| -> Vec<u32> { b.transactions.iter().map(|t| t.version).collect() };
    assert_eq!(
        versions(&Block::from_fixed(&block.to_fixed()).unwrap()),
        vec![1, 2, 3]
    );
    assert_eq!(
        versions(&Block::from_protobuf(&block.to_protobuf()).unwrap()),
        vec![1, 2, 3]
    );
    assert_eq!(
        versions(&Block::from_molecule(&block.to_molecule()).unwrap()),
        vec![1, 2, 3]
    );
    assert_eq!(
        versions(&Block::from_flatbuffers(&block.to_flatbuffers()).unwrap()),
        vec![1, 2, 3]
    );
}

#[test]
fn empty_block_round_trips_in_every_format() {
    let block = Block::random(0, 0);
    assert_eq!(block, Block::from_fixed(&block.to_fixed()).unwrap());
    assert_eq!(block, Block::from_protobuf(&block.to_protobuf()).unwrap());
    assert_eq!(block, Block::from_molecule(&block.to_molecule()).unwrap());
    assert_eq!(
        block,
        Block::from_flatbuffers(&block.to_flatbuffers()).unwrap()
    );
}

#[test]
fn empty_transaction_round_trips_in_every_format() {
    let block = Block::random(1, 0);
    assert!(block.transactions[0].deps.is_empty());
    assert!(block.transactions[0].inputs.is_empty());
    assert!(block.transactions[0].outputs.is_empty());
    assert_eq!(block, Block::from_fixed(&block.to_fixed()).unwrap());
    assert_eq!(block, Block::from_protobuf(&block.to_protobuf()).unwrap());
    assert_eq!(block, Block::from_molecule(&block.to_molecule()).unwrap());
    assert_eq!(
        block,
        Block::from_flatbuffers(&block.to_flatbuffers()).unwrap()
    );
}

#[test]
fn all_formats_recover_the_same_header() {
    let header = sample_header();
    let a = Header::from_fixed(&header.to_fixed()).unwrap();
    let b = Header::from_protobuf(&header.to_protobuf()).unwrap();
    let c = Header::from_molecule(&header.to_molecule()).unwrap();
    let d = Header::from_flatbuffers(&header.to_flatbuffers()).unwrap();
    assert_eq!(a, b);
    assert_eq!(b, c);
    assert_eq!(c, d);
    assert_eq!(a, header);
}

#[test]
fn generated_values_stay_in_their_ranges() {
    for _ in 0..32 {
        let h = Header::random();
        assert!(h.version >= 1 && h.version < 10);
        assert!(h.timestamp >= 1_500_000_000 && h.timestamp < 1_600_000_000);
        assert!(h.number < 100_000);
        assert!(h.seal.nonce < 100_000);
        assert_eq!(h.parent_hash.len(), 32);
        assert_eq!(h.seal.proof.len(), 32);
        let o = OutPoint::random();
        assert!(o.index >= 1 && o.index < 10);
        let c = CellOutput::random();
        assert!(c.capacity >= 600 && c.capacity < 1000);
        assert_eq!(c.data.len(), 600);
        let i = CellInput::random();
        assert_eq!(i.unlock.len(), 100);
    }
}
