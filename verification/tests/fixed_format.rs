use serde_bench::{Block, DecodeError, Header};

#[test]
fn fixed_ser_de_header() {
    let header = Header::random();
    let data = header.to_fixed();
    assert_eq!(header, Header::from_fixed(&data).unwrap());
}

#[test]
fn fixed_ser_de_block() {
    let block = Block::random(100, 3);
    let data = block.to_fixed();
    assert_eq!(block, Block::from_fixed(&data).unwrap());
}

#[test]
fn fixed_every_failure_is_too_short() {
    let header = Header::random();
    let data = header.to_fixed();
    for cut in 0..data.len() {
        assert_eq!(
            Header::from_fixed(&data[..cut]),
            Err(DecodeError::TooShort)
        );
    }
}

#[test]
fn fixed_digest_boundary() {
    // A digest field demands exactly 32 bytes: 31 remaining must fail,
    // 32 must succeed for that field.
    let bytes: Vec<u8> = (0..32).collect();
    assert_eq!(
        serde_bench::bytes::read_exact(&bytes[..31], 0, 32),
        Err(DecodeError::TooShort)
    );
    let (got, end) = serde_bench::bytes::read_exact(&bytes, 0, 32).unwrap();
    assert_eq!(got, bytes);
    assert_eq!(end, 32);
}

#[test]
fn fixed_trailing_bytes_are_ignored() {
    let header = Header::random();
    let mut data = header.to_fixed();
    data.push(0xab);
    data.push(0xcd);
    assert_eq!(header, Header::from_fixed(&data).unwrap());
}
