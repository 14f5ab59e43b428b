use serde_bench::{Block, DecodeError, Header};

#[test]
fn protobuf_ser_de_header() {
    let header = Header::random();
    let data = header.to_protobuf();
    assert_eq!(header, Header::from_protobuf(&data).unwrap());
}

#[test]
fn protobuf_ser_de_block() {
    let block = Block::random(100, 3);
    let data = block.to_protobuf();
    assert_eq!(block, Block::from_protobuf(&data).unwrap());
}

#[test]
fn protobuf_data_size() {
    let size: usize = (0..100).map(|_| Header::random().to_protobuf().len()).sum();
    println!("protobuf size: {}", size);

    let size: usize = (0..100)
        .map(|_| Block::random(100, 3).to_protobuf().len())
        .sum();
    println!("protobuf block size: {}", size);
}

#[test]
fn protobuf_wrong_tag_is_rejected() {
    let header = Header::random();
    let mut data = header.to_protobuf();
    // The first byte is the tag of the version field.
    data[0] = 99;
    assert_eq!(Header::from_protobuf(&data), Err(DecodeError::BadTag));
}

#[test]
fn protobuf_wrong_digest_length_is_rejected() {
    let header = Header::random();
    let mut data = header.to_protobuf();
    // Bytes 5..10 are the parent-hash field: its tag, then a 32-bit length
    // that must be exactly 32.
    data[6] = 31;
    assert_eq!(Header::from_protobuf(&data), Err(DecodeError::BadLength));
}

#[test]
fn protobuf_truncated_is_rejected() {
    let header = Header::random();
    let data = header.to_protobuf();
    let truncated = &data[..data.len() - 1];
    assert_eq!(Header::from_protobuf(truncated), Err(DecodeError::TooShort));
}
