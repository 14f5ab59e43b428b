use serde_bench::{Block, DecodeError, Header};

#[test]
fn molecule_ser_de_header() {
    let header = Header::random();
    let data = header.to_molecule();
    assert_eq!(header, Header::from_molecule(&data).unwrap());
}

#[test]
fn molecule_ser_de_block() {
    let block = Block::random(100, 3);
    let data = block.to_molecule();
    assert_eq!(block, Block::from_molecule(&data).unwrap());
}

#[test]
fn molecule_data_size() {
    let size: usize = (0..100).map(|_| Header::random().to_molecule().len()).sum();
    println!("flatbuffers header size: {}", size);

    let size: usize = (0..100)
        .map(|_| Block::random(100, 3).to_molecule().len())
        .sum();
    println!("flatbuffers block size: {}", size);
}

#[test]
fn molecule_wrong_offset_is_rejected() {
    let header = Header::random();
    let mut data = header.to_molecule();
    // Bytes 4..8 hold the first offset of the header table, which must point
    // just past the offset table, at 48.
    data[4] = 47;
    assert_eq!(Header::from_molecule(&data), Err(DecodeError::BadOffset));
}

#[test]
fn molecule_wrong_total_size_is_rejected() {
    let header = Header::random();
    let mut data = header.to_molecule();
    // The total size in the first four bytes must match the last field.
    data[0] = data[0].wrapping_add(1);
    assert_eq!(Header::from_molecule(&data), Err(DecodeError::BadLength));
}

#[test]
fn molecule_truncated_is_rejected() {
    let header = Header::random();
    let data = header.to_molecule();
    let truncated = &data[..data.len() - 1];
    assert_eq!(Header::from_molecule(truncated), Err(DecodeError::TooShort));
}
