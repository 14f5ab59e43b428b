use serde_bench::{Block, DecodeError, Header};

#[test]
fn flatbuffers_ser_de_header() {
    let header = Header::random();
    let data = header.to_flatbuffers();
    assert_eq!(header, Header::from_flatbuffers(&data).unwrap());
}

#[test]
fn flatbuffers_ser_de_block() {
    let block = Block::random(100, 3);
    let data = block.to_flatbuffers();
    assert_eq!(block, Block::from_flatbuffers(&data).unwrap());
}

#[test]
fn flatbuffers_data_size() {
    let size: usize = (0..100)
        .map(|_| Header::random().to_flatbuffers().len())
        .sum();
    println!("flatbuffers header size: {}", size);

    let size: usize = (0..100)
        .map(|_| Block::random(100, 3).to_flatbuffers().len())
        .sum();
    println!("flatbuffers block size: {}", size);
}

#[test]
fn flatbuffers_missing_field_is_rejected() {
    let header = Header::random();
    let mut data = header.to_flatbuffers();
    // The parent-hash reference slot sits right after the version field of
    // the root table, which begins after the 4-byte root slot.  Zeroing it
    // marks the field absent.
    for k in 8..12 {
        data[k] = 0;
    }
    assert_eq!(
        Header::from_flatbuffers(&data),
        Err(DecodeError::MissingField)
    );
}

#[test]
fn flatbuffers_truncated_is_rejected() {
    let header = Header::random();
    let data = header.to_flatbuffers();
    let truncated = &data[..data.len() - 1];
    assert_eq!(
        Header::from_flatbuffers(truncated),
        Err(DecodeError::TooShort)
    );
    assert_eq!(Header::from_flatbuffers(&[]), Err(DecodeError::TooShort));
}

#[test]
fn flatbuffers_vector_iterator_walks_in_order() {
    let mut it = serde_bench::FlatbuffersVectorIterator::new(vec![7, 9, 11]);
    assert_eq!(it.next(), Some(7));
    assert_eq!(it.next(), Some(9));
    assert_eq!(it.next(), Some(11));
    assert_eq!(it.next(), None);
    assert_eq!(it.next(), None);
}
