use indexed_file::{Error, Header, Index};

#[test]
fn encode_writes_count_then_offsets_little_endian() {
    let index = Index::new(vec![0, 2, 5]);
    assert_eq!(
        index.encode(),
        vec![3, 0, 0, 0, 0, 0, 0, 0, 0, 0, 0, 0, 2, 0, 0, 0, 5, 0, 0, 0]
    );
    let wide = Index::new(vec![0x0403_0201]);
    assert_eq!(wide.encode(), vec![1, 0, 0, 0, 0, 0, 0, 0, 1, 2, 3, 4]);
}

#[test]
fn decode_of_encode_gives_back_the_offsets() {
    let built = Index::build(b"first\nsecond line\n\nlast");
    let bytes = built.encode();
    let header = Header::decode(&bytes).unwrap();
    assert_eq!(header.items, built.len());
    let decoded = Index::decode(&bytes, &header).unwrap();
    assert_eq!(decoded.len(), built.len());
    for i in 0..built.len() {
        assert_eq!(decoded.get(i).unwrap(), built.get(i).unwrap());
    }
    assert_eq!(decoded.len_bytes(), bytes.len());
    let parsed = Index::parse_index(&bytes).unwrap();
    assert_eq!(parsed.len(), 4);
    assert_eq!(parsed.get(3).unwrap(), 19);
}

#[test]
fn build_records_line_starts() {
    let index = Index::build(b"a\nbb\nccc");
    assert_eq!(index.len(), 3);
    assert_eq!(index.get(0).unwrap(), 0);
    assert_eq!(index.get(1).unwrap(), 2);
    assert_eq!(index.get(2).unwrap(), 5);
    assert_eq!(index.len_bytes(), 0);
    assert!(matches!(index.get(3), Err(Error::OutOfBounds)));

    let trailing = Index::build(b"a\n\nb\n");
    assert_eq!(trailing.len(), 3);
    assert_eq!(trailing.get(2).unwrap(), 3);

    assert_eq!(Index::build(b"").len(), 0);
    assert_eq!(Index::build(b"\n").len(), 1);
}

#[test]
fn parse_index_rejects_missing_and_malformed_prefixes() {
    assert!(matches!(Index::parse_index(&[]), Err(Error::MissingIndex)));
    assert!(matches!(Index::parse_index(&[1, 0, 0]), Err(Error::MissingIndex)));
    assert!(matches!(
        Index::parse_index(&[0, 0, 0, 0, 0, 0, 0, 0, 9, 9]),
        Err(Error::MissingIndex)
    ));
    assert!(matches!(
        Index::parse_index(&[2, 0, 0, 0, 0, 0, 0, 0, 0, 0, 0, 0, 1]),
        Err(Error::MalformedIndex)
    ));
    assert!(matches!(
        Header::decode(&[1, 2, 3]),
        Err(Error::MissingIndex)
    ));
    let header = Header::decode(&[2, 0, 0, 0, 0, 0, 0, 0]).unwrap();
    assert!(matches!(
        Index::decode(&[2, 0, 0, 0, 0, 0, 0, 0, 1, 0, 0, 0], &header),
        Err(Error::MalformedIndex)
    ));
}

#[test]
fn index_sizes_and_growth() {
    let mut index = Index::new(vec![0, 4]);
    assert_eq!(index.len_bytes(), 8 + 2 * 4);
    assert_eq!(index.calc_length(), 16);
    assert!(!index.is_empty());
    assert!(index.has(1));
    assert!(!index.has(2));
    index.add(9);
    assert_eq!(index.len(), 3);
    assert_eq!(index.len_bytes(), 20);
    index.extend(&[12, 20]);
    assert_eq!(index.len(), 5);
    assert_eq!(index.get(4).unwrap(), 20);
    assert_eq!(index.len_bytes(), 28);
    let zero = index.zero_len();
    assert!(zero.is_empty());
    assert_eq!(zero.len(), 5);
    assert_eq!(Index::default().len(), 0);
}

#[test]
fn seek_position_and_extent() {
    let index = Index::new(vec![0, 2, 5]);
    assert_eq!(index.seek_position(1).unwrap(), 20 + 2);
    assert_eq!(index.line_extent(0).unwrap(), Some(2));
    assert_eq!(index.line_extent(2).unwrap(), None);
    assert!(matches!(index.line_extent(3), Err(Error::OutOfBounds)));
    let bad = Index::new(vec![4, 1]);
    assert!(matches!(bad.line_extent(0), Err(Error::MalformedIndex)));
}

#[test]
fn error_descriptions() {
    assert_eq!(Error::NotFound.describe(), "NotFound");
    assert_eq!(Error::UTF8Error.describe(), "UTF8Error");
}
