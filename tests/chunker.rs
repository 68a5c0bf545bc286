use rs_shamir::chunker::{Chunker, ChunkerDefault, ChunkerExt};

#[test]
fn chunk_even_split_default() {
    let bytes = vec![1u8, 2, 3, 4, 5, 6, 7, 8];
    let mut chunks = bytes.chunked_with_default(2, 0);
    while let Some(chunk) = chunks.next() {
        assert_eq!(chunk.len(), 2);
    }
}

#[test]
fn chunk_even_split_no_default() {
    let bytes = vec![1u8, 2, 3, 4, 5, 6, 7, 8];
    let mut chunks = bytes.chunked(2);
    while let Some(chunk) = chunks.next() {
        assert_eq!(chunk.len(), 2);
    }
}

#[test]
fn chunk_uneven_split_default() {
    let bytes = vec![1u8, 2, 3, 4, 5, 6, 7, 8];
    let mut chunks = bytes.chunked_with_default(3, 0);
    while let Some(chunk) = chunks.next() {
        assert_eq!(chunk.len(), 3);
    }
}

#[test]
fn chunk_uneven_split_no_default() {
    let bytes = vec![1u8, 2, 3, 4, 5, 6, 7, 8];
    let mut chunks = bytes.chunked(3);
    let mut index = 0;
    while let Some(chunk) = chunks.next() {
        if index < 2 {
            assert_eq!(chunk.len(), 3);
        } else {
            assert_eq!(chunk.len(), 2);
        }
        index += 1;
    }
    assert_eq!(index, 3);
}

#[test]
fn chunker_windows_and_padding_values() {
    let mut plain = Chunker::new(vec![1u8, 2, 3, 4, 5], 2);
    assert_eq!(plain.next(), Some(vec![1, 2]));
    assert_eq!(plain.next(), Some(vec![3, 4]));
    assert_eq!(plain.next(), Some(vec![5]));
    assert_eq!(plain.next(), None);
    let mut padded = ChunkerDefault::new(vec![1u8, 2, 3, 4, 5], 2, 9);
    assert_eq!(padded.next(), Some(vec![1, 2]));
    assert_eq!(padded.next(), Some(vec![3, 4]));
    assert_eq!(padded.next(), Some(vec![5, 9]));
    assert_eq!(padded.next(), None);
}

#[test]
fn chunker_empty_input_yields_nothing() {
    let mut plain = Vec::<u8>::new().chunked(4);
    assert_eq!(plain.next(), None);
    let mut padded = Vec::<u8>::new().chunked_with_default(4, 0);
    assert_eq!(padded.next(), None);
}
