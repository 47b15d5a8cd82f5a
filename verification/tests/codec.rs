use kohonen::engine::{Error, Kohonen};
use kohonen::matrix::Grid;

fn grid(rows: usize, cols: usize, data: Vec<u8>) -> Grid {
    assert_eq!(data.len(), rows * cols);
    Grid { rows, cols, data }
}

#[test]
fn round_trip_restores_everything() {
    let mut e = Kohonen::init((2, 3), &vec![0, 9]);
    e.teach(9, &grid(2, 3, vec![1, 0, 1, 0, 1, 0])).unwrap();
    e.teach(9, &grid(2, 3, vec![1, 1, 1, 0, 0, 0])).unwrap();
    e.teach(4, &grid(2, 3, vec![0, 0, 0, 1, 1, 1])).unwrap();
    let bytes = e.to_bytes();
    let back = Kohonen::from_bytes(&bytes).unwrap();
    assert_eq!(back.dim(), e.dim());
    assert_eq!(back.labels(), e.labels());
    for label in e.labels() {
        assert_eq!(back.prototype(label), e.prototype(label));
    }
}

#[test]
fn round_trip_of_empty_engine() {
    let e = Kohonen::init((9, 9), &vec![]);
    let back = Kohonen::from_bytes(&e.to_bytes()).unwrap();
    assert_eq!(back.dim(), (9, 9));
    assert_eq!(back.labels(), Vec::<u64>::new());
}

#[test]
fn decode_rejects_ragged_length() {
    assert_eq!(
        Kohonen::from_bytes(&vec![1, 2, 3]).unwrap_err(),
        Error::Deserialization
    );
}

#[test]
fn decode_rejects_truncated_stream() {
    let mut e = Kohonen::init((2, 2), &vec![5]);
    e.teach(5, &grid(2, 2, vec![1, 0, 0, 1])).unwrap();
    let mut bytes = e.to_bytes();
    bytes.truncate(bytes.len() - 8);
    assert_eq!(Kohonen::from_bytes(&bytes).unwrap_err(), Error::Deserialization);
}

#[test]
fn decode_rejects_trailing_garbage() {
    let e = Kohonen::init((2, 2), &vec![]);
    let mut bytes = e.to_bytes();
    bytes.extend_from_slice(&[0u8; 8]);
    assert_eq!(Kohonen::from_bytes(&bytes).unwrap_err(), Error::Deserialization);
}

#[test]
fn decode_rejects_cell_exceeding_count() {
    // Hand-built stream: 1x1 shape, one entry with count 0 but a cell of +1.
    let words: Vec<u64> = vec![1, 1, 1, 7, 0, 0x7fff_ffff + 1];
    let mut bytes = Vec::new();
    for w in words {
        bytes.extend_from_slice(&w.to_le_bytes());
    }
    assert_eq!(Kohonen::from_bytes(&bytes).unwrap_err(), Error::Deserialization);
}

#[test]
fn decode_rejects_unsorted_labels() {
    // 1x1 shape, two entries with labels out of order.
    let words: Vec<u64> = vec![1, 1, 2, 7, 0, 0x7fff_ffff, 3, 0, 0x7fff_ffff];
    let mut bytes = Vec::new();
    for w in words {
        bytes.extend_from_slice(&w.to_le_bytes());
    }
    assert_eq!(Kohonen::from_bytes(&bytes).unwrap_err(), Error::Deserialization);
}

#[test]
fn decode_accepts_hand_built_stream() {
    // 1x2 shape, one entry: label 7, count 1, cells [+1, -1].
    let words: Vec<u64> = vec![1, 2, 1, 7, 1, 0x7fff_ffff + 1, 0x7fff_ffff - 1];
    let mut bytes = Vec::new();
    for w in words {
        bytes.extend_from_slice(&w.to_le_bytes());
    }
    let e = Kohonen::from_bytes(&bytes).unwrap();
    assert_eq!(e.dim(), (1, 2));
    assert_eq!(e.labels(), vec![7]);
    assert_eq!(e.prototype(7), Some((vec![1, -1], 1)));
}
