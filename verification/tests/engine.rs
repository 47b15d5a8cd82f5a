use kohonen::engine::{Error, Kohonen};
use kohonen::matrix::{normalize, Grid};

fn grid(rows: usize, cols: usize, data: Vec<u8>) -> Grid {
    assert_eq!(data.len(), rows * cols);
    Grid { rows, cols, data }
}

#[test]
fn it_works() {
    let result = 2 + 2;
    assert_eq!(result, 4);
}

#[test]
fn normalize_is_bipolar() {
    let g = grid(2, 2, vec![0, 5, 0, 1]);
    let m = normalize(&g);
    assert_eq!(m.rows, 2);
    assert_eq!(m.cols, 2);
    assert_eq!(m.data, vec![-1, 1, -1, 1]);
}

#[test]
fn normalize_treats_any_positive_value_as_ink() {
    let g = grid(1, 3, vec![255, 1, 0]);
    let m = normalize(&g);
    assert_eq!(m.data, vec![1, 1, -1]);
}

#[test]
fn init_creates_zeroed_prototypes() {
    let e = Kohonen::init((2, 2), &vec![4, 2, 2]);
    assert_eq!(e.dim(), (2, 2));
    assert_eq!(e.labels(), vec![2, 4]);
    let (acc, count) = e.prototype(2).unwrap();
    assert_eq!(acc, vec![0, 0, 0, 0]);
    assert_eq!(count, 0);
    assert!(e.prototype(7).is_none());
}

#[test]
fn teach_accumulates_counts_and_sums() {
    let mut e = Kohonen::init((2, 2), &vec![]);
    e.teach(3, &grid(2, 2, vec![1, 0, 0, 1])).unwrap();
    e.teach(3, &grid(2, 2, vec![1, 1, 0, 0])).unwrap();
    let (acc, count) = e.prototype(3).unwrap();
    assert_eq!(count, 2);
    // [1,-1,-1,1] + [1,1,-1,-1]
    assert_eq!(acc, vec![2, 0, -2, 0]);
}

#[test]
fn reteach_same_sample_doubles() {
    let mut e = Kohonen::init((2, 2), &vec![9]);
    let s = grid(2, 2, vec![1, 0, 1, 0]);
    e.teach(9, &s).unwrap();
    e.teach(9, &s).unwrap();
    let (acc, count) = e.prototype(9).unwrap();
    assert_eq!(count, 2);
    assert_eq!(acc, vec![2, -2, 2, -2]);
}

#[test]
fn self_recognition_has_confidence_one() {
    let mut e = Kohonen::init((3, 3), &vec![7]);
    let s = grid(3, 3, vec![1, 0, 0, 0, 1, 0, 0, 0, 1]);
    e.teach(7, &s).unwrap();
    let g = e.guess(&s).unwrap();
    assert_eq!(g.label, 7);
    assert_eq!(g.raw_score, 9);
    assert_eq!(g.ideal_score, 9);
    let confidence = g.raw_score as f32 / g.ideal_score as f32;
    assert_eq!(confidence, 1.0);
}

#[test]
fn end_to_end_scenario() {
    let mut e = Kohonen::init((3, 3), &vec![]);
    let diagonal = grid(3, 3, vec![1, 0, 0, 0, 1, 0, 0, 0, 1]);
    let stripe = grid(3, 3, vec![0, 1, 0, 0, 1, 0, 0, 1, 0]);
    e.teach(7, &diagonal).unwrap();
    e.teach(7, &diagonal).unwrap();
    e.teach(7, &diagonal).unwrap();
    e.teach(1, &stripe).unwrap();
    let g = e.guess(&diagonal).unwrap();
    assert_eq!(g.label, 7);
    let confidence = g.raw_score as f32 / g.ideal_score as f32;
    assert_eq!(confidence, 1.0);
}

#[test]
fn score_division_truncates_toward_zero() {
    // Accumulator [3, -1] with count 3; the query normalizes to [-1, -1],
    // so the raw correlation is -2 and -2 / 3 truncates to 0, not to -1.
    let mut e = Kohonen::init((1, 2), &vec![]);
    e.teach(5, &grid(1, 2, vec![1, 0])).unwrap();
    e.teach(5, &grid(1, 2, vec![1, 0])).unwrap();
    e.teach(5, &grid(1, 2, vec![1, 1])).unwrap();
    let (acc, count) = e.prototype(5).unwrap();
    assert_eq!(acc, vec![3, -1]);
    assert_eq!(count, 3);
    let g = e.guess(&grid(1, 2, vec![0, 0])).unwrap();
    assert_eq!(g.label, 5);
    // truncating toward zero: -2 / 3 == 0 (Euclidean division would give -1)
    assert_eq!(g.raw_score, 0);
    // ideal: (|3| + |1|) / 3 truncates to 1
    assert_eq!(g.ideal_score, 1);
}

#[test]
fn guess_prefers_first_label_on_ties() {
    let mut e = Kohonen::init((1, 1), &vec![]);
    let s = grid(1, 1, vec![1]);
    e.teach(8, &s).unwrap();
    e.teach(2, &s).unwrap();
    let g = e.guess(&s).unwrap();
    assert_eq!(g.label, 2);
}

#[test]
fn guess_without_observations_is_no_data() {
    let e = Kohonen::init((2, 2), &vec![1, 2, 3]);
    let s = grid(2, 2, vec![1, 0, 0, 1]);
    assert_eq!(e.guess(&s).unwrap_err(), Error::NoData);
    let empty = Kohonen::init((2, 2), &vec![]);
    assert_eq!(empty.guess(&s).unwrap_err(), Error::NoData);
}

#[test]
fn shape_mismatch_is_rejected_and_state_kept() {
    let mut e = Kohonen::init((2, 2), &vec![4]);
    e.teach(4, &grid(2, 2, vec![1, 0, 0, 1])).unwrap();
    let wrong = grid(3, 3, vec![1, 0, 0, 0, 1, 0, 0, 0, 1]);
    assert_eq!(e.teach(4, &wrong).unwrap_err(), Error::ShapeMismatch);
    assert_eq!(e.guess(&wrong).unwrap_err(), Error::ShapeMismatch);
    let (acc, count) = e.prototype(4).unwrap();
    assert_eq!(acc, vec![1, -1, -1, 1]);
    assert_eq!(count, 1);
    assert_eq!(e.labels(), vec![4]);
}

#[test]
fn ideal_score_guards_zero_count() {
    let mut e = Kohonen::init((1, 2), &vec![6]);
    assert!(e.ideal_score(6).is_none());
    assert!(e.ideal_score(42).is_none());
    e.teach(6, &grid(1, 2, vec![1, 0])).unwrap();
    assert_eq!(e.ideal_score(6), Some(2));
}
