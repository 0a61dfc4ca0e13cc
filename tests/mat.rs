use signal_kit::mat::{zeros, Index, Shape};

#[test]
fn enumerates_indices() {
    let shape = Shape(vec![3, 3, 3]);
    let mut it = shape.indices();
    let mut got: Vec<Index> = Vec::new();
    while let Some(index) = it.next() {
        got.push(index);
    }
    assert_eq!(
        got,
        vec![
            Index(vec![0, 0, 0]),
            Index(vec![1, 0, 0]),
            Index(vec![2, 0, 0]),
            Index(vec![0, 1, 0]),
            Index(vec![1, 1, 0]),
            Index(vec![2, 1, 0]),
            Index(vec![0, 2, 0]),
            Index(vec![1, 2, 0]),
            Index(vec![2, 2, 0]),
            Index(vec![0, 0, 1]),
            Index(vec![1, 0, 1]),
            Index(vec![2, 0, 1]),
            Index(vec![0, 1, 1]),
            Index(vec![1, 1, 1]),
            Index(vec![2, 1, 1]),
            Index(vec![0, 2, 1]),
            Index(vec![1, 2, 1]),
            Index(vec![2, 2, 1]),
            Index(vec![0, 0, 2]),
            Index(vec![1, 0, 2]),
            Index(vec![2, 0, 2]),
            Index(vec![0, 1, 2]),
            Index(vec![1, 1, 2]),
            Index(vec![2, 1, 2]),
            Index(vec![0, 2, 2]),
            Index(vec![1, 2, 2]),
            Index(vec![2, 2, 2]),
        ]
    )
}

#[test]
fn unrolled_index() {
    assert_eq!(Index(vec![5]).in_unrolled(&Shape(vec![9])), 5);
    assert_eq!(Index(vec![5, 4]).in_unrolled(&Shape(vec![9, 6])), 5 + 4 * 9);
}

#[test]
fn enumeration_stays_exhausted() {
    let shape = Shape(vec![2]);
    let mut it = shape.indices();
    assert_eq!(it.next(), Some(Index(vec![0])));
    assert_eq!(it.next(), Some(Index(vec![1])));
    assert_eq!(it.next(), None);
    assert_eq!(it.next(), None);
}

#[test]
fn empty_shape_enumerates_nothing() {
    let shape = Shape(vec![]);
    assert_eq!(shape.unrolled_length(), 1);
    let mut it = shape.indices();
    assert_eq!(it.next(), None);
}

#[test]
fn enumeration_count_matches_unrolled_length() {
    let shape = Shape(vec![2, 3, 4]);
    let mut it = shape.indices();
    let mut n: usize = 0;
    while let Some(_) = it.next() {
        n += 1;
    }
    assert_eq!(n, 24);
    assert_eq!(shape.unrolled_length(), 24);
}

#[test]
fn accommodation() {
    let shape = Shape(vec![3, 2]);
    assert!(shape.accomodates(&Index(vec![2, 1])));
    assert!(shape.accomodates(&Index(vec![1])));
    assert!(shape.accomodates(&Index(vec![])));
    assert!(!shape.accomodates(&Index(vec![3, 0])));
    assert!(!shape.accomodates(&Index(vec![0, 2])));
    assert!(!shape.accomodates(&Index(vec![0, 0, 0])));
}

#[test]
fn stride_is_previous_dimension_length() {
    // rank 3: the third coordinate is multiplied by the second length only
    assert_eq!(Index(vec![1, 2, 3]).in_unrolled(&Shape(vec![4, 5, 6])), 1 + 2 * 4 + 3 * 5);
}

#[test]
fn zeros_read_and_write() {
    let shape = Shape(vec![3, 2]);
    let mut m = zeros(&shape);
    assert_eq!(m.unrolled, vec![0; 6]);
    assert_eq!(m.shape, shape);
    m.index_mut(&Index(vec![1, 1]), 7);
    assert_eq!(m.index(&Index(vec![1, 1])), 7);
    assert_eq!(m.unrolled, vec![0, 0, 0, 0, 7, 0]);
    assert_eq!(m.index(&Index(vec![0, 1])), 0);
}
