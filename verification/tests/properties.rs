use matrix::Cursor;
use matrix::Entries;
use matrix::Matrix;
use matrix::ShapeError;

#[test]
fn with_entries_reports_missing() {
    let r = Matrix::with_entries(5, vec![1, 2, 3, 4, 5, 6, 7]);
    assert_eq!(r.unwrap_err(), ShapeError::IncompleteRow { missing: 3 });
}

#[test]
fn with_entries_accepts_multiples() {
    assert!(Matrix::with_entries(5, Vec::<i32>::new()).is_ok());
    assert!(Matrix::with_entries(5, vec![1, 2, 3, 4, 5]).is_ok());
    assert!(Matrix::with_entries(5, (1..=15).collect::<Vec<i32>>()).is_ok());
    assert!(Matrix::with_entries(1, vec![1, 2, 3]).is_ok());
}

#[test]
fn zero_width_empty_is_accepted() {
    let m = Matrix::with_entries(0, Vec::<i32>::new()).unwrap();
    assert!(m.is_empty());
    assert!(m.entries().is_empty());
    assert_eq!(m.iter().next(), None);
}

#[test]
fn zero_width_with_elements_is_rejected() {
    let r = Matrix::with_entries(0, vec![1]);
    assert_eq!(r.unwrap_err(), ShapeError::InvalidWidth);
}

#[test]
fn zero_width_cursor_never_wraps() {
    let mut cursor = Cursor::new(Entries::new(vec![7, 8, 9]), 0);
    assert_eq!(cursor.next(), Some(((0, 0), 7)));
    assert_eq!(cursor.next(), Some(((0, 1), 8)));
    assert_eq!(cursor.next(), Some(((0, 2), 9)));
    assert_eq!(cursor.next(), None);
    assert_eq!(cursor.next(), None);
}

#[test]
fn iter_positions_are_row_major() {
    let m = Matrix::with_entries(3, vec![10, 11, 12, 13, 14, 15]).unwrap();
    let mut it = m.iter();
    let mut k = 0usize;
    while let Some(((i, j), e)) = it.next() {
        assert_eq!(i, k / 3);
        assert_eq!(j, k % 3);
        assert_eq!(*e, m.entries()[k]);
        k += 1;
    }
    assert_eq!(k, 6);
}

#[test]
fn into_iter_round_trip() {
    let original = vec![1, 2, 3, 4, 5, 6];
    let m = Matrix::with_entries(2, original.clone()).unwrap();
    let mut it = m.into_iter();
    let mut collected: Vec<i32> = Vec::new();
    while let Some((_, v)) = it.next() {
        collected.push(v);
    }
    let rebuilt = Matrix::with_entries(2, collected).unwrap();
    assert_eq!(rebuilt.entries(), &original);
    assert!(rebuilt.is_column() == false && !rebuilt.is_row_vector());
}

#[test]
fn iter_mut_changes_one_position_only() {
    let mut m = Matrix::with_entries(2, vec![1, 2, 3, 4]).unwrap();
    let mut it = m.iter_mut();
    it.next(&mut m);
    it.next(&mut m);
    let ((i, j), e) = it.next(&mut m).unwrap();
    assert_eq!((i, j), (1, 0));
    *e = 9;
    assert_eq!(m.entries(), &vec![1, 2, 9, 4]);

    let mut later = m.iter();
    later.next();
    later.next();
    assert_eq!(later.next(), Some(((1, 0), &9)));
}

#[test]
fn iter_restarts_fresh() {
    let m = Matrix::with_entries(2, vec![1, 2, 3, 4]).unwrap();
    let mut first = m.iter();
    first.next();
    first.next();
    let mut second = m.iter();
    assert_eq!(second.next(), Some(((0, 0), &1)));
}

#[test]
fn add_of_zero_width_matrices() {
    let a = Matrix::with_entries(0, Vec::<i32>::new()).unwrap();
    let b = Matrix::with_entries(0, Vec::<i32>::new()).unwrap();
    let s = a.add(b).unwrap();
    assert!(s.is_empty());
    assert!(s.entries().is_empty());
}

#[test]
fn add_rejects_different_shapes() {
    let m1 = Matrix::with_entries(5, (1..=10).collect::<Vec<i32>>()).unwrap();
    let m2 = Matrix::with_entries(4, (1..=12).collect::<Vec<i32>>()).unwrap();
    assert_eq!(m1.add(m2).unwrap_err(), ShapeError::SizeMismatch);

    let m3 = Matrix::with_entries(5, (1..=10).collect::<Vec<i32>>()).unwrap();
    let m4 = Matrix::with_entries(5, (1..=15).collect::<Vec<i32>>()).unwrap();
    assert_eq!(m3.add(m4).unwrap_err(), ShapeError::SizeMismatch);
}

#[test]
fn add_assign_rejects_different_shapes() {
    let mut m1 = Matrix::with_entries(5, (1..=10).collect::<Vec<i32>>()).unwrap();
    let m2 = Matrix::with_entries(4, (1..=12).collect::<Vec<i32>>()).unwrap();
    assert_eq!(m1.add_assign(m2).unwrap_err(), ShapeError::SizeMismatch);
    assert_eq!(m1.entries(), &(1..=10).collect::<Vec<i32>>());
}

#[test]
fn add_assign_matches_add() {
    let a1 = Matrix::with_entries(3, vec![1, -2, 3, -4, 5, -6]).unwrap();
    let b1 = Matrix::with_entries(3, vec![10, 20, 30, 40, 50, 60]).unwrap();
    let sum = a1.add(b1).unwrap();

    let mut a2 = Matrix::with_entries(3, vec![1, -2, 3, -4, 5, -6]).unwrap();
    let b2 = Matrix::with_entries(3, vec![10, 20, 30, 40, 50, 60]).unwrap();
    a2.add_assign(b2).unwrap();

    assert_eq!(a2.entries(), sum.entries());
}

#[test]
fn with_dimensions_fills_defaults() {
    let m: Matrix<i32> = Matrix::with_dimensions(2, 3);
    assert_eq!(m.entries(), &vec![0, 0, 0, 0, 0, 0]);
    assert!(!m.is_empty());
    assert!(!m.is_identity());

    let e: Matrix<i32> = Matrix::with_dimensions(0, 4);
    assert!(e.is_empty());
    assert!(e.entries().is_empty());
}

#[test]
fn identity_checks() {
    let id = Matrix::with_entries(2, vec![1, 0, 0, 1]).unwrap();
    assert!(id.is_identity());

    let not_id = Matrix::with_entries(2, vec![1, 0, 1, 1]).unwrap();
    assert!(!not_id.is_identity());

    let one = Matrix::with_entries(1, vec![1]).unwrap();
    assert!(one.is_identity());

    let zero = Matrix::with_entries(1, vec![0]).unwrap();
    assert!(!zero.is_identity());

    let none: Matrix<i32> = Matrix::with_entries(1, vec![]).unwrap();
    assert!(!none.is_identity());
}

#[test]
fn identity_requires_square() {
    let wide = Matrix::with_entries(3, vec![1, 0, 0, 0, 1, 0]).unwrap();
    assert!(!wide.is_identity());

    let tall = Matrix::with_entries(1, vec![1, 0]).unwrap();
    assert!(!tall.is_identity());

    let no_cols: Matrix<i32> = Matrix::with_dimensions(3, 0);
    assert!(!no_cols.is_identity());

    let no_rows: Matrix<i32> = Matrix::with_dimensions(0, 0);
    assert!(no_rows.is_identity());
}

#[test]
fn diagonal_of_rectangles() {
    let wide = Matrix::with_entries(3, vec![1, 2, 3, 4, 5, 6]).unwrap();
    assert_eq!(wide.diagonal(), vec![&1, &5]);

    let row = Matrix::with_entries(4, vec![1, 2, 3, 4]).unwrap();
    assert_eq!(row.diagonal(), vec![&1]);

    let empty: Matrix<i32> = Matrix::with_entries(2, vec![]).unwrap();
    assert!(empty.diagonal().is_empty());
}
