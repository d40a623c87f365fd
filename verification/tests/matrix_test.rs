use matrixops::matrix;
use matrixops::matrix::MatrixError;

#[test]
fn matrix_add() {
    let d = vec![1, 0, 0,
                 0, 1, 0,
                 0, 0, 1
    ];
    let m1 = matrix::Matrix::new(3, 3, d.clone()).unwrap();
    let m2 = matrix::Matrix::new(3, 3, d.clone()).unwrap();
    let m3 = matrix::Matrix::new(3, 3, vec![
        2, 0, 0,
        0, 2, 0,
        0, 0, 2
    ]).unwrap();
    assert_eq!(m1.add(&m2).unwrap(), m3);
}

#[test]
fn matrix_row_set() {
    let d = vec![1, 0, 0,
                 0, 1, 0,
                 0, 0, 1
    ];
    let mut m1 = matrix::Matrix::new(3, 3, d.clone()).unwrap();
    m1.set_row(1, &[1, 2, 3]).unwrap();
    assert_eq!(m1, matrix::Matrix::new(3, 3, vec![
        1, 2, 3,
        0, 1, 0,
        0, 0, 1
    ]).unwrap());
}

#[test]
fn matrix_row_foreach() {
    let d = vec![1, 0, 0,
                 0, 1, 0,
                 0, 0, 1
    ];
    let mut m1 = matrix::Matrix::new(3, 3, d.clone()).unwrap();
    m1.row_foreach(1, |x| x + 1).unwrap();
    assert_eq!(m1, matrix::Matrix::new(3, 3, vec![
        2, 1, 1,
        0, 1, 0,
        0, 0, 1
    ]).unwrap());

    let mut m2 = matrix::Matrix::new(3, 3, d.clone()).unwrap();
    m2.row_foreach(2, |x| x * 2).unwrap();
    assert_eq!(m2, matrix::Matrix::new(3, 3, vec![
        1, 0, 0,
        0, 2, 0,
        0, 0, 1
    ]).unwrap());
}

#[test]
fn matrix_sub() {
    let m1 = matrix::Matrix::new(2, 2, vec![5, 7, 9, 11]).unwrap();
    let m2 = matrix::Matrix::new(2, 2, vec![1, 2, 3, 4]).unwrap();
    let m3 = matrix::Matrix::new(2, 2, vec![4, 5, 6, 7]).unwrap();
    assert_eq!(m1.sub(&m2).unwrap(), m3);
}

#[test]
fn matrix_add_shape_mismatch() {
    let m1 = matrix::Matrix::new(2, 3, vec![1, 2, 3, 4, 5, 6]).unwrap();
    let m2 = matrix::Matrix::new(3, 2, vec![1, 2, 3, 4, 5, 6]).unwrap();
    assert_eq!(
        m1.add(&m2),
        Err(MatrixError::DimensionMismatch { expected: 2, actual: 3 })
    );
    let m4 = matrix::Matrix::new(2, 2, vec![1, 2, 3, 4]).unwrap();
    assert_eq!(
        m1.add(&m4),
        Err(MatrixError::DimensionMismatch { expected: 3, actual: 2 })
    );
}

#[test]
fn matrix_new_rejects_bad_shapes() {
    assert_eq!(
        matrix::Matrix::new(2, 2, vec![1, 2, 3]),
        Err(MatrixError::ConstructionError { rows: 2, cols: 2, len: 3 })
    );
    assert_eq!(
        matrix::Matrix::<i64>::new(0, 3, vec![]),
        Err(MatrixError::ConstructionError { rows: 0, cols: 3, len: 0 })
    );
    assert_eq!(
        matrix::Matrix::<i64>::new(3, 0, vec![]),
        Err(MatrixError::ConstructionError { rows: 3, cols: 0, len: 0 })
    );
}

#[test]
fn matrix_filled_and_get() {
    let m = matrix::Matrix::filled(2, 3, 7).unwrap();
    assert_eq!(m.rows, 2);
    assert_eq!(m.cols, 3);
    for r in 1..=2 {
        for c in 1..=3 {
            assert_eq!(m.get(r, c), Some(7));
        }
    }
    assert_eq!(m.get(0, 1), None);
    assert_eq!(m.get(1, 0), None);
    assert_eq!(m.get(3, 1), None);
    assert_eq!(m.get(1, 4), None);
}

#[test]
fn matrix_rows_snapshot_agrees_with_get() {
    let m = matrix::Matrix::new(2, 3, vec![1, 2, 3, 4, 5, 6]).unwrap();
    let snapshot = m.rows();
    assert_eq!(snapshot.len(), 2);
    for (r, row) in snapshot.iter().enumerate() {
        assert_eq!(row.len(), 3);
        for (c, cell) in row.iter().enumerate() {
            assert_eq!(m.get(r + 1, c + 1), Some(*cell));
        }
    }
    assert_eq!(snapshot, vec![vec![1, 2, 3], vec![4, 5, 6]]);
}

#[test]
fn matrix_set_and_get_row() {
    let mut m = matrix::Matrix::new(2, 2, vec![1, 2, 3, 4]).unwrap();
    m.set(2, 1, 9).unwrap();
    assert_eq!(m.get_row(2), vec![9, 4]);
    assert_eq!(
        m.set(0, 1, 5),
        Err(MatrixError::IndexOutOfBounds { index: 0, bound: 2 })
    );
    assert_eq!(
        m.set(1, 3, 5),
        Err(MatrixError::IndexOutOfBounds { index: 3, bound: 2 })
    );
    assert_eq!(m, matrix::Matrix::new(2, 2, vec![1, 2, 9, 4]).unwrap());
}

#[test]
fn matrix_set_row_rejects_wrong_length() {
    let mut m = matrix::Matrix::new(2, 3, vec![1, 2, 3, 4, 5, 6]).unwrap();
    assert_eq!(
        m.set_row(1, &[7, 8]),
        Err(MatrixError::DimensionMismatch { expected: 3, actual: 2 })
    );
    assert_eq!(
        m.set_row(1, &[7, 8, 9, 10]),
        Err(MatrixError::DimensionMismatch { expected: 3, actual: 4 })
    );
    assert_eq!(
        m.set_row(3, &[7, 8, 9]),
        Err(MatrixError::IndexOutOfBounds { index: 3, bound: 2 })
    );
    assert_eq!(m, matrix::Matrix::new(2, 3, vec![1, 2, 3, 4, 5, 6]).unwrap());
}
