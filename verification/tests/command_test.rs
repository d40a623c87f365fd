use matrixops::matrix::{Matrix, MatrixError};
use matrixops::rational::Rational;
use matrixops::ui::command::Command;

#[test]
fn command_add() {
    let d = vec![1, -1, 0,
                 0,  1, 0,
                 0,  0, 1
    ];
    let m1 = Matrix::new(3, 3, d.clone()).unwrap();
    let cmd = Command::AddRow {
        coeff: 1,
        src: 2,
        dest: 1
    };
    assert_eq!(cmd.apply(&m1).unwrap(), Matrix::new(3, 3, vec![
        1, 0, 0,
        0, 1, 0,
        0, 0, 1
    ]).unwrap());
}

#[test]
fn command_swap() {
    let d = vec![0, 1, 0,
                 1, 0, 0,
                 0, 0, 1
    ];
    let m1 = Matrix::new(3, 3, d.clone()).unwrap();
    let cmd = Command::SwapRow {
        row1: 1,
        row2: 2
    };
    assert_eq!(cmd.apply(&m1).unwrap(), Matrix::new(3, 3, vec![
        1, 0, 0,
        0, 1, 0,
        0, 0, 1
    ]).unwrap());
}

#[test]
fn command_scale() {
    let two = Rational::from_int(2);
    let zero = Rational::from_int(0);
    let one = Rational::from_int(1);
    let d = vec![two,  zero, zero,
                 zero, one,  zero,
                 zero, zero, one
    ];
    let m1 = Matrix::new(3, 3, d.clone()).unwrap();
    let cmd = Command::ScaleRow {
        coeff: Rational::new(1, 2).unwrap(),
        row: 1
    };
    assert_eq!(cmd.apply(&m1).unwrap(), Matrix::new(3, 3, vec![
        one,  zero, zero,
        zero, one,  zero,
        zero, zero, one
    ]).unwrap());
}

#[test]
fn command_edit_cell() {
    let m = Matrix::new(2, 2, vec![1, 2, 3, 4]).unwrap();
    let cmd = Command::EditCell { row: 2, col: 1, value: 9 };
    assert_eq!(
        cmd.apply(&m).unwrap(),
        Matrix::new(2, 2, vec![1, 2, 9, 4]).unwrap()
    );
}

#[test]
fn command_apply_leaves_input_untouched() {
    let d = vec![1, 2, 3, 4];
    let m = Matrix::new(2, 2, d.clone()).unwrap();
    let before = m.clone();
    let good = Command::SwapRow { row1: 1, row2: 2 };
    let _ = good.apply(&m).unwrap();
    assert_eq!(m, before);
    let bad: Command<i64> = Command::SwapRow { row1: 1, row2: 5 };
    assert!(bad.apply(&m).is_err());
    assert_eq!(m, before);
}

#[test]
fn command_noops_return_equal_matrix() {
    let d = vec![3, 1, 4, 1, 5, 9];
    let m = Matrix::new(2, 3, d.clone()).unwrap();
    let swap_self = Command::SwapRow { row1: 2, row2: 2 };
    assert_eq!(swap_self.apply(&m).unwrap(), m);
    let add_zero = Command::AddRow { coeff: 0, src: 1, dest: 2 };
    assert_eq!(add_zero.apply(&m).unwrap(), m);
    let scale_one = Command::ScaleRow { coeff: 1, row: 1 };
    assert_eq!(scale_one.apply(&m).unwrap(), m);
}

#[test]
fn command_swap_twice_restores() {
    let d = vec![1, 2, 3, 4, 5, 6];
    let m = Matrix::new(3, 2, d.clone()).unwrap();
    let swap = Command::SwapRow { row1: 1, row2: 3 };
    let once = swap.apply(&m).unwrap();
    assert_ne!(once, m);
    let twice = swap.apply(&once).unwrap();
    assert_eq!(twice, m);
}

#[test]
fn command_rejects_out_of_range_rows() {
    let m = Matrix::new(2, 2, vec![1, 2, 3, 4]).unwrap();
    let cases: Vec<(Command<i64>, MatrixError)> = vec![
        (
            Command::AddRow { coeff: 1, src: 0, dest: 1 },
            MatrixError::IndexOutOfBounds { index: 0, bound: 2 },
        ),
        (
            Command::AddRow { coeff: 1, src: 1, dest: 3 },
            MatrixError::IndexOutOfBounds { index: 3, bound: 2 },
        ),
        (
            Command::ScaleRow { coeff: 2, row: 0 },
            MatrixError::IndexOutOfBounds { index: 0, bound: 2 },
        ),
        (
            Command::ScaleRow { coeff: 2, row: 5 },
            MatrixError::IndexOutOfBounds { index: 5, bound: 2 },
        ),
        (
            Command::SwapRow { row1: 0, row2: 1 },
            MatrixError::IndexOutOfBounds { index: 0, bound: 2 },
        ),
        (
            Command::SwapRow { row1: 2, row2: 3 },
            MatrixError::IndexOutOfBounds { index: 3, bound: 2 },
        ),
        (
            Command::EditCell { row: 0, col: 1, value: 7 },
            MatrixError::IndexOutOfBounds { index: 0, bound: 2 },
        ),
        (
            Command::EditCell { row: 1, col: 3, value: 7 },
            MatrixError::IndexOutOfBounds { index: 3, bound: 2 },
        ),
    ];
    for (cmd, expected) in cases {
        assert_eq!(cmd.apply(&m), Err(expected));
        assert_eq!(m, Matrix::new(2, 2, vec![1, 2, 3, 4]).unwrap());
    }
}

#[test]
fn command_add_into_same_row() {
    let m = Matrix::new(2, 2, vec![1, 2, 3, 4]).unwrap();
    let cmd = Command::AddRow { coeff: 2, src: 2, dest: 2 };
    assert_eq!(
        cmd.apply(&m).unwrap(),
        Matrix::new(2, 2, vec![1, 2, 9, 12]).unwrap()
    );
}
