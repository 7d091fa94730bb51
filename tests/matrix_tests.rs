use rref::echelon::{reduced_row_echelon, row_echelon};
use rref::matrix::{literal, MatrixError, VecMatrix};
use rref::rational::{Rational, RationalError, Sign};
use rref::rowops::{add, scale, swap};

fn q(sign: Sign, n: usize, d: usize) -> Rational {
    Rational::new(sign, n, d).unwrap()
}

fn whole(v: isize) -> Rational {
    Rational::from_int(v)
}

fn rows(m: &VecMatrix<Rational>) -> Vec<Vec<Rational>> {
    (0..m.rowc()).map(|i| m.row(i).unwrap().to_vec()).collect()
}

fn ints(v: &[&[isize]]) -> Vec<Vec<Rational>> {
    v.iter().map(|r| r.iter().map(|&x| whole(x)).collect()).collect()
}

#[test]
fn new_fills_every_cell() {
    let m = VecMatrix::new(2, 3, whole(5));
    assert_eq!(m.rowc(), 2);
    assert_eq!(m.colc(), 3);
    assert_eq!(rows(&m), ints(&[&[5, 5, 5], &[5, 5, 5]]));
}

#[test]
fn access_out_of_range_fails() {
    let mut m = VecMatrix::new(2, 3, whole(0));
    assert_eq!(m.get(2, 0), Err(MatrixError::IndexOutOfRange));
    assert_eq!(m.get(0, 3), Err(MatrixError::IndexOutOfRange));
    assert_eq!(m.set(0, 3, whole(1)), Err(MatrixError::IndexOutOfRange));
    assert_eq!(m.row(2), Err(MatrixError::IndexOutOfRange));
    assert_eq!(m.set(1, 2, whole(9)), Ok(()));
    assert_eq!(m.get(1, 2), Ok(&whole(9)));
    assert_eq!(m.row(1).unwrap(), &[whole(0), whole(0), whole(9)][..]);
}

#[test]
fn literal_converts_integers() {
    let m = literal(&[[1, -2], [0, 7], [3, 4]]);
    assert_eq!(m.rowc(), 3);
    assert_eq!(m.colc(), 2);
    assert_eq!(rows(&m), ints(&[&[1, -2], &[0, 7], &[3, 4]]));
}

#[test]
fn scale_multiplies_one_row() {
    let mut m = literal(&[[2, -4], [1, 1]]);
    scale(&mut m, 0, &q(Sign::Negative, 1, 2)).unwrap();
    assert_eq!(rows(&m), ints(&[&[-1, 2], &[1, 1]]));
}

#[test]
fn scale_overflow_leaves_matrix() {
    let mut m = literal(&[[1, isize::MAX]]);
    let before = rows(&m);
    assert_eq!(scale(&mut m, 0, &whole(4)), Err(RationalError::ArithmeticOverflow));
    assert_eq!(rows(&m), before);
}

#[test]
fn add_scaled_row() {
    let mut m = literal(&[[1, 2, 3], [4, 5, 6]]);
    add(&mut m, 1, 0, &whole(-4)).unwrap();
    assert_eq!(rows(&m), ints(&[&[1, 2, 3], &[0, -3, -6]]));
}

#[test]
fn swap_rows() {
    let mut m = literal(&[[1, 2], [3, 4], [5, 6]]);
    swap(&mut m, 0, 2);
    assert_eq!(rows(&m), ints(&[&[5, 6], &[3, 4], &[1, 2]]));
    swap(&mut m, 1, 1);
    assert_eq!(rows(&m), ints(&[&[5, 6], &[3, 4], &[1, 2]]));
}

#[test]
fn rref_of_echelon_example() {
    let mut m = literal(&[
        [1, 0, -2, 3, -5, 6, 0],
        [0, 0, 1, 0, 0, 4, 0],
        [0, 0, 0, 0, 1, -4, 0],
        [0, 0, 0, 0, 0, 0, 0],
    ]);
    reduced_row_echelon(&mut m).unwrap();
    assert_eq!(
        rows(&m),
        ints(&[
            &[1, 0, 0, 3, 0, -6, 0],
            &[0, 0, 1, 0, 0, 4, 0],
            &[0, 0, 0, 0, 1, -4, 0],
            &[0, 0, 0, 0, 0, 0, 0],
        ])
    );
}

#[test]
fn rref_of_rank_deficient_matrix() {
    let mut m = literal(&[[2, -1], [-8, 4]]);
    reduced_row_echelon(&mut m).unwrap();
    assert_eq!(rows(&m), vec![vec![whole(1), q(Sign::Negative, 1, 2)], vec![whole(0), whole(0)]]);
}

#[test]
fn row_echelon_swaps_and_skips_columns() {
    let mut m = literal(&[[0, 0, 2], [0, 3, 6], [0, 1, 1]]);
    row_echelon(&mut m).unwrap();
    assert_eq!(rows(&m), ints(&[&[0, 1, 2], &[0, 0, 1], &[0, 0, 0]]));
}

#[test]
fn rref_of_invertible_matrix_is_identity() {
    let mut m = literal(&[[0, 1, 2], [1, 0, 3], [4, -3, 8]]);
    reduced_row_echelon(&mut m).unwrap();
    assert_eq!(rows(&m), ints(&[&[1, 0, 0], &[0, 1, 0], &[0, 0, 1]]));
}

#[test]
fn rref_with_fractions() {
    let mut m = literal(&[[3, 1], [2, 4]]);
    row_echelon(&mut m).unwrap();
    assert_eq!(
        rows(&m),
        vec![vec![whole(1), q(Sign::Positive, 1, 3)], vec![whole(0), whole(1)]]
    );
    reduced_row_echelon(&mut m).unwrap();
    assert_eq!(rows(&m), ints(&[&[1, 0], &[0, 1]]));
}

#[test]
fn rref_is_idempotent() {
    let mut m = literal(&[[2, 4, -2, 1], [1, 2, 0, 3], [3, 6, -2, 4]]);
    reduced_row_echelon(&mut m).unwrap();
    let once = rows(&m);
    reduced_row_echelon(&mut m).unwrap();
    assert_eq!(rows(&m), once);
}

#[test]
fn rref_of_zero_and_empty_matrices() {
    let mut z = literal(&[[0, 0], [0, 0]]);
    reduced_row_echelon(&mut z).unwrap();
    assert_eq!(rows(&z), ints(&[&[0, 0], &[0, 0]]));
    let mut e: VecMatrix<Rational> = VecMatrix::new(0, 3, Rational::zero());
    reduced_row_echelon(&mut e).unwrap();
    assert_eq!(e.rowc(), 0);
    let mut w = literal(&[[5, 10, 15]]);
    reduced_row_echelon(&mut w).unwrap();
    assert_eq!(rows(&w), ints(&[&[1, 2, 3]]));
}

#[test]
fn echelon_reports_overflow() {
    let mut m = literal(&[[isize::MAX, 1], [3, isize::MAX]]);
    assert_eq!(reduced_row_echelon(&mut m), Err(RationalError::ArithmeticOverflow));
    assert_eq!(m.rowc(), 2);
    assert_eq!(m.colc(), 2);
}

#[test]
fn column_without_pivot_moves_only_the_column() {
    let mut m = literal(&[[0, 1], [0, 2]]);
    row_echelon(&mut m).unwrap();
    assert_eq!(rows(&m), ints(&[&[0, 1], &[0, 0]]));
    let mut r = literal(&[[0, 1], [0, 2]]);
    reduced_row_echelon(&mut r).unwrap();
    assert_eq!(rows(&r), ints(&[&[0, 1], &[0, 0]]));
}
