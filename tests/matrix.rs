use rs_shamir::error::RsError;
use rs_shamir::finite_field::{DirectField, Field256};
use rs_shamir::matrix::{cauchy_matrix, Matrix, PartialVandermondeMatrix, VandermondeMatrix};

/// Integer arithmetic modulo 256: multiplication behaves as on small integers, which makes
/// products easy to check by hand (division is meaningless here).
#[derive(Default)]
struct Ring;

impl Field256 for Ring {
    fn add(x: u8, y: u8) -> u8 {
        x.wrapping_add(y)
    }

    fn mul(&self, x: u8, y: u8) -> u8 {
        x.wrapping_mul(y)
    }
}

fn matrix(rows: &[&[u8]]) -> Matrix {
    Matrix::from_rows(rows.iter().map(|r| r.to_vec()).collect()).unwrap()
}

#[test]
fn zero() {
    let zero = Matrix::zero(10, 5);
    assert_eq!(zero.mat.len(), 10);
    assert_eq!(zero.rows, 10);
    assert_eq!(zero.cols, 5);
}

#[test]
fn identity() {
    let id = Matrix::identity(5);
    assert_eq!(id.mat.len(), 5);
    assert_eq!(id.mat[0].len(), 5);
    assert_eq!(id.mat[0][0], 1);
    assert_eq!(id.mat[0][1], 0);
    assert_eq!(id.mat[1][0], 0);
}

#[test]
fn invert_identity_is_identity() {
    let direct = DirectField::default();
    let id = Matrix::identity(5);
    let inv = id.invert(&direct).unwrap();
    assert_eq!(id, inv);
}

#[test]
fn mat_mul_by_inv_is_identity() {
    let direct = DirectField::default();
    let a = matrix(&[&[1u8, 2u8, 3u8][..], &[4u8, 5u8, 6u8][..], &[5u8, 6u8, 7u8][..]][..]);
    let a_inv = a.invert(&direct).unwrap();
    assert_eq!(a.mul(&a_inv, &direct), Matrix::identity(3));
}

#[test]
fn mul_simple() {
    let ring = Ring::default();
    let a = matrix(&[&[1u8, 2u8, 3u8][..], &[4u8, 5u8, 6u8][..]][..]);
    let b = matrix(&[&[1u8, 2u8][..], &[1u8, 2u8][..], &[1u8, 2u8][..]][..]);
    let res = a.mul(&b, &ring);
    assert_eq!(res.mat[0][0], 6);
    assert_eq!(res.mat[0][1], 12);
    assert_eq!(res.mat[1][0], 15);
    assert_eq!(res.mat[1][1], 30);
}

#[test]
fn mul_id() {
    let direct = DirectField::default();
    let m = matrix(&[&[1u8, 2u8][..], &[3u8, 4u8][..], &[5u8, 6u8][..]][..]);
    assert_eq!(Matrix::identity(3).mul(&m, &direct), m);
    assert_eq!(m.mul(&Matrix::identity(2), &direct), m);
}

#[test]
fn invert_needs_a_row_swap() {
    let direct = DirectField::default();
    let a = matrix(&[&[0u8, 1][..], &[1u8, 0][..]][..]);
    let inv = a.invert(&direct).unwrap();
    assert_eq!(inv, a);
    let b = matrix(&[&[0u8, 3, 7][..], &[2u8, 0, 1][..], &[9u8, 4, 0][..]][..]);
    let b_inv = b.invert(&direct).unwrap();
    assert_eq!(b.mul(&b_inv, &direct), Matrix::identity(3));
    assert_eq!(b_inv.mul(&b, &direct), Matrix::identity(3));
}

#[test]
fn invert_reports_singular_and_shape_errors() {
    let direct = DirectField::default();
    let singular = matrix(&[&[1u8, 1][..], &[1u8, 1][..]][..]);
    assert_eq!(singular.invert(&direct), Err(RsError::Singular));
    let wide = matrix(&[&[1u8, 2, 3][..], &[4u8, 5, 6][..]][..]);
    assert_eq!(wide.invert(&direct), Err(RsError::DimensionMismatch));
    assert_eq!(Matrix::from_rows(vec![]), Err(RsError::DimensionMismatch));
    assert_eq!(Matrix::from_rows(vec![vec![1, 2], vec![3]]), Err(RsError::DimensionMismatch));
}

#[test]
fn transpose_and_row_operations() {
    let direct = DirectField::default();
    let m = matrix(&[&[1u8, 2, 3][..], &[4u8, 5, 6][..]][..]);
    let t = m.transpose();
    assert_eq!(t, matrix(&[&[1u8, 4][..], &[2u8, 5][..], &[3u8, 6][..]][..]));
    let mut s = m.clone();
    s.swap_row(0, 1);
    assert_eq!(s, matrix(&[&[4u8, 5, 6][..], &[1u8, 2, 3][..]][..]));
    s.scale_row(1, 2, &direct);
    assert_eq!(s, matrix(&[&[4u8, 5, 6][..], &[2u8, 4, 6][..]][..]));
    s.add_scaled_row(1, 0, 1, &direct);
    assert_eq!(s, matrix(&[&[6u8, 1, 0][..], &[2u8, 4, 6][..]][..]));
    let mut sq = matrix(&[&[7u8, 8][..], &[9u8, 10][..]][..]);
    sq.augment_with_identity();
    assert_eq!(sq, matrix(&[&[7u8, 8, 1, 0][..], &[9u8, 10, 0, 1][..]][..]));
    let mut out = vec![0u8; 2];
    m.mul_vec(&[1, 1, 1], &mut out, &direct);
    assert_eq!(out, vec![1 ^ 2 ^ 3, 4 ^ 5 ^ 6]);
}

#[test]
fn vandermonde_and_cauchy_entries() {
    let direct = DirectField::default();
    let v = VandermondeMatrix(2, 2, 3, &direct).unwrap();
    assert_eq!(v, matrix(&[&[1u8, 2, 4][..], &[1u8, 3, 5][..]][..]));
    let p = PartialVandermondeMatrix(&[false, true, false, true], 3, &direct).unwrap();
    assert_eq!(p, matrix(&[&[1u8, 1, 1][..], &[1u8, 3, 5][..]][..]));
    assert_eq!(PartialVandermondeMatrix(&[false, false], 3, &direct), Err(RsError::DimensionMismatch));
    assert_eq!(VandermondeMatrix(0, 0, 3, &direct), Err(RsError::DimensionMismatch));
    let c = cauchy_matrix(2, 1, 2, &direct).unwrap();
    assert_eq!(c, matrix(&[&[direct.inv(2), direct.inv(3)][..]][..]));
}

#[test]
fn invert_vandermonde_blocks() {
    let direct = DirectField::default();
    for n in 1..=6usize {
        let v = VandermondeMatrix(0, n, n, &direct).unwrap();
        let inv = v.invert(&direct).unwrap();
        assert_eq!(v.mul(&inv, &direct), Matrix::identity(n));
        assert_eq!(inv.mul(&v, &direct), Matrix::identity(n));
    }
    let rank_two = matrix(&[&[1u8, 2, 3][..], &[2u8, 4, 6][..], &[0u8, 0, 1][..]][..]);
    assert_eq!(rank_two.invert(&direct), Err(RsError::Singular));
}
