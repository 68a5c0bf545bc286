use rs_shamir::finite_field::{checked_div, DirectField, ExpLogField, Field256, TableField};
use rs_shamir::error::RsError;
use rs_shamir::gf::GENERATOR;

#[test]
fn finite_field_zero_additive_identity() {
    for i in 0..=255u8 {
        assert_eq!(i, DirectField::add(i, DirectField::zero()));
        assert_eq!(i, DirectField::add(DirectField::zero(), i));
    }
}

#[test]
fn finite_field_element_is_own_inverse() {
    for i in 0..=255u8 {
        assert_eq!(DirectField::zero(), DirectField::add(i, i));
        assert_eq!(i, DirectField::neg(i));
    }
}

#[test]
fn finite_field_addition_is_same_as_subtraction() {
    let x = 0x7C;
    let y = 0xF1;
    assert_eq!(DirectField::add(x, y), DirectField::sub(x, y));
}

fn one_multiplicative_identity_for<T: Field256 + Default>() {
    let field = T::default();
    for i in 0..=255u8 {
        assert_eq!(i, field.mul(T::one(), i));
        assert_eq!(i, field.mul(i, T::one()));
    }
}

#[test]
fn finite_field_one_multiplicative_identity() {
    one_multiplicative_identity_for::<DirectField>();
    one_multiplicative_identity_for::<ExpLogField>();
    one_multiplicative_identity_for::<TableField>();
}

fn mul_commutative_for<T: Field256 + Default>() {
    let field = T::default();
    for i in 0..=255u8 {
        for j in 0..=255u8 {
            assert_eq!(field.mul(i, j), field.mul(j, i));
        }
    }
}

#[test]
fn finite_field_mul_commutative() {
    mul_commutative_for::<DirectField>();
    mul_commutative_for::<ExpLogField>();
    mul_commutative_for::<TableField>();
}

fn inv_closed_for<T: Field256 + Default>() {
    let field = T::default();
    for i in 1..=255u8 {
        assert!(field.inv(i) != T::zero());
    }
}

#[test]
fn finite_field_inv_closed() {
    inv_closed_for::<DirectField>();
    inv_closed_for::<ExpLogField>();
    inv_closed_for::<TableField>();
}

fn inv_identity_for<T: Field256 + Default>() {
    let field = T::default();
    for i in 1..=255u8 {
        assert_eq!(field.mul(i, field.inv(i)), T::one());
    }
}

#[test]
fn finite_field_inv_identity() {
    inv_identity_for::<DirectField>();
    inv_identity_for::<ExpLogField>();
    inv_identity_for::<TableField>();
}

fn mul_generator_for<T: Field256 + Default>() {
    let field = T::default();
    let mut exists: [bool; 256] = [false; 256];
    for i in 1..=255u8 {
        let x = field.exp(GENERATOR, i);
        exists[x as usize] = true;
    }
    for i in 1..=255 {
        assert!(exists[i]);
    }
}

#[test]
fn finite_field_mul_generator() {
    mul_generator_for::<DirectField>();
    mul_generator_for::<ExpLogField>();
    mul_generator_for::<TableField>();
}

fn mul_div_inverse_for<T: Field256 + Default>() {
    let field = T::default();
    for i in 1..=255u8 {
        for j in 1..=255u8 {
            let z = field.mul(i, j);
            assert_eq!(field.div(z, i), j);
            assert_eq!(field.div(z, j), i);
        }
    }
}

#[test]
fn mul_div_inverse_exp_log_field() {
    mul_div_inverse_for::<ExpLogField>();
}

#[test]
fn mul_div_inverse_table_field() {
    mul_div_inverse_for::<TableField>();
}

#[test]
fn fields_agree_on_every_operation() {
    let direct = DirectField::default();
    let explog = ExpLogField::default();
    let table = TableField::default();
    for x in 0..=255u8 {
        assert_eq!(direct.inv(x), explog.inv(x));
        assert_eq!(direct.inv(x), table.inv(x));
        for y in 0..=255u8 {
            let p = direct.mul(x, y);
            assert_eq!(p, explog.mul(x, y));
            assert_eq!(p, table.mul(x, y));
            assert_eq!(direct.exp(x, y), explog.exp(x, y));
            assert_eq!(direct.exp(x, y), table.exp(x, y));
            if y != 0 {
                assert_eq!(direct.div(x, y), explog.div(x, y));
                assert_eq!(direct.div(x, y), table.div(x, y));
            }
        }
    }
}

#[test]
fn known_products_and_powers() {
    let direct = DirectField::default();
    // The worked example of the AES specification: {57} * {83} = {c1}.
    assert_eq!(direct.mul(0x57, 0x83), 0xc1);
    assert_eq!(direct.mul(0x57, 0x13), 0xfe);
    assert_eq!(direct.mul(0x02, 0x80), 0x1b);
    assert_eq!(direct.exp(3, 0), 1);
    assert_eq!(direct.exp(0, 0), 1);
    assert_eq!(direct.exp(0, 5), 0);
    assert_eq!(direct.exp(3, 255), 1);
    assert_eq!(direct.exp(3, 2), 5);
    assert_eq!(direct.inv(0), 0);
    assert_eq!(direct.inv(1), 1);
    assert_eq!(direct.inv(0x53), 0xca);
}

#[test]
fn checked_div_reports_division_by_zero() {
    let direct = DirectField::default();
    assert_eq!(checked_div(&direct, 7, 0), Err(RsError::DivideByZero));
    assert_eq!(checked_div(&direct, 0xc1, 0x83), Ok(0x57));
}
