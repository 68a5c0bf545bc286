use rs_shamir::finite_field::FiniteField256Log;

#[test]
fn finite_field_log_zero_additive_identity() {
    let field = FiniteField256Log::default();
    for i in 0..=255u8 {
        assert_eq!(i, field.add(i, 0));
        assert_eq!(i, field.add(0, i));
    }
}

#[test]
fn finite_field_log_element_is_own_inverse() {
    let field = FiniteField256Log::default();
    for i in 0..=255u8 {
        assert_eq!(0, field.add(i, i));
        assert_eq!(i, field.sub(0, i));
    }
}

#[test]
fn finite_field_log_addition_is_same_as_subtraction() {
    let field = FiniteField256Log::default();
    let x = 0x7C;
    let y = 0xF1;
    assert_eq!(field.add(x, y), field.sub(x, y));
}

#[test]
fn finite_field_log_one_multiplicative_identity() {
    let field = FiniteField256Log::default();
    for i in 0..=255u8 {
        assert_eq!(i, field.mul(1, i));
        assert_eq!(i, field.mul(i, 1));
    }
}

#[test]
fn finite_field_log_mul_commutative() {
    let field = FiniteField256Log::default();
    for i in 0..=255u8 {
        for j in 0..=255u8 {
            assert_eq!(field.mul(i, j), field.mul(j, i));
        }
    }
}

#[test]
fn finite_field_log_inv_closed() {
    let field = FiniteField256Log::default();
    for i in 1..=255u8 {
        assert!(field.inv(i) != 0);
    }
}

#[test]
fn finite_field_log_inv_identity() {
    let field = FiniteField256Log::default();
    for i in 1..=255u8 {
        assert_eq!(field.mul(i, field.inv(i)), 1);
    }
}

#[test]
fn finite_field_log_mul_generator() {
    let field = FiniteField256Log::default();
    let mut exists: [bool; 256] = [false; 256];
    for i in 1..=255u8 {
        let y = field.exp(3, i);
        exists[y as usize] = true;
    }
    for i in 1..=255 {
        assert!(exists[i]);
    }
}

#[test]
fn mul_div_inverse() {
    let field = FiniteField256Log::default();
    for i in 1..=255u8 {
        for j in 1..=255u8 {
            let z = field.mul(i, j);
            assert_eq!(field.div(z, i), j);
            assert_eq!(field.div(z, j), i);
        }
    }
}
