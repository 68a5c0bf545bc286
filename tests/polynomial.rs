use rs_shamir::finite_field::{DirectField, ExpLogField};
use rs_shamir::polynomial::Polynomial;

#[test]
fn degree_zero() {
    let p = Polynomial::zero();
    assert_eq!(p.degree(), -1);
}

#[test]
fn degree_constant() {
    let p = Polynomial::from_bytes(&[1]);
    assert_eq!(p.degree(), 0);
}

#[test]
fn degree_linear() {
    let p = Polynomial::from_bytes(&[0, 1]);
    assert_eq!(p.degree(), 1);
}

#[test]
fn is_zero_true() {
    let p = Polynomial::from_bytes(&[]);
    assert_eq!(p.is_zero(), true);
}

#[test]
fn is_zero_false() {
    let p = Polynomial::from_bytes(&[1]);
    assert_eq!(p.is_zero(), false);
}

#[test]
fn evaluate_zero() {
    let p = Polynomial::zero();
    let direct = DirectField::default();
    assert_eq!(p.evaluate(5, &direct), 0);
}

#[test]
fn add_zero() {
    assert_eq!(
        Polynomial::zero().add::<DirectField>(&Polynomial::zero()),
        Polynomial::zero()
    );
}

#[test]
fn add_zero_anything() {
    let zero = Polynomial::zero();
    let anything = Polynomial::from_bytes(&[5, 8, 10]);
    assert_eq!(zero.add::<DirectField>(&anything), anything);
}

#[test]
fn mul_zero_anything() {
    let direct = DirectField::default();
    assert_eq!(
        Polynomial::zero().mul(&Polynomial::zero(), &direct),
        Polynomial::zero()
    );
    assert_eq!(
        Polynomial::zero().mul(&Polynomial::from_bytes(&[1]), &direct),
        Polynomial::zero()
    );
    assert_eq!(
        Polynomial::zero().mul(&Polynomial::from_bytes(&[1, 2, 3]), &direct),
        Polynomial::zero()
    );
    assert_eq!(
        Polynomial::from_bytes(&[1, 2, 3]).mul(&Polynomial::zero(), &direct),
        Polynomial::zero()
    );
}

#[test]
fn single_term_constant() {
    let direct = DirectField::default();
    let p = Polynomial::single_term_ys(&[5], 0, &direct);
    assert_eq!(p, Polynomial::from_bytes(&[5]));
    assert_eq!(p.evaluate(0, &direct), 5);
    assert_eq!(p.evaluate(1, &direct), 5);
    assert_eq!(p.evaluate(2, &direct), 5);
}

#[test]
fn single_term_linear() {
    let direct = DirectField::default();
    let p0 = Polynomial::single_term_ys(&[1, 2], 0, &direct);
    let p1 = Polynomial::single_term_ys(&[1, 2], 1, &direct);
    assert_eq!(p0.evaluate(0, &direct), 1);
    assert_eq!(p1.evaluate(1, &direct), 2);
}

#[test]
fn interpolate_same() {
    let direct = DirectField::default();
    let p0 = Polynomial::interpolate(&[0xDE, 0xAD, 0xBE, 0xEF], &direct);
    let p1 =
        Polynomial::interpolate_points(&[(0, 0xDE), (1, 0xAD), (2, 0xBE), (3, 0xEF)], &direct);
    assert_eq!(p0, p1);
}

#[test]
fn evaluate_interpolated_initial_gives_initial() {
    let direct = DirectField::default();
    let p = Polynomial::interpolate(&[0xDE, 0xAD, 0xBE, 0xEF], &direct);
    assert_eq!(0xDE, p.evaluate(0, &direct));
    assert_eq!(0xAD, p.evaluate(1, &direct));
    assert_eq!(0xBE, p.evaluate(2, &direct));
    assert_eq!(0xEF, p.evaluate(3, &direct));
}

#[test]
fn evaluate_interpolated_after() {
    let direct = DirectField::default();
    let p0 = Polynomial::interpolate(&[0xDE, 0xAD, 0xBE, 0xEF], &direct);
    let p1 =
        Polynomial::interpolate_points(&[(0, 0xDE), (1, 0xAD), (2, 0xBE), (3, 0xEF)], &direct);
    assert_eq!(p0.evaluate(4, &direct), p1.evaluate(4, &direct));
}

#[test]
fn evaluate_forget_evaluate() {
    let direct = DirectField::default();
    let p0 = Polynomial::interpolate(&[0xDE, 0xAD, 0xBE, 0xEF], &direct);
    let e = p0.evaluate(4, &direct);
    let p1 =
        Polynomial::interpolate_points(&[(0, 0xDE), (1, 0xAD), (2, 0xBE), (4, e)], &direct);
    assert_eq!(p0, p1);
}

#[test]
fn evaluate_forget_more_evaluate() {
    let direct = DirectField::default();
    let p = Polynomial::interpolate(&[0xDE, 0xAD, 0xBE, 0xEF], &direct);
    let points: Vec<(u8, u8)> = (4..8).map(|x| (x, p.evaluate(x, &direct))).collect();
    assert_eq!(p, Polynomial::interpolate_points(&points, &direct));
}

#[test]
fn interpolation_passes_through_every_value() {
    let field = ExpLogField::default();
    let ys: Vec<u8> = (0..40u32).map(|i| ((i * 37 + 11) % 256) as u8).collect();
    let p = Polynomial::interpolate(&ys, &field);
    assert!(p.degree() < ys.len() as i64);
    for (i, y) in ys.iter().enumerate() {
        assert_eq!(p.evaluate(i as u8, &field), *y);
    }
}

#[test]
fn sums_and_products_are_trimmed() {
    let direct = DirectField::default();
    let p = Polynomial::from_bytes(&[1, 2, 3]);
    let q = Polynomial::from_bytes(&[4, 2, 3]);
    assert_eq!(p.add::<DirectField>(&q), Polynomial::from_bytes(&[5]));
    assert_eq!(p.add::<DirectField>(&p), Polynomial::zero());
    assert_eq!(Polynomial::from_bytes(&[7, 0, 0]).degree(), 0);
    // (1 + x)(1 + x) = 1 + x^2 in characteristic 2.
    let r = Polynomial::from_bytes(&[1, 1]).mul(&Polynomial::from_bytes(&[1, 1]), &direct);
    assert_eq!(r, Polynomial::from_bytes(&[1, 0, 1]));
    assert_eq!(r.coefficients(), vec![1, 0, 1]);
    assert_eq!(r.evaluate(2, &direct), 5);
}
