use polynomint::Polynomial;

fn poly(coeffs: Vec<isize>) -> Polynomial {
    Polynomial::new(coeffs)
}

#[test]
fn rem_euclid_examples() {
    let p = poly(vec![6, -5, 3, -7, 4]);
    assert_eq!(p.rem_euclid(2), poly(vec![0, 1, 1, 1]));
    assert_eq!(p.rem_euclid(4), poly(vec![2, 3, 3, 1]));
    assert_eq!(p.rem_euclid(5), poly(vec![1, 0, 3, 3, 4]));
}

#[test]
fn rem_euclid_is_nonnegative_for_negative_modulus() {
    let p = poly(vec![-7, 3]);
    assert_eq!(p.rem_euclid(-5), poly(vec![3, 3]));
}

#[test]
fn truncating_rem_keeps_signs() {
    let p = poly(vec![-7, 7, -3]);
    assert_eq!(p.rem_ref(5), poly(vec![-2, 2, -3]));
    // The two remainder semantics differ on negative coefficients.
    assert_eq!(p.rem_euclid(5), poly(vec![3, 2, 2]));
}

#[test]
fn rem_of_zero_polynomial() {
    assert!(Polynomial::zero().rem_ref(7).is_zero());
    assert!(Polynomial::zero().rem_euclid(7).is_zero());
}

#[test]
fn derivative_examples() {
    let poly1 = poly(vec![1, -2, 5, 4]);
    assert_eq!(poly1.derivative(), poly(vec![-2, 10, 12]));
    let poly2 = poly(vec![192, 3, -4, -9, 0, 38]);
    assert_eq!(poly2.derivative(), poly(vec![3, -8, -27, 0, 190]));
}

#[test]
fn derivative_of_constants_is_zero() {
    assert!(Polynomial::constant(17).derivative().is_zero());
    assert!(Polynomial::zero().derivative().is_zero());
}

#[test]
fn eval_examples() {
    let poly1 = poly(vec![5, 2, 1]);
    let poly2 = poly(vec![-5, 4, -3, -1]);
    assert_eq!(poly1.eval(1), 8);
    assert_eq!(poly2.eval(1), -5);
    assert_eq!(poly1.eval(-2), 5);
    assert_eq!(poly2.eval(-2), -17);
    assert_eq!(Polynomial::zero().eval(100), 0);
}

#[test]
fn has_root_examples() {
    let p = poly(vec![-2, 1]).mul_ref(&poly(vec![-4, 1])).mul_ref(&poly(vec![3, 1]));
    assert_eq!(p, poly(vec![24, -10, -3, 1]));
    assert!(p.has_root(2));
    assert!(p.has_root(4));
    assert!(p.has_root(-3));
    assert!(!p.has_root(1));
}

#[test]
fn has_root_mod_examples() {
    let p = poly(vec![-2, 1]).mul_ref(&poly(vec![-6, 1]));
    assert_eq!(p, poly(vec![12, -8, 1]));
    assert!(p.has_root_mod(2, 5));
    assert!(p.has_root_mod(1, 5));
    assert!(p.has_root_mod(2, 3));
    assert!(p.has_root_mod(0, 3));
    assert!(!p.has_root_mod(4, 5));
}

#[test]
fn factor_root_examples() {
    let p = poly(vec![12, -8, 1]); // (x - 2)(x - 6)
    assert_eq!(p.factor_root(2), Some(poly(vec![-6, 1])));
    assert_eq!(p.factor_root(6), Some(poly(vec![-2, 1])));
    assert_eq!(p.factor_root(5), None);
}

#[test]
fn factor_root_at_zero_drops_constant_term() {
    let p = poly(vec![0, 12, -8, 1]);
    assert_eq!(p.factor_root(0), Some(poly(vec![12, -8, 1])));
}

#[test]
fn factor_root_of_zero_polynomial() {
    assert_eq!(Polynomial::zero().factor_root(3), Some(Polynomial::zero()));
}

#[test]
fn factor_root_round_trip() {
    let p = poly(vec![24, -10, -3, 1]);
    let q = p.factor_root(4).unwrap();
    let back = q.mul_ref(&poly(vec![-4, 1]));
    assert_eq!(back, p);
}

#[test]
fn factor_root_mod_examples() {
    let p = poly(vec![12, -8, 1]);
    assert_eq!(p.factor_root_mod(2, 3), Some(poly(vec![0, 1])));
    assert_eq!(p.factor_root_mod(0, 3), Some(poly(vec![1, 1])));
    assert_eq!(p.factor_root_mod(1, 3), None);
    assert_eq!(p.factor_root_mod(2, 5), Some(poly(vec![4, 1])));
    assert_eq!(p.factor_root_mod(1, 5), Some(poly(vec![3, 1])));
    assert_eq!(p.factor_root_mod(0, 5), None);
    let poly2 = poly(vec![1, 0, 1]); // x^2 + 1 = (x + 1)^2 mod 2
    assert_eq!(poly2.factor_root_mod(1, 2), Some(poly(vec![1, 1])));
    assert_eq!(poly2.factor_root_mod(0, 2), None);
}

#[test]
fn factor_root_mod_rejects_composite_moduli() {
    let p = poly(vec![12, -8, 1]);
    assert_eq!(p.factor_root_mod(2, 4), None);
    // x has the root 0 modulo 25, but 25 = 5 * 5 is not prime.
    let x = poly(vec![0, 1]);
    assert_eq!(x.factor_root_mod(0, 25), None);
    assert_eq!(x.factor_root_mod(0, 49), None);
    assert_eq!(x.factor_root_mod(0, 1), None);
    assert_eq!(x.factor_root_mod(0, 0), None);
    assert_eq!(x.factor_root_mod(0, -5), None);
}

#[test]
fn factor_root_mod_large_prime() {
    // (x - 3)(x - 10) modulo 97, factored at the root 3.
    let p = poly(vec![30, -13, 1]);
    assert_eq!(p.factor_root_mod(3, 97), Some(poly(vec![87, 1])));
}

#[test]
fn factor_root_mod_root_congruent_to_zero() {
    // 5x is 0 modulo 5 everywhere, so any value is a root; factoring at 5
    // works modulo 5 on the reduced (zero) polynomial.
    let p = poly(vec![0, 5]);
    assert_eq!(p.factor_root_mod(5, 5), Some(Polynomial::zero()));
    // x + 5 reduces to x modulo 5; its root 5 is congruent to 0, so the
    // constant term is dropped from the reduced polynomial.
    let q = poly(vec![5, 1]);
    assert_eq!(q.factor_root_mod(5, 5), Some(Polynomial::constant(1)));
}

#[test]
fn factor_root_mod_reduces_coefficients_first() {
    // 5x^2 + 4x + 1 reduces to 4x + 1 modulo 5, with root 1.
    let p = poly(vec![1, 4, 5]);
    assert_eq!(p.factor_root_mod(1, 5), Some(Polynomial::constant(4)));
}

#[test]
fn factor_root_mod_round_trip_by_evaluation() {
    let p = poly(vec![12, -8, 1]);
    let q = p.factor_root_mod(2, 5).unwrap();
    let back = q.mul_ref(&poly(vec![-2, 1]));
    for x in -10..10 {
        assert_eq!(back.eval(x).rem_euclid(5), p.eval(x).rem_euclid(5));
    }
}
