use polynomint::Polynomial;

#[test]
fn normalization_strips_trailing_zeros() {
    let p = Polynomial::new(vec![1, 0, 2, 0, 0]);
    assert_eq!(p.coeffs().as_slice(), &[1, 0, 2]);
    assert_eq!(p.degree(), 2);
}

#[test]
fn all_zero_sequence_collapses_to_empty() {
    let p = Polynomial::new(vec![0, 0, 0, 0]);
    assert!(p.is_zero());
    assert_eq!(p.coeffs().len(), 0);
    assert_eq!(p, Polynomial::zero());
}

#[test]
fn zero_and_constant_forms_agree() {
    let zero = Polynomial::zero();
    let alt_zero = Polynomial::constant(0);
    let empty = Polynomial::new(vec![]);
    assert_eq!(zero, alt_zero);
    assert_eq!(zero, empty);
    assert_eq!(zero.degree(), -1);
    assert_eq!(alt_zero.degree(), -1);
}

#[test]
fn degree_of_constants_and_quadratics() {
    let three = Polynomial::constant(3);
    let classic = Polynomial::new(vec![1, 2, 1, 0, 0]);
    assert_eq!(three.degree(), 0);
    assert_eq!(classic.degree(), 2);
}

#[test]
fn is_zero_checks() {
    let zero = Polynomial::zero();
    let also_zero = Polynomial::constant(0);
    let yet_again_zero = Polynomial::new(vec![0, 0, 0, 0]);
    let even_more_zero = Polynomial::new(vec![1, 2, 1]).sub_ref(&Polynomial::new(vec![1, 2, 1]));
    let not_zero = Polynomial::new(vec![0, 1]);
    assert!(zero.is_zero());
    assert!(also_zero.is_zero());
    assert!(yet_again_zero.is_zero());
    assert!(even_more_zero.is_zero());
    assert!(!not_zero.is_zero());
}

#[test]
fn times_x_shifts_terms_up() {
    let first = Polynomial::new(vec![1, 2, 3]);
    let second = first.times_x();
    assert_eq!(second, Polynomial::new(vec![0, 1, 2, 3]));
}

#[test]
fn times_x_of_zero_is_zero() {
    let z = Polynomial::zero().times_x();
    assert!(z.is_zero());
    assert_eq!(z.coeffs().len(), 0);
}

#[test]
fn iter_yields_coefficients_ascending() {
    let p = Polynomial::new(vec![5, 3, -2, 1]);
    let mut it = p.iter().iter();
    assert_eq!(it.next(), Some(&5));
    assert_eq!(it.next(), Some(&3));
    assert_eq!(it.next(), Some(&(-2)));
    assert_eq!(it.next(), Some(&1));
    assert_eq!(it.next(), None);
}

#[test]
fn iter_mut_scales_in_place() {
    let mut p = Polynomial::new(vec![5, 3, -2, 1]);
    for coeff in p.iter_mut().iter_mut() {
        *coeff *= 3;
    }
    assert_eq!(p, Polynomial::new(vec![15, 9, -6, 3]));
}

#[test]
fn coeffs_mut_writes_single_terms() {
    let mut p = Polynomial::new(vec![1, 2, 3]);
    p.coeffs_mut()[0] = -4;
    assert_eq!(p, Polynomial::new(vec![-4, 2, 3]));
}

#[test]
fn coeff_reads_single_terms() {
    let p = Polynomial::new(vec![7, 0, -4]);
    assert_eq!(p.coeff(0), 7);
    assert_eq!(p.coeff(1), 0);
    assert_eq!(p.coeff(2), -4);
}

#[test]
fn clone_and_equality() {
    let p = Polynomial::new(vec![1, 2, 3]);
    let q = p.clone();
    assert_eq!(p, q);
    let r = Polynomial::new(vec![1, 2, 4]);
    assert!(p != r);
    let s = Polynomial::new(vec![1, 2]);
    assert!(p != s);
}

#[test]
fn display_zero() {
    assert_eq!(Polynomial::zero().display(), "0");
    assert_eq!(Polynomial::new(vec![0, 0]).display(), "0");
}

#[test]
fn display_simple_terms() {
    assert_eq!(Polynomial::constant(5).display(), "5");
    assert_eq!(Polynomial::constant(-5).display(), "-5");
    assert_eq!(Polynomial::new(vec![0, 1]).display(), "x");
    assert_eq!(Polynomial::new(vec![0, -1]).display(), "-x");
    assert_eq!(Polynomial::new(vec![0, -3]).display(), "-3x");
    assert_eq!(Polynomial::new(vec![0, 0, 1]).display(), "x^2");
}

#[test]
fn display_full_polynomials() {
    assert_eq!(Polynomial::new(vec![1, 2, 1]).display(), "x^2 + 2x + 1");
    assert_eq!(Polynomial::new(vec![-1, -1]).display(), "-x - 1");
    assert_eq!(Polynomial::new(vec![-1, 1]).display(), "x - 1");
    assert_eq!(Polynomial::new(vec![0, 1, 0, -7]).display(), "-7x^3 + x");
    assert_eq!(Polynomial::new(vec![10, 0, 12]).display(), "12x^2 + 10");
    assert_eq!(Polynomial::new(vec![6, -5, 3, -7, 4]).display(), "4x^4 - 7x^3 + 3x^2 - 5x + 6");
}
