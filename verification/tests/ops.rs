use polynomint::Polynomial;

fn poly(coeffs: Vec<isize>) -> Polynomial {
    Polynomial::new(coeffs)
}

#[test]
fn it_works() {
    let mut quadratic = poly(vec![1, 2, 1]); // x^2 + 2x + 1
    let linear = poly(vec![-6, 1]); // x - 6
    assert_eq!(quadratic.add_ref(&linear), poly(vec![-5, 3, 1]));
    assert_eq!(quadratic.sub_ref(&linear), poly(vec![7, 1, 1]));
    assert_eq!(quadratic.mul_ref(&linear), poly(vec![-6, -11, -4, 1]));
    quadratic.sub_assign(&linear);
    assert_eq!(quadratic, poly(vec![7, 1, 1]));
    quadratic.add_assign(&linear);
    assert_eq!(quadratic, poly(vec![1, 2, 1]));
    quadratic.mul_assign(&linear);
    assert_eq!(quadratic, poly(vec![-6, -11, -4, 1]));
    assert_eq!(quadratic.derivative(), poly(vec![-11, -8, 3]));
    let mut another = poly(vec![1, 3, 3, 1]); // x^3 + 3x^2 + 3x + 1
    let pair = poly(vec![-5, 4, 2]); // 2x^2 + 4x - 5
    assert_eq!(another.add_ref(&pair), poly(vec![-4, 7, 5, 1]));
    assert_eq!(another.sub_ref(&pair), poly(vec![6, -1, 1, 1]));
    assert_eq!(another.mul_ref(&pair), poly(vec![-5, -11, -1, 13, 10, 2]));
    another.sub_assign(&pair);
    assert_eq!(another, poly(vec![6, -1, 1, 1]));
    another.add_assign(&pair);
    assert_eq!(another, poly(vec![1, 3, 3, 1]));
    another.mul_assign(&pair);
    assert_eq!(another, poly(vec![-5, -11, -1, 13, 10, 2]));
    assert_eq!(another.derivative(), poly(vec![-11, -2, 39, 40, 10]));
}

#[test]
fn additive_identity_scenarios() {
    let p = poly(vec![4, 0, -2, 7]);
    let z = Polynomial::zero();
    assert_eq!(p.add_ref(&z), p);
    assert_eq!(z.add_ref(&p), p);
}

#[test]
fn addition_commutes_and_associates() {
    let p = poly(vec![1, -4, 2]);
    let q = poly(vec![3, 3]);
    let r = poly(vec![-1, 0, 0, 5]);
    assert_eq!(p.add_ref(&q), q.add_ref(&p));
    assert_eq!(p.add_ref(&q).add_ref(&r), p.add_ref(&q.add_ref(&r)));
}

#[test]
fn addition_cancels_to_zero() {
    let p = poly(vec![9, -1, 0, 6]);
    let n = p.neg_ref();
    assert!(p.add_ref(&n).is_zero());
    assert!(n.add_ref(&p).is_zero());
    // Cancellation of leading terms normalizes the sum's length too.
    let a = poly(vec![1, 1, 5]);
    let b = poly(vec![2, 2, -5]);
    assert_eq!(a.add_ref(&b), poly(vec![3, 3]));
}

#[test]
fn negation_forms() {
    let p = poly(vec![3, -4, 5]);
    assert_eq!(p.neg_ref(), poly(vec![-3, 4, -5]));
    assert_eq!(p.clone().neg(), poly(vec![-3, 4, -5]));
    assert!(Polynomial::zero().neg_ref().is_zero());
}

#[test]
fn multiplication_commutes() {
    let p = poly(vec![2, 0, -1]);
    let q = poly(vec![-3, 1, 4]);
    assert_eq!(p.mul_ref(&q), q.mul_ref(&p));
}

#[test]
fn multiplication_by_zero_annihilates() {
    let p = poly(vec![5, -7, 2]);
    let z = Polynomial::zero();
    assert!(p.mul_ref(&z).is_zero());
    assert!(z.mul_ref(&p).is_zero());
    assert!(p.mul_scalar_ref(0).is_zero());
}

#[test]
fn degree_of_product_adds_degrees() {
    let p = poly(vec![1, 2, 1]); // degree 2
    let q = poly(vec![-6, 1]); // degree 1
    assert_eq!(p.mul_ref(&q).degree(), 3);
    let c = Polynomial::constant(4); // degree 0
    assert_eq!(p.mul_ref(&c).degree(), 2);
}

#[test]
fn scalar_multiplication() {
    let quadratic = poly(vec![1, 2, 1]);
    assert_eq!(quadratic.mul_scalar_ref(5), poly(vec![5, 10, 5]));
    assert_eq!(quadratic.clone().mul_scalar(-1), poly(vec![-1, -2, -1]));
}

#[test]
fn scalar_addition_and_subtraction() {
    let p = poly(vec![1, 2]);
    assert_eq!(p.add_scalar_ref(4), poly(vec![5, 2]));
    assert_eq!(p.sub_scalar_ref(1), poly(vec![0, 2]));
    // Adding to zero makes a constant; cancelling a constant renormalizes.
    assert_eq!(Polynomial::zero().add_scalar(7), Polynomial::constant(7));
    assert!(Polynomial::constant(7).sub_scalar(7).is_zero());
}

#[test]
fn value_reference_and_in_place_forms_agree() {
    let p = poly(vec![2, -3, 0, 4]);
    let q = poly(vec![-1, 6, 5]);

    let by_ref = p.add_ref(&q);
    let by_value = p.clone().add(q.clone());
    let mut in_place = p.clone();
    in_place.add_assign(&q);
    assert_eq!(by_ref, by_value);
    assert_eq!(by_ref, in_place);

    let by_ref = p.sub_ref(&q);
    let by_value = p.clone().sub(q.clone());
    let mut in_place = p.clone();
    in_place.sub_assign(&q);
    assert_eq!(by_ref, by_value);
    assert_eq!(by_ref, in_place);

    let by_ref = p.mul_ref(&q);
    let by_value = p.clone().mul(q.clone());
    let mut in_place = p.clone();
    in_place.mul_assign(&q);
    assert_eq!(by_ref, by_value);
    assert_eq!(by_ref, in_place);

    let by_ref = p.mul_scalar_ref(3);
    let by_value = p.clone().mul_scalar(3);
    let mut in_place = p.clone();
    in_place.mul_assign_scalar(3);
    assert_eq!(by_ref, by_value);
    assert_eq!(by_ref, in_place);

    let by_ref = p.add_scalar_ref(9);
    let by_value = p.clone().add_scalar(9);
    let mut in_place = p.clone();
    in_place.add_assign_scalar(9);
    assert_eq!(by_ref, by_value);
    assert_eq!(by_ref, in_place);

    let by_ref = p.sub_scalar_ref(9);
    let by_value = p.clone().sub_scalar(9);
    let mut in_place = p.clone();
    in_place.sub_assign_scalar(9);
    assert_eq!(by_ref, by_value);
    assert_eq!(by_ref, in_place);

    let by_ref = p.rem_ref(3);
    let by_value = p.clone().rem(3);
    let mut in_place = p.clone();
    in_place.rem_assign(3);
    assert_eq!(by_ref, by_value);
    assert_eq!(by_ref, in_place);
}

#[test]
fn doc_example_product_and_remainders() {
    let quadratic = poly(vec![1, 2, 1]);
    let linear = poly(vec![-6, 1]);
    let mut resultant = quadratic.mul_ref(&linear);
    assert_eq!(resultant, poly(vec![-6, -11, -4, 1]));
    resultant.rem_assign(5);
    assert_eq!(resultant, poly(vec![-1, -1, -4, 1]));
    let resultant2 = quadratic.mul_ref(&linear).rem_euclid(5);
    assert_eq!(resultant2, poly(vec![4, 4, 1, 1]));
}
