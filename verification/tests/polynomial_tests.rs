use polynomial::field::FieldElem;
use std::collections::HashSet;
use polynomial::polynomial::Polynomial;

fn fe(n: u64) -> FieldElem {
    FieldElem::from_u64(n)
}

#[test]
fn test_poly() {
    for _ in 0..10 {
        let degree = 10;
        let poly = Polynomial::random(degree);
        assert_eq!(poly.degree(), degree);
        let coeffs = poly.coefficients();

        // Evaluation at 0 results in coefficient of constant term
        assert_eq!(poly.eval(&FieldElem::zero()), coeffs[0]);

        // Evaluation at 1 results in sum of all coefficients
        let mut sum = FieldElem::zero();
        for c in coeffs.iter() {
            sum = sum.add(c);
        }
        assert_eq!(poly.eval(&FieldElem::one()), sum);
    }
}

#[test]
fn eval_concrete_values() {
    // p(x) = 3 + 5x
    let p = Polynomial(vec![fe(3), fe(5)]);
    assert_eq!(p.eval(&FieldElem::zero()), fe(3));
    assert_eq!(p.eval(&FieldElem::one()), fe(8));
    assert_eq!(p.eval(&fe(2)), fe(13));
}

#[test]
fn eval_degree_zero() {
    let p = Polynomial(vec![fe(9)]);
    assert_eq!(p.eval(&FieldElem::zero()), fe(9));
    assert_eq!(p.eval(&fe(123456)), fe(9));
}

#[test]
fn horner_matches_naive_sum() {
    // p(x) = 3 + 5x + 7x^2, evaluated the naive way term by term
    let p = Polynomial(vec![fe(3), fe(5), fe(7)]);
    let x = fe(2);
    let mut naive = FieldElem::zero();
    let mut x_power = FieldElem::one();
    for c in p.coefficients().iter() {
        naive = naive.add(&c.mul(&x_power));
        x_power = x_power.mul(&x);
    }
    assert_eq!(p.eval(&x), naive);
    assert_eq!(p.eval(&x), fe(41));
}

#[test]
fn lagrange_basis_concrete() {
    // over {1,2}: l_1(0) = 2/(2-1) = 2, l_2(0) = 1/(1-2) = -1
    assert_eq!(Polynomial::lagrange_basis_at_0(HashSet::from([1, 2]), 1), fe(2));
    assert_eq!(
        Polynomial::lagrange_basis_at_0(HashSet::from([1, 2]), 2),
        FieldElem::one().neg()
    );
}

#[test]
fn lagrange_basis_order_independent() {
    let a = Polynomial::lagrange_basis_at_0(HashSet::from([1, 2, 3, 4]), 2);
    let b = Polynomial::lagrange_basis_at_0(HashSet::from([4, 3, 1, 2]), 2);
    let c = Polynomial::lagrange_basis_at_0(HashSet::from([2, 4, 1, 3]), 2);
    assert_eq!(a, b);
    assert_eq!(a, c);
}

#[test]
fn lagrange_basis_degenerate() {
    // the only node equals the index: both products stay empty, value 1
    assert_eq!(
        Polynomial::lagrange_basis_at_0(HashSet::from([4]), 4),
        FieldElem::one()
    );
    // no nodes at all: the empty product again
    assert_eq!(
        Polynomial::lagrange_basis_at_0(HashSet::new(), 0),
        FieldElem::one()
    );
}

fn reconstruct_at_zero(p: &Polynomial, coords: &[usize]) -> FieldElem {
    let mut secret = FieldElem::zero();
    for &i in coords.iter() {
        let share = p.eval(&fe(i as u64));
        let basis = Polynomial::lagrange_basis_at_0(coords.iter().copied().collect::<HashSet<usize>>(), i);
        secret = secret.add(&share.mul(&basis));
    }
    secret
}

#[test]
fn reconstruct_secret_from_shares() {
    // degree 1, secret 3: any 2 shares recover p(0)
    let p = Polynomial(vec![fe(3), fe(5)]);
    assert_eq!(reconstruct_at_zero(&p, &[1, 2]), fe(3));
    assert_eq!(reconstruct_at_zero(&p, &[4, 7]), fe(3));

    // degree 2, secret 7: any 3 shares recover p(0)
    let p2 = Polynomial(vec![fe(7), fe(1), fe(2)]);
    assert_eq!(reconstruct_at_zero(&p2, &[5, 1, 3]), fe(7));
    assert_eq!(reconstruct_at_zero(&p2, &[2, 6, 9]), fe(7));

    // a random degree-2 polynomial reconstructs its own constant term
    let p3 = Polynomial::random(2);
    let secret = p3.eval(&FieldElem::zero());
    assert_eq!(reconstruct_at_zero(&p3, &[1, 2, 3]), secret);
}

#[test]
fn field_arithmetic_basics() {
    assert!(FieldElem::zero().is_zero());
    assert!(!FieldElem::one().is_zero());
    assert_eq!(fe(0), FieldElem::zero());
    assert_eq!(fe(1), FieldElem::one());
    assert_eq!(fe(2).add(&fe(3)), fe(5));
    assert_eq!(fe(2).mul(&fe(3)), fe(6));
    assert_ne!(fe(5), fe(6));
}

#[test]
fn field_negation_and_inverse() {
    assert!(fe(5).neg().add(&fe(5)).is_zero());
    assert_eq!(FieldElem::zero().neg(), FieldElem::zero());
    assert_eq!(fe(2).inverse().mul(&fe(2)), FieldElem::one());
    assert_eq!(FieldElem::one().inverse(), FieldElem::one());
    assert_eq!(FieldElem::zero().inverse(), FieldElem::zero());
}

#[test]
fn random_polynomial_properties() {
    let p = Polynomial::random(0);
    assert_eq!(p.degree(), 0);
    assert_eq!(p.coefficients().len(), 1);
    assert!(!FieldElem::random().is_zero());
}
