use zkvm::fft::{fft, ifft};
use zkvm::field::Field;
use zkvm::goldilocks::Goldilocks;
use zkvm::interpolate::{fft_interpolate, lagrange_interpolate};
use zkvm::lde::{coset_domain, low_degree_extend};
use zkvm::poly::Polynomial;
use zkvm::toyfield::ToyField;

fn tf(x: u64) -> ToyField {
    ToyField::from_u64(x)
}

fn poly(vals: &[u64]) -> Polynomial<ToyField> {
    Polynomial::new(vals.iter().map(|&v| tf(v)).collect())
}

#[test]
fn trims_trailing_zero_coeffs() {
    let p = poly(&[1, 2, 0, 0]);
    assert_eq!(p.degree(), 1);
    assert_eq!(p.coeffs(), &[tf(1), tf(2)]);
}

#[test]
fn eval_matches_hand_computation() {
    let p = poly(&[3, 2, 1]);
    assert_eq!(p.eval(tf(5)), tf(38));
}

#[test]
fn add_and_sub_are_inverse() {
    let a = poly(&[1, 2, 3]);
    let b = poly(&[4, 5]);
    let sum = a.add(&b);
    assert_eq!(sum.sub(&b), a);
}

#[test]
fn mul_naive_matches_hand_computation() {
    let a = poly(&[1, 1]);
    let b = poly(&[2, 1]);
    let product = a.mul_naive(&b);
    assert_eq!(product.coeffs(), &[tf(2), tf(3), tf(1)]);
}

#[test]
fn mul_fft_matches_mul_naive() {
    let a = poly(&[1, 2, 3, 4, 5]);
    let b = poly(&[9, 8, 7]);
    assert_eq!(a.mul_naive(&b), a.mul_fft(&b));
    let c = poly(&[1, 0, 4, 2, 9, 1, 6]);
    let d = poly(&[3, 3, 3, 3, 3]);
    assert_eq!(c.mul_naive(&d), c.mul_fft(&d));
}

#[test]
fn mul_by_zero_is_zero() {
    let a = poly(&[1, 2, 3]);
    let z = Polynomial::zero();
    assert_eq!(a.mul_naive(&z), z);
    assert_eq!(a.mul_fft(&z), z);
}

#[test]
fn zero_polynomial_is_zero_and_constant() {
    let z: Polynomial<ToyField> = Polynomial::zero();
    assert!(z.is_zero());
    assert_eq!(z.degree(), 0);
    assert!(Polynomial::new(vec![tf(0), tf(0)]).is_zero());
    assert!(Polynomial::<ToyField>::new(vec![]).is_zero());
    assert!(!poly(&[0, 1]).is_zero());
}

#[test]
fn scale_multiplies_every_coefficient() {
    let p = poly(&[1, 2, 3]).scale(tf(10));
    assert_eq!(p.coeffs(), &[tf(10), tf(20), tf(30)]);
    assert!(poly(&[1, 2, 3]).scale(tf(0)).is_zero());
}

fn naive_dft<F: Field>(coeffs: &[F]) -> Vec<F> {
    let n = coeffs.len();
    let log_n = n.trailing_zeros();
    let omega = F::root_of_unity(log_n);
    let mut out = vec![F::zero(); n];
    for (k, slot) in out.iter_mut().enumerate() {
        let x = omega.pow(k as u64);
        let mut acc = F::zero();
        for &c in coeffs.iter().rev() {
            acc = acc.fmul(x).fadd(c);
        }
        *slot = acc;
    }
    out
}

#[test]
fn fft_matches_naive_dft_toyfield() {
    let coeffs: Vec<ToyField> = (1..=8).map(ToyField::from_u64).collect();
    let expected = naive_dft(&coeffs);
    let mut actual = coeffs.clone();
    fft(&mut actual);
    assert_eq!(actual, expected);
}

#[test]
fn fft_matches_naive_dft_goldilocks() {
    let coeffs: Vec<Goldilocks> = (1..=16).map(Goldilocks::from_u64).collect();
    let expected = naive_dft(&coeffs);
    let mut actual = coeffs.clone();
    fft(&mut actual);
    assert_eq!(actual, expected);
}

#[test]
fn ifft_undoes_fft() {
    let original: Vec<ToyField> = vec![3, 1, 4, 1, 5, 9, 2, 6].into_iter().map(ToyField::from_u64).collect();
    let mut roundtrip = original.clone();
    fft(&mut roundtrip);
    ifft(&mut roundtrip);
    assert_eq!(roundtrip, original);
}

#[test]
fn fft_of_constant_polynomial_is_constant_everywhere() {
    let coeffs = vec![ToyField::from_u64(7); 1]
        .into_iter()
        .chain(std::iter::repeat_n(ToyField::zero(), 7))
        .collect::<Vec<_>>();
    let mut evals = coeffs.clone();
    fft(&mut evals);
    assert!(evals.iter().all(|&v| v == ToyField::from_u64(7)));
}

#[test]
fn single_element_domain_is_identity() {
    let mut v = vec![ToyField::from_u64(42)];
    fft(&mut v);
    assert_eq!(v, vec![ToyField::from_u64(42)]);
    ifft(&mut v);
    assert_eq!(v, vec![ToyField::from_u64(42)]);
}

#[test]
fn lde_matches_direct_evaluation_on_the_coset() {
    let coeffs = vec![tf(1), tf(2), tf(3), tf(4)];
    let poly = Polynomial::new(coeffs.clone());
    let blowup = 4;
    let offset = tf(2);
    let evals = low_degree_extend(&coeffs, blowup, offset);
    let domain = coset_domain(coeffs.len() * blowup, offset);
    assert_eq!(evals.len(), 16);
    for (k, &x) in domain.iter().enumerate() {
        assert_eq!(evals[k], poly.eval(x), "mismatch at coset point {k}");
    }
}

#[test]
fn blowup_factor_one_is_plain_evaluation_on_h_n() {
    let coeffs = vec![tf(5), tf(1)];
    let evals = low_degree_extend(&coeffs, 1, tf(1));
    let domain = coset_domain(2, tf(1));
    assert_eq!(evals[0], tf(5) + domain[0]);
    assert_eq!(evals[1], tf(5) + domain[1]);
}

#[test]
fn coset_domain_steps_by_the_generator() {
    let domain = coset_domain(4, tf(3));
    let g = ToyField::root_of_unity(2);
    assert_eq!(domain[0], tf(3));
    assert_eq!(domain[1], tf(3) * g);
    assert_eq!(domain[3], tf(3) * g * g * g);
}

#[test]
fn lagrange_reproduces_known_polynomial() {
    let points = [(tf(0), tf(1)), (tf(1), tf(2)), (tf(2), tf(5))];
    let p = lagrange_interpolate(&points);
    for &(x, y) in &points {
        assert_eq!(p.eval(x), y);
    }
    assert_eq!(p.coeffs(), &[tf(1), tf(0), tf(1)]);
}

#[test]
fn lagrange_handles_single_point_as_constant() {
    let points = [(tf(3), tf(9))];
    let p = lagrange_interpolate(&points);
    assert_eq!(p.eval(tf(3)), tf(9));
    assert_eq!(p.eval(tf(100)), tf(9));
}

#[test]
fn fft_interpolate_matches_lagrange_on_roots_of_unity() {
    let log_n = 3u32;
    let n = 1usize << log_n;
    let omega = ToyField::root_of_unity(log_n);
    let original = Polynomial::new((1..=n as u64).map(tf).collect());
    let mut x = ToyField::one();
    let mut points = Vec::with_capacity(n);
    let mut evals = Vec::with_capacity(n);
    for _ in 0..n {
        evals.push(original.eval(x));
        points.push((x, original.eval(x)));
        x *= omega;
    }
    let via_fft = fft_interpolate(&evals);
    let via_lagrange = lagrange_interpolate(&points);
    assert_eq!(via_fft, original);
    assert_eq!(via_fft, via_lagrange);
}

#[test]
fn fft_interpolate_passes_through_every_evaluation() {
    let evals: Vec<ToyField> = vec![5, 0, 96, 13, 42, 7, 7, 1].into_iter().map(tf).collect();
    let p = fft_interpolate(&evals);
    let omega = ToyField::root_of_unity(3);
    let mut x = ToyField::one();
    for e in &evals {
        assert_eq!(p.eval(x), *e);
        x *= omega;
    }
}

#[test]
fn ifft_undoes_fft_goldilocks() {
    let original: Vec<Goldilocks> = (0..16u64).map(|i| Goldilocks::from_u64(i * i * 1_000_003 + 17)).collect();
    let mut roundtrip = original.clone();
    fft(&mut roundtrip);
    ifft(&mut roundtrip);
    assert_eq!(roundtrip, original);
}

#[test]
fn lagrange_passes_through_scattered_points() {
    let points: Vec<(ToyField, ToyField)> = vec![(tf(3), tf(10)), (tf(50), tf(0)), (tf(96), tf(77)), (tf(8), tf(8))];
    let p = lagrange_interpolate(&points);
    assert!(p.coeffs().len() <= 4);
    for (x, y) in &points {
        assert_eq!(p.eval(*x), *y);
    }
}

#[test]
fn goldilocks_product_and_difference_evaluate_pointwise() {
    let g = |x: u64| Goldilocks::from_u64(x);
    let a = Polynomial::new(vec![g(3), g(0), g(5), g(1)]);
    let b = Polynomial::new(vec![g(7), g(2)]);
    let prod = a.mul_naive(&b);
    assert_eq!(prod.coeffs().len(), a.coeffs().len() + b.coeffs().len() - 1);
    assert_eq!(prod, a.mul_fft(&b));
    let diff = a.sub(&b);
    for x in [0u64, 1, 2, 99, 0xFFFF_FFFF] {
        let x = g(x);
        assert_eq!(prod.eval(x), a.eval(x).fmul(b.eval(x)));
        assert_eq!(diff.eval(x), a.eval(x).fsub(b.eval(x)));
    }
    assert_eq!(a.add(&b).sub(&b), a);
    assert_eq!(a.sub(&a), Polynomial::zero());
}
