use robust_sub::robust_subtract;

fn bits_of(v: &[f64]) -> Vec<u64> {
    v.iter().map(|x| x.to_bits()).collect()
}

fn doubles_of(v: &[u64]) -> Vec<f64> {
    v.iter().map(|b| f64::from_bits(*b)).collect()
}

fn subtract(e: &[f64], f: &[f64]) -> Vec<f64> {
    doubles_of(&robust_subtract(&bits_of(e), &bits_of(f)))
}

fn gen() -> f64 {
    rand::random::<f64>()
}

/// The exponent of the lowest set significand bit of a finite nonzero
/// double: the largest `e` with `x` an integer multiple of `2^e`.
fn lowest_bit_exp(x: f64) -> i32 {
    let bits = x.to_bits();
    let exp = ((bits >> 52) & 0x7ff) as i32;
    let frac = bits & ((1u64 << 52) - 1);
    let (m, e) = if exp == 0 {
        (frac, -1074)
    } else {
        (frac | (1u64 << 52), exp - 1075)
    };
    e + m.trailing_zeros() as i32
}

/// Checks that `g` is a valid expansion: no component is zero unless
/// `g` is `[0.0]`, magnitudes are non-decreasing, and adjacent
/// components are non-overlapping — the smaller lies entirely below
/// the lowest significand bit of the larger.
fn check_invariants(g: &[f64]) {
    assert!(g.len() >= 1);
    if g.len() == 1 {
        return;
    }
    for c in g {
        assert!(*c != 0.0, "interior zero in {:?}", g);
    }
    for i in 0..g.len() - 1 {
        let b = g[i];
        let a = g[i + 1];
        assert!(b.abs() <= a.abs(), "magnitudes out of order: {} then {}", b, a);
        assert!(
            b.abs() < 2f64.powi(lowest_bit_exp(a)),
            "components {} and {} overlap",
            b,
            a
        );
    }
}

#[test]
fn test_robust_sub() {
    assert_eq!(subtract(&vec![1.], &vec![1.]), [0.]);

    let mut s = vec![0.];
    for _ in 0..100 {
        s = subtract(&s, &vec![gen() * 2f64.powf(gen() * 1000.)]);
    }
}

#[test]
fn singleton_cancellation_is_canonical_zero() {
    assert_eq!(subtract(&[1.0], &[1.0]), [0.0]);
    assert!(subtract(&[1.0], &[1.0])[0].to_bits() == 0);
}

#[test]
fn subtracting_zero_keeps_value() {
    assert_eq!(subtract(&[1.0], &[0.0]), [1.0]);
}

#[test]
fn subtracting_from_zero_negates() {
    assert_eq!(subtract(&[0.0], &[1.0]), [-1.0]);
}

#[test]
fn huge_component_cancels_exactly() {
    assert_eq!(subtract(&[1.0, 1e100], &[1e100]), [1.0]);
}

#[test]
fn representable_difference_collapses() {
    let tiny = 2f64.powi(-53);
    assert_eq!(subtract(&[1.0], &[tiny]), [1.0 - tiny]);
}

#[test]
fn nonrepresentable_sum_splits_in_two() {
    let tiny = 2f64.powi(-53);
    let g = subtract(&[1.0], &[-tiny]);
    assert_eq!(g, [tiny, 1.0]);
    check_invariants(&g);
}

#[test]
fn equal_two_component_expansions_cancel() {
    let e = [1.0, 2f64.powi(53)];
    assert_eq!(subtract(&e, &e), [0.0]);
}

#[test]
fn self_cancel_three_components() {
    let e = [2f64.powi(-53), 1.0, 2f64.powi(53)];
    assert_eq!(subtract(&e, &e), [0.0]);
}

#[test]
fn subtracting_zero_expansion_keeps_real_value() {
    let e = [3.5, 2f64.powi(60)];
    assert_eq!(subtract(&e, &[0.0]), e);
}

#[test]
fn antisymmetry_represents_same_value() {
    let e = [3.5, 2f64.powi(60)];
    let f = [1.0];
    let g1 = subtract(&e, &f);
    let g2: Vec<f64> = subtract(&f, &e).iter().map(|c| -c).collect();
    check_invariants(&g1);
    check_invariants(&g2);
    assert_eq!(subtract(&g1, &g2), [0.0]);
    assert_eq!(g1, [2.5, 2f64.powi(60)]);
}

#[test]
fn exact_small_difference() {
    assert_eq!(subtract(&[1.5], &[0.25]), [1.25]);
}

#[test]
fn tie_break_takes_negated_stream_first() {
    let e = [1.0, 2f64.powi(53)];
    let f = [1.0];
    let g = subtract(&e, &f);
    assert_eq!(g, [2f64.powi(53)]);
}

#[test]
fn interleaved_streams_merge_by_magnitude() {
    let e = [1.0, 2f64.powi(60)];
    let f = [2f64.powi(-30), 2f64.powi(30)];
    let g = subtract(&e, &f);
    assert_eq!(g, [-2f64.powi(-30), 1.0, 2f64.powi(60) - 2f64.powi(30)]);
    check_invariants(&g);
}

#[test]
fn subnormal_components_stay_exact() {
    let e = [2f64.powi(-1070), 2f64.powi(-500)];
    let f = [2f64.powi(-1074)];
    let g = subtract(&e, &f);
    assert_eq!(g, [15.0 * 2f64.powi(-1074), 2f64.powi(-500)]);
    check_invariants(&g);
}

#[test]
fn stress_outputs_stay_valid_expansions() {
    let mut s = vec![0.0];
    for _ in 0..300 {
        let draw = gen() * 2f64.powf(gen() * 1000.);
        s = subtract(&s, &[draw]);
        check_invariants(&s);
    }
}

#[test]
fn output_length_never_exceeds_input_lengths() {
    let mut s = vec![0.0];
    for _ in 0..50 {
        let draw = gen() * 2f64.powf(gen() * 100.);
        let next = subtract(&s, &[draw]);
        assert!(next.len() >= 1);
        assert!(next.len() <= s.len() + 1);
        s = next;
    }
}
