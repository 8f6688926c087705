use golden_dkg::group::GoldenScalar;
use golden_dkg::jubjub_group::JubjubScalar as S;
use golden_dkg::tiny_group::TinyScalar;
use golden_dkg::util::{
    exp_iter, inner_product, is_power_of_two, sum_of_powers, sum_of_powers_slow, Poly6, VecPoly3,
};

fn s(value: u64) -> S {
    S::from_u64(value).unwrap()
}

fn add(a: S, b: S) -> S {
    a.add(&b)
}

fn mul(a: S, b: S) -> S {
    a.mul(&b)
}

#[test]
fn exp_iter_starts_at_one() {
    let x = s(7);
    let mut it = exp_iter(x);
    assert_eq!(it.next(), Some(S::one()));
    assert_eq!(it.next(), Some(x));
    assert_eq!(it.next(), Some(mul(x, x)));
}

#[test]
fn exp_iter_zero_yields_all_ones() {
    let mut it = exp_iter(S::zero());
    assert_eq!(it.next(), Some(S::one()));
    assert_eq!(it.next(), Some(S::zero()));
    assert_eq!(it.next(), Some(S::zero()));
}

#[test]
fn inner_product_handles_mismatched_lengths() {
    let a = [s(2), s(3), s(5)];
    let b = [s(7), s(11)];
    assert_eq!(
        inner_product(&a, &b),
        add(mul(s(2), s(7)), mul(s(3), s(11)))
    );
    assert_eq!(inner_product(&a[..0], &b), S::zero());
}

#[test]
fn vecpoly3_eval_matches_horner() {
    let p = VecPoly3(
        vec![s(1), s(2)],
        vec![s(3), s(4)],
        vec![s(5), s(6)],
        vec![s(7), s(8)],
    );
    let x = s(2);
    let got = p.eval(x);
    let want0 = add(s(1), mul(x, add(s(3), mul(x, add(s(5), mul(x, s(7)))))));
    let want1 = add(s(2), mul(x, add(s(4), mul(x, add(s(6), mul(x, s(8)))))));
    assert_eq!(got, vec![want0, want1]);
}

#[test]
fn poly6_eval_matches_horner() {
    let p = Poly6 {
        t1: s(1),
        t2: s(2),
        t3: s(3),
        t4: s(4),
        t5: s(5),
        t6: s(6),
    };
    let x = s(2);
    let want = mul(
        x,
        add(
            s(1),
            mul(
                x,
                add(
                    s(2),
                    mul(x, add(s(3), mul(x, add(s(4), mul(x, add(s(5), mul(x, s(6))))))))
                ),
            ),
        ),
    );
    assert_eq!(p.eval(x), want);
    // 2 + 8 + 24 + 64 + 160 + 384 = 642.
    assert_eq!(p.eval(x), s(642));
}

#[test]
fn special_inner_product_pins_zero_prefix_contract() {
    let lhs = VecPoly3(
        vec![s(99), s(99)],
        vec![s(1), s(2)],
        vec![s(3), s(4)],
        vec![s(5), s(6)],
    );
    let rhs = VecPoly3(
        vec![s(7), s(8)],
        vec![s(9), s(10)],
        vec![s(99), s(99)],
        vec![s(11), s(12)],
    );
    let got = VecPoly3::special_inner_product(&lhs, &rhs);
    let t1 = inner_product(&lhs.1, &rhs.0);
    let t2 = add(inner_product(&lhs.1, &rhs.1), inner_product(&lhs.2, &rhs.0));
    let t3 = add(inner_product(&lhs.2, &rhs.1), inner_product(&lhs.3, &rhs.0));
    let t4 = add(inner_product(&lhs.1, &rhs.3), inner_product(&lhs.3, &rhs.1));
    let t5 = inner_product(&lhs.2, &rhs.3);
    let t6 = inner_product(&lhs.3, &rhs.3);
    assert_eq!(got.t1, t1);
    assert_eq!(got.t2, t2);
    assert_eq!(got.t3, t3);
    assert_eq!(got.t4, t4);
    assert_eq!(got.t5, t5);
    assert_eq!(got.t6, t6);
    let lhs_zero = VecPoly3(
        vec![S::zero(), S::zero()],
        lhs.1.clone(),
        lhs.2.clone(),
        lhs.3.clone(),
    );
    let rhs_zero = VecPoly3(
        rhs.0.clone(),
        rhs.1.clone(),
        vec![S::zero(), S::zero()],
        rhs.3.clone(),
    );
    assert_eq!(
        VecPoly3::special_inner_product(&lhs_zero, &rhs_zero).t1,
        got.t1
    );
}

#[test]
fn vecpoly3_zero_evaluates_to_zero() {
    let p = VecPoly3(
        vec![S::zero(); 4],
        vec![S::zero(); 4],
        vec![S::zero(); 4],
        vec![S::zero(); 4],
    );
    assert_eq!(p.eval(s(7)), vec![S::zero(); 4]);
}

#[test]
fn vecpoly3_eval_treats_empty_fields_as_zero() {
    let p = VecPoly3(
        Vec::new(),
        vec![s(3), s(4)],
        vec![s(5), s(6)],
        vec![s(7), s(8)],
    );
    let x = s(2);
    let got = p.eval(x);
    let want0 = mul(x, add(s(3), mul(x, add(s(5), mul(x, s(7))))));
    let want1 = mul(x, add(s(4), mul(x, add(s(6), mul(x, s(8))))));
    assert_eq!(got, vec![want0, want1]);
}

#[test]
fn exp_2_is_powers_of_2() {
    let mut it = exp_iter(s(2));
    let exp_2: Vec<S> = (0..4).map(|_| it.next().unwrap()).collect();
    assert_eq!(exp_2[0], s(1));
    assert_eq!(exp_2[1], s(2));
    assert_eq!(exp_2[2], s(4));
    assert_eq!(exp_2[3], s(8));
}

#[test]
fn inner_product_fixed_length_4() {
    let a = [s(1), s(2), s(3), s(4)];
    let b = [s(2), s(3), s(4), s(5)];
    assert_eq!(inner_product(&a, &b), s(40));
}

#[test]
fn sum_of_powers_matches_slow_path() {
    let x = s(10);
    for &n in &[0usize, 1, 2, 4, 8, 16, 32, 64] {
        assert_eq!(sum_of_powers_slow(&x, n), sum_of_powers(&x, n));
    }
    assert_eq!(sum_of_powers(&x, 3), sum_of_powers_slow(&x, 3));
    assert_eq!(sum_of_powers(&x, 5), sum_of_powers_slow(&x, 5));
}

#[test]
fn sum_of_powers_slow_pins_decimal_pattern() {
    let x = s(10);
    assert_eq!(sum_of_powers_slow(&x, 0), S::zero());
    assert_eq!(sum_of_powers_slow(&x, 1), S::one());
    assert_eq!(sum_of_powers_slow(&x, 2), s(11));
    assert_eq!(sum_of_powers_slow(&x, 3), s(111));
    assert_eq!(sum_of_powers_slow(&x, 4), s(1111));
    assert_eq!(sum_of_powers_slow(&x, 5), s(11111));
    assert_eq!(sum_of_powers_slow(&x, 6), s(111111));
}

#[test]
fn sum_of_powers_reduces_in_a_small_field() {
    // 1 + 3 + 9 + 27 = 40, and 1 + 3 + ... + 3^7 = 3280 = 33 * 97 + 79.
    let x = TinyScalar(3);
    assert_eq!(sum_of_powers(&x, 4), TinyScalar(40));
    assert_eq!(sum_of_powers(&x, 8), TinyScalar(79));
    assert_eq!(sum_of_powers_slow(&x, 8), TinyScalar(79));
}

#[test]
fn power_of_two_detection() {
    let powers: Vec<usize> = (0..20).filter(|n| is_power_of_two(*n)).collect();
    assert_eq!(powers, vec![1, 2, 4, 8, 16]);
    assert!(is_power_of_two(1 << 40));
    assert!(!is_power_of_two((1 << 40) + 1));
}
