//! Small scalar-algebra helpers and byte helpers shared by the proof
//! encodings: powers of a scalar, inner products, sums of powers, and the
//! degree-3 vector and degree-6 scalar polynomials of the constraint-system
//! proofs.
use vstd::arithmetic::div_mod::{
    lemma_add_mod_noop, lemma_mul_mod_noop, lemma_mul_mod_noop_left, lemma_small_mod,
};
use vstd::arithmetic::mul::{lemma_mul_is_commutative, lemma_mul_is_distributive_add};
use vstd::arithmetic::power::{lemma_pow_adds, pow};
use vstd::prelude::*;

use crate::group::GoldenScalar;
use crate::modarith::lemma_horner_step;
use crate::shamir::values_of;

verus! {

/// First 32 bytes of `data`.
///
/// The caller must supply at least 32 bytes: a shorter slice is out of
/// range for the `0..32` slice taken here.
pub fn read32(data: &[u8]) -> (buf: [u8; 32])
    requires
        data@.len() >= 32,
    ensures
        buf@ == data@.subrange(0, 32),
{
    let head = &data[0..32];
    let mut buf = [0u8; 32];
    let mut i: usize = 0;
    while i < 32
        invariant
            i <= 32,
            head@.len() == 32,
            head@ == data@.subrange(0, 32),
            forall|k: int| 0 <= k < i ==> buf@[k] == head@[k],
        decreases 32 - i,
    {
        buf[i] = head[i];
        i = i + 1;
    }
    assert(buf@ =~= data@.subrange(0, 32));
    buf
}

/// `x^k` reduced into the scalar field.
pub open spec fn power_value<S: GoldenScalar>(x: S, k: nat) -> int {
    pow(x.value() as int, k) % (S::field_order() as int)
}

/// `b^(e + 1) == b * b^e`.
proof fn lemma_pow_succ(b: int, e: nat)
    ensures
        pow(b, e + 1) == b * pow(b, e),
{
    reveal(pow);
}

/// Multiplying a reduced power by the base gives the next reduced power.
proof fn lemma_power_step(b: int, e: nat, m: int)
    requires
        m > 0,
    ensures
        ((pow(b, e) % m) * b) % m == pow(b, e + 1) % m,
{
    lemma_mul_mod_noop_left(pow(b, e), b, m);
    lemma_pow_succ(b, e);
    lemma_mul_is_commutative(b, pow(b, e));
}

/// Powers of a scalar, starting at `x^0 = 1`.
pub struct ScalarExp<S: GoldenScalar> {
    x: S,
    next_exp_x: S,
    exponent: Ghost<nat>,
}

impl<S: GoldenScalar> ScalarExp<S> {
    #[verifier::type_invariant]
    spec fn powers_wf(self) -> bool {
        &&& self.x.wf()
        &&& self.next_exp_x.wf()
        &&& self.next_exp_x.value() == power_value(self.x, self.exponent@)
    }

    /// The scalar whose powers are produced.
    pub closed spec fn base(&self) -> S {
        self.x
    }

    /// The exponent of the next power produced.
    pub closed spec fn exponent(&self) -> nat {
        self.exponent@
    }

    /// Produce the next power; the powers never run out.
    pub fn next(&mut self) -> (item: Option<S>)
        ensures
            final(self).base() == old(self).base(),
            final(self).exponent() == old(self).exponent() + 1,
            item matches Some(p) && p.wf() && p.value() == power_value(
                old(self).base(),
                old(self).exponent(),
            ),
    {
        proof {
            use_type_invariant(&*self);
            S::lemma_field_order();
        }
        let exp_x = self.next_exp_x;
        let next = self.next_exp_x.mul(&self.x);
        let ghost e = self.exponent@;
        proof {
            lemma_power_step(self.x.value() as int, e, S::field_order() as int);
        }
        *self = ScalarExp { x: self.x, next_exp_x: next, exponent: Ghost(e + 1) };
        Some(exp_x)
    }
}

/// Powers of `x`, starting at `x^0 = 1`.
pub fn exp_iter<S: GoldenScalar>(x: S) -> (powers: ScalarExp<S>)
    requires
        x.wf(),
    ensures
        powers.base() == x,
        powers.exponent() == 0,
{
    let one = S::one();
    proof {
        reveal(pow);
        S::lemma_field_order();
        lemma_small_mod(1, S::field_order());
    }
    ScalarExp { x, next_exp_x: one, exponent: Ghost(0) }
}

/// `a[0] * b[0] + ... + a[n - 1] * b[n - 1]`.
pub open spec fn dot_prefix(a: Seq<int>, b: Seq<int>, n: nat) -> int
    decreases n,
{
    if n == 0 {
        0
    } else {
        dot_prefix(a, b, (n - 1) as nat) + a[n - 1] * b[n - 1]
    }
}

/// Inner product of the common prefix of `a` and `b`, reduced into the
/// field.
pub open spec fn inner_product_value<S: GoldenScalar>(a: Seq<S>, b: Seq<S>) -> int {
    let n = if a.len() < b.len() {
        a.len()
    } else {
        b.len()
    };
    dot_prefix(values_of(a), values_of(b), n) % (S::field_order() as int)
}

/// Every scalar of `v` is a field element.
pub open spec fn all_wf<S: GoldenScalar>(v: Seq<S>) -> bool {
    forall|i: int| 0 <= i < v.len() ==> (#[trigger] v[i]).wf()
}

/// Inner product of two scalar slices over their common length.
pub fn inner_product<S: GoldenScalar>(a: &[S], b: &[S]) -> (out: S)
    requires
        all_wf(a@),
        all_wf(b@),
    ensures
        out.wf(),
        out.value() == inner_product_value(a@, b@),
{
    let ghost m = S::field_order() as int;
    let mut out = S::zero();
    let len = if a.len() < b.len() {
        a.len()
    } else {
        b.len()
    };
    proof {
        S::lemma_field_order();
        lemma_small_mod(0, m as nat);
    }
    let mut i: usize = 0;
    while i < len
        invariant
            i <= len,
            len == if a@.len() < b@.len() {
                a@.len()
            } else {
                b@.len()
            },
            m == S::field_order() as int,
            m > 1,
            all_wf(a@),
            all_wf(b@),
            out.wf(),
            out.value() == dot_prefix(values_of(a@), values_of(b@), i as nat) % m,
        decreases len - i,
    {
        let term = a[i].mul(&b[i]);
        let next = out.add(&term);
        proof {
            let d = dot_prefix(values_of(a@), values_of(b@), i as nat);
            let p = a@[i as int].value() * b@[i as int].value();
            lemma_add_mod_noop(d, p as int, m);
            assert(dot_prefix(values_of(a@), values_of(b@), (i + 1) as nat) == d + values_of(
                a@,
            )[i as int] * values_of(b@)[i as int]);
        }
        out = next;
        i = i + 1;
    }
    out
}

/// `1 + x + x^2 + ... + x^(n-1)` over the integers.
pub open spec fn geometric_sum(x: int, n: nat) -> int
    decreases n,
{
    if n == 0 {
        0
    } else {
        geometric_sum(x, (n - 1) as nat) + pow(x, (n - 1) as nat)
    }
}

/// The sum of the first `n` powers of `x`, reduced into the field.
pub open spec fn sum_of_powers_value<S: GoldenScalar>(x: S, n: nat) -> int {
    geometric_sum(x.value() as int, n) % (S::field_order() as int)
}

/// A geometric sum of `c + d` terms splits after its first `c` terms:
/// `G(c + d) == G(c) + x^c * G(d)`.
pub proof fn lemma_geometric_split(x: int, c: nat, d: nat)
    ensures
        geometric_sum(x, c + d) == geometric_sum(x, c) + pow(x, c) * geometric_sum(x, d),
    decreases d,
{
    if d > 0 {
        lemma_geometric_split(x, c, (d - 1) as nat);
        lemma_pow_adds(x, c, (d - 1) as nat);
        lemma_mul_is_distributive_add(pow(x, c), geometric_sum(x, (d - 1) as nat), pow(x, (d - 1) as nat));
        assert((c + d - 1) as nat == c + (d - 1) as nat);
    }
}

/// Linear-time sum of powers: `1 + x + ... + x^(n-1)`.
pub fn sum_of_powers_slow<S: GoldenScalar>(x: &S, n: usize) -> (sum: S)
    requires
        x.wf(),
    ensures
        sum.wf(),
        sum.value() == sum_of_powers_value(*x, n as nat),
{
    let ghost m = S::field_order() as int;
    let mut powers = exp_iter(*x);
    let mut sum = S::zero();
    proof {
        S::lemma_field_order();
        lemma_small_mod(0, m as nat);
    }
    let mut i: usize = 0;
    while i < n
        invariant
            i <= n,
            m == S::field_order() as int,
            m > 1,
            x.wf(),
            powers.base() == *x,
            powers.exponent() == i,
            sum.wf(),
            sum.value() == geometric_sum(x.value() as int, i as nat) % m,
        decreases n - i,
    {
        if let Some(p) = powers.next() {
            proof {
                lemma_add_mod_noop(
                    geometric_sum(x.value() as int, i as nat),
                    pow(x.value() as int, i as nat),
                    m,
                );
                assert(geometric_sum(x.value() as int, (i + 1) as nat) == geometric_sum(
                    x.value() as int,
                    i as nat,
                ) + pow(x.value() as int, i as nat));
            }
            sum = sum.add(&p);
        }
        i = i + 1;
    }
    sum
}

/// `n` is a power of two.
pub open spec fn is_pow2(n: nat) -> bool
    decreases n,
{
    if n == 1 {
        true
    } else if n == 0 || n % 2 == 1 {
        false
    } else {
        is_pow2(n / 2)
    }
}

/// Whether `n` is a power of two.
pub fn is_power_of_two(n: usize) -> (result: bool)
    ensures
        result == is_pow2(n as nat),
{
    if n == 0 {
        return false;
    }
    let mut m = n;
    while m % 2 == 0
        invariant
            m > 0,
            is_pow2(m as nat) == is_pow2(n as nat),
        decreases m,
    {
        m = m / 2;
    }
    m == 1
}

/// Sum of the powers `1 + x + ... + x^(n-1)`.
///
/// For a power of two `n` this doubles the number of summed powers in
/// each step, with `2 * lg(n)` multiplications; otherwise it sums the
/// powers one by one. Both give the same sum.
pub fn sum_of_powers<S: GoldenScalar>(x: &S, n: usize) -> (sum: S)
    requires
        x.wf(),
    ensures
        sum.wf(),
        sum.value() == sum_of_powers_value(*x, n as nat),
{
    if !is_power_of_two(n) {
        return sum_of_powers_slow(x, n);
    }
    let ghost m = S::field_order() as int;
    let ghost xv = x.value() as int;
    proof {
        S::lemma_field_order();
        S::lemma_scalar_model(*x, *x);
        reveal_with_fuel(geometric_sum, 3);
        reveal(pow);
    }
    if n == 0 || n == 1 {
        let s = if n == 0 {
            S::zero()
        } else {
            S::one()
        };
        proof {
            lemma_small_mod(0, m as nat);
            lemma_small_mod(1, m as nat);
        }
        return s;
    }
    let mut k = n;
    let mut result = S::one().add(x);
    let mut factor = *x;
    let ghost mut half: nat = 1;
    proof {
        assert(pow(xv, 1) == xv * pow(xv, 0));
        assert(geometric_sum(xv, 2) == 1 + xv);
        lemma_small_mod(xv as nat, m as nat);
    }
    while k > 2
        invariant
            m == S::field_order() as int,
            m > 1,
            xv == x.value() as int,
            x.wf(),
            is_pow2(k as nat),
            k >= 2,
            half >= 1,
            (2 * half) * k == 2 * n,
            factor.wf(),
            result.wf(),
            factor.value() == pow(xv, half) % m,
            result.value() == geometric_sum(xv, 2 * half) % m,
        decreases k,
    {
        let ghost c: nat = 2 * half;
        let squared = factor.mul(&factor);
        let scaled = squared.mul(&result);
        let next = result.add(&scaled);
        proof {
            let ph = pow(xv, half);
            let pc = pow(xv, c);
            let g = geometric_sum(xv, c);
            lemma_mul_mod_noop(ph, ph, m);
            lemma_pow_adds(xv, half, half);
            assert(half + half == c);
            assert(squared.value() == pc % m);
            lemma_mul_mod_noop(pc, g, m);
            assert(scaled.value() == (pc * g) % m);
            lemma_add_mod_noop(g, pc * g, m);
            lemma_geometric_split(xv, c, c);
            assert(c + c == 2 * c);
            assert(next.value() == geometric_sum(xv, 2 * c) % m);
            assert(k % 2 == 0);
            assert((2 * c) * (k / 2) == (2 * half) * k) by (nonlinear_arith)
                requires
                    c == 2 * half,
                    k % 2 == 0,
            ;
        }
        factor = squared;
        result = next;
        k = k / 2;
        proof {
            half = c;
        }
    }
    proof {
        assert(k == 2);
        assert(2 * half == n) by (nonlinear_arith)
            requires
                (2 * half) * k == 2 * n,
                k == 2,
        ;
    }
    result
}

/// Value of `a + x * (b + x * (c + x * d))`.
pub open spec fn cubic_value(a: int, b: int, c: int, d: int, x: int) -> int {
    a + x * (b + x * (c + x * d))
}

/// Entry `i` of a limb, or zero past its end.
pub open spec fn limb_value<S: GoldenScalar>(limb: Seq<S>, i: int) -> int {
    if 0 <= i < limb.len() {
        limb[i].value() as int
    } else {
        0
    }
}

/// Degree-3 vector polynomial `a + b*x + c*x^2 + d*x^3`.
pub struct VecPoly3<S: GoldenScalar>(pub Vec<S>, pub Vec<S>, pub Vec<S>, pub Vec<S>);

/// Degree-6 scalar polynomial `t1*x + t2*x^2 + ... + t6*x^6`.
pub struct Poly6<S: GoldenScalar> {
    /// Coefficient of `x`.
    pub t1: S,
    /// Coefficient of `x^2`.
    pub t2: S,
    /// Coefficient of `x^3`.
    pub t3: S,
    /// Coefficient of `x^4`.
    pub t4: S,
    /// Coefficient of `x^5`.
    pub t5: S,
    /// Coefficient of `x^6`.
    pub t6: S,
}

/// Entry `i` of `limb`, or zero past its end.
fn limb_at<S: GoldenScalar>(limb: &Vec<S>, i: usize) -> (s: S)
    requires
        all_wf(limb@),
    ensures
        s.wf(),
        s.value() == limb_value(limb@, i as int),
{
    if i < limb.len() {
        limb[i]
    } else {
        S::zero()
    }
}

/// `(p * x + c)` computed on reduced values is the reduced `c + x * p`.
fn horner_step<S: GoldenScalar>(p: &S, x: &S, c: &S, Ghost(exact): Ghost<int>) -> (r: S)
    requires
        p.wf(),
        x.wf(),
        c.wf(),
        p.value() == exact % (S::field_order() as int),
    ensures
        r.wf(),
        r.value() == (c.value() + x.value() * exact) % (S::field_order() as int),
{
    proof {
        S::lemma_field_order();
        lemma_horner_step(exact, x.value() as int, c.value() as int, S::field_order() as int);
    }
    p.mul(x).add(c)
}

impl<S: GoldenScalar> VecPoly3<S> {
    /// Every coefficient of every limb is a field element.
    pub open spec fn limbs_wf(&self) -> bool {
        &&& all_wf(self.0@)
        &&& all_wf(self.1@)
        &&& all_wf(self.2@)
        &&& all_wf(self.3@)
    }

    /// Length of the longest limb.
    pub open spec fn width(&self) -> nat {
        let n01 = if self.0@.len() < self.1@.len() {
            self.1@.len()
        } else {
            self.0@.len()
        };
        let n23 = if self.2@.len() < self.3@.len() {
            self.3@.len()
        } else {
            self.2@.len()
        };
        if n01 < n23 {
            n23
        } else {
            n01
        }
    }

    /// Entry `i` of the polynomial at `x`, with missing entries read as
    /// zero, before reduction.
    pub open spec fn entry_value(&self, i: int, x: int) -> int {
        cubic_value(
            limb_value(self.0@, i),
            limb_value(self.1@, i),
            limb_value(self.2@, i),
            limb_value(self.3@, i),
            x,
        )
    }

    /// Inner product of `lhs` and `rhs` assuming `lhs.0` and `rhs.2` are
    /// zero: the terms with either are left out.
    pub fn special_inner_product(lhs: &Self, rhs: &Self) -> (t: Poly6<S>)
        requires
            lhs.limbs_wf(),
            rhs.limbs_wf(),
        ensures
            t.coefficients_wf(),
            t.t1.value() == inner_product_value(lhs.1@, rhs.0@),
            t.t2.value() == (inner_product_value(lhs.1@, rhs.1@) + inner_product_value(
                lhs.2@,
                rhs.0@,
            )) % (S::field_order() as int),
            t.t3.value() == (inner_product_value(lhs.2@, rhs.1@) + inner_product_value(
                lhs.3@,
                rhs.0@,
            )) % (S::field_order() as int),
            t.t4.value() == (inner_product_value(lhs.1@, rhs.3@) + inner_product_value(
                lhs.3@,
                rhs.1@,
            )) % (S::field_order() as int),
            t.t5.value() == inner_product_value(lhs.2@, rhs.3@),
            t.t6.value() == inner_product_value(lhs.3@, rhs.3@),
    {
        let t1 = inner_product(lhs.1.as_slice(), rhs.0.as_slice());
        let t2 = inner_product(lhs.1.as_slice(), rhs.1.as_slice()).add(
            &inner_product(lhs.2.as_slice(), rhs.0.as_slice()),
        );
        let t3 = inner_product(lhs.2.as_slice(), rhs.1.as_slice()).add(
            &inner_product(lhs.3.as_slice(), rhs.0.as_slice()),
        );
        let t4 = inner_product(lhs.1.as_slice(), rhs.3.as_slice()).add(
            &inner_product(lhs.3.as_slice(), rhs.1.as_slice()),
        );
        let t5 = inner_product(lhs.2.as_slice(), rhs.3.as_slice());
        let t6 = inner_product(lhs.3.as_slice(), rhs.3.as_slice());
        Poly6 { t1, t2, t3, t4, t5, t6 }
    }

    /// Evaluate the polynomial at `x`, entry by entry; a limb shorter than
    /// the longest one reads as zero past its end.
    pub fn eval(&self, x: S) -> (out: Vec<S>)
        requires
            self.limbs_wf(),
            x.wf(),
        ensures
            out@.len() == self.width(),
            forall|i: int|
                0 <= i < out@.len() ==> (#[trigger] out@[i]).wf() && out@[i].value()
                    == self.entry_value(i, x.value() as int) % (S::field_order() as int),
    {
        let mut n = self.0.len();
        if n < self.1.len() {
            n = self.1.len();
        }
        let mut n23 = self.2.len();
        if n23 < self.3.len() {
            n23 = self.3.len();
        }
        if n < n23 {
            n = n23;
        }
        let ghost m = S::field_order() as int;
        let ghost xv = x.value() as int;
        let mut out: Vec<S> = Vec::new();
        let mut i: usize = 0;
        while i < n
            invariant
                i <= n,
                n == self.width(),
                m == S::field_order() as int,
                xv == x.value() as int,
                x.wf(),
                self.limbs_wf(),
                out@.len() == i,
                forall|k: int|
                    0 <= k < i ==> (#[trigger] out@[k]).wf() && out@[k].value()
                        == self.entry_value(k, xv) % m,
            decreases n - i,
        {
            let a = limb_at(&self.0, i);
            let b = limb_at(&self.1, i);
            let c = limb_at(&self.2, i);
            let d = limb_at(&self.3, i);
            let ghost dv = d.value() as int;
            let ghost cv = c.value() as int;
            let ghost bv = b.value() as int;
            proof {
                S::lemma_scalar_model(d, d);
                lemma_small_mod(d.value(), S::field_order());
            }
            let t = horner_step(&d, &x, &c, Ghost(dv));
            let t = horner_step(&t, &x, &b, Ghost(cv + xv * dv));
            let t = horner_step(&t, &x, &a, Ghost(bv + xv * (cv + xv * dv)));
            out.push(t);
            i = i + 1;
        }
        out
    }
}

impl<S: GoldenScalar> Poly6<S> {
    /// Every coefficient is a field element.
    pub open spec fn coefficients_wf(&self) -> bool {
        &&& self.t1.wf()
        &&& self.t2.wf()
        &&& self.t3.wf()
        &&& self.t4.wf()
        &&& self.t5.wf()
        &&& self.t6.wf()
    }

    /// Value of the polynomial at `x`, before reduction.
    pub open spec fn value_at(&self, x: int) -> int {
        x * (self.t1.value() + x * (self.t2.value() + x * (self.t3.value() + x * (
        self.t4.value() + x * (self.t5.value() + x * self.t6.value())))))
    }

    /// Evaluate the polynomial at `x`.
    pub fn eval(&self, x: S) -> (v: S)
        requires
            self.coefficients_wf(),
            x.wf(),
        ensures
            v.wf(),
            v.value() == self.value_at(x.value() as int) % (S::field_order() as int),
    {
        let ghost xv = x.value() as int;
        let ghost p6 = self.t6.value() as int;
        let ghost p5 = self.t5.value() + xv * p6;
        let ghost p4 = self.t4.value() + xv * p5;
        let ghost p3 = self.t3.value() + xv * p4;
        let ghost p2 = self.t2.value() + xv * p3;
        let ghost p1 = self.t1.value() + xv * p2;
        proof {
            S::lemma_scalar_model(self.t6, self.t6);
            lemma_small_mod(self.t6.value(), S::field_order());
        }
        let t = horner_step(&self.t6, &x, &self.t5, Ghost(p6));
        let t = horner_step(&t, &x, &self.t4, Ghost(p5));
        let t = horner_step(&t, &x, &self.t3, Ghost(p4));
        let t = horner_step(&t, &x, &self.t2, Ghost(p3));
        let t = horner_step(&t, &x, &self.t1, Ghost(p2));
        let v = t.mul(&x);
        proof {
            S::lemma_field_order();
            lemma_mul_mod_noop_left(p1, xv, S::field_order() as int);
            lemma_mul_is_commutative(p1, xv);
        }
        v
    }
}

} // verus!
