//! Threshold sharing engine.
//!
//! Implements a `(t, n)` threshold scheme over the ring defined by the
//! active modulus, polynomial-evaluation style: a value is encoded as the
//! free coefficient of a random degree-`(t - 1)` polynomial, and each
//! share is the polynomial evaluated at a distinct, fixed, public index
//! out of `1..=n`. Any `t` distinct shares determine the value; a quorum
//! is reconstructed by interpolating the polynomial at zero, eliminating
//! one point at a time.

use vstd::prelude::*;
use vstd::arithmetic::div_mod::{
    lemma_mod_add_multiples_vanish, lemma_mod_bound, lemma_mul_mod_noop_left,
    lemma_mul_mod_noop_right, lemma_small_mod, lemma_sub_mod_noop,
};
use crate::errors::{CryptoError, CryptoResult};
use crate::prng::Prng;
use crate::ring::{
    add_mod, gcd, in_ring, inv_mod, lemma_inverse_exists, lemma_mask_round_trip, mod_inv,
    mul_mod, ring_add, ring_mul, ring_sub, sub_mod, valid_modulus,
};
use crate::scheme::{Scheme, Share, Suitable};

verus! {

/// Horner evaluation of the non-constant part of the sharing polynomial:
/// `coeffs[0] * 1 + coeffs[1] * x + ...`, each step reduced into the ring.
pub open spec fn horner_mod(coeffs: Seq<int>, x: int, m: int) -> int
    decreases coeffs.len(),
{
    if coeffs.len() == 0 {
        0
    } else {
        add_mod(coeffs.first(), mul_mod(x, horner_mod(coeffs.drop_first(), x, m), m), m)
    }
}

/// The sharing polynomial's value at index `x`: the shared value as free
/// coefficient, plus `x` times the Horner tail of the random coefficients.
pub open spec fn share_poly_at(value: int, coeffs: Seq<int>, x: int, m: int) -> int {
    add_mod(value, mul_mod(x, horner_mod(coeffs, x, m), m), m)
}

/// Horner evaluation over the plain integers, with no reduction.
pub open spec fn horner_int(coeffs: Seq<int>, x: int) -> int
    decreases coeffs.len(),
{
    if coeffs.len() == 0 {
        0
    } else {
        coeffs.first() + x * horner_int(coeffs.drop_first(), x)
    }
}

/// The coefficient tail of the quotient of the polynomial with Horner
/// tail `coeffs` by `(x - x0)`: synthetic division, one Horner value of a
/// suffix per coefficient.
pub open spec fn div_tail(coeffs: Seq<int>, x0: int) -> Seq<int> {
    if coeffs.len() == 0 {
        Seq::<int>::empty()
    } else {
        Seq::new((coeffs.len() - 1) as nat, |j: int| horner_int(coeffs.skip(j + 1), x0))
    }
}

/// Reducing the result of a step-reduced Horner evaluation equals
/// reducing the plain integer evaluation.
proof fn lemma_horner_mod_int(coeffs: Seq<int>, x: int, m: int)
    requires
        valid_modulus(m),
    ensures
        horner_mod(coeffs, x, m) == horner_int(coeffs, x) % m,
    decreases coeffs.len(),
{
    if coeffs.len() > 0 {
        lemma_horner_mod_int(coeffs.drop_first(), x, m);
        let h = horner_int(coeffs.drop_first(), x);
        let c = coeffs.first();
        assert(horner_mod(coeffs, x, m) == (c + (x * (h % m)) % m) % m);
        lemma_mul_mod_noop_right(x, h, m);
        assert((x * (h % m)) % m == (x * h) % m);
        lemma_add_mod_noop_right2(c, x * h, m);
        assert((c + (x * h) % m) % m == (c + x * h) % m);
        assert(horner_int(coeffs, x) == c + x * h);
    } else {
        lemma_small_mod(0nat, m as nat);
    }
}

/// Reducing the right summand first does not change a reduced sum.
proof fn lemma_add_mod_noop_right2(a: int, b: int, m: int)
    requires
        valid_modulus(m),
    ensures
        (a + b % m) % m == (a + b) % m,
{
    vstd::arithmetic::div_mod::lemma_add_mod_noop_right(a, b, m);
    lemma_small_mod_general(a, m);
}

/// `a % m % m == a % m`, stated for any `a`.
proof fn lemma_small_mod_general(a: int, m: int)
    requires
        valid_modulus(m),
    ensures
        (a % m) % m == a % m,
{
    vstd::arithmetic::div_mod::lemma_mod_twice(a, m);
}

/// A Horner evaluation does not change, modulo `m`, when each
/// coefficient is reduced modulo `m`.
proof fn lemma_horner_int_reduce(coeffs: Seq<int>, x: int, m: int)
    requires
        valid_modulus(m),
    ensures
        horner_int(coeffs.map_values(|c: int| c % m), x) % m == horner_int(coeffs, x) % m,
    decreases coeffs.len(),
{
    let reduced = coeffs.map_values(|c: int| c % m);
    if coeffs.len() > 0 {
        assert(reduced.drop_first() =~= coeffs.drop_first().map_values(|c: int| c % m));
        lemma_horner_int_reduce(coeffs.drop_first(), x, m);
        let h1 = horner_int(reduced.drop_first(), x);
        let h2 = horner_int(coeffs.drop_first(), x);
        // both sides reduce to (coeffs.first() + x * h2) % m
        lemma_mul_mod_noop_right(x, h1, m);
        lemma_mul_mod_noop_right(x, h2, m);
        assert((x * (h1 % m)) % m == (x * (h2 % m)) % m) by {
            lemma_mul_mod_noop_right(x, h1 % m, m);
            lemma_mul_mod_noop_right(x, h2 % m, m);
            vstd::arithmetic::div_mod::lemma_mod_twice(h1, m);
            vstd::arithmetic::div_mod::lemma_mod_twice(h2, m);
        }
        lemma_add_mod_noop_right2(reduced.first(), x * h1, m);
        lemma_add_mod_noop_right2(coeffs.first(), x * h2, m);
        // first coefficients agree modulo m
        vstd::arithmetic::div_mod::lemma_add_mod_noop(coeffs.first() % m, x * h1, m);
        vstd::arithmetic::div_mod::lemma_add_mod_noop(coeffs.first(), x * h1, m);
        vstd::arithmetic::div_mod::lemma_mod_twice(coeffs.first(), m);
        assert((coeffs.first() % m + x * h1) % m == (coeffs.first() + x * h1) % m);
        assert((x * h1) % m == (x * h2) % m);
        vstd::arithmetic::div_mod::lemma_add_mod_noop_right(coeffs.first(), x * h1, m);
        vstd::arithmetic::div_mod::lemma_add_mod_noop_right(coeffs.first(), x * h2, m);
    }
}

/// Reducing the left summand first does not change a reduced sum.
proof fn lemma_add_mod_noop_left2(a: int, b: int, m: int)
    requires
        valid_modulus(m),
    ensures
        (a % m + b) % m == (a + b) % m,
{
    vstd::arithmetic::div_mod::lemma_add_mod_noop(a, b, m);
    vstd::arithmetic::div_mod::lemma_add_mod_noop_right(a % m, b, m);
}

/// The sharing polynomial's value is the plain integer polynomial value,
/// reduced once.
proof fn lemma_share_poly_int(v: int, coeffs: Seq<int>, x: int, m: int)
    requires
        valid_modulus(m),
    ensures
        share_poly_at(v, coeffs, x, m) == (v + x * horner_int(coeffs, x)) % m,
{
    lemma_horner_mod_int(coeffs, x, m);
    let h = horner_int(coeffs, x);
    lemma_mul_mod_noop_right(x, h, m);
    lemma_add_mod_noop_right2(v, x * h, m);
}

/// Synthetic division identity over the integers: the difference of two
/// Horner evaluations is the evaluation-point difference times the
/// quotient's Horner evaluation.
proof fn lemma_horner_int_diff(coeffs: Seq<int>, x: int, x0: int)
    ensures
        horner_int(coeffs, x) - horner_int(coeffs, x0) == (x - x0) * horner_int(
            div_tail(coeffs, x0),
            x,
        ),
    decreases coeffs.len(),
{
    if coeffs.len() == 0 {
        assert((x - x0) * 0 == 0) by (nonlinear_arith);
    } else if coeffs.len() == 1 {
        assert(div_tail(coeffs, x0).len() == 0);
        assert(horner_int(coeffs.drop_first(), x) == 0);
        assert(horner_int(coeffs.drop_first(), x0) == 0);
        assert(coeffs.first() + x * 0 == coeffs.first()) by (nonlinear_arith);
        assert(coeffs.first() + x0 * 0 == coeffs.first()) by (nonlinear_arith);
        assert((x - x0) * 0 == 0) by (nonlinear_arith);
    } else {
        let rest = coeffs.drop_first();
        lemma_horner_int_diff(rest, x, x0);
        let hx = horner_int(rest, x);
        let hx0 = horner_int(rest, x0);
        let d = horner_int(div_tail(rest, x0), x);
        // the quotient tail of the whole is the suffix Horner value
        // followed by the quotient tail of the rest
        let q = div_tail(coeffs, x0);
        assert(q.len() == coeffs.len() - 1);
        assert(q[0] == horner_int(coeffs.skip(1), x0));
        assert(coeffs.skip(1) =~= rest);
        assert(q.drop_first() =~= div_tail(rest, x0)) by {
            assert forall|j: int| 0 <= j < q.len() - 1 implies q.drop_first()[j] == div_tail(
                rest,
                x0,
            )[j] by {
                assert(q.drop_first()[j] == q[j + 1]);
                assert(q[j + 1] == horner_int(coeffs.skip(j + 2), x0));
                assert(div_tail(rest, x0)[j] == horner_int(rest.skip(j + 1), x0));
                assert(coeffs.skip(j + 2) =~= rest.skip(j + 1));
            }
        }
        assert(horner_int(q, x) == hx0 + x * d);
        assert(horner_int(coeffs, x) - horner_int(coeffs, x0) == (x - x0) * (hx0 + x * d))
            by (nonlinear_arith)
            requires
                horner_int(coeffs, x) == coeffs.first() + x * hx,
                horner_int(coeffs, x0) == coeffs.first() + x0 * hx0,
                hx - hx0 == (x - x0) * d,
        ;
    }
}

/// Every difference of two distinct entries of `xs` is invertible in
/// `Z_m`, so a polynomial through points at `xs` can be interpolated.
pub open spec fn pairwise_invertible(xs: Seq<int>, m: int) -> bool {
    forall|i: int, j: int|
        0 <= i < xs.len() && 0 <= j < xs.len() && i != j ==> gcd(
            #[trigger] sub_mod(xs[i], xs[j], m) as nat,
            m as nat,
        ) == 1
}

/// The value at zero of the unique polynomial of degree below `xs.len()`
/// through the points `(xs[i], ys[i])`, computed by point elimination:
/// with `q(x) = (p(x) - p(xs[0])) / (x - xs[0])` one has
/// `p(0) = p(xs[0]) - xs[0] * q(0)`, and `q`'s points follow from `p`'s.
pub open spec fn interp_at_zero(xs: Seq<int>, ys: Seq<int>, m: int) -> int
    decreases xs.len(),
{
    if xs.len() <= 1 {
        if xs.len() == 1 {
            ys[0]
        } else {
            0
        }
    } else {
        let x0 = xs[0];
        let y0 = ys[0];
        let qys = Seq::new(
            (xs.len() - 1) as nat,
            |i: int| mul_mod(sub_mod(ys[i + 1], y0, m), inv_mod(sub_mod(xs[i + 1], x0, m), m), m),
        );
        sub_mod(y0, mul_mod(x0, interp_at_zero(xs.drop_first(), qys, m), m), m)
    }
}

/// The greatest common divisor of zero and a modulus is the modulus, so
/// zero is never invertible in a real ring.
proof fn lemma_gcd_zero(m: nat)
    requires
        m >= 2,
    ensures
        gcd(0, m) == m,
{
    lemma_small_mod(0, m);
    assert(gcd(0, m) == gcd(m, 0nat % m));
}

/// Evaluates the sharing polynomial at `x`, exactly as `share_poly_at`
/// says.
fn poly_eval_exec(value: i64, coeffs: &Vec<i64>, x: i64, m: i64) -> (r: i64)
    requires
        valid_modulus(m as int),
        in_ring(value as int, m as int),
        in_ring(x as int, m as int),
        forall|j: int| 0 <= j < coeffs@.len() ==> in_ring(#[trigger] coeffs@[j] as int, m as int),
    ensures
        in_ring(r as int, m as int),
        r as int == share_poly_at(
            value as int,
            coeffs@.map_values(|c: i64| c as int),
            x as int,
            m as int,
        ),
{
    let ghost cs = coeffs@.map_values(|c: i64| c as int);
    let mut acc: i64 = 0;
    let mut k: usize = coeffs.len();
    while k > 0
        invariant
            valid_modulus(m as int),
            in_ring(x as int, m as int),
            forall|j: int|
                0 <= j < coeffs@.len() ==> in_ring(#[trigger] coeffs@[j] as int, m as int),
            cs == coeffs@.map_values(|c: i64| c as int),
            k <= coeffs@.len(),
            in_ring(acc as int, m as int),
            acc as int == horner_mod(cs.skip(k as int), x as int, m as int),
        decreases k,
    {
        k = k - 1;
        acc = ring_add(coeffs[k], ring_mul(x, acc, m), m);
        proof {
            assert(cs.skip(k as int).first() == cs[k as int]);
            assert(cs.skip(k as int).drop_first() =~= cs.skip(k as int + 1));
        }
    }
    proof {
        assert(cs.skip(0) =~= cs);
    }
    ring_add(value, ring_mul(x, acc, m), m)
}

/// Interpolates the points `(xs[i], ys[i])` at zero, exactly as
/// `interp_at_zero` says.
fn interp_exec(xs: &Vec<i64>, ys: &Vec<i64>, m: i64) -> (r: i64)
    requires
        valid_modulus(m as int),
        xs@.len() == ys@.len(),
        xs@.len() >= 1,
        forall|i: int| 0 <= i < xs@.len() ==> in_ring(#[trigger] xs@[i] as int, m as int),
        forall|i: int| 0 <= i < ys@.len() ==> in_ring(#[trigger] ys@[i] as int, m as int),
        pairwise_invertible(xs@.map_values(|v: i64| v as int), m as int),
    ensures
        in_ring(r as int, m as int),
        r as int == interp_at_zero(
            xs@.map_values(|v: i64| v as int),
            ys@.map_values(|v: i64| v as int),
            m as int,
        ),
    decreases xs@.len(),
{
    let ghost xsi = xs@.map_values(|v: i64| v as int);
    let ghost ysi = ys@.map_values(|v: i64| v as int);
    if xs.len() == 1 {
        return ys[0];
    }
    let x0: i64 = xs[0];
    let y0: i64 = ys[0];
    let ghost qys_spec = Seq::new(
        (xsi.len() - 1) as nat,
        |i: int| mul_mod(
            sub_mod(ysi[i + 1], y0 as int, m as int),
            inv_mod(sub_mod(xsi[i + 1], x0 as int, m as int), m as int),
            m as int,
        ),
    );
    let mut qxs: Vec<i64> = Vec::new();
    let mut qys: Vec<i64> = Vec::new();
    let mut i: usize = 1;
    while i < xs.len()
        invariant
            valid_modulus(m as int),
            xs@.len() == ys@.len(),
            xs@.len() >= 2,
            1 <= i <= xs@.len(),
            x0 == xs@[0],
            y0 == ys@[0],
            xsi == xs@.map_values(|v: i64| v as int),
            ysi == ys@.map_values(|v: i64| v as int),
            qys_spec == Seq::new(
                (xsi.len() - 1) as nat,
                |j: int| mul_mod(
                    sub_mod(ysi[j + 1], y0 as int, m as int),
                    inv_mod(sub_mod(xsi[j + 1], x0 as int, m as int), m as int),
                    m as int,
                ),
            ),
            forall|j: int| 0 <= j < xs@.len() ==> in_ring(#[trigger] xs@[j] as int, m as int),
            forall|j: int| 0 <= j < ys@.len() ==> in_ring(#[trigger] ys@[j] as int, m as int),
            pairwise_invertible(xsi, m as int),
            qxs@.len() == i - 1,
            qys@.len() == i - 1,
            forall|j: int| 0 <= j < i - 1 ==> #[trigger] qxs@[j] == xs@[j + 1],
            forall|j: int| 0 <= j < i - 1 ==> #[trigger] qys@[j] as int == qys_spec[j],
            forall|j: int| 0 <= j < i - 1 ==> in_ring(#[trigger] qys@[j] as int, m as int),
        decreases xs@.len() - i,
    {
        let dx: i64 = ring_sub(xs[i], x0, m);
        proof {
            assert(sub_mod(xsi[i as int], xsi[0], m as int) == dx as int);
            assert(gcd(dx as nat, m as nat) == 1);
            if dx == 0 {
                lemma_gcd_zero(m as nat);
            }
        }
        let inv: i64 = mod_inv(dx, m);
        let dy: i64 = ring_sub(ys[i], y0, m);
        let q: i64 = ring_mul(dy, inv, m);
        qxs.push(xs[i]);
        qys.push(q);
        i = i + 1;
    }
    let ghost qxsi = qxs@.map_values(|v: i64| v as int);
    let ghost qysi = qys@.map_values(|v: i64| v as int);
    proof {
        assert(qxsi =~= xsi.drop_first());
        assert(qysi =~= qys_spec);
        assert forall|a: int, b: int|
            0 <= a < qxsi.len() && 0 <= b < qxsi.len() && a != b implies gcd(
            #[trigger] sub_mod(qxsi[a], qxsi[b], m as int) as nat,
            m as nat,
        ) == 1 by {
            assert(qxsi[a] == xsi[a + 1]);
            assert(qxsi[b] == xsi[b + 1]);
            assert(gcd(sub_mod(xsi[a + 1], xsi[b + 1], m as int) as nat, m as nat) == 1);
        }
    }
    let q0: i64 = interp_exec(&qxs, &qys, m);
    let r: i64 = ring_sub(y0, ring_mul(x0, q0, m), m);
    proof {
        assert(interp_at_zero(xsi, ysi, m as int) == sub_mod(
            ysi[0],
            mul_mod(xsi[0], interp_at_zero(xsi.drop_first(), qys_spec, m as int), m as int),
            m as int,
        ));
    }
    r
}

/// Splits values into shares for a committee, under one scheme.
pub struct ShareGenerator {
    /// The scheme the generator was constructed for.
    pub scheme: Scheme,
}

impl ShareGenerator {
    /// Shares `value` under the generator's scheme with the given
    /// polynomial coefficients: share `i` (one per committee member) is
    /// the polynomial evaluated at index `i + 1`, tagged with the
    /// scheme's modulus.
    pub fn generate_with_coefficients(&self, value: i64, coeffs: &Vec<i64>) -> (shares: Vec<
        Share,
    >)
        requires
            self.scheme.wf(),
            in_ring(value as int, self.scheme.modulus as int),
            coeffs@.len() == self.scheme.threshold - 1,
            forall|j: int|
                0 <= j < coeffs@.len() ==> in_ring(
                    #[trigger] coeffs@[j] as int,
                    self.scheme.modulus as int,
                ),
        ensures
            shares@.len() == self.scheme.share_count,
            forall|i: int|
                0 <= i < shares@.len() ==> #[trigger] shares@[i] == (Share {
                    index: (i + 1) as i64,
                    value: share_poly_at(
                        value as int,
                        coeffs@.map_values(|c: i64| c as int),
                        i + 1,
                        self.scheme.modulus as int,
                    ) as i64,
                    modulus: self.scheme.modulus,
                }),
            forall|i: int|
                0 <= i < shares@.len() ==> #[trigger] shares@[i].spec_suitable_for(&self.scheme),
    {
        let m: i64 = self.scheme.modulus;
        let n: usize = self.scheme.share_count;
        let mut shares: Vec<Share> = Vec::new();
        let mut i: usize = 0;
        while i < n
            invariant
                self.scheme.wf(),
                in_ring(value as int, m as int),
                m == self.scheme.modulus,
                n == self.scheme.share_count,
                forall|j: int|
                    0 <= j < coeffs@.len() ==> in_ring(#[trigger] coeffs@[j] as int, m as int),
                i <= n,
                shares@.len() == i,
                forall|j: int|
                    0 <= j < i ==> #[trigger] shares@[j] == (Share {
                        index: (j + 1) as i64,
                        value: share_poly_at(
                            value as int,
                            coeffs@.map_values(|c: i64| c as int),
                            j + 1,
                            m as int,
                        ) as i64,
                        modulus: m,
                    }),
            decreases n - i,
        {
            let idx: i64 = (i + 1) as i64;
            let v: i64 = poly_eval_exec(value, coeffs, idx, m);
            shares.push(Share { index: idx, value: v, modulus: m });
            i = i + 1;
        }
        shares
    }

    /// Shares `value`, drawing the polynomial's random coefficients from
    /// the caller's generator. The shares are those of
    /// `generate_with_coefficients` for some in-ring coefficient vector.
    pub fn generate(&self, value: i64, prng: &mut Prng) -> (shares: Vec<Share>)
        requires
            self.scheme.wf(),
            in_ring(value as int, self.scheme.modulus as int),
        ensures
            shares@.len() == self.scheme.share_count,
            exists|coeffs: Seq<int>|
                {
                    &&& coeffs.len() == self.scheme.threshold - 1
                    &&& (forall|j: int|
                        0 <= j < coeffs.len() ==> in_ring(
                            #[trigger] coeffs[j],
                            self.scheme.modulus as int,
                        ))
                    &&& (forall|i: int|
                        0 <= i < shares@.len() ==> #[trigger] shares@[i] == (Share {
                            index: (i + 1) as i64,
                            value: share_poly_at(
                                value as int,
                                coeffs,
                                i + 1,
                                self.scheme.modulus as int,
                            ) as i64,
                            modulus: self.scheme.modulus,
                        }))
                },
            forall|i: int|
                0 <= i < shares@.len() ==> #[trigger] shares@[i].spec_suitable_for(&self.scheme),
    {
        let m: i64 = self.scheme.modulus;
        let mut coeffs: Vec<i64> = Vec::new();
        let mut k: usize = 0;
        while k < self.scheme.threshold - 1
            invariant
                self.scheme.wf(),
                m == self.scheme.modulus,
                coeffs@.len() == k,
                k <= self.scheme.threshold - 1,
                forall|j: int|
                    0 <= j < coeffs@.len() ==> in_ring(#[trigger] coeffs@[j] as int, m as int),
            decreases self.scheme.threshold - 1 - k,
        {
            let c: i64 = prng.next_ring(m);
            coeffs.push(c);
            k = k + 1;
        }
        let shares = self.generate_with_coefficients(value, &coeffs);
        proof {
            let witness = coeffs@.map_values(|c: i64| c as int);
            assert(witness.len() == self.scheme.threshold - 1);
        }
        shares
    }
}

/// All supplied shares may be combined under `scheme`.
pub open spec fn all_suitable(shares: Seq<Share>, scheme: Scheme) -> bool {
    forall|i: int| 0 <= i < shares.len() ==> #[trigger] shares[i].spec_suitable_for(&scheme)
}

/// No two supplied shares carry the same fragment index.
pub open spec fn distinct_indices(shares: Seq<Share>) -> bool {
    forall|i: int, j: int|
        0 <= i < j < shares.len() ==> #[trigger] shares[i].index != #[trigger] shares[j].index
}

/// The indices of the first `k` shares, as ring elements.
pub open spec fn indices_of(shares: Seq<Share>, k: int) -> Seq<int> {
    Seq::new(k as nat, |i: int| shares[i].index as int)
}

/// The values of the first `k` shares, as ring elements.
pub open spec fn values_of(shares: Seq<Share>, k: int) -> Seq<int> {
    Seq::new(k as nat, |i: int| shares[i].value as int)
}

/// What combining a quorum yields: the interpolation at zero of the first
/// `threshold` supplied points.
pub open spec fn combined_value(shares: Seq<Share>, scheme: Scheme) -> int {
    interp_at_zero(
        indices_of(shares, scheme.threshold as int),
        values_of(shares, scheme.threshold as int),
        scheme.modulus as int,
    )
}

/// What `combine` returns for each input: unsuitable shares are a scheme
/// mismatch, a short quorum is insufficient, duplicated indices are
/// rejected, and otherwise the quorum's interpolation at zero comes back.
pub open spec fn combine_result(shares: Seq<Share>, scheme: Scheme) -> CryptoResult<i64> {
    if !all_suitable(shares, scheme) {
        Err(CryptoError::SchemeMismatch)
    } else if shares.len() < scheme.threshold {
        Err(CryptoError::InsufficientShares)
    } else if !distinct_indices(shares) {
        Err(CryptoError::DuplicateShareIndex)
    } else {
        Ok(combined_value(shares, scheme) as i64)
    }
}

/// Distinct in-range indices have invertible differences under a valid
/// scheme: a positive difference of two indices out of `1..=n` lies in
/// `1..n`, a negative one lands on the modulus minus such a value, and
/// the scheme guarantees both invertible.
proof fn lemma_indices_invertible(xs: Seq<int>, m: int, n: int)
    requires
        valid_modulus(m),
        m > n,
        forall|i: int| 0 <= i < xs.len() ==> 1 <= #[trigger] xs[i] <= n,
        forall|i: int, j: int| 0 <= i < j < xs.len() ==> xs[i] != xs[j],
        forall|d: int|
            1 <= d < n ==> #[trigger] gcd(d as nat, m as nat) == 1 && gcd(
                (m - d) as nat,
                m as nat,
            ) == 1,
    ensures
        pairwise_invertible(xs, m),
{
    assert forall|i: int, j: int|
        0 <= i < xs.len() && 0 <= j < xs.len() && i != j implies gcd(
        #[trigger] sub_mod(xs[i], xs[j], m) as nat,
        m as nat,
    ) == 1 by {
        let a = xs[i];
        let b = xs[j];
        if i < j {
            assert(a != b);
        } else {
            assert(b != a);
        }
        if a > b {
            let d = a - b;
            assert(1 <= d < n);
            lemma_small_mod(d as nat, m as nat);
            assert(sub_mod(a, b, m) == d);
            assert(gcd(d as nat, m as nat) == 1);
        } else {
            let d = b - a;
            assert(1 <= d < n);
            lemma_mod_add_multiples_vanish(a - b, m);
            lemma_small_mod((m - d) as nat, m as nat);
            assert(sub_mod(a, b, m) == m - d);
            assert(gcd(d as nat, m as nat) == 1);
            assert(gcd((m - d) as nat, m as nat) == 1);
        }
    }
}

/// Combines a quorum of decrypted shares back into the shared value.
pub struct ShareCombiner {
    /// The scheme the combiner was constructed for.
    pub scheme: Scheme,
}

impl ShareCombiner {
    /// Combines the supplied shares, exactly as `combine_result` says:
    /// every share must be suitable for the combiner's scheme, at least
    /// the scheme's threshold of them must be supplied, and no fragment
    /// index may repeat; the first `threshold` points are then
    /// interpolated at zero.
    pub fn combine(&self, shares: &Vec<Share>) -> (r: CryptoResult<i64>)
        requires
            self.scheme.wf(),
        ensures
            r == combine_result(shares@, self.scheme),
            r is Ok ==> in_ring(r.unwrap() as int, self.scheme.modulus as int),
    {
        let mut i: usize = 0;
        while i < shares.len()
            invariant
                self.scheme.wf(),
                i <= shares@.len(),
                forall|j: int|
                    0 <= j < i ==> #[trigger] shares@[j].spec_suitable_for(&self.scheme),
            decreases shares@.len() - i,
        {
            if !shares[i].suitable_for(&self.scheme) {
                return Err(CryptoError::SchemeMismatch);
            }
            i = i + 1;
        }
        if shares.len() < self.scheme.threshold {
            return Err(CryptoError::InsufficientShares);
        }
        let mut a: usize = 0;
        while a < shares.len()
            invariant
                self.scheme.wf(),
                all_suitable(shares@, self.scheme),
                self.scheme.threshold <= shares@.len(),
                a <= shares@.len(),
                forall|x: int, y: int|
                    0 <= x < y < shares@.len() && x < a ==> #[trigger] shares@[x].index
                        != #[trigger] shares@[y].index,
            decreases shares@.len() - a,
        {
            let mut b: usize = a + 1;
            while b < shares.len()
                invariant
                    self.scheme.wf(),
                    all_suitable(shares@, self.scheme),
                    self.scheme.threshold <= shares@.len(),
                    a < shares@.len(),
                    a + 1 <= b <= shares@.len(),
                    forall|x: int, y: int|
                        0 <= x < y < shares@.len() && x < a ==> #[trigger] shares@[x].index
                            != #[trigger] shares@[y].index,
                    forall|y: int|
                        a < y < b ==> #[trigger] shares@[y].index != shares@[a as int].index,
                decreases shares@.len() - b,
            {
                if shares[a].index == shares[b].index {
                    return Err(CryptoError::DuplicateShareIndex);
                }
                b = b + 1;
            }
            a = a + 1;
        }
        let t: usize = self.scheme.threshold;
        let m: i64 = self.scheme.modulus;
        let mut xs: Vec<i64> = Vec::new();
        let mut ys: Vec<i64> = Vec::new();
        let mut k: usize = 0;
        while k < t
            invariant
                self.scheme.wf(),
                t == self.scheme.threshold,
                m == self.scheme.modulus,
                t <= shares@.len(),
                all_suitable(shares@, self.scheme),
                k <= t,
                xs@.len() == k,
                ys@.len() == k,
                forall|j: int| 0 <= j < k ==> #[trigger] xs@[j] == shares@[j].index,
                forall|j: int| 0 <= j < k ==> #[trigger] ys@[j] == shares@[j].value,
            decreases t - k,
        {
            xs.push(shares[k].index);
            ys.push(shares[k].value);
            k = k + 1;
        }
        proof {
            let xsi = xs@.map_values(|v: i64| v as int);
            let ysi = ys@.map_values(|v: i64| v as int);
            assert(xsi =~= indices_of(shares@, t as int));
            assert(ysi =~= values_of(shares@, t as int));
            assert forall|j: int| 0 <= j < xsi.len() implies 1 <= #[trigger] xsi[j]
                <= self.scheme.share_count as int by {
                assert(shares@[j].spec_suitable_for(&self.scheme));
            }
            assert forall|x: int, y: int| 0 <= x < y < xsi.len() implies xsi[x] != xsi[y] by {
                assert(shares@[x].index != shares@[y].index);
            }
            lemma_indices_invertible(xsi, m as int, self.scheme.share_count as int);
            assert forall|j: int| 0 <= j < xs@.len() implies in_ring(
                #[trigger] xs@[j] as int,
                m as int,
            ) by {
                assert(shares@[j].spec_suitable_for(&self.scheme));
            }
            assert forall|j: int| 0 <= j < ys@.len() implies in_ring(
                #[trigger] ys@[j] as int,
                m as int,
            ) by {
                assert(shares@[j].spec_suitable_for(&self.scheme));
            }
        }
        let v: i64 = interp_exec(&xs, &ys, m);
        Ok(v)
    }
}

/// Sharing round trip, in general: interpolating at zero the sharing
/// polynomial's values at any points with pairwise invertible
/// differences — at least one more point than there are random
/// coefficients — recovers the shared value, whatever the coefficients
/// were.
pub proof fn lemma_interp_recovers_secret(v: int, coeffs: Seq<int>, xs: Seq<int>, m: int)
    requires
        valid_modulus(m),
        in_ring(v, m),
        forall|j: int| 0 <= j < coeffs.len() ==> in_ring(#[trigger] coeffs[j], m),
        xs.len() >= 1,
        coeffs.len() <= xs.len() - 1,
        forall|i: int| 0 <= i < xs.len() ==> in_ring(#[trigger] xs[i], m),
        pairwise_invertible(xs, m),
    ensures
        interp_at_zero(xs, Seq::new(xs.len(), |i: int| share_poly_at(v, coeffs, xs[i], m)), m)
            == v,
    decreases xs.len(),
{
    let ys = Seq::new(xs.len(), |i: int| share_poly_at(v, coeffs, xs[i], m));
    if xs.len() == 1 {
        lemma_small_mod(0nat, m as nat);
        lemma_small_mod(v as nat, m as nat);
        assert(coeffs.len() == 0);
        assert(horner_mod(coeffs, xs[0], m) == 0);
        assert(ys[0] == v);
    } else {
        let x0 = xs[0];
        let h0 = horner_int(coeffs, x0);
        let vq = horner_mod(coeffs, x0, m);
        let dcs = div_tail(coeffs, x0);
        let qcs = dcs.map_values(|c: int| c % m);
        lemma_horner_mod_int(coeffs, x0, m);
        lemma_mod_bound(h0, m);
        assert(in_ring(vq, m));
        assert forall|j: int| 0 <= j < qcs.len() implies in_ring(#[trigger] qcs[j], m) by {
            lemma_mod_bound(dcs[j], m);
        }
        let qys = Seq::new(
            (xs.len() - 1) as nat,
            |i: int| mul_mod(
                sub_mod(ys[i + 1], ys[0], m),
                inv_mod(sub_mod(xs[i + 1], xs[0], m), m),
                m,
            ),
        );
        // each eliminated point carries the quotient polynomial's value
        assert forall|i: int| 0 <= i < qys.len() implies #[trigger] qys[i] == share_poly_at(
            vq,
            qcs,
            xs[i + 1],
            m,
        ) by {
            let xi = xs[i + 1];
            let hi = horner_int(coeffs, xi);
            let d = horner_int(dcs, xi);
            let qxi = h0 + xi * d;
            lemma_share_poly_int(v, coeffs, xi, m);
            lemma_share_poly_int(v, coeffs, x0, m);
            lemma_sub_mod_noop(v + xi * hi, v + x0 * h0, m);
            lemma_horner_int_diff(coeffs, xi, x0);
            assert((v + xi * hi) - (v + x0 * h0) == (xi - x0) * qxi) by (nonlinear_arith)
                requires
                    hi - h0 == (xi - x0) * d,
                    qxi == h0 + xi * d,
            ;
            assert(sub_mod(ys[i + 1], ys[0], m) == ((xi - x0) * qxi) % m);
            let dx = sub_mod(xi, x0, m);
            lemma_mul_mod_noop_left(xi - x0, qxi, m);
            assert(sub_mod(ys[i + 1], ys[0], m) == (dx * qxi) % m);
            // multiply by the inverse of the point difference
            assert(gcd(sub_mod(xs[i + 1], xs[0], m) as nat, m as nat) == 1);
            lemma_mod_bound(xi - x0, m);
            lemma_inverse_exists(dx, m);
            let inv = inv_mod(dx, m);
            lemma_mul_mod_noop_left(dx * qxi, inv, m);
            assert((dx * qxi) * inv == qxi * (dx * inv)) by (nonlinear_arith);
            lemma_mul_mod_noop_right(qxi, dx * inv, m);
            assert((qxi * ((dx * inv) % m)) % m == (qxi * 1) % m);
            assert(qys[i] == qxi % m);
            // the quotient value is the quotient polynomial's share value
            lemma_share_poly_int(vq, qcs, xi, m);
            let hq = horner_int(qcs, xi);
            lemma_horner_int_reduce(dcs, xi, m);
            assert(hq % m == d % m);
            lemma_add_mod_noop_left2(h0, xi * hq, m);
            assert((vq + xi * hq) % m == (h0 + xi * hq) % m);
            lemma_mul_mod_noop_right(xi, hq, m);
            lemma_mul_mod_noop_right(xi, d, m);
            assert((xi * hq) % m == (xi * d) % m);
            lemma_add_mod_noop_right2(h0, xi * hq, m);
            lemma_add_mod_noop_right2(h0, xi * d, m);
            assert((h0 + xi * hq) % m == (h0 + xi * d) % m);
            assert(share_poly_at(vq, qcs, xi, m) == qxi % m);
        }
        // the tail points still qualify
        let xst = xs.drop_first();
        assert forall|i: int| 0 <= i < xst.len() implies in_ring(#[trigger] xst[i], m) by {
            assert(xst[i] == xs[i + 1]);
        }
        assert forall|a: int, b: int|
            0 <= a < xst.len() && 0 <= b < xst.len() && a != b implies gcd(
            #[trigger] sub_mod(xst[a], xst[b], m) as nat,
            m as nat,
        ) == 1 by {
            assert(xst[a] == xs[a + 1]);
            assert(xst[b] == xs[b + 1]);
            assert(gcd(sub_mod(xs[a + 1], xs[b + 1], m) as nat, m as nat) == 1);
        }
        lemma_interp_recovers_secret(vq, qcs, xst, m);
        assert(qys =~= Seq::new(xst.len(), |i: int| share_poly_at(vq, qcs, xst[i], m)));
        assert(interp_at_zero(xst, qys, m) == vq);
        assert(interp_at_zero(xs, ys, m) == sub_mod(ys[0], mul_mod(x0, vq, m), m));
        // removing the first point's contribution leaves the secret
        lemma_share_poly_int(v, coeffs, x0, m);
        lemma_mul_mod_noop_right(x0, h0, m);
        lemma_add_mod_noop_right2(v, x0 * h0, m);
        assert(ys[0] == add_mod(v, mul_mod(x0, vq, m), m));
        lemma_mod_bound(x0 * h0, m);
        lemma_mask_round_trip(v, mul_mod(x0, vq, m), m);
    }
}

/// Sharing round trip at the combiner: a quorum of suitable,
/// distinct-index shares of the sharing polynomial combines back to the
/// shared value, for every threshold the scheme allows and every
/// coefficient vector.
pub proof fn lemma_sharing_round_trip(v: int, coeffs: Seq<int>, shares: Seq<Share>, scheme: Scheme)
    requires
        scheme.wf(),
        in_ring(v, scheme.modulus as int),
        coeffs.len() == scheme.threshold - 1,
        forall|j: int| 0 <= j < coeffs.len() ==> in_ring(#[trigger] coeffs[j], scheme.modulus as int),
        shares.len() >= scheme.threshold,
        all_suitable(shares, scheme),
        distinct_indices(shares),
        forall|i: int|
            0 <= i < shares.len() ==> (#[trigger] shares[i]).value as int == share_poly_at(
                v,
                coeffs,
                shares[i].index as int,
                scheme.modulus as int,
            ),
    ensures
        combine_result(shares, scheme) == Ok::<i64, CryptoError>(v as i64),
{
    let t = scheme.threshold as int;
    let m = scheme.modulus as int;
    let xs = indices_of(shares, t);
    let ys = values_of(shares, t);
    assert forall|i: int| 0 <= i < xs.len() implies in_ring(#[trigger] xs[i], m) by {
        assert(shares[i].spec_suitable_for(&scheme));
    }
    assert forall|i: int, j: int| 0 <= i < j < xs.len() implies xs[i] != xs[j] by {
        assert(shares[i].index != shares[j].index);
    }
    assert forall|i: int| 0 <= i < xs.len() implies 1 <= #[trigger] xs[i]
        <= scheme.share_count as int by {
        assert(shares[i].spec_suitable_for(&scheme));
    }
    assert(crate::scheme::modulus_ok(m, scheme.share_count as int));
    assert forall|d: int|
        1 <= d < scheme.share_count as int implies #[trigger] gcd(d as nat, m as nat) == 1 && gcd(
        (m - d) as nat,
        m as nat,
    ) == 1 by {}
    lemma_indices_invertible(xs, m, scheme.share_count as int);
    lemma_interp_recovers_secret(v, coeffs, xs, m);
    assert(ys =~= Seq::new(xs.len(), |i: int| share_poly_at(v, coeffs, xs[i], m)));
    assert(combined_value(shares, scheme) == v);
}

/// Scheme isolation: a share generated under another modulus fed into a
/// combiner never yields a numeric result; the whole combination fails
/// with a scheme mismatch.
pub proof fn lemma_scheme_isolation(shares: Seq<Share>, scheme: Scheme, i: int)
    requires
        0 <= i < shares.len(),
        shares[i].modulus != scheme.modulus,
    ensures
        combine_result(shares, scheme) == Err::<i64, CryptoError>(CryptoError::SchemeMismatch),
{
    assert(!shares[i].spec_suitable_for(&scheme));
    assert(!all_suitable(shares, scheme));
}

/// A short quorum never yields a guess: fewer suitable shares than the
/// scheme's threshold always fail with `InsufficientShares`.
pub proof fn lemma_insufficient_quorum(shares: Seq<Share>, scheme: Scheme)
    requires
        all_suitable(shares, scheme),
        shares.len() < scheme.threshold,
    ensures
        combine_result(shares, scheme) == Err::<i64, CryptoError>(CryptoError::InsufficientShares),
{
}

/// Reconstructs the originally shared value from a quorum of shares: a
/// thin wrapper over the combiner that types its result as the secret or
/// mask the call site expects.
pub struct SecretReconstructor {
    /// The combiner doing the interpolation.
    pub combiner: ShareCombiner,
}

impl SecretReconstructor {
    /// Combines a quorum of shares, exactly as `combine_result` says.
    pub fn reconstruct(&self, shares: &Vec<Share>) -> (r: CryptoResult<i64>)
        requires
            self.combiner.scheme.wf(),
        ensures
            r == combine_result(shares@, self.combiner.scheme),
    {
        self.combiner.combine(shares)
    }
}

} // verus!
