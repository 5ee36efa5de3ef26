//! Modular arithmetic over the ring `Z_m` defined by a scheme's modulus.
//!
//! Secret-domain values are signed 64-bit integers interpreted as elements
//! of `Z_m`; every operation on them is performed modulo `m`, never as raw
//! machine arithmetic. All executable operations here compute in 128-bit
//! intermediates, so no overflow is possible for any modulus up to
//! `i64::MAX`.

use vstd::prelude::*;
use vstd::arithmetic::div_mod::{
    lemma_add_mod_noop, lemma_fundamental_div_mod, lemma_mod_add_multiples_vanish,
    lemma_mod_bound, lemma_mod_multiples_vanish, lemma_mod_self_0, lemma_mul_mod_noop_left,
    lemma_mul_mod_noop_right, lemma_small_mod, lemma_sub_mod_noop,
};
use vstd::arithmetic::mul::{
    lemma_mul_is_associative, lemma_mul_is_commutative, lemma_mul_is_distributive_sub,
};

verus! {

/// A modulus defines a ring when it is at least 2.
pub open spec fn valid_modulus(m: int) -> bool {
    m >= 2
}

/// `v` is a canonical representative of an element of `Z_m`.
pub open spec fn in_ring(v: int, m: int) -> bool {
    0 <= v < m
}

/// Mathematical addition in `Z_m`.
pub open spec fn add_mod(a: int, b: int, m: int) -> int {
    (a + b) % m
}

/// Mathematical subtraction in `Z_m`.
pub open spec fn sub_mod(a: int, b: int, m: int) -> int {
    (a - b) % m
}

/// Mathematical multiplication in `Z_m`.
pub open spec fn mul_mod(a: int, b: int, m: int) -> int {
    (a * b) % m
}

/// Adds two ring elements, exactly as `add_mod` says.
pub fn ring_add(a: i64, b: i64, m: i64) -> (r: i64)
    requires
        valid_modulus(m as int),
        in_ring(a as int, m as int),
        in_ring(b as int, m as int),
    ensures
        r as int == add_mod(a as int, b as int, m as int),
        in_ring(r as int, m as int),
{
    let s: u128 = a as u128 + b as u128;
    let r: u128 = s % (m as u128);
    proof {
        lemma_mod_bound(s as int, m as int);
    }
    r as i64
}

/// Subtracts two ring elements, exactly as `sub_mod` says.
pub fn ring_sub(a: i64, b: i64, m: i64) -> (r: i64)
    requires
        valid_modulus(m as int),
        in_ring(a as int, m as int),
        in_ring(b as int, m as int),
    ensures
        r as int == sub_mod(a as int, b as int, m as int),
        in_ring(r as int, m as int),
{
    let s: u128 = a as u128 + m as u128 - b as u128;
    let r: u128 = s % (m as u128);
    proof {
        lemma_mod_add_multiples_vanish(a - b, m as int);
        lemma_mod_bound(s as int, m as int);
        assert(s as int == m + (a - b));
    }
    r as i64
}

/// Multiplies two ring elements, exactly as `mul_mod` says.
pub fn ring_mul(a: i64, b: i64, m: i64) -> (r: i64)
    requires
        valid_modulus(m as int),
        in_ring(a as int, m as int),
        in_ring(b as int, m as int),
    ensures
        r as int == mul_mod(a as int, b as int, m as int),
        in_ring(r as int, m as int),
{
    proof {
        assert((a as int) * (b as int) < 0x4000_0000_0000_0000_0000_0000_0000_0000int)
            by (nonlinear_arith)
            requires
                0 <= a < 0x8000_0000_0000_0000int,
                0 <= b < 0x8000_0000_0000_0000int,
        ;
    }
    let p: u128 = a as u128 * b as u128;
    let r: u128 = p % (m as u128);
    proof {
        lemma_mod_bound(p as int, m as int);
    }
    r as i64
}

/// Reduces an arbitrary non-negative value into the ring.
pub fn ring_reduce(a: i64, m: i64) -> (r: i64)
    requires
        valid_modulus(m as int),
        a >= 0,
    ensures
        r as int == a as int % m as int,
        in_ring(r as int, m as int),
{
    proof {
        lemma_mod_bound(a as int, m as int);
    }
    a % m
}

/// Masking round trip: adding a mask to a ring element and subtracting the
/// same mask afterwards gives the element back.
pub proof fn lemma_mask_round_trip(s: int, k: int, m: int)
    requires
        valid_modulus(m),
        in_ring(s, m),
        in_ring(k, m),
    ensures
        sub_mod(add_mod(s, k, m), k, m) == s,
{
    lemma_sub_mod_noop(s + k, k, m);
    lemma_small_mod(s as nat, m as nat);
    lemma_small_mod(k as nat, m as nat);
}

/// Addition in the ring commutes with addition of masked values: the sum of
/// masked values equals the masked sum.
pub proof fn lemma_masked_sum(a: int, b: int, c: int, d: int, m: int)
    requires
        valid_modulus(m),
    ensures
        add_mod(add_mod(a, b, m), add_mod(c, d, m), m) == add_mod(a + c, b + d, m),
{
    lemma_add_mod_noop(a + b, c + d, m);
}

/// Greatest common divisor, by Euclid's recurrence.
pub open spec fn gcd(a: nat, b: nat) -> nat
    decreases b,
{
    if b == 0 {
        a
    } else {
        gcd(b, a % b)
    }
}

/// Computes the greatest common divisor, exactly as `gcd` says.
pub fn gcd_exec(a: u64, b: u64) -> (r: u64)
    ensures
        r as nat == gcd(a as nat, b as nat),
    decreases b,
{
    if b == 0 {
        a
    } else {
        gcd_exec(b, a % b)
    }
}

/// The multiplicative inverse of `a` in `Z_m`, where one exists.
pub open spec fn inv_mod(a: int, m: int) -> int {
    choose|r: int| 0 <= r < m && mul_mod(a, r, m) == 1
}

/// An element of `Z_m` that multiplies with `a` to one is the inverse of
/// `a`: there is at most one such element.
pub proof fn lemma_inv_mod_unique(a: int, m: int, r: int)
    requires
        valid_modulus(m),
        in_ring(r, m),
        mul_mod(a, r, m) == 1,
    ensures
        inv_mod(a, m) == r,
{
    assert(0 <= r < m && mul_mod(a, r, m) == 1);
    let w = inv_mod(a, m);
    assert(0 <= w < m && mul_mod(a, w, m) == 1);
    // w == (w * (a * r)) % m == ((w * a) * r) % m == (1 * r) % m == r
    lemma_small_mod(w as nat, m as nat);
    lemma_small_mod(r as nat, m as nat);
    lemma_mul_mod_noop_right(w, a * r, m);
    lemma_mul_is_associative(w, a, r);
    lemma_mul_mod_noop_left(w * a, r, m);
    lemma_mul_is_commutative(w, a);
    assert((w * (a * r) % m) % m == w % m) by {
        assert(a * r % m == 1);
        assert(w * (a * r % m) == w) by (nonlinear_arith)
            requires
                a * r % m == 1,
        ;
    }
    assert(w % m == ((w * a) % m * r) % m);
    assert(w == r);
}

/// Bézout's identity: some integer combination of `a` and `b` equals
/// their greatest common divisor.
pub proof fn lemma_bezout(a: nat, b: nat)
    ensures
        exists|u: int, v: int| #[trigger] (u * a) + #[trigger] (v * b) == gcd(a, b),
    decreases b,
{
    if b == 0 {
        assert(1 * a + 0 * b == gcd(a, b)) by (nonlinear_arith)
            requires
                gcd(a, b) == a,
        ;
    } else {
        lemma_bezout(b, a % b);
        let (u1, v1) = choose|u1: int, v1: int| #[trigger] (u1 * b) + #[trigger] (v1 * (a % b)) == gcd(b, a % b);
        lemma_fundamental_div_mod(a as int, b as int);
        let q = (a as int) / (b as int);
        assert((a as int) % (b as int) == a - q * b);
        assert(a % b == a - q * b);
        let u = v1;
        let v = u1 - v1 * q;
        assert(u * a + v * b == gcd(a, b)) by (nonlinear_arith)
            requires
                u1 * b + v1 * (a % b) == gcd(b, a % b),
                a % b == a - q * b,
                u == v1,
                v == u1 - v1 * q,
                gcd(a, b) == gcd(b, a % b),
        ;
    }
}

/// An element coprime to the modulus has a multiplicative inverse in
/// `Z_m`.
pub proof fn lemma_inverse_exists(a: int, m: int)
    requires
        valid_modulus(m),
        0 <= a < m,
        gcd(a as nat, m as nat) == 1,
    ensures
        in_ring(inv_mod(a, m), m),
        mul_mod(a, inv_mod(a, m), m) == 1,
{
    lemma_bezout(a as nat, m as nat);
    let (u, v) = choose|u: int, v: int| #[trigger] (u * (a as nat)) + #[trigger] (v * (m as nat)) == gcd(a as nat, m as nat);
    let r = u % m;
    lemma_mod_bound(u, m);
    lemma_mul_mod_noop_right(a, u, m);
    assert(a * u == m * (-v) + 1) by (nonlinear_arith)
        requires
            u * a + v * m == 1,
    ;
    lemma_mod_multiples_vanish(-v, 1, m);
    lemma_small_mod(1nat, m as nat);
    assert(mul_mod(a, r, m) == 1);
    assert(exists|w: int| 0 <= w < m && mul_mod(a, w, m) == 1);
    assert(0 <= inv_mod(a, m) < m && mul_mod(a, inv_mod(a, m), m) == 1);
}

/// Computes the multiplicative inverse in `Z_m` by the extended Euclidean
/// recurrence, for an `a` coprime to the modulus.
pub fn mod_inv(a: i64, m: i64) -> (r: i64)
    requires
        valid_modulus(m as int),
        0 < a < m,
        gcd(a as nat, m as nat) == 1,
    ensures
        in_ring(r as int, m as int),
        mul_mod(a as int, r as int, m as int) == 1,
        r as int == inv_mod(a as int, m as int),
{
    let mut r0: i64 = a;
    let mut r1: i64 = m;
    let mut s0: i64 = 1;
    let mut s1: i64 = 0;
    proof {
        lemma_small_mod(a as nat, m as nat);
        lemma_small_mod(0nat, m as nat);
        lemma_mod_self_0(m as int);
    }
    while r1 != 0
        invariant
            valid_modulus(m as int),
            0 < a < m,
            0 <= r0,
            0 <= r1,
            gcd(r0 as nat, r1 as nat) == 1,
            in_ring(s0 as int, m as int),
            in_ring(s1 as int, m as int),
            mul_mod(a as int, s0 as int, m as int) == r0 as int % m as int,
            mul_mod(a as int, s1 as int, m as int) == r1 as int % m as int,
        decreases r1,
    {
        let q: i64 = r0 / r1;
        let r2: i64 = r0 % r1;
        let qm: i64 = ring_reduce(q, m);
        let qs: i64 = ring_mul(qm, s1, m);
        let s2: i64 = ring_sub(s0, qs, m);
        proof {
            lemma_fundamental_div_mod(r0 as int, r1 as int);
            assert(r2 as int == r0 - q * r1);
            // a * s2 ≡ a * s0 - a * (qm * s1) ≡ r0 - q * r1 == r2  (mod m)
            lemma_mul_mod_noop_right(a as int, s0 - qs, m as int);
            lemma_mul_is_distributive_sub(a as int, s0 as int, qs as int);
            lemma_sub_mod_noop(a * s0, a * qs, m as int);
            // (a * qs) % m == (q * r1) % m
            lemma_mul_mod_noop_right(a as int, (qm as int) * (s1 as int), m as int);
            lemma_mul_is_associative(a as int, qm as int, s1 as int);
            lemma_mul_is_commutative(a as int, qm as int);
            lemma_mul_is_associative(qm as int, a as int, s1 as int);
            lemma_mul_mod_noop_right(qm as int, (a as int) * (s1 as int), m as int);
            assert((qm as int) * ((a as int) * (s1 as int) % (m as int)) % (m as int)
                == (qm as int) * ((r1 as int) % (m as int)) % (m as int));
            lemma_mod_bound(r1 as int, m as int);
            lemma_small_mod((r1 as int % m as int) as nat, m as nat);
            lemma_mul_mod_noop_right(qm as int, r1 as int, m as int);
            lemma_mul_mod_noop_left(q as int, r1 as int, m as int);
            // (r0 % m - (q * r1) % m) % m == (r0 - q * r1) % m
            lemma_sub_mod_noop(r0 as int, q * r1, m as int);
            assert(mul_mod(a as int, s2 as int, m as int) == r2 as int % m as int);
            // gcd is preserved by one step of Euclid's recurrence
            assert(gcd(r1 as nat, r2 as nat) == gcd(r0 as nat, r1 as nat));
        }
        r0 = r1;
        r1 = r2;
        s0 = s1;
        s1 = s2;
    }
    proof {
        assert(gcd(r0 as nat, 0) == r0 as nat);
        assert(r0 == 1);
        lemma_small_mod(1nat, m as nat);
        lemma_inv_mod_unique(a as int, m as int, s0 as int);
    }
    s0
}

} // verus!
