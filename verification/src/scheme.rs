//! Scheme parameters and the suitability predicate.
//!
//! A scheme is the parameter set (modulus, threshold `t`, committee size
//! `n`) governing compatibility of shares, masks and keys. Engines reject
//! combination across mismatched schemes by construction-time validation,
//! never by producing silently wrong arithmetic.

use vstd::prelude::*;
use crate::errors::{CryptoError, CryptoResult};
use crate::ring::{gcd, gcd_exec, in_ring, valid_modulus};

verus! {

/// The threshold bounds a sharing scheme must satisfy: at least one share
/// needed, no more needed than exist, and a committee of at most 32.
pub open spec fn bounds_ok(t: int, n: int) -> bool {
    1 <= t <= n <= 32
}

/// The modulus must define a ring in which every difference of two
/// distinct share indices out of `1..=n` is invertible, so that a quorum
/// of shares can always be interpolated.
pub open spec fn modulus_ok(m: int, n: int) -> bool {
    &&& valid_modulus(m)
    &&& m > n
    &&& forall|d: int|
        1 <= d < n ==> #[trigger] gcd(d as nat, m as nat) == 1 && gcd((m - d) as nat, m as nat)
            == 1
}

/// A fully valid scheme parameter set.
pub open spec fn valid_scheme(m: int, t: int, n: int) -> bool {
    bounds_ok(t, n) && modulus_ok(m, n)
}

/// The parameter set of one sharing/masking scheme.
#[derive(Clone, Copy, Debug, PartialEq, Eq, Structural)]
pub struct Scheme {
    /// The ring modulus all values live under.
    pub modulus: i64,
    /// How many distinct shares reconstruct a shared value.
    pub threshold: usize,
    /// How many shares are produced, one per committee member.
    pub share_count: usize,
}

impl Scheme {
    /// The scheme's parameters are valid.
    pub open spec fn wf(&self) -> bool {
        valid_scheme(self.modulus as int, self.threshold as int, self.share_count as int)
    }

    /// Validates a parameter set: threshold bounds first, then the
    /// modulus. Returns a scheme exactly when both hold.
    pub fn new(modulus: i64, threshold: usize, share_count: usize) -> (r: CryptoResult<Scheme>)
        ensures
            bounds_ok(threshold as int, share_count as int) && modulus_ok(
                modulus as int,
                share_count as int,
            ) ==> r == Ok::<Scheme, CryptoError>(
                Scheme { modulus, threshold, share_count },
            ),
            !bounds_ok(threshold as int, share_count as int) ==> r == Err::<
                Scheme,
                CryptoError,
            >(CryptoError::InvalidThreshold),
            bounds_ok(threshold as int, share_count as int) && !modulus_ok(
                modulus as int,
                share_count as int,
            ) ==> r == Err::<Scheme, CryptoError>(CryptoError::SchemeMismatch),
    {
        if !(1 <= threshold && threshold <= share_count && share_count <= 32) {
            return Err(CryptoError::InvalidThreshold);
        }
        if modulus < 2 || modulus <= share_count as i64 {
            return Err(CryptoError::SchemeMismatch);
        }
        let n: i64 = share_count as i64;
        let mut d: i64 = 1;
        while d < n
            invariant
                1 <= d <= n,
                n == share_count as int,
                bounds_ok(threshold as int, share_count as int),
                modulus >= 2,
                modulus > n,
                forall|dd: int|
                    1 <= dd < d ==> #[trigger] gcd(dd as nat, modulus as nat) == 1 && gcd(
                        (modulus - dd) as nat,
                        modulus as nat,
                    ) == 1,
            decreases n - d,
        {
            let g1: u64 = gcd_exec(d as u64, modulus as u64);
            proof {
                assert((d as u64) as nat == d as nat);
                assert((modulus as u64) as nat == modulus as nat);
            }
            if g1 != 1 {
                proof {
                    assert(gcd(d as nat, modulus as nat) != 1);
                }
                return Err(CryptoError::SchemeMismatch);
            }
            let g2: u64 = gcd_exec((modulus - d) as u64, modulus as u64);
            proof {
                assert(((modulus - d) as u64) as nat == (modulus - d) as nat);
            }
            if g2 != 1 {
                proof {
                    assert(gcd(d as nat, modulus as nat) == 1);
                    assert(gcd((modulus - d) as nat, modulus as nat) != 1);
                }
                return Err(CryptoError::SchemeMismatch);
            }
            d = d + 1;
        }
        Ok(Scheme { modulus, threshold, share_count })
    }
}

/// An operand can say whether it may be combined with material governed
/// by a scheme: its modulus and structural kind must match exactly.
pub trait Suitable<S> {
    /// What suitability means for this operand, as a pure predicate.
    spec fn spec_suitable_for(&self, scheme: &S) -> bool;

    /// Decides suitability, exactly as `spec_suitable_for` says.
    fn suitable_for(&self, scheme: &S) -> (r: bool)
        ensures
            r == self.spec_suitable_for(scheme),
    ;
}

/// One fragment of a shared value under a `(t, n)` threshold scheme: the
/// sharing polynomial evaluated at the fragment's public index, tagged
/// with the modulus it was generated under.
#[derive(Clone, Copy, Debug, PartialEq, Eq, Structural)]
pub struct Share {
    /// The public evaluation index, in `1..=n`.
    pub index: i64,
    /// The polynomial's value at `index`, an element of the ring.
    pub value: i64,
    /// The modulus of the scheme the share was generated under.
    pub modulus: i64,
}

impl Suitable<Scheme> for Share {
    open spec fn spec_suitable_for(&self, scheme: &Scheme) -> bool {
        &&& self.modulus == scheme.modulus
        &&& 1 <= self.index <= scheme.share_count
        &&& in_ring(self.value as int, scheme.modulus as int)
    }

    fn suitable_for(&self, scheme: &Scheme) -> (r: bool) {
        self.modulus == scheme.modulus && 1 <= self.index && self.index as u64
            <= scheme.share_count as u64 && 0 <= self.value && self.value < scheme.modulus
    }
}

} // verus!
