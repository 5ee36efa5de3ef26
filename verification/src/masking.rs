//! Masking engine: blinds a secret from the aggregator.
//!
//! A contributor adds a fresh random mask to its secret in the ring, so
//! the aggregator only ever sees masked values; the mask is split into
//! threshold shares, one per committee member, each encrypted to that
//! member's public key so it can transit through the untrusted
//! aggregator. Once a quorum of clerks combines the mask material, the
//! combined mask can be removed from the aggregated sum.

use vstd::prelude::*;
use vstd::arithmetic::div_mod::{
    lemma_add_mod_noop, lemma_add_mod_noop_right, lemma_small_mod, lemma_sub_mod_noop,
};
use crate::errors::CryptoResult;
use crate::encryption::{encrypt, tag_of, Ciphertext};
use crate::prng::Prng;
use crate::ring::{add_mod, in_ring, ring_add, ring_sub, sub_mod, valid_modulus};
use crate::scheme::{Scheme, Share, Suitable};
use crate::sharing::{combine_result, share_poly_at, ShareCombiner, ShareGenerator};
use crate::stream::xored_words;

verus! {

/// A share encoded for transport: index, value and modulus, one word
/// each. All three are non-negative, so the encoding loses nothing.
pub open spec fn share_words(s: Share) -> Seq<u64> {
    seq![s.index as u64, s.value as u64, s.modulus as u64]
}

/// Encodes a share for transport, exactly as `share_words` says.
pub fn share_to_words(s: &Share) -> (r: Vec<u64>)
    requires
        s.index >= 0,
        s.value >= 0,
        s.modulus >= 0,
    ensures
        r@ == share_words(*s),
{
    let mut r: Vec<u64> = Vec::new();
    r.push(s.index as u64);
    r.push(s.value as u64);
    r.push(s.modulus as u64);
    proof {
        assert(r@ =~= share_words(*s));
    }
    r
}

/// Decodes a transported share. Returns the share exactly when the words
/// are a share encoding: three words, each in signed range.
pub fn words_to_share(w: &Vec<u64>) -> (r: Option<Share>)
    ensures
        r is Some <==> (w@.len() == 3 && w@[0] <= i64::MAX && w@[1] <= i64::MAX && w@[2]
            <= i64::MAX),
        r is Some ==> share_words(r.unwrap()) == w@,
{
    if w.len() != 3 {
        return None;
    }
    if w[0] > i64::MAX as u64 || w[1] > i64::MAX as u64 || w[2] > i64::MAX as u64 {
        return None;
    }
    let s = Share { index: w[0] as i64, value: w[1] as i64, modulus: w[2] as i64 };
    proof {
        assert(share_words(s) =~= w@);
    }
    Some(s)
}

/// Blinds secrets for one scheme and one committee.
pub struct SecretMasker {
    /// The scheme the masker was constructed for.
    pub scheme: Scheme,
    /// The committee members' public encryption keys, in committee order.
    pub committee: Vec<u64>,
}

impl SecretMasker {
    /// The masker's scheme is valid and it has one key per share.
    pub open spec fn wf(&self) -> bool {
        self.scheme.wf() && self.committee@.len() == self.scheme.share_count
    }

    /// Masks a secret: draws a fresh mask, adds it to the secret in the
    /// ring, splits the mask into one share per committee member and
    /// encrypts each share to that member's key. For some in-ring mask
    /// and coefficient vector, the masked value is `secret + mask` in
    /// the ring and ciphertext `i` carries exactly the mask's share at
    /// index `i + 1` under member `i`'s key.
    pub fn mask(&self, secret: i64, prng: &mut Prng) -> (r: (i64, Vec<Ciphertext>))
        requires
            self.wf(),
            in_ring(secret as int, self.scheme.modulus as int),
        ensures
            r.1@.len() == self.scheme.share_count,
            in_ring(r.0 as int, self.scheme.modulus as int),
            exists|mk: int, coeffs: Seq<int>|
                {
                    &&& in_ring(mk, self.scheme.modulus as int)
                    &&& coeffs.len() == self.scheme.threshold - 1
                    &&& (forall|j: int|
                        0 <= j < coeffs.len() ==> in_ring(
                            #[trigger] coeffs[j],
                            self.scheme.modulus as int,
                        ))
                    &&& r.0 as int == add_mod(secret as int, mk, self.scheme.modulus as int)
                    &&& (forall|i: int|
                        0 <= i < self.scheme.share_count ==> #[trigger] r.1@[i].words@
                            == xored_words(
                            share_words(self.spec_share(mk, coeffs, i)),
                            self.committee@[i],
                        ) && r.1@[i].tag == tag_of(
                            self.committee@[i],
                            share_words(self.spec_share(mk, coeffs, i)),
                        ))
                },
    {
        let m: i64 = self.scheme.modulus;
        let mk: i64 = prng.next_ring(m);
        let masked: i64 = ring_add(secret, mk, m);
        let mut coeffs: Vec<i64> = Vec::new();
        let mut k: usize = 0;
        while k < self.scheme.threshold - 1
            invariant
                self.wf(),
                m == self.scheme.modulus,
                coeffs@.len() == k,
                k <= self.scheme.threshold - 1,
                forall|j: int|
                    0 <= j < coeffs@.len() ==> in_ring(#[trigger] coeffs@[j] as int, m as int),
            decreases self.scheme.threshold - 1 - k,
        {
            let c: i64 = prng.next_ring(m);
            coeffs.push(c);
            k = k + 1;
        }
        let generator = ShareGenerator { scheme: self.scheme };
        let shares: Vec<Share> = generator.generate_with_coefficients(mk, &coeffs);
        let ghost coeffs_int = coeffs@.map_values(|c: i64| c as int);
        let mut cts: Vec<Ciphertext> = Vec::new();
        let mut i: usize = 0;
        while i < shares.len()
            invariant
                self.wf(),
                m == self.scheme.modulus,
                in_ring(mk as int, m as int),
                coeffs_int.len() == self.scheme.threshold - 1,
                forall|j: int| 0 <= j < coeffs_int.len() ==> in_ring(#[trigger] coeffs_int[j], m as int),
                shares@.len() == self.scheme.share_count,
                self.committee@.len() == self.scheme.share_count,
                forall|j: int|
                    0 <= j < shares@.len() ==> #[trigger] shares@[j] == self.spec_share(
                        mk as int,
                        coeffs_int,
                        j,
                    ),
                i <= shares@.len(),
                cts@.len() == i,
                forall|j: int|
                    0 <= j < i ==> #[trigger] cts@[j].words@ == xored_words(
                        share_words(shares@[j]),
                        self.committee@[j],
                    ) && cts@[j].tag == tag_of(self.committee@[j], share_words(shares@[j])),
            decreases shares@.len() - i,
        {
            proof {
                assert(shares@[i as int].spec_suitable_for(&self.scheme));
            }
            let words: Vec<u64> = share_to_words(&shares[i]);
            let ct: Ciphertext = encrypt(self.committee[i], &words);
            cts.push(ct);
            i = i + 1;
        }
        proof {
            assert forall|j: int| 0 <= j < self.scheme.share_count implies #[trigger] cts@[j].words@
                == xored_words(share_words(self.spec_share(mk as int, coeffs_int, j)), self.committee@[j])
                && cts@[j].tag == tag_of(
                self.committee@[j],
                share_words(self.spec_share(mk as int, coeffs_int, j)),
            ) by {
                assert(0 <= j < cts@.len());
                assert(cts@[j].words@ == xored_words(share_words(shares@[j]), self.committee@[j]));
                assert(cts@[j].tag == tag_of(self.committee@[j], share_words(shares@[j])));
                assert(shares@[j] == self.spec_share(mk as int, coeffs_int, j));
            }
        }
        (masked, cts)
    }

    /// The share of `value` at committee position `i` under the masker's
    /// scheme.
    pub open spec fn spec_share(&self, value: int, coeffs: Seq<int>, i: int) -> Share {
        Share {
            index: (i + 1) as i64,
            value: share_poly_at(value, coeffs, i + 1, self.scheme.modulus as int) as i64,
            modulus: self.scheme.modulus,
        }
    }
}

/// Combines decrypted mask shares from committee members back into the
/// combined mask.
pub struct MaskCombiner {
    /// The scheme the combiner was constructed for.
    pub scheme: Scheme,
}

impl MaskCombiner {
    /// Combines a quorum of mask shares, exactly as `combine_result`
    /// says: fewer than the scheme's threshold of distinct shares is
    /// `InsufficientShares`, never a guess.
    pub fn combine(&self, shares: &Vec<Share>) -> (r: CryptoResult<i64>)
        requires
            self.scheme.wf(),
        ensures
            r == combine_result(shares@, self.scheme),
    {
        let combiner = ShareCombiner { scheme: self.scheme };
        combiner.combine(shares)
    }
}

/// Removes a combined mask from an aggregated masked sum.
pub struct SecretUnmasker {
    /// The scheme the unmasker was constructed for.
    pub scheme: Scheme,
}

impl SecretUnmasker {
    /// Subtracts the combined mask from the aggregate in the ring; the
    /// only step that recovers a secret-domain value.
    pub fn unmask(&self, masked_sum: i64, combined_mask: i64) -> (r: i64)
        requires
            self.scheme.wf(),
            in_ring(masked_sum as int, self.scheme.modulus as int),
            in_ring(combined_mask as int, self.scheme.modulus as int),
        ensures
            r as int == sub_mod(masked_sum as int, combined_mask as int, self.scheme.modulus as int),
            in_ring(r as int, self.scheme.modulus as int),
    {
        ring_sub(masked_sum, combined_mask, self.scheme.modulus)
    }
}

/// The ring sum of a sequence of values.
pub open spec fn sum_mod(s: Seq<int>, m: int) -> int
    decreases s.len(),
{
    if s.len() == 0 {
        0
    } else {
        add_mod(sum_mod(s.drop_last(), m), s.last(), m)
    }
}

/// Masking correctness: for contributors with secrets `s_i` and masks
/// `k_i`, unmasking the ring sum of the masked values with the ring sum
/// of the masks yields the ring sum of the secrets.
pub proof fn lemma_masking_correctness(secrets: Seq<int>, masks: Seq<int>, m: int)
    requires
        valid_modulus(m),
        secrets.len() == masks.len(),
    ensures
        sub_mod(
            sum_mod(Seq::new(secrets.len(), |i: int| add_mod(secrets[i], masks[i], m)), m),
            sum_mod(masks, m),
            m,
        ) == sum_mod(secrets, m),
    decreases secrets.len(),
{
    let masked = Seq::new(secrets.len(), |i: int| add_mod(secrets[i], masks[i], m));
    if secrets.len() == 0 {
        lemma_small_mod(0, m as nat);
        assert(sub_mod(0, 0, m) == 0);
    } else {
        let sp = secrets.drop_last();
        let kp = masks.drop_last();
        let sl = secrets.last();
        let kl = masks.last();
        lemma_masking_correctness(sp, kp, m);
        let maskedp = Seq::new(sp.len(), |i: int| add_mod(sp[i], kp[i], m));
        assert(masked.drop_last() =~= maskedp);
        let sm = sum_mod(maskedp, m);
        let km = sum_mod(kp, m);
        let ss = sum_mod(sp, m);
        // sum of masked values: (Sm + (sl + kl) % m) % m == (Sm + sl + kl) % m
        assert(masked.last() == add_mod(sl, kl, m));
        lemma_add_mod_noop_right(sm, sl + kl, m);
        assert(sum_mod(masked, m) == (sm + sl + kl) % m);
        // difference: ((Sm + sl + kl) % m - (Km + kl) % m) % m == (Sm - Km + sl) % m
        lemma_sub_mod_noop(sm + sl + kl, km + kl, m);
        assert((sum_mod(masked, m) - sum_mod(masks, m)) % m == (sm - km + sl) % m);
        // (Sm - Km + sl) % m == ((Sm - Km) % m + sl % m) % m, and the
        // induction hypothesis rewrites (Sm - Km) % m to the secrets' sum
        lemma_add_mod_noop(sm - km, sl, m);
        assert((sm - km) % m == ss);
        // (Ss + sl % m) % m == (Ss + sl) % m == sum of the secrets
        lemma_add_mod_noop_right(ss, sl, m);
        assert(sub_mod(sum_mod(masked, m), sum_mod(masks, m), m) == (ss + sl) % m);
    }
}

} // verus!
