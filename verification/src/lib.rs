//! Cryptographic core for secure distributed aggregation.
//!
//! Multiple data owners contribute numeric secrets to an aggregate sum
//! without the aggregator ever seeing a raw secret: each secret is blinded
//! with a fresh additive mask, the mask is split into threshold shares
//! distributed to a committee of clerks, and once a quorum of clerks
//! cooperates the combined mask can be removed from the aggregate.
//!
//! All secret-domain values are elements of a ring defined by the active
//! scheme's modulus; arithmetic on them is always modular, never raw
//! machine arithmetic.

use vstd::prelude::*;

pub mod agents;
pub mod encryption;
pub mod errors;
pub mod keystore;
pub mod masking;
pub mod prng;
pub mod ring;
pub mod scheme;
pub mod sharing;
pub mod signing;
pub mod stream;

use crate::encryption::{Decryptor, EncryptionKeypair, Encryptor};
use crate::errors::{CryptoError, CryptoResult};
use crate::keystore::{KeyGeneration, Keystore};
use crate::masking::{MaskCombiner, SecretMasker, SecretUnmasker};
use crate::prng::Prng;
use crate::scheme::Scheme;
use crate::sharing::{SecretReconstructor, ShareCombiner, ShareGenerator};
use crate::signing::SignatureKeypair;

verus! {

/// A contributor's private input, as a ring element.
pub type Secret = i64;

/// A random blinding value, as a ring element.
pub type Mask = i64;

/// A secret plus a mask in the ring; what the aggregator sees.
pub type MaskedSecret = i64;

/// The client's cryptographic capability set: binds the engines to one
/// injected keystore and one seeded generator, and hands out engine
/// instances validated for a scheme. It performs no algorithmic work
/// itself, only composition and input validation.
pub struct CryptoModule<KS: Keystore> {
    /// The keystore all engines resolve keys from.
    pub keystore: KS,
    /// The generator masks, coefficients and fresh keys are drawn from.
    pub prng: Prng,
}

impl<KS: Keystore> CryptoModule<KS> {
    /// Binds the module to a keystore and a seeded generator: the
    /// returned module holds exactly the keystore and generator passed
    /// in, and nothing else.
    pub fn new(keystore: KS, prng: Prng) -> (r: CryptoModule<KS>)
        ensures
            r.keystore == keystore,
            r.prng == prng,
    {
        CryptoModule { keystore, prng }
    }

    /// Generates a fresh, well-formed encryption keypair; the pure core
    /// never fails to generate.
    pub fn new_encryption_keypair(&mut self) -> (r: CryptoResult<EncryptionKeypair>)
        ensures
            r is Ok,
            r.unwrap().wf(),
            final(self).keystore == old(self).keystore,
    {
        let sk: u64 = self.prng.next_u64();
        Ok(EncryptionKeypair::from_secret(sk))
    }

    /// Generates a fresh, well-formed signature keypair; the pure core
    /// never fails to generate.
    pub fn new_signature_keypair(&mut self) -> (r: CryptoResult<SignatureKeypair>)
        ensures
            r is Ok,
            r.unwrap().wf(),
            final(self).keystore == old(self).keystore,
    {
        let sk: u64 = self.prng.next_u64();
        Ok(SignatureKeypair::from_secret(sk))
    }

    /// A share generator for the scheme; exactly when the scheme's
    /// parameters validate.
    pub fn new_share_generator(&self, scheme: &Scheme) -> (r: CryptoResult<ShareGenerator>)
        ensures
            scheme.wf() ==> r == Ok::<ShareGenerator, CryptoError>(
                ShareGenerator { scheme: *scheme },
            ),
            !scheme.wf() ==> r is Err,
    {
        match Scheme::new(scheme.modulus, scheme.threshold, scheme.share_count) {
            Ok(_) => Ok(ShareGenerator { scheme: *scheme }),
            Err(e) => Err(e),
        }
    }

    /// A share combiner for the scheme; exactly when the scheme's
    /// parameters validate.
    pub fn new_share_combiner(&self, scheme: &Scheme) -> (r: CryptoResult<ShareCombiner>)
        ensures
            scheme.wf() ==> r == Ok::<ShareCombiner, CryptoError>(
                ShareCombiner { scheme: *scheme },
            ),
            !scheme.wf() ==> r is Err,
    {
        match Scheme::new(scheme.modulus, scheme.threshold, scheme.share_count) {
            Ok(_) => Ok(ShareCombiner { scheme: *scheme }),
            Err(e) => Err(e),
        }
    }

    /// A secret reconstructor for the scheme; exactly when the scheme's
    /// parameters validate.
    pub fn new_secret_reconstructor(&self, scheme: &Scheme) -> (r: CryptoResult<
        SecretReconstructor,
    >)
        ensures
            scheme.wf() ==> r == Ok::<SecretReconstructor, CryptoError>(
                SecretReconstructor { combiner: ShareCombiner { scheme: *scheme } },
            ),
            !scheme.wf() ==> r is Err,
    {
        match Scheme::new(scheme.modulus, scheme.threshold, scheme.share_count) {
            Ok(_) => Ok(SecretReconstructor { combiner: ShareCombiner { scheme: *scheme } }),
            Err(e) => Err(e),
        }
    }

    /// A secret masker for the scheme and committee; exactly when the
    /// scheme validates and there is one committee key per share.
    pub fn new_secret_masker(&self, scheme: &Scheme, committee_keys: &Vec<u64>) -> (r: CryptoResult<
        SecretMasker,
    >)
        ensures
            r is Ok ==> r.unwrap().wf() && r.unwrap().scheme == *scheme && r.unwrap().committee@
                == committee_keys@,
            scheme.wf() && committee_keys@.len() == scheme.share_count ==> r is Ok,
            !scheme.wf() ==> r is Err,
            scheme.wf() && committee_keys@.len() != scheme.share_count ==> r == Err::<
                SecretMasker,
                CryptoError,
            >(CryptoError::SchemeMismatch),
    {
        match Scheme::new(scheme.modulus, scheme.threshold, scheme.share_count) {
            Ok(_) => {
                if committee_keys.len() != scheme.share_count {
                    Err(CryptoError::SchemeMismatch)
                } else {
                    let mut committee: Vec<u64> = Vec::new();
                    let mut i: usize = 0;
                    while i < committee_keys.len()
                        invariant
                            i <= committee_keys@.len(),
                            committee@ == committee_keys@.take(i as int),
                        decreases committee_keys@.len() - i,
                    {
                        committee.push(committee_keys[i]);
                        proof {
                            assert(committee@ =~= committee_keys@.take(i as int + 1));
                        }
                        i = i + 1;
                    }
                    proof {
                        assert(committee_keys@.take(committee_keys@.len() as int)
                            =~= committee_keys@);
                    }
                    Ok(SecretMasker { scheme: *scheme, committee })
                }
            },
            Err(e) => Err(e),
        }
    }

    /// A mask combiner for the scheme; exactly when the scheme's
    /// parameters validate.
    pub fn new_mask_combiner(&self, scheme: &Scheme) -> (r: CryptoResult<MaskCombiner>)
        ensures
            scheme.wf() ==> r == Ok::<MaskCombiner, CryptoError>(MaskCombiner { scheme: *scheme }),
            !scheme.wf() ==> r is Err,
    {
        match Scheme::new(scheme.modulus, scheme.threshold, scheme.share_count) {
            Ok(_) => Ok(MaskCombiner { scheme: *scheme }),
            Err(e) => Err(e),
        }
    }

    /// A secret unmasker for the scheme; exactly when the scheme's
    /// parameters validate.
    pub fn new_secret_unmasker(&self, scheme: &Scheme) -> (r: CryptoResult<SecretUnmasker>)
        ensures
            scheme.wf() ==> r == Ok::<SecretUnmasker, CryptoError>(
                SecretUnmasker { scheme: *scheme },
            ),
            !scheme.wf() ==> r is Err,
    {
        match Scheme::new(scheme.modulus, scheme.threshold, scheme.share_count) {
            Ok(_) => Ok(SecretUnmasker { scheme: *scheme }),
            Err(e) => Err(e),
        }
    }

    /// An encryptor addressing the holder of `pk`.
    pub fn new_encryptor(&self, pk: u64) -> (r: Encryptor)
        ensures
            r.pk == pk,
    {
        Encryptor { pk }
    }

    /// A decryptor for a keypair of this agent's own.
    pub fn new_decryptor(&self, keypair: &EncryptionKeypair) -> (r: Decryptor)
        ensures
            r.keypair == *keypair,
    {
        Decryptor { keypair: *keypair }
    }
}

impl<KS: Keystore> KeyGeneration<EncryptionKeypair> for CryptoModule<KS> {
    open spec fn key_wf(&self, k: &EncryptionKeypair) -> bool {
        k.wf()
    }

    fn new_key(&mut self) -> (r: CryptoResult<EncryptionKeypair>) {
        self.new_encryption_keypair()
    }
}

impl<KS: Keystore> KeyGeneration<SignatureKeypair> for CryptoModule<KS> {
    open spec fn key_wf(&self, k: &SignatureKeypair) -> bool {
        k.wf()
    }

    fn new_key(&mut self) -> (r: CryptoResult<SignatureKeypair>) {
        self.new_signature_keypair()
    }
}

} // verus!
