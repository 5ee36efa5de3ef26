//! Encryption engine: wraps share and mask material for one recipient.
//!
//! A ciphertext is the plaintext combined with a stream derived from the
//! recipient's public key, plus a checksum tag over the plaintext.
//! Decryption recomputes the stream from the matching keypair and checks
//! the tag; on a mismatch it fails with `DecryptionFailed` and returns no
//! partial plaintext.

use vstd::prelude::*;
use crate::errors::{CryptoError, CryptoResult};
use crate::stream::{
    checksum_words, chk_words, lemma_xored_words_involution, xor_words, xored_words, CHK_MODULUS,
};

verus! {

/// Derives the public encryption key from the private one.
pub open spec fn pk_of(sk: u64) -> u64 {
    ((sk * 6364136223846793005 + 1442695040888963407) % 0x1_0000_0000_0000_0000) as u64
}

/// Computes the public encryption key, exactly as `pk_of` says.
pub fn pk_of_exec(sk: u64) -> (r: u64)
    ensures
        r == pk_of(sk),
{
    ((sk as u128 * 6364136223846793005u128 + 1442695040888963407u128)
        % 0x1_0000_0000_0000_0000u128) as u64
}

/// An encryption keypair: the private half and the public half derived
/// from it.
#[derive(Clone, Copy, Debug, PartialEq, Eq, Structural)]
pub struct EncryptionKeypair {
    /// The public encryption key, safe to publish.
    pub pk: u64,
    /// The private decryption key; never leaves the owning agent.
    pub sk: u64,
}

impl EncryptionKeypair {
    /// The public half belongs to the private half.
    pub open spec fn wf(&self) -> bool {
        self.pk == pk_of(self.sk)
    }

    /// Builds the keypair determined by fresh private key material.
    pub fn from_secret(sk: u64) -> (kp: EncryptionKeypair)
        ensures
            kp.wf(),
            kp.sk == sk,
    {
        EncryptionKeypair { pk: pk_of_exec(sk), sk }
    }
}

/// A ciphertext addressed to one recipient: the masked words and the
/// plaintext's checksum tag.
#[derive(Clone, Debug, PartialEq, Eq)]
pub struct Ciphertext {
    /// The plaintext combined with the recipient's key stream.
    pub words: Vec<u64>,
    /// The checksum of the plaintext, keyed by the recipient's key.
    pub tag: u64,
}

/// The tag a well-formed ciphertext of plaintext `pt` under key `pk`
/// carries.
pub open spec fn tag_of(pk: u64, pt: Seq<u64>) -> u64 {
    chk_words(pt, (pk % CHK_MODULUS) as u64)
}

/// Encrypts plaintext words to the holder of the keypair belonging to
/// `pk`: the words are masked by the key's stream and tagged with the
/// plaintext's checksum.
pub fn encrypt(pk: u64, pt: &Vec<u64>) -> (ct: Ciphertext)
    ensures
        ct.words@ == xored_words(pt@, pk),
        ct.tag == tag_of(pk, pt@),
{
    let words: Vec<u64> = xor_words(pt, pk);
    let tag: u64 = checksum_words(pt, pk % CHK_MODULUS);
    Ciphertext { words, tag }
}

/// Decrypts a ciphertext with the private half of the keypair: unmasks
/// the words with the key's stream and accepts exactly when the tag
/// matches the recovered plaintext; otherwise `DecryptionFailed`, with no
/// partial plaintext.
pub fn decrypt(keypair: &EncryptionKeypair, ct: &Ciphertext) -> (r: CryptoResult<Vec<u64>>)
    requires
        keypair.wf(),
    ensures
        tag_of(keypair.pk, xored_words(ct.words@, keypair.pk)) == ct.tag ==> (r is Ok
            && r.unwrap()@ == xored_words(ct.words@, keypair.pk)),
        tag_of(keypair.pk, xored_words(ct.words@, keypair.pk)) != ct.tag ==> r == Err::<
            Vec<u64>,
            CryptoError,
        >(CryptoError::DecryptionFailed),
{
    let pk: u64 = pk_of_exec(keypair.sk);
    let pt: Vec<u64> = xor_words(&ct.words, pk);
    let tag: u64 = checksum_words(&pt, pk % CHK_MODULUS);
    if tag == ct.tag {
        Ok(pt)
    } else {
        Err(CryptoError::DecryptionFailed)
    }
}

/// Encrypts plaintexts for one recipient.
pub struct Encryptor {
    /// The recipient's public key.
    pub pk: u64,
}

impl Encryptor {
    /// Encrypts to the encryptor's recipient, exactly as `encrypt` says.
    pub fn seal(&self, pt: &Vec<u64>) -> (ct: Ciphertext)
        ensures
            ct.words@ == xored_words(pt@, self.pk),
            ct.tag == tag_of(self.pk, pt@),
    {
        encrypt(self.pk, pt)
    }
}

/// Decrypts ciphertexts with one keypair.
pub struct Decryptor {
    /// The recipient's keypair.
    pub keypair: EncryptionKeypair,
}

impl Decryptor {
    /// Decrypts with the decryptor's keypair, exactly as `decrypt` says.
    pub fn open(&self, ct: &Ciphertext) -> (r: CryptoResult<Vec<u64>>)
        requires
            self.keypair.wf(),
        ensures
            tag_of(self.keypair.pk, xored_words(ct.words@, self.keypair.pk)) == ct.tag ==> (r is Ok
                && r.unwrap()@ == xored_words(ct.words@, self.keypair.pk)),
            tag_of(self.keypair.pk, xored_words(ct.words@, self.keypair.pk)) != ct.tag ==> r
                == Err::<Vec<u64>, CryptoError>(CryptoError::DecryptionFailed),
    {
        decrypt(&self.keypair, ct)
    }
}

/// Encryption round trip: decrypting a ciphertext produced for a keypair's
/// public half with that keypair recovers the plaintext — the unmasked
/// words are the original ones and the tag matches.
pub proof fn lemma_encrypt_decrypt(pk: u64, pt: Seq<u64>)
    ensures
        xored_words(xored_words(pt, pk), pk) == pt,
        tag_of(pk, xored_words(xored_words(pt, pk), pk)) == tag_of(pk, pt),
{
    lemma_xored_words_involution(pt, pk);
}

} // verus!
