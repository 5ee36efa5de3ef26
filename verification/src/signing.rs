//! Signing engine: binds a message to an agent's key.
//!
//! A signature is the message combined with a stream derived from the
//! keypair; verification recomputes the stream from the public half and
//! compares. Verification never fails with an error: a malformed
//! signature is treated identically to a cryptographically invalid one
//! and simply yields `false`, so no oracle about the cause is observable.

use vstd::prelude::*;
use crate::stream::{lemma_xored_bytes_injective, xor_bytes, xor_words, xored_bytes, xored_words};

verus! {

/// Derives the verification key from the signing key.
pub open spec fn vk_of(sk: u64) -> u64 {
    ((sk * 2862933555777941757 + 3037000493) % 0x1_0000_0000_0000_0000) as u64
}

/// Computes the verification key, exactly as `vk_of` says.
pub fn vk_of_exec(sk: u64) -> (r: u64)
    ensures
        r == vk_of(sk),
{
    ((sk as u128 * 2862933555777941757u128 + 3037000493u128) % 0x1_0000_0000_0000_0000u128) as u64
}

/// A signature keypair: the private signing half and the public
/// verification half derived from it.
#[derive(Clone, Copy, Debug, PartialEq, Eq, Structural)]
pub struct SignatureKeypair {
    /// The public verification key.
    pub vk: u64,
    /// The private signing key; never leaves the owning agent.
    pub sk: u64,
}

impl SignatureKeypair {
    /// The public half belongs to the private half.
    pub open spec fn wf(&self) -> bool {
        self.vk == vk_of(self.sk)
    }

    /// Builds the keypair determined by fresh private key material.
    pub fn from_secret(sk: u64) -> (kp: SignatureKeypair)
        ensures
            kp.wf(),
            kp.sk == sk,
    {
        SignatureKeypair { vk: vk_of_exec(sk), sk }
    }
}

/// A signature over an arbitrary byte sequence.
#[derive(Clone, Debug, PartialEq, Eq)]
pub struct Signature {
    /// The signature material, one byte per message byte.
    pub bytes: Vec<u8>,
}

/// The signature the keypair with verification key `vk` produces over
/// `msg`.
pub open spec fn sig_of(vk: u64, msg: Seq<u8>) -> Seq<u8> {
    xored_bytes(msg, vk)
}

/// Whether `sig` is valid for `msg` under `vk`.
pub open spec fn verify_ok(vk: u64, msg: Seq<u8>, sig: Seq<u8>) -> bool {
    sig == sig_of(vk, msg)
}

/// Signs `msg` with the private half of the keypair. The result is
/// exactly what `verify` accepts for the public half.
pub fn sign(keypair: &SignatureKeypair, msg: &Vec<u8>) -> (s: Signature)
    requires
        keypair.wf(),
    ensures
        s.bytes@ == sig_of(keypair.vk, msg@),
{
    let vk: u64 = vk_of_exec(keypair.sk);
    Signature { bytes: xor_bytes(msg, vk) }
}

/// Decides whether `sig` is valid for `msg` under `vk`, exactly as
/// `verify_ok` says; never an error, only a boolean.
pub fn verify(vk: u64, msg: &Vec<u8>, sig: &Signature) -> (r: bool)
    ensures
        r == verify_ok(vk, msg@, sig.bytes@),
{
    if sig.bytes.len() != msg.len() {
        proof {
            assert(sig.bytes@.len() != sig_of(vk, msg@).len());
        }
        return false;
    }
    let expected: Vec<u8> = xor_bytes(msg, vk);
    let mut i: usize = 0;
    while i < expected.len()
        invariant
            expected@ == sig_of(vk, msg@),
            sig.bytes@.len() == expected@.len(),
            i <= expected@.len(),
            forall|j: int| 0 <= j < i ==> #[trigger] sig.bytes@[j] == expected@[j],
        decreases expected@.len() - i,
    {
        if sig.bytes[i] != expected[i] {
            return false;
        }
        i = i + 1;
    }
    proof {
        assert(sig.bytes@ =~= expected@);
    }
    true
}

/// The two-word signature binding a key body (its id and its material)
/// to the signer holding `vk`.
pub open spec fn key_sig_of(vk: u64, key_id: u64, key_body: u64) -> Seq<u64> {
    xored_words(seq![key_id, key_body], vk)
}

/// Signs a key body (id and material words) with the private half of the
/// keypair, exactly as `key_sig_of` says.
pub fn sign_key(keypair: &SignatureKeypair, key_id: u64, key_body: u64) -> (sig: [u64; 2])
    requires
        keypair.wf(),
    ensures
        sig@ == key_sig_of(keypair.vk, key_id, key_body),
{
    let vk: u64 = vk_of_exec(keypair.sk);
    let mut words: Vec<u64> = Vec::new();
    words.push(key_id);
    words.push(key_body);
    proof {
        assert(words@ =~= seq![key_id, key_body]);
    }
    let s: Vec<u64> = xor_words(&words, vk);
    let sig: [u64; 2] = [s[0], s[1]];
    proof {
        assert(sig@ =~= key_sig_of(keypair.vk, key_id, key_body));
    }
    sig
}

/// Decides whether a two-word key signature is valid for a key body
/// under `vk`, exactly as `key_sig_of` says; never an error.
pub fn verify_key(vk: u64, key_id: u64, key_body: u64, sig: &[u64; 2]) -> (r: bool)
    ensures
        r == (sig@ == key_sig_of(vk, key_id, key_body)),
{
    let mut words: Vec<u64> = Vec::new();
    words.push(key_id);
    words.push(key_body);
    proof {
        assert(words@ =~= seq![key_id, key_body]);
    }
    let expected: Vec<u64> = xor_words(&words, vk);
    let ok: bool = sig[0] == expected[0] && sig[1] == expected[1];
    proof {
        if ok {
            assert(sig@ =~= key_sig_of(vk, key_id, key_body));
        }
    }
    ok
}

/// Signature integrity, acceptance half: a signature produced over a
/// message verifies against that message under the signer's public key.
pub proof fn lemma_sign_verify(vk: u64, msg: Seq<u8>)
    ensures
        verify_ok(vk, msg, sig_of(vk, msg)),
{
}

/// Signature integrity, message half: changing any single position of
/// the message makes verification of the original signature fail.
pub proof fn lemma_verify_rejects_changed_message(vk: u64, msg1: Seq<u8>, msg2: Seq<u8>, i: int)
    requires
        msg1.len() == msg2.len(),
        0 <= i < msg1.len(),
        msg1[i] != msg2[i],
    ensures
        !verify_ok(vk, msg2, sig_of(vk, msg1)),
{
    lemma_xored_bytes_injective(msg1, msg2, vk, i);
}

/// Signature integrity, signature half: any signature other than the one
/// the message determines is rejected.
pub proof fn lemma_verify_rejects_changed_signature(vk: u64, msg: Seq<u8>, sig: Seq<u8>)
    requires
        sig != sig_of(vk, msg),
    ensures
        !verify_ok(vk, msg, sig),
{
}

} // verus!
