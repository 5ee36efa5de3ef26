use sda_core::agents::{Agent, AgentId, AgentsStore, ClerkCandidate, Labeled, Profile, SignedEncryptionKey};
use sda_core::encryption::{decrypt, encrypt, Ciphertext, EncryptionKeypair};
use sda_core::errors::CryptoError;
use sda_core::keystore::{EncryptionKeyId, KeyGeneration, KeyStorage, MemoryKeystore, VerificationKeyId};
use sda_core::masking::{words_to_share, MaskCombiner, SecretMasker, SecretUnmasker};
use sda_core::prng::Prng;
use sda_core::ring::{gcd_exec, mod_inv, ring_add, ring_mul, ring_sub};
use sda_core::scheme::{Scheme, Share, Suitable};
use sda_core::sharing::{SecretReconstructor, ShareCombiner, ShareGenerator};
use sda_core::signing::{sign, sign_key, verify, verify_key, Signature, SignatureKeypair};
use sda_core::CryptoModule;

fn scheme_97() -> Scheme {
    Scheme::new(97, 2, 3).unwrap()
}

fn module() -> CryptoModule<MemoryKeystore> {
    CryptoModule::new(MemoryKeystore::new(), Prng::from_seed(7))
}

#[test]
fn ring_ops_concrete() {
    assert_eq!(ring_add(10, 5, 97), 15);
    assert_eq!(ring_add(90, 20, 97), 13);
    assert_eq!(ring_sub(3, 10, 97), 90);
    assert_eq!(ring_mul(10, 10, 97), 3);
}

#[test]
fn gcd_and_inverse() {
    assert_eq!(gcd_exec(12, 18), 6);
    assert_eq!(gcd_exec(1, 97), 1);
    let inv = mod_inv(3, 97);
    assert_eq!(ring_mul(3, inv, 97), 1);
    let inv2 = mod_inv(96, 97);
    assert_eq!(ring_mul(96, inv2, 97), 1);
}

#[test]
fn scheme_validation() {
    let s = Scheme::new(97, 2, 3).unwrap();
    assert_eq!(s.modulus, 97);
    assert_eq!(s.threshold, 2);
    assert_eq!(s.share_count, 3);
    assert_eq!(Scheme::new(97, 0, 3), Err(CryptoError::InvalidThreshold));
    assert_eq!(Scheme::new(97, 4, 3), Err(CryptoError::InvalidThreshold));
    assert_eq!(Scheme::new(97, 2, 33), Err(CryptoError::InvalidThreshold));
    assert_eq!(Scheme::new(1, 1, 1), Err(CryptoError::SchemeMismatch));
    // an even modulus shares a factor with an even index difference
    assert_eq!(Scheme::new(8, 2, 3), Err(CryptoError::SchemeMismatch));
}

#[test]
fn share_secret_42_at_indices_1_2_3() {
    let scheme = scheme_97();
    let generator = ShareGenerator { scheme };
    // polynomial 42 + 5 x over Z_97: shares 47, 52, 57
    let shares = generator.generate_with_coefficients(42, &vec![5]);
    assert_eq!(shares.len(), 3);
    assert_eq!(shares[0], Share { index: 1, value: 47, modulus: 97 });
    assert_eq!(shares[1], Share { index: 2, value: 52, modulus: 97 });
    assert_eq!(shares[2], Share { index: 3, value: 57, modulus: 97 });
}

#[test]
fn combine_indices_1_and_3_yields_42() {
    let scheme = scheme_97();
    let generator = ShareGenerator { scheme };
    let shares = generator.generate_with_coefficients(42, &vec![5]);
    let combiner = ShareCombiner { scheme };
    let subset = vec![shares[0], shares[2]];
    assert_eq!(combiner.combine(&subset), Ok(42));
    let other_subset = vec![shares[1], shares[2]];
    assert_eq!(combiner.combine(&other_subset), Ok(42));
}

#[test]
fn combine_only_index_2_is_insufficient() {
    let scheme = scheme_97();
    let generator = ShareGenerator { scheme };
    let shares = generator.generate_with_coefficients(42, &vec![5]);
    let combiner = ShareCombiner { scheme };
    let subset = vec![shares[1]];
    assert_eq!(combiner.combine(&subset), Err(CryptoError::InsufficientShares));
}

#[test]
fn random_sharing_round_trips() {
    let scheme = Scheme::new(10007, 3, 5).unwrap();
    let generator = ShareGenerator { scheme };
    let mut prng = Prng::from_seed(99);
    let shares = generator.generate(4242, &mut prng);
    assert_eq!(shares.len(), 5);
    let reconstructor = SecretReconstructor { combiner: ShareCombiner { scheme } };
    let subset = vec![shares[4], shares[1], shares[2]];
    assert_eq!(reconstructor.reconstruct(&subset), Ok(4242));
    let all = shares.clone();
    assert_eq!(reconstructor.reconstruct(&all), Ok(4242));
}

#[test]
fn deep_threshold_round_trip() {
    let scheme = Scheme::new(1_000_003, 8, 10).unwrap();
    let generator = ShareGenerator { scheme };
    let mut prng = Prng::from_seed(2024);
    let secret: i64 = 987_654;
    let shares = generator.generate(secret, &mut prng);
    assert_eq!(shares.len(), 10);
    let combiner = ShareCombiner { scheme };
    let subset = vec![
        shares[9], shares[0], shares[4], shares[7], shares[2], shares[5], shares[1], shares[8],
    ];
    assert_eq!(combiner.combine(&subset), Ok(secret));
    let short = vec![
        shares[9], shares[0], shares[4], shares[7], shares[2], shares[5], shares[1],
    ];
    assert_eq!(combiner.combine(&short), Err(CryptoError::InsufficientShares));
}

#[test]
fn duplicate_share_index_is_rejected() {
    let scheme = scheme_97();
    let generator = ShareGenerator { scheme };
    let shares = generator.generate_with_coefficients(42, &vec![5]);
    let combiner = ShareCombiner { scheme };
    let dup = vec![shares[0], shares[0]];
    assert_eq!(combiner.combine(&dup), Err(CryptoError::DuplicateShareIndex));
}

#[test]
fn scheme_isolation_rejects_foreign_modulus() {
    let scheme_a = Scheme::new(101, 2, 3).unwrap();
    let scheme_b = scheme_97();
    let generator = ShareGenerator { scheme: scheme_a };
    let shares = generator.generate_with_coefficients(42, &vec![5]);
    let combiner = ShareCombiner { scheme: scheme_b };
    assert_eq!(combiner.combine(&shares), Err(CryptoError::SchemeMismatch));
    assert!(!shares[0].suitable_for(&scheme_b));
    assert!(shares[0].suitable_for(&scheme_a));
}

#[test]
fn masking_scenario_two_contributors() {
    // secrets 10 and 20, masks 5 and 8, modulus 97
    let m: i64 = 97;
    let masked1 = ring_add(10, 5, m);
    let masked2 = ring_add(20, 8, m);
    assert_eq!(masked1, 15);
    assert_eq!(masked2, 28);
    let masked_sum = ring_add(masked1, masked2, m);
    assert_eq!(masked_sum, 43);
    let combined_mask = ring_add(5, 8, m);
    assert_eq!(combined_mask, 13);
    let unmasker = SecretUnmasker { scheme: scheme_97() };
    assert_eq!(unmasker.unmask(masked_sum, combined_mask), 30);
}

#[test]
fn full_masking_flow_recovers_secret() {
    let scheme = scheme_97();
    let module = module();
    let kp1 = EncryptionKeypair::from_secret(11);
    let kp2 = EncryptionKeypair::from_secret(22);
    let kp3 = EncryptionKeypair::from_secret(33);
    let committee = vec![kp1.pk, kp2.pk, kp3.pk];
    let masker: SecretMasker = module.new_secret_masker(&scheme, &committee).unwrap();
    let mut prng = Prng::from_seed(1234);
    let secret: i64 = 77;
    let (masked, cts) = masker.mask(secret, &mut prng);
    assert_eq!(cts.len(), 3);
    // each clerk decrypts its fragment
    let mut shares: Vec<Share> = Vec::new();
    for (ct, kp) in cts.iter().zip([kp1, kp2, kp3].iter()) {
        let words = decrypt(kp, ct).unwrap();
        shares.push(words_to_share(&words).unwrap());
    }
    // a quorum of two reconstructs the mask
    let combiner = MaskCombiner { scheme };
    let mask = combiner.combine(&vec![shares[0], shares[2]]).unwrap();
    let unmasker = SecretUnmasker { scheme };
    assert_eq!(unmasker.unmask(masked, mask), secret);
    // a single clerk learns nothing: the combiner refuses
    assert_eq!(
        combiner.combine(&vec![shares[1]]),
        Err(CryptoError::InsufficientShares)
    );
}

#[test]
fn keystore_write_once() {
    let mut ks = MemoryKeystore::new();
    let id = EncryptionKeyId(1);
    let k1 = EncryptionKeypair::from_secret(5);
    let k2 = EncryptionKeypair::from_secret(6);
    assert_eq!(KeyStorage::<EncryptionKeyId, EncryptionKeypair>::put(&mut ks, &id, &k1), Ok(()));
    assert_eq!(
        KeyStorage::<EncryptionKeyId, EncryptionKeypair>::put(&mut ks, &id, &k2),
        Err(CryptoError::DuplicateKey)
    );
    assert_eq!(
        KeyStorage::<EncryptionKeyId, EncryptionKeypair>::get(&ks, &id),
        Ok(Some(k1))
    );
    let absent = EncryptionKeyId(2);
    assert_eq!(
        KeyStorage::<EncryptionKeyId, EncryptionKeypair>::get(&ks, &absent),
        Ok(None)
    );
}

#[test]
fn keystore_stores_both_kinds() {
    let mut ks = MemoryKeystore::new();
    let ek = EncryptionKeypair::from_secret(5);
    let sk = SignatureKeypair::from_secret(9);
    assert_eq!(
        KeyStorage::<EncryptionKeyId, EncryptionKeypair>::put(&mut ks, &EncryptionKeyId(1), &ek),
        Ok(())
    );
    assert_eq!(
        KeyStorage::<VerificationKeyId, SignatureKeypair>::put(&mut ks, &VerificationKeyId(1), &sk),
        Ok(())
    );
    assert_eq!(
        KeyStorage::<VerificationKeyId, SignatureKeypair>::get(&ks, &VerificationKeyId(1)),
        Ok(Some(sk))
    );
}

#[test]
fn key_generation_produces_usable_keys() {
    let mut module = module();
    let ek: EncryptionKeypair = module.new_key().unwrap();
    let pt = vec![1u64, 2, 3];
    let ct = encrypt(ek.pk, &pt);
    assert_eq!(decrypt(&ek, &ct), Ok(pt));
    let sk: SignatureKeypair = module.new_key().unwrap();
    let msg = vec![1u8, 2, 3];
    let s = sign(&sk, &msg);
    assert!(verify(sk.vk, &msg, &s));
}

#[test]
fn signature_round_trip_and_bit_flips() {
    let kp = SignatureKeypair::from_secret(424242);
    let msg: Vec<u8> = b"a serialized key body".to_vec();
    let sig = sign(&kp, &msg);
    assert!(verify(kp.vk, &msg, &sig));
    // flipping any single bit of the message breaks verification
    for byte in 0..msg.len() {
        for bit in 0..8 {
            let mut tampered = msg.clone();
            tampered[byte] ^= 1 << bit;
            assert!(!verify(kp.vk, &tampered, &sig));
        }
    }
    // flipping any single bit of the signature breaks verification
    for byte in 0..sig.bytes.len() {
        for bit in 0..8 {
            let mut tampered = sig.bytes.clone();
            tampered[byte] ^= 1 << bit;
            assert!(!verify(kp.vk, &msg, &Signature { bytes: tampered }));
        }
    }
    // a wrong verification key is rejected too
    let other = SignatureKeypair::from_secret(424243);
    assert!(!verify(other.vk, &msg, &sig));
}

#[test]
fn key_signature_round_trip() {
    let kp = SignatureKeypair::from_secret(8);
    let sig = sign_key(&kp, 4, 1000);
    assert!(verify_key(kp.vk, 4, 1000, &sig));
    assert!(!verify_key(kp.vk, 5, 1000, &sig));
    assert!(!verify_key(kp.vk, 4, 1001, &sig));
    let bad = [sig[0] ^ 1, sig[1]];
    assert!(!verify_key(kp.vk, 4, 1000, &bad));
}

#[test]
fn encryption_rejects_tampering() {
    let kp = EncryptionKeypair::from_secret(31337);
    let pt = vec![10u64, 20, 30];
    let ct = encrypt(kp.pk, &pt);
    assert_eq!(decrypt(&kp, &ct), Ok(pt));
    let mut bad_words = ct.words.clone();
    bad_words[1] ^= 0xFF;
    assert_eq!(
        decrypt(&kp, &Ciphertext { words: bad_words, tag: ct.tag }),
        Err(CryptoError::DecryptionFailed)
    );
    assert_eq!(
        decrypt(&kp, &Ciphertext { words: ct.words.clone(), tag: ct.tag ^ 1 }),
        Err(CryptoError::DecryptionFailed)
    );
    // the wrong keypair fails closed
    let other = EncryptionKeypair::from_secret(31338);
    assert_eq!(decrypt(&other, &ct), Err(CryptoError::DecryptionFailed));
}

#[test]
fn malformed_share_words_are_rejected() {
    assert_eq!(words_to_share(&vec![1, 2]), None);
    assert_eq!(words_to_share(&vec![1, 2, u64::MAX]), None);
    let s = words_to_share(&vec![1, 47, 97]).unwrap();
    assert_eq!(s, Share { index: 1, value: 47, modulus: 97 });
}

#[test]
fn prng_draws_ring_elements() {
    let mut prng = Prng::from_seed(5);
    for _ in 0..100 {
        let v = prng.next_ring(97);
        assert!(0 <= v && v < 97);
    }
}

#[test]
pub fn ping() {
    let store = AgentsStore::new();
    store.ping().unwrap();
}

#[test]
pub fn agent_crud() {
    let mut store = AgentsStore::new();
    let alice = Agent {
        id: AgentId(1),
        verification_key: Labeled { id: VerificationKeyId(10), body: 777 },
    };
    store.create_agent(&alice).unwrap();
    let clone = store.get_agent(&alice.id).unwrap();
    assert_eq!(Some(&alice), clone.as_ref());

    let bob = store.get_agent(&AgentId(2)).unwrap();
    assert!(bob.is_none());

    assert_eq!(store.create_agent(&alice), Err(CryptoError::DuplicateKey));
}

#[test]
pub fn profile_crud() {
    let mut store = AgentsStore::new();
    let alice = Agent {
        id: AgentId(1),
        verification_key: Labeled { id: VerificationKeyId(10), body: 777 },
    };
    store.create_agent(&alice).unwrap();
    let no_profile = store.get_profile(&alice.id).unwrap();
    assert!(no_profile.is_none());

    let alice_profile = Profile { owner: alice.id, name: Some("alice".into()) };
    store.upsert_profile(&alice_profile).unwrap();

    let clone = store.get_profile(&alice.id).unwrap();
    assert_eq!(Some(&alice_profile), clone.as_ref());

    let still_alice_profile = Profile { owner: alice.id, name: Some("still alice".into()) };
    store.upsert_profile(&still_alice_profile).unwrap();

    let clone = store.get_profile(&alice.id).unwrap();
    assert_eq!(Some(&still_alice_profile), clone.as_ref());
}

#[test]
pub fn encryption_key_crud() {
    let mut store = AgentsStore::new();
    let alice = Agent {
        id: AgentId(1),
        verification_key: Labeled { id: VerificationKeyId(10), body: 777 },
    };
    store.create_agent(&alice).unwrap();

    let signer = SignatureKeypair::from_secret(55);
    let alice_key = SignedEncryptionKey {
        body: Labeled { id: EncryptionKeyId(4), body: 1000 },
        signer: alice.id,
        signature: sign_key(&signer, 4, 1000),
    };

    store.create_encryption_key(&alice_key).unwrap();
    let still_alice = store.get_encryption_key(&alice_key.body.id).unwrap();
    assert_eq!(Some(&alice_key), still_alice.as_ref());

    assert_eq!(store.create_encryption_key(&alice_key), Err(CryptoError::DuplicateKey));
}

#[test]
fn committee_suggestion_groups_by_signer() {
    let mut store = AgentsStore::new();
    let signer = SignatureKeypair::from_secret(55);
    let entries = [(40u64, 2u64), (41, 1), (42, 2)];
    for (key_id, agent) in entries.iter() {
        let key = SignedEncryptionKey {
            body: Labeled { id: EncryptionKeyId(*key_id), body: 1000 + key_id },
            signer: AgentId(*agent),
            signature: sign_key(&signer, *key_id, 1000 + key_id),
        };
        store.create_encryption_key(&key).unwrap();
    }
    let cands: Vec<ClerkCandidate> = store.suggest_committee().unwrap();
    assert_eq!(cands.len(), 2);
    assert_eq!(cands[0].id, AgentId(1));
    assert_eq!(cands[0].keys, vec![EncryptionKeyId(41)]);
    assert_eq!(cands[1].id, AgentId(2));
    // exactly that signer's keys, in stored order
    assert_eq!(cands[1].keys, vec![EncryptionKeyId(40), EncryptionKeyId(42)]);
}

#[test]
fn committee_suggestion_is_deterministic() {
    let mut store = AgentsStore::new();
    let signer = SignatureKeypair::from_secret(56);
    let entries = [(60u64, 3u64), (61, 1), (62, 3), (63, 2)];
    for (key_id, agent) in entries.iter() {
        let key = SignedEncryptionKey {
            body: Labeled { id: EncryptionKeyId(*key_id), body: 2000 + key_id },
            signer: AgentId(*agent),
            signature: sign_key(&signer, *key_id, 2000 + key_id),
        };
        store.create_encryption_key(&key).unwrap();
    }
    let first = store.suggest_committee().unwrap();
    let second = store.suggest_committee().unwrap();
    assert_eq!(first, second);
    assert_eq!(first.len(), 3);
    assert_eq!(first[2].id, AgentId(3));
    assert_eq!(first[2].keys, vec![EncryptionKeyId(60), EncryptionKeyId(62)]);
    // every stored key is accounted for, once each
    let total: usize = first.iter().map(|c| c.keys.len()).sum();
    assert_eq!(total, entries.len());
}

#[test]
fn facade_validates_schemes() {
    let module = module();
    let good = scheme_97();
    assert!(module.new_share_generator(&good).is_ok());
    assert!(module.new_share_combiner(&good).is_ok());
    assert!(module.new_secret_reconstructor(&good).is_ok());
    assert!(module.new_mask_combiner(&good).is_ok());
    assert!(module.new_secret_unmasker(&good).is_ok());
    let bad = Scheme { modulus: 97, threshold: 5, share_count: 3 };
    assert_eq!(
        module.new_share_generator(&bad).err(),
        Some(CryptoError::InvalidThreshold)
    );
    // a masker needs one committee key per share
    assert_eq!(
        module.new_secret_masker(&good, &vec![1, 2]).err(),
        Some(CryptoError::SchemeMismatch)
    );
}

#[test]
fn threshold_one_any_single_share_reconstructs() {
    let scheme = Scheme::new(97, 1, 3).unwrap();
    let generator = ShareGenerator { scheme };
    let shares = generator.generate_with_coefficients(42, &vec![]);
    let combiner = ShareCombiner { scheme };
    for share in shares.iter() {
        assert_eq!(share.value, 42);
        assert_eq!(combiner.combine(&vec![*share]), Ok(42));
    }
}
