//! Keystore abstraction: typed, write-once key-value storage for key
//! material.
//!
//! A keystore entry is appended once and never overwritten: a `put` to an
//! id that already holds an entry fails with `DuplicateKey` and leaves the
//! store unchanged. Absence is not an error: `get` returns `None` for an
//! id never written.

use vstd::prelude::*;
use crate::encryption::EncryptionKeypair;
use crate::errors::{CryptoError, CryptoResult};
use crate::signing::SignatureKeypair;

verus! {

/// Identifies a stored encryption keypair.
#[derive(Clone, Copy, Debug, PartialEq, Eq, Hash, Structural)]
pub struct EncryptionKeyId(pub u64);

/// Identifies a stored signature keypair by its verification half.
#[derive(Clone, Copy, Debug, PartialEq, Eq, Hash, Structural)]
pub struct VerificationKeyId(pub u64);

/// The entry stored under `id` in an append-only association list: the
/// first entry with a matching id, or `None` if no entry matches.
pub open spec fn find<ID, K>(s: Seq<(ID, K)>, id: ID) -> Option<K>
    decreases s.len(),
{
    if s.len() == 0 {
        None
    } else if s.first().0 == id {
        Some(s.first().1)
    } else {
        find(s.drop_first(), id)
    }
}

/// Appending an entry leaves every present id's entry unchanged and
/// makes the appended entry visible exactly for its own, previously
/// absent, id.
pub proof fn lemma_find_push<ID, K>(s: Seq<(ID, K)>, e: (ID, K), id: ID)
    ensures
        find(s.push(e), id) == if find(s, id) is Some {
            find(s, id)
        } else if e.0 == id {
            Some(e.1)
        } else {
            None
        },
    decreases s.len(),
{
    if s.len() == 0 {
        assert(s.push(e).first() == e);
        assert(s.push(e).drop_first() =~= Seq::<(ID, K)>::empty());
        if e.0 == id {
            assert(find(s.push(e), id) == Some(e.1));
        } else {
            assert(find(s.push(e), id) == find(s.push(e).drop_first(), id));
        }
    } else {
        assert(s.push(e).first() == s.first());
        assert(s.push(e).drop_first() =~= s.drop_first().push(e));
        lemma_find_push(s.drop_first(), e, id);
    }
}

/// Generation of fresh key material of one kind.
pub trait KeyGeneration<K>: Sized {
    /// What a key generated by this source guarantees.
    spec fn key_wf(&self, k: &K) -> bool;

    /// Generates fresh key material. A pure-core generator never fails;
    /// a backend reading an entropy source may fail with
    /// `RandomnessUnavailable`.
    fn new_key(&mut self) -> (r: CryptoResult<K>)
        ensures
            r is Ok ==> final(self).key_wf(&r.unwrap()),
    ;
}

/// Typed access to keys held in a keystore, write-once per id.
pub trait KeyStorage<ID, K>: Sized {
    /// The entries the store holds, in insertion order.
    spec fn stored(&self) -> Seq<(ID, K)>;

    /// Stores `key` under `id`. Fails with `DuplicateKey`, changing
    /// nothing, if `id` already holds an entry; otherwise appends.
    fn put(&mut self, id: &ID, key: &K) -> (r: CryptoResult<()>)
        ensures
            find(old(self).stored(), *id) is Some ==> r == Err::<(), CryptoError>(
                CryptoError::DuplicateKey,
            ) && final(self).stored() == old(self).stored(),
            find(old(self).stored(), *id) is None ==> r == Ok::<(), CryptoError>(())
                && final(self).stored() == old(self).stored().push((*id, *key)),
    ;

    /// Returns the key stored under `id`, or `None` if absent; absence
    /// is not an error.
    fn get(&self, id: &ID) -> (r: CryptoResult<Option<K>>)
        ensures
            r == Ok::<Option<K>, CryptoError>(find(self.stored(), *id)),
    ;
}

/// Requirements for any keystore used by the client: it must store both
/// encryption keypairs and signature keypairs, resolvable without
/// knowing which concrete storage backs it.
pub trait Keystore: KeyStorage<EncryptionKeyId, EncryptionKeypair> + KeyStorage<
    VerificationKeyId,
    SignatureKeypair,
> {

}

/// An in-memory keystore: two append-only association lists.
pub struct MemoryKeystore {
    /// Stored encryption keypairs, in insertion order.
    pub enc: Vec<(EncryptionKeyId, EncryptionKeypair)>,
    /// Stored signature keypairs, in insertion order.
    pub sig: Vec<(VerificationKeyId, SignatureKeypair)>,
}

impl MemoryKeystore {
    /// An empty keystore: nothing stored under any id.
    pub fn new() -> (r: MemoryKeystore)
        ensures
            KeyStorage::<EncryptionKeyId, EncryptionKeypair>::stored(&r) == Seq::<
                (EncryptionKeyId, EncryptionKeypair),
            >::empty(),
            KeyStorage::<VerificationKeyId, SignatureKeypair>::stored(&r) == Seq::<
                (VerificationKeyId, SignatureKeypair),
            >::empty(),
    {
        let r = MemoryKeystore { enc: Vec::new(), sig: Vec::new() };
        proof {
            assert(r.enc@ =~= Seq::<(EncryptionKeyId, EncryptionKeypair)>::empty());
            assert(r.sig@ =~= Seq::<(VerificationKeyId, SignatureKeypair)>::empty());
        }
        r
    }
}

impl KeyStorage<EncryptionKeyId, EncryptionKeypair> for MemoryKeystore {
    open spec fn stored(&self) -> Seq<(EncryptionKeyId, EncryptionKeypair)> {
        self.enc@
    }

    fn put(&mut self, id: &EncryptionKeyId, key: &EncryptionKeypair) -> (r: CryptoResult<()>) {
        let mut i: usize = 0;
        proof {
            assert(self.enc@.skip(0) =~= self.enc@);
        }
        while i < self.enc.len()
            invariant
                i <= self.enc@.len(),
                self.enc@ == old(self).enc@,
                self.sig@ == old(self).sig@,
                find(self.enc@, *id) == find(self.enc@.skip(i as int), *id),
            decreases self.enc@.len() - i,
        {
            proof {
                assert(self.enc@.skip(i as int).first() == self.enc@[i as int]);
                assert(self.enc@.skip(i as int).drop_first() =~= self.enc@.skip(i as int + 1));
            }
            if self.enc[i].0.0 == id.0 {
                return Err(CryptoError::DuplicateKey);
            }
            i = i + 1;
        }
        proof {
            assert(self.enc@.skip(self.enc@.len() as int) =~= Seq::<
                (EncryptionKeyId, EncryptionKeypair),
            >::empty());
        }
        self.enc.push((*id, *key));
        Ok(())
    }

    fn get(&self, id: &EncryptionKeyId) -> (r: CryptoResult<Option<EncryptionKeypair>>) {
        let mut i: usize = 0;
        proof {
            assert(self.enc@.skip(0) =~= self.enc@);
        }
        while i < self.enc.len()
            invariant
                i <= self.enc@.len(),
                find(self.enc@, *id) == find(self.enc@.skip(i as int), *id),
            decreases self.enc@.len() - i,
        {
            proof {
                assert(self.enc@.skip(i as int).first() == self.enc@[i as int]);
                assert(self.enc@.skip(i as int).drop_first() =~= self.enc@.skip(i as int + 1));
            }
            if self.enc[i].0.0 == id.0 {
                return Ok(Some(self.enc[i].1));
            }
            i = i + 1;
        }
        proof {
            assert(self.enc@.skip(self.enc@.len() as int) =~= Seq::<
                (EncryptionKeyId, EncryptionKeypair),
            >::empty());
        }
        Ok(None)
    }
}

impl KeyStorage<VerificationKeyId, SignatureKeypair> for MemoryKeystore {
    open spec fn stored(&self) -> Seq<(VerificationKeyId, SignatureKeypair)> {
        self.sig@
    }

    fn put(&mut self, id: &VerificationKeyId, key: &SignatureKeypair) -> (r: CryptoResult<()>) {
        let mut i: usize = 0;
        proof {
            assert(self.sig@.skip(0) =~= self.sig@);
        }
        while i < self.sig.len()
            invariant
                i <= self.sig@.len(),
                self.enc@ == old(self).enc@,
                self.sig@ == old(self).sig@,
                find(self.sig@, *id) == find(self.sig@.skip(i as int), *id),
            decreases self.sig@.len() - i,
        {
            proof {
                assert(self.sig@.skip(i as int).first() == self.sig@[i as int]);
                assert(self.sig@.skip(i as int).drop_first() =~= self.sig@.skip(i as int + 1));
            }
            if self.sig[i].0.0 == id.0 {
                return Err(CryptoError::DuplicateKey);
            }
            i = i + 1;
        }
        proof {
            assert(self.sig@.skip(self.sig@.len() as int) =~= Seq::<
                (VerificationKeyId, SignatureKeypair),
            >::empty());
        }
        self.sig.push((*id, *key));
        Ok(())
    }

    fn get(&self, id: &VerificationKeyId) -> (r: CryptoResult<Option<SignatureKeypair>>) {
        let mut i: usize = 0;
        proof {
            assert(self.sig@.skip(0) =~= self.sig@);
        }
        while i < self.sig.len()
            invariant
                i <= self.sig@.len(),
                find(self.sig@, *id) == find(self.sig@.skip(i as int), *id),
            decreases self.sig@.len() - i,
        {
            proof {
                assert(self.sig@.skip(i as int).first() == self.sig@[i as int]);
                assert(self.sig@.skip(i as int).drop_first() =~= self.sig@.skip(i as int + 1));
            }
            if self.sig[i].0.0 == id.0 {
                return Ok(Some(self.sig[i].1));
            }
            i = i + 1;
        }
        proof {
            assert(self.sig@.skip(self.sig@.len() as int) =~= Seq::<
                (VerificationKeyId, SignatureKeypair),
            >::empty());
        }
        Ok(None)
    }
}

impl Keystore for MemoryKeystore {

}

/// Keystore write-once: once an id holds an entry, a later `put` to the
/// same id fails and a `get` still returns the first entry. Together
/// with `put`'s contract: after `put(id, k1)` on a store where `id` was
/// absent, `put(id, k2)` fails with `DuplicateKey` and `get(id)` still
/// returns `k1`.
pub proof fn lemma_keystore_write_once<ID, K>(s: Seq<(ID, K)>, id: ID, k1: K)
    requires
        find(s, id) is None,
    ensures
        find(s.push((id, k1)), id) == Some(k1),
{
    lemma_find_push(s, (id, k1), id);
}

} // verus!
