//! Agents store: agents, profiles and signed encryption keys, plus
//! committee-candidate discovery.
//!
//! Agents and signed encryption keys are created once and never
//! overwritten; profiles are upserted, last write winning. Committee
//! candidates are the stored encryption keys grouped by signer, in
//! ascending signer order.

use vstd::prelude::*;
use itertools::Itertools;
use crate::errors::{CryptoError, CryptoResult};
use crate::keystore::{find, EncryptionKeyId, VerificationKeyId};

verus! {

/// Identifies an agent.
#[derive(Clone, Copy, Debug, PartialEq, Eq, Hash, Structural)]
pub struct AgentId(pub u64);

/// A body tagged with the identifier it is stored under.
#[derive(Clone, Copy, Debug, PartialEq, Eq, Hash, Structural)]
pub struct Labeled<I, B> {
    /// The identifier.
    pub id: I,
    /// The identified body.
    pub body: B,
}

/// An identified participant with a registered verification key.
#[derive(Clone, Copy, Debug, PartialEq, Eq, Hash, Structural)]
pub struct Agent {
    /// The agent's identifier.
    pub id: AgentId,
    /// The agent's labeled verification key.
    pub verification_key: Labeled<VerificationKeyId, u64>,
}

/// An agent's profile; replaceable by its owner.
#[derive(Clone, Debug, PartialEq, Eq)]
pub struct Profile {
    /// The agent the profile belongs to.
    pub owner: AgentId,
    /// An optional display name.
    pub name: Option<String>,
}

impl Profile {
    /// Copies the profile, field for field.
    pub fn duplicate(&self) -> (r: Profile)
        ensures
            r == *self,
    {
        let name: Option<String> = match &self.name {
            Some(n) => Some(n.clone()),
            None => None,
        };
        Profile { owner: self.owner, name }
    }
}

/// An encryption key bound to its owning agent: the labeled key body,
/// the signer, and the signer's two-word signature over the body.
#[derive(Clone, Copy, Debug, PartialEq, Eq)]
pub struct SignedEncryptionKey {
    /// The labeled public encryption key.
    pub body: Labeled<EncryptionKeyId, u64>,
    /// The agent whose signature binds the key.
    pub signer: AgentId,
    /// The signature over the key body.
    pub signature: [u64; 2],
}

/// One committee candidate: an agent and the encryption keys it signed.
#[derive(Clone, Debug, PartialEq, Eq)]
pub struct ClerkCandidate {
    /// The candidate agent.
    pub id: AgentId,
    /// The encryption keys that agent signed, as stored.
    pub keys: Vec<EncryptionKeyId>,
}

/// The profile a last-write-wins store holds for `owner`: the last entry
/// with a matching owner, or `None`.
pub open spec fn find_last(s: Seq<(u64, Profile)>, owner: u64) -> Option<Profile>
    decreases s.len(),
{
    if s.len() == 0 {
        None
    } else if s.last().0 == owner {
        Some(s.last().1)
    } else {
        find_last(s.drop_last(), owner)
    }
}

/// An in-memory agents store: append-only agents and encryption keys,
/// last-write-wins profiles.
pub struct AgentsStore {
    /// Registered agents, keyed by agent id, in insertion order.
    pub agents: Vec<(u64, Agent)>,
    /// Profile writes, keyed by owner id, in write order.
    pub profiles: Vec<(u64, Profile)>,
    /// Registered signed encryption keys, keyed by key id, in insertion
    /// order.
    pub encryption_keys: Vec<(u64, SignedEncryptionKey)>,
}

impl AgentsStore {
    /// An empty store.
    pub fn new() -> (r: AgentsStore)
        ensures
            r.agents@ == Seq::<(u64, Agent)>::empty(),
            r.profiles@ == Seq::<(u64, Profile)>::empty(),
            r.encryption_keys@ == Seq::<(u64, SignedEncryptionKey)>::empty(),
    {
        let r = AgentsStore { agents: Vec::new(), profiles: Vec::new(), encryption_keys: Vec::new() };
        proof {
            assert(r.agents@ =~= Seq::<(u64, Agent)>::empty());
            assert(r.profiles@ =~= Seq::<(u64, Profile)>::empty());
            assert(r.encryption_keys@ =~= Seq::<(u64, SignedEncryptionKey)>::empty());
        }
        r
    }

    /// The store is reachable; an in-memory store always is.
    pub fn ping(&self) -> (r: CryptoResult<()>)
        ensures
            r == Ok::<(), CryptoError>(()),
    {
        Ok(())
    }

    /// Registers an agent, write-once by agent id.
    pub fn create_agent(&mut self, agent: &Agent) -> (r: CryptoResult<()>)
        ensures
            find(old(self).agents@, agent.id.0) is Some ==> r == Err::<(), CryptoError>(
                CryptoError::DuplicateKey,
            ) && final(self).agents@ == old(self).agents@,
            find(old(self).agents@, agent.id.0) is None ==> r == Ok::<(), CryptoError>(())
                && final(self).agents@ == old(self).agents@.push((agent.id.0, *agent)),
            final(self).profiles@ == old(self).profiles@,
            final(self).encryption_keys@ == old(self).encryption_keys@,
    {
        let mut i: usize = 0;
        proof {
            assert(self.agents@.skip(0) =~= self.agents@);
        }
        while i < self.agents.len()
            invariant
                i <= self.agents@.len(),
                self.agents@ == old(self).agents@,
                self.profiles@ == old(self).profiles@,
                self.encryption_keys@ == old(self).encryption_keys@,
                find(self.agents@, agent.id.0) == find(self.agents@.skip(i as int), agent.id.0),
            decreases self.agents@.len() - i,
        {
            proof {
                assert(self.agents@.skip(i as int).first() == self.agents@[i as int]);
                assert(self.agents@.skip(i as int).drop_first() =~= self.agents@.skip(i as int + 1));
            }
            if self.agents[i].0 == agent.id.0 {
                return Err(CryptoError::DuplicateKey);
            }
            i = i + 1;
        }
        proof {
            assert(self.agents@.skip(self.agents@.len() as int) =~= Seq::<(u64, Agent)>::empty());
        }
        self.agents.push((agent.id.0, *agent));
        Ok(())
    }

    /// Returns the registered agent with the given id, or `None`.
    pub fn get_agent(&self, id: &AgentId) -> (r: CryptoResult<Option<Agent>>)
        ensures
            r == Ok::<Option<Agent>, CryptoError>(find(self.agents@, id.0)),
    {
        let mut i: usize = 0;
        proof {
            assert(self.agents@.skip(0) =~= self.agents@);
        }
        while i < self.agents.len()
            invariant
                i <= self.agents@.len(),
                find(self.agents@, id.0) == find(self.agents@.skip(i as int), id.0),
            decreases self.agents@.len() - i,
        {
            proof {
                assert(self.agents@.skip(i as int).first() == self.agents@[i as int]);
                assert(self.agents@.skip(i as int).drop_first() =~= self.agents@.skip(i as int + 1));
            }
            if self.agents[i].0 == id.0 {
                return Ok(Some(self.agents[i].1));
            }
            i = i + 1;
        }
        proof {
            assert(self.agents@.skip(self.agents@.len() as int) =~= Seq::<(u64, Agent)>::empty());
        }
        Ok(None)
    }

    /// Writes a profile for its owner; a later write replaces an earlier
    /// one.
    pub fn upsert_profile(&mut self, profile: &Profile) -> (r: CryptoResult<()>)
        ensures
            r == Ok::<(), CryptoError>(()),
            final(self).profiles@ == old(self).profiles@.push((profile.owner.0, *profile)),
            find_last(final(self).profiles@, profile.owner.0) == Some(*profile),
            final(self).agents@ == old(self).agents@,
            final(self).encryption_keys@ == old(self).encryption_keys@,
    {
        let copy: Profile = profile.duplicate();
        self.profiles.push((profile.owner.0, copy));
        proof {
            let s = self.profiles@;
            assert(s.last() == (profile.owner.0, *profile));
        }
        Ok(())
    }

    /// Returns the profile last written for `owner`, or `None`.
    pub fn get_profile(&self, owner: &AgentId) -> (r: CryptoResult<Option<Profile>>)
        ensures
            r == Ok::<Option<Profile>, CryptoError>(find_last(self.profiles@, owner.0)),
    {
        let mut i: usize = self.profiles.len();
        proof {
            assert(self.profiles@.take(self.profiles@.len() as int) =~= self.profiles@);
        }
        while i > 0
            invariant
                i <= self.profiles@.len(),
                find_last(self.profiles@, owner.0) == find_last(
                    self.profiles@.take(i as int),
                    owner.0,
                ),
            decreases i,
        {
            i = i - 1;
            proof {
                assert(self.profiles@.take(i as int + 1).last() == self.profiles@[i as int]);
                assert(self.profiles@.take(i as int + 1).drop_last() =~= self.profiles@.take(
                    i as int,
                ));
            }
            if self.profiles[i].0 == owner.0 {
                let p: Profile = self.profiles[i].1.duplicate();
                return Ok(Some(p));
            }
        }
        proof {
            assert(self.profiles@.take(0) =~= Seq::<(u64, Profile)>::empty());
        }
        Ok(None)
    }

    /// Registers a signed encryption key, write-once by key id.
    pub fn create_encryption_key(&mut self, key: &SignedEncryptionKey) -> (r: CryptoResult<()>)
        ensures
            find(old(self).encryption_keys@, key.body.id.0) is Some ==> r == Err::<
                (),
                CryptoError,
            >(CryptoError::DuplicateKey) && final(self).encryption_keys@ == old(
                self,
            ).encryption_keys@,
            find(old(self).encryption_keys@, key.body.id.0) is None ==> r == Ok::<
                (),
                CryptoError,
            >(()) && final(self).encryption_keys@ == old(self).encryption_keys@.push(
                (key.body.id.0, *key),
            ),
            final(self).agents@ == old(self).agents@,
            final(self).profiles@ == old(self).profiles@,
    {
        let mut i: usize = 0;
        proof {
            assert(self.encryption_keys@.skip(0) =~= self.encryption_keys@);
        }
        while i < self.encryption_keys.len()
            invariant
                i <= self.encryption_keys@.len(),
                self.agents@ == old(self).agents@,
                self.profiles@ == old(self).profiles@,
                self.encryption_keys@ == old(self).encryption_keys@,
                find(self.encryption_keys@, key.body.id.0) == find(
                    self.encryption_keys@.skip(i as int),
                    key.body.id.0,
                ),
            decreases self.encryption_keys@.len() - i,
        {
            proof {
                assert(self.encryption_keys@.skip(i as int).first() == self.encryption_keys@[i as int]);
                assert(self.encryption_keys@.skip(i as int).drop_first() =~= self.encryption_keys@.skip(
                    i as int + 1,
                ));
            }
            if self.encryption_keys[i].0 == key.body.id.0 {
                return Err(CryptoError::DuplicateKey);
            }
            i = i + 1;
        }
        proof {
            assert(self.encryption_keys@.skip(self.encryption_keys@.len() as int) =~= Seq::<
                (u64, SignedEncryptionKey),
            >::empty());
        }
        self.encryption_keys.push((key.body.id.0, *key));
        Ok(())
    }

    /// Returns the signed encryption key with the given key id, or
    /// `None`.
    pub fn get_encryption_key(&self, id: &EncryptionKeyId) -> (r: CryptoResult<
        Option<SignedEncryptionKey>,
    >)
        ensures
            r == Ok::<Option<SignedEncryptionKey>, CryptoError>(find(self.encryption_keys@, id.0)),
    {
        let mut i: usize = 0;
        proof {
            assert(self.encryption_keys@.skip(0) =~= self.encryption_keys@);
        }
        while i < self.encryption_keys.len()
            invariant
                i <= self.encryption_keys@.len(),
                find(self.encryption_keys@, id.0) == find(
                    self.encryption_keys@.skip(i as int),
                    id.0,
                ),
            decreases self.encryption_keys@.len() - i,
        {
            proof {
                assert(self.encryption_keys@.skip(i as int).first() == self.encryption_keys@[i as int]);
                assert(self.encryption_keys@.skip(i as int).drop_first() =~= self.encryption_keys@.skip(
                    i as int + 1,
                ));
            }
            if self.encryption_keys[i].0 == id.0 {
                return Ok(Some(self.encryption_keys[i].1));
            }
            i = i + 1;
        }
        proof {
            assert(self.encryption_keys@.skip(self.encryption_keys@.len() as int) =~= Seq::<
                (u64, SignedEncryptionKey),
            >::empty());
        }
        Ok(None)
    }

    /// Suggests committee candidates: the stored signed encryption keys
    /// grouped by signer. Candidates come in strictly ascending signer
    /// order, each with at least one key; every candidate key is one the
    /// candidate signed in the store, and every stored key appears under
    /// its signer.
    pub fn suggest_committee(&self) -> (r: CryptoResult<Vec<ClerkCandidate>>)
        ensures
            r is Ok,
            ({
                let cands = r.unwrap()@;
                let stored_keys = self.encryption_keys@.map_values(
                    |e: (u64, SignedEncryptionKey)| e.1,
                );
                &&& (forall|k: int, l: int|
                    0 <= k < l < cands.len() ==> #[trigger] cands[k].id.0
                        < #[trigger] cands[l].id.0)
                &&& (forall|k: int| 0 <= k < cands.len() ==> #[trigger] cands[k].keys@.len() >= 1)
                &&& keys_traced(cands, stored_keys)
                &&& signers_covered(stored_keys, cands)
                &&& (forall|k: int|
                    0 <= k < cands.len() ==> (#[trigger] cands[k]).keys@ == ids_of(
                        signer_run(stored_keys, cands[k].id),
                    ))
            }),
    {
        let mut keys: Vec<SignedEncryptionKey> = Vec::new();
        let mut i: usize = 0;
        while i < self.encryption_keys.len()
            invariant
                i <= self.encryption_keys@.len(),
                keys@.len() == i,
                forall|j: int| 0 <= j < i ==> #[trigger] keys@[j] == self.encryption_keys@[j].1,
            decreases self.encryption_keys@.len() - i,
        {
            keys.push(self.encryption_keys[i].1);
            i = i + 1;
        }
        let ghost keys_view = keys@;
        let sorted: Vec<SignedEncryptionKey> = sorted_by_signer(keys);
        let ghost s = sorted@;
        let ghost stored = self.encryption_keys@;
        proof {
            assert forall|j: int| 0 <= j < s.len() implies exists|idx: int|
                0 <= idx < stored.len() && (#[trigger] stored[idx]).1 == (#[trigger] s[j]) by {
                assert(s.contains(s[j]));
                assert(keys_view.contains(s[j]));
                let ii = choose|ii: int| 0 <= ii < keys_view.len() && keys_view[ii] == s[j];
                assert(stored[ii].1 == s[j]);
            }
            assert forall|idx: int| 0 <= idx < stored.len() implies exists|j: int|
                0 <= j < s.len() && (#[trigger] s[j]) == (#[trigger] stored[idx]).1 by {
                let x = stored[idx].1;
                assert(x == keys_view[idx]);
                assert(keys_view.contains(x));
                assert(s.contains(x));
                let j = choose|j: int| 0 <= j < s.len() && s[j] == x;
            }
        }
        let cands: Vec<ClerkCandidate> = group_sorted(&sorted);
        proof {
            let cands_final = cands@;
            let stored_keys = stored.map_values(|e: (u64, SignedEncryptionKey)| e.1);
            assert(stored_keys.len() == stored.len());
            assert forall|k: int, j: int|
                0 <= k < cands_final.len() && 0 <= j < cands_final[k].keys@.len() implies committee_key_from(
                stored_keys,
                cands_final[k].id,
                cands_final[k].keys@[j],
            ) by {
                assert(committee_key_from(s, cands_final[k].id, cands_final[k].keys@[j]));
                let jj = choose|jj: int|
                    0 <= jj < s.len() && (#[trigger] s[jj]).signer == cands_final[k].id
                        && s[jj].body.id == cands_final[k].keys@[j];
                let idx = choose|idx: int|
                    0 <= idx < stored.len() && (#[trigger] stored[idx]).1 == s[jj];
                assert(stored_keys[idx] == stored[idx].1);
                assert(stored_keys[idx].signer == cands_final[k].id && stored_keys[idx].body.id
                    == cands_final[k].keys@[j]);
            }
            assert(keys_traced(cands_final, stored_keys));
            assert forall|idx: int| 0 <= idx < stored_keys.len() implies has_candidate(
                cands_final,
                (#[trigger] stored_keys[idx]).signer,
            ) by {
                assert(stored_keys[idx] == stored[idx].1);
                let jj = choose|jj: int| 0 <= jj < s.len() && (#[trigger] s[jj]) == stored[idx].1;
                assert(has_candidate(cands_final, s[jj].signer));
            }
            assert(signers_covered(stored_keys, cands_final));
            assert(keys_view =~= stored_keys);
            assert forall|k: int| 0 <= k < cands_final.len() implies (#[trigger] cands_final[k]).keys@
                == ids_of(signer_run(stored_keys, cands_final[k].id)) by {
                assert(cands_final[k].keys@ == ids_of(signer_run(s, cands_final[k].id)));
                assert(signer_run(s, cands_final[k].id) == signer_run(keys_view, cands_final[k].id));
            }
        }
        Ok(cands)
    }
}

/// The subsequence of `s` whose keys are signed by `id`, in order.
pub open spec fn signer_run(s: Seq<SignedEncryptionKey>, id: AgentId) -> Seq<SignedEncryptionKey> {
    s.filter(|x: SignedEncryptionKey| x.signer == id)
}

/// The body ids of a run of signed keys, in order.
pub open spec fn ids_of(s: Seq<SignedEncryptionKey>) -> Seq<EncryptionKeyId> {
    s.map_values(|x: SignedEncryptionKey| x.body.id)
}

/// Extending a run by one key extends its filtered subsequence exactly
/// when the key's signer matches.
proof fn lemma_signer_run_push(s: Seq<SignedEncryptionKey>, x: SignedEncryptionKey, id: AgentId)
    ensures
        signer_run(s.push(x), id) == if x.signer == id {
            signer_run(s, id).push(x)
        } else {
            signer_run(s, id)
        },
{
    reveal_with_fuel(Seq::<SignedEncryptionKey>::filter, 2);
    assert(s.push(x).drop_last() =~= s);
    assert(s.push(x).last() == x);
}

/// A run's filtered subsequence is unchanged by a tail in which no key
/// has the filtered signer.
proof fn lemma_signer_run_stops(s: Seq<SignedEncryptionKey>, p: int, id: AgentId)
    requires
        0 <= p <= s.len(),
        forall|j: int| p <= j < s.len() ==> (#[trigger] s[j]).signer != id,
    ensures
        signer_run(s, id) == signer_run(s.take(p), id),
    decreases s.len() - p,
{
    if p == s.len() {
        assert(s.take(p) =~= s);
    } else {
        lemma_signer_run_stops(s, p + 1, id);
        assert(s.take(p + 1) =~= s.take(p).push(s[p]));
        lemma_signer_run_push(s.take(p), s[p], id);
    }
}

/// Mapping body ids distributes over extending a run by one key.
proof fn lemma_ids_of_push(s: Seq<SignedEncryptionKey>, x: SignedEncryptionKey)
    ensures
        ids_of(s.push(x)) == ids_of(s).push(x.body.id),
{
    assert(ids_of(s.push(x)) =~= ids_of(s).push(x.body.id));
}

/// How many entries of `ids` are the agent `a`.
pub open spec fn count_id(ids: Seq<AgentId>, a: AgentId) -> int
    decreases ids.len(),
{
    if ids.len() == 0 {
        0
    } else {
        count_id(ids.drop_last(), a) + if ids.last() == a {
            1int
        } else {
            0int
        }
    }
}

/// The total length of the signer runs of `ks` at each of `ids`.
pub open spec fn sum_runs(ids: Seq<AgentId>, ks: Seq<SignedEncryptionKey>) -> int
    decreases ids.len(),
{
    if ids.len() == 0 {
        0
    } else {
        sum_runs(ids.drop_last(), ks) + signer_run(ks, ids.last()).len()
    }
}

/// The candidates' ids, in order.
pub open spec fn cand_ids(cands: Seq<ClerkCandidate>) -> Seq<AgentId> {
    cands.map_values(|c: ClerkCandidate| c.id)
}

/// The total number of keys the candidates list.
pub open spec fn total_keys(cands: Seq<ClerkCandidate>) -> int
    decreases cands.len(),
{
    if cands.len() == 0 {
        0
    } else {
        total_keys(cands.drop_last()) + cands.last().keys@.len()
    }
}

/// Runs over an empty store are empty, so they total zero.
proof fn lemma_sum_runs_empty(ids: Seq<AgentId>)
    ensures
        sum_runs(ids, Seq::<SignedEncryptionKey>::empty()) == 0,
    decreases ids.len(),
{
    if ids.len() > 0 {
        lemma_sum_runs_empty(ids.drop_last());
        assert(signer_run(Seq::<SignedEncryptionKey>::empty(), ids.last())
            == Seq::<SignedEncryptionKey>::empty());
    }
}

/// Adding one key to the store grows the run totals by the number of
/// listed ids equal to its signer.
proof fn lemma_sum_runs_push(ids: Seq<AgentId>, kp: Seq<SignedEncryptionKey>, x: SignedEncryptionKey)
    ensures
        sum_runs(ids, kp.push(x)) == sum_runs(ids, kp) + count_id(ids, x.signer),
    decreases ids.len(),
{
    if ids.len() > 0 {
        lemma_sum_runs_push(ids.drop_last(), kp, x);
        lemma_signer_run_push(kp, x, ids.last());
    }
}

/// In a duplicate-free id list, an id it holds counts once and an id it
/// does not hold counts zero.
proof fn lemma_count_distinct(ids: Seq<AgentId>, a: AgentId)
    requires
        forall|i: int, j: int| 0 <= i < j < ids.len() ==> ids[i] != ids[j],
    ensures
        ids.contains(a) ==> count_id(ids, a) == 1,
        !ids.contains(a) ==> count_id(ids, a) == 0,
    decreases ids.len(),
{
    if ids.len() > 0 {
        let rest = ids.drop_last();
        lemma_count_distinct(rest, a);
        if ids.last() == a {
            assert(!rest.contains(a)) by {
                if rest.contains(a) {
                    let i = choose|i: int| 0 <= i < rest.len() && rest[i] == a;
                    assert(ids[i] == a);
                    assert(ids[i] != ids[ids.len() - 1]);
                }
            }
        } else {
            if ids.contains(a) {
                let i = choose|i: int| 0 <= i < ids.len() && ids[i] == a;
                assert(i < ids.len() - 1);
                assert(rest[i] == a);
                assert(rest.contains(a));
            }
            if rest.contains(a) {
                let i = choose|i: int| 0 <= i < rest.len() && rest[i] == a;
                assert(ids[i] == a);
                assert(ids.contains(a));
            }
        }
    }
}

/// A duplicate-free id list that covers every signer of the store has
/// runs totalling exactly the store's size.
proof fn lemma_runs_partition(ids: Seq<AgentId>, ks: Seq<SignedEncryptionKey>)
    requires
        forall|i: int, j: int| 0 <= i < j < ids.len() ==> ids[i] != ids[j],
        forall|jj: int| 0 <= jj < ks.len() ==> ids.contains((#[trigger] ks[jj]).signer),
    ensures
        sum_runs(ids, ks) == ks.len(),
    decreases ks.len(),
{
    if ks.len() == 0 {
        assert(ks =~= Seq::<SignedEncryptionKey>::empty());
        lemma_sum_runs_empty(ids);
    } else {
        let kp = ks.drop_last();
        let x = ks.last();
        assert forall|jj: int| 0 <= jj < kp.len() implies ids.contains(
            (#[trigger] kp[jj]).signer,
        ) by {
            assert(kp[jj] == ks[jj]);
        }
        lemma_runs_partition(ids, kp);
        assert(kp.push(x) =~= ks);
        lemma_sum_runs_push(ids, kp, x);
        assert(ids.contains(x.signer));
        lemma_count_distinct(ids, x.signer);
    }
}

/// Candidates whose key lists are exactly their signer runs total as
/// many keys as the runs do.
proof fn lemma_total_keys_is_sum_runs(cands: Seq<ClerkCandidate>, ks: Seq<SignedEncryptionKey>)
    requires
        forall|k: int|
            0 <= k < cands.len() ==> (#[trigger] cands[k]).keys@ == ids_of(
                signer_run(ks, cands[k].id),
            ),
    ensures
        total_keys(cands) == sum_runs(cand_ids(cands), ks),
    decreases cands.len(),
{
    if cands.len() > 0 {
        let rest = cands.drop_last();
        assert forall|k: int| 0 <= k < rest.len() implies (#[trigger] rest[k]).keys@ == ids_of(
            signer_run(ks, rest[k].id),
        ) by {
            assert(rest[k] == cands[k]);
        }
        lemma_total_keys_is_sum_runs(rest, ks);
        assert(cand_ids(cands).drop_last() =~= cand_ids(rest));
        assert(cand_ids(cands).last() == cands.last().id);
        assert(cands.last().keys@.len() == signer_run(ks, cands.last().id).len());
    }
}

/// Every stored key is accounted for: a committee whose candidates carry
/// exactly their signers' stored keys, with pairwise distinct candidate
/// ids and every stored signer covered, lists exactly as many keys as
/// the store holds.
pub proof fn lemma_committee_accounts_for_every_key(
    cands: Seq<ClerkCandidate>,
    ks: Seq<SignedEncryptionKey>,
)
    requires
        forall|k: int, l: int| 0 <= k < l < cands.len() ==> cands[k].id != cands[l].id,
        forall|k: int|
            0 <= k < cands.len() ==> (#[trigger] cands[k]).keys@ == ids_of(
                signer_run(ks, cands[k].id),
            ),
        signers_covered(ks, cands),
    ensures
        total_keys(cands) == ks.len(),
{
    let ids = cand_ids(cands);
    assert forall|i: int, j: int| 0 <= i < j < ids.len() implies ids[i] != ids[j] by {
        assert(cands[i].id != cands[j].id);
    }
    assert forall|jj: int| 0 <= jj < ks.len() implies ids.contains(
        (#[trigger] ks[jj]).signer,
    ) by {
        assert(has_candidate(cands, ks[jj].signer));
        let k = choose|k: int| 0 <= k < cands.len() && (#[trigger] cands[k]).id == ks[jj].signer;
        assert(ids[k] == ks[jj].signer);
    }
    lemma_runs_partition(ids, ks);
    lemma_total_keys_is_sum_runs(cands, ks);
}

/// Two strictly ascending id lists with the same members are equal.
proof fn lemma_ascending_unique(a: Seq<AgentId>, b: Seq<AgentId>)
    requires
        forall|i: int, j: int| 0 <= i < j < a.len() ==> a[i].0 < a[j].0,
        forall|i: int, j: int| 0 <= i < j < b.len() ==> b[i].0 < b[j].0,
        forall|x: AgentId| a.contains(x) <==> b.contains(x),
    ensures
        a == b,
    decreases a.len(),
{
    if a.len() == 0 {
        if b.len() > 0 {
            assert(b.contains(b[0]));
            assert(a.contains(b[0]));
        }
        assert(a =~= b);
    } else {
        assert(a.contains(a[0]));
        assert(b.contains(a[0]));
        let j = choose|j: int| 0 <= j < b.len() && b[j] == a[0];
        assert(b[0].0 <= b[j].0);
        assert(b.contains(b[0]));
        assert(a.contains(b[0]));
        let i = choose|i: int| 0 <= i < a.len() && a[i] == b[0];
        assert(a[0].0 <= a[i].0);
        assert(a[0] == b[0]);
        let at = a.drop_first();
        let bt = b.drop_first();
        assert forall|x: AgentId| at.contains(x) implies bt.contains(x) by {
            let ii = choose|ii: int| 0 <= ii < at.len() && at[ii] == x;
            assert(a[ii + 1] == x);
            assert(a.contains(x));
            assert(b.contains(x));
            let jj = choose|jj: int| 0 <= jj < b.len() && b[jj] == x;
            assert(x.0 > a[0].0);
            assert(jj > 0);
            assert(bt[jj - 1] == x);
            assert(bt.contains(x));
        }
        assert forall|x: AgentId| bt.contains(x) implies at.contains(x) by {
            let jj = choose|jj: int| 0 <= jj < bt.len() && bt[jj] == x;
            assert(b[jj + 1] == x);
            assert(b.contains(x));
            assert(a.contains(x));
            let ii = choose|ii: int| 0 <= ii < a.len() && a[ii] == x;
            assert(x.0 > b[0].0);
            assert(ii > 0);
            assert(at[ii - 1] == x);
            assert(at.contains(x));
        }
        lemma_ascending_unique(at, bt);
        assert(a.len() == b.len());
        assert forall|i: int| 0 <= i < a.len() implies a[i] == b[i] by {
            if i > 0 {
                assert(at[i - 1] == a[i]);
                assert(bt[i - 1] == b[i]);
                assert(at[i - 1] == bt[i - 1]);
            }
        }
        assert(a =~= b);
    }
}

/// The committee is determined by the store: any two candidate lists
/// satisfying the committee contract over one store agree, candidate
/// for candidate — in particular, repeated calls return equal results.
pub proof fn lemma_committee_determined(
    c1: Seq<ClerkCandidate>,
    c2: Seq<ClerkCandidate>,
    ks: Seq<SignedEncryptionKey>,
)
    requires
        forall|k: int, l: int| 0 <= k < l < c1.len() ==> c1[k].id.0 < c1[l].id.0,
        forall|k: int, l: int| 0 <= k < l < c2.len() ==> c2[k].id.0 < c2[l].id.0,
        forall|k: int| 0 <= k < c1.len() ==> (#[trigger] c1[k]).keys@.len() >= 1,
        forall|k: int| 0 <= k < c2.len() ==> (#[trigger] c2[k]).keys@.len() >= 1,
        forall|k: int|
            0 <= k < c1.len() ==> (#[trigger] c1[k]).keys@ == ids_of(signer_run(ks, c1[k].id)),
        forall|k: int|
            0 <= k < c2.len() ==> (#[trigger] c2[k]).keys@ == ids_of(signer_run(ks, c2[k].id)),
        signers_covered(ks, c1),
        signers_covered(ks, c2),
    ensures
        c1.len() == c2.len(),
        forall|k: int|
            0 <= k < c1.len() ==> (#[trigger] c1[k]).id == c2[k].id && c1[k].keys@ == c2[k].keys@,
{
    let a = cand_ids(c1);
    let b = cand_ids(c2);
    assert forall|x: AgentId| a.contains(x) implies b.contains(x) by {
        lemma_candidate_id_carries(c1, c2, ks, x);
    }
    assert forall|x: AgentId| b.contains(x) implies a.contains(x) by {
        lemma_candidate_id_carries(c2, c1, ks, x);
    }
    assert forall|i: int, j: int| 0 <= i < j < a.len() implies a[i].0 < a[j].0 by {
        assert(c1[i].id.0 < c1[j].id.0);
    }
    assert forall|i: int, j: int| 0 <= i < j < b.len() implies b[i].0 < b[j].0 by {
        assert(c2[i].id.0 < c2[j].id.0);
    }
    lemma_ascending_unique(a, b);
    assert forall|k: int| 0 <= k < c1.len() implies (#[trigger] c1[k]).id == c2[k].id
        && c1[k].keys@ == c2[k].keys@ by {
        assert(a[k] == b[k]);
    }
}

/// An id that one contract-satisfying candidate list holds names a
/// signer with stored keys, so any other covered list holds it too.
proof fn lemma_candidate_id_carries(
    c1: Seq<ClerkCandidate>,
    c2: Seq<ClerkCandidate>,
    ks: Seq<SignedEncryptionKey>,
    x: AgentId,
)
    requires
        forall|k: int| 0 <= k < c1.len() ==> (#[trigger] c1[k]).keys@.len() >= 1,
        forall|k: int|
            0 <= k < c1.len() ==> (#[trigger] c1[k]).keys@ == ids_of(signer_run(ks, c1[k].id)),
        signers_covered(ks, c2),
        cand_ids(c1).contains(x),
    ensures
        cand_ids(c2).contains(x),
{
    let a = cand_ids(c1);
    let k = choose|k: int| 0 <= k < a.len() && a[k] == x;
    assert(c1[k].id == x);
    assert(c1[k].keys@.len() >= 1);
    assert(signer_run(ks, x).len() >= 1);
    // a non-empty run means some stored key carries this signer
    assert(exists|jj: int| 0 <= jj < ks.len() && (#[trigger] ks[jj]).signer == x) by {
        if forall|jj: int| 0 <= jj < ks.len() ==> (#[trigger] ks[jj]).signer != x {
            lemma_signer_run_stops(ks, 0, x);
            assert(ks.take(0) =~= Seq::<SignedEncryptionKey>::empty());
            assert(signer_run(Seq::<SignedEncryptionKey>::empty(), x) == Seq::<
                SignedEncryptionKey,
            >::empty());
        }
    }
    let jj = choose|jj: int| 0 <= jj < ks.len() && (#[trigger] ks[jj]).signer == x;
    assert(has_candidate(c2, ks[jj].signer));
    let k2 = choose|k2: int| 0 <= k2 < c2.len() && (#[trigger] c2[k2]).id == x;
    assert(cand_ids(c2)[k2] == x);
    assert(cand_ids(c2).contains(x));
}

/// Some key in `s` was signed by `id` and carries key id `key`.
pub open spec fn committee_key_from(s: Seq<SignedEncryptionKey>, id: AgentId, key: EncryptionKeyId) -> bool {
    exists|jj: int| 0 <= jj < s.len() && (#[trigger] s[jj]).signer == id && s[jj].body.id == key
}

/// Every key of every candidate is one its candidate signed in `s`.
pub open spec fn keys_traced(cands: Seq<ClerkCandidate>, s: Seq<SignedEncryptionKey>) -> bool {
    forall|k: int, j: int|
        0 <= k < cands.len() && 0 <= j < cands[k].keys@.len() ==> committee_key_from(
            s,
            (#[trigger] cands[k]).id,
            (#[trigger] cands[k].keys@[j]),
        )
}

/// Some candidate is the agent `id`.
pub open spec fn has_candidate(cands: Seq<ClerkCandidate>, id: AgentId) -> bool {
    exists|k: int| 0 <= k < cands.len() && (#[trigger] cands[k]).id == id
}

/// Every key in `s` has its signer among the candidates.
pub open spec fn signers_covered(s: Seq<SignedEncryptionKey>, cands: Seq<ClerkCandidate>) -> bool {
    forall|jj: int| 0 <= jj < s.len() ==> has_candidate(cands, (#[trigger] s[jj]).signer)
}

/// Groups a signer-sorted run of signed encryption keys into one
/// candidate per signer: candidates in strictly ascending signer order,
/// each carrying the keys of its consecutive run.
#[verifier::rlimit(60)]
fn group_sorted(sorted: &Vec<SignedEncryptionKey>) -> (cands: Vec<ClerkCandidate>)
    requires
        forall|i: int, j: int|
            0 <= i < j < sorted@.len() ==> #[trigger] sorted@[i].signer.0
                <= #[trigger] sorted@[j].signer.0,
    ensures
        forall|k: int, l: int|
            0 <= k < l < cands@.len() ==> #[trigger] cands@[k].id.0 < #[trigger] cands@[l].id.0,
        forall|k: int| 0 <= k < cands@.len() ==> #[trigger] cands@[k].keys@.len() >= 1,
        keys_traced(cands@, sorted@),
        signers_covered(sorted@, cands@),
        forall|k: int|
            0 <= k < cands@.len() ==> (#[trigger] cands@[k]).keys@ == ids_of(
                signer_run(sorted@, cands@[k].id),
            ),
{
    let ghost s = sorted@;
    let mut cands: Vec<ClerkCandidate> = Vec::new();
    let mut p: usize = 0;
    while p < sorted.len()
        invariant
            s == sorted@,
            p <= s.len(),
            forall|i2: int, j2: int|
                0 <= i2 < j2 < s.len() ==> #[trigger] s[i2].signer.0 <= #[trigger] s[j2].signer.0,
            (p == 0) == (cands@.len() == 0),
            p > 0 ==> cands@.len() >= 1 && cands@.last().id == s[p - 1].signer,
            forall|k: int, l: int|
                0 <= k < l < cands@.len() ==> #[trigger] cands@[k].id.0
                    < #[trigger] cands@[l].id.0,
            forall|k: int| 0 <= k < cands@.len() ==> #[trigger] cands@[k].keys@.len() >= 1,
            keys_traced(cands@, s),
            signers_covered(s.take(p as int), cands@),
            forall|k: int|
                0 <= k < cands@.len() ==> (#[trigger] cands@[k]).keys@ == ids_of(
                    signer_run(s.take(p as int), cands@[k].id),
                ),
        decreases s.len() - p,
    {
        let ghost cands_before = cands@;
        let cur: SignedEncryptionKey = sorted[p];
        let mut append: bool = false;
        if cands.len() > 0 {
            let last_idx: usize = cands.len() - 1;
            if cands[last_idx].id.0 == cur.signer.0 {
                append = true;
            }
        }
        if append {
            let mut last: ClerkCandidate = match cands.pop() {
                Some(c) => c,
                None => ClerkCandidate { id: cur.signer, keys: Vec::new() },
            };
            last.keys.push(cur.body.id);
            cands.push(last);
            proof {
                assert(cands@.len() == cands_before.len());
                assert(forall|k: int| 0 <= k < cands@.len() - 1 ==> cands@[k] == cands_before[k]);
                assert(cands@.last().id == cands_before.last().id);
                assert(cands@.last().keys@ == cands_before.last().keys@.push(cur.body.id));
                assert(cur.signer == cands@.last().id);
                assert(s.take(p + 1) =~= s.take(p as int).push(s[p as int]));
                assert forall|k: int| 0 <= k < cands@.len() implies (#[trigger] cands@[k]).keys@
                    == ids_of(signer_run(s.take(p + 1), cands@[k].id)) by {
                    lemma_signer_run_push(s.take(p as int), s[p as int], cands@[k].id);
                    if k == cands@.len() - 1 {
                        lemma_ids_of_push(
                            signer_run(s.take(p as int), cands@[k].id),
                            s[p as int],
                        );
                    } else {
                        assert(cands@[k] == cands_before[k]);
                        assert(cands@[k].id.0 < cands_before.last().id.0);
                        assert(s[p as int].signer.0 == cands_before.last().id.0);
                        assert(s[p as int].signer != cands@[k].id);
                    }
                }
                assert forall|k: int, j: int|
                    0 <= k < cands@.len() && 0 <= j < cands@[k].keys@.len() implies committee_key_from(
                    s,
                    cands@[k].id,
                    cands@[k].keys@[j],
                ) by {
                    if k == cands@.len() - 1 {
                        if j == cands@[k].keys@.len() - 1 {
                            assert(s[p as int].signer == cands@[k].id);
                            assert(s[p as int].body.id == cands@[k].keys@[j]);
                        } else {
                            assert(cands@[k].keys@[j] == cands_before[k].keys@[j]);
                            assert(committee_key_from(s, cands_before[k].id, cands_before[k].keys@[j]));
                        }
                    } else {
                        assert(cands@[k] == cands_before[k]);
                        assert(committee_key_from(s, cands_before[k].id, cands_before[k].keys@[j]));
                    }
                }
                assert(keys_traced(cands@, s));
                assert forall|jj: int| 0 <= jj < p + 1 implies has_candidate(
                    cands@,
                    (#[trigger] s[jj]).signer,
                ) by {
                    if jj == p {
                        assert(cands@[cands@.len() - 1].id == s[jj].signer);
                    } else {
                        assert(s.take(p as int)[jj] == s[jj]);
                        assert(has_candidate(cands_before, s[jj].signer));
                        let k = choose|k: int|
                            0 <= k < cands_before.len() && (#[trigger] cands_before[k]).id
                                == s[jj].signer;
                        assert(cands@[k].id == cands_before[k].id);
                    }
                }
                assert forall|jj: int| 0 <= jj < p + 1 implies s.take(p + 1)[jj] == s[jj] by {}
                assert(signers_covered(s.take(p + 1), cands@));
            }
        } else {
            proof {
                if cands@.len() > 0 {
                    assert(s[p - 1].signer == cands_before.last().id);
                    assert(s[p - 1].signer.0 <= s[p as int].signer.0);
                }
            }
            let mut ks: Vec<EncryptionKeyId> = Vec::new();
            ks.push(cur.body.id);
            cands.push(ClerkCandidate { id: cur.signer, keys: ks });
            proof {
                assert(forall|k: int| 0 <= k < cands@.len() - 1 ==> cands@[k] == cands_before[k]);
                assert(cands@.last().id == cur.signer);
                assert(cands@.last().keys@.len() == 1);
                assert(cands@.last().keys@[0] == cur.body.id);
                assert(s.take(p + 1) =~= s.take(p as int).push(s[p as int]));
                assert forall|k: int| 0 <= k < cands@.len() implies (#[trigger] cands@[k]).keys@
                    == ids_of(signer_run(s.take(p + 1), cands@[k].id)) by {
                    lemma_signer_run_push(s.take(p as int), s[p as int], cands@[k].id);
                    if k == cands@.len() - 1 {
                        // nothing before position p carries the new signer
                        let prefix = s.take(p as int);
                        assert forall|j: int| 0 <= j < prefix.len() implies (#[trigger] prefix[j]).signer
                            != cur.signer by {
                            assert(prefix[j] == s[j]);
                            if p > 0 {
                                assert(s[j].signer.0 <= s[p - 1].signer.0);
                                assert(s[p - 1].signer.0 == cands_before.last().id.0);
                                assert(cands_before.last().id.0 != cur.signer.0);
                                assert(cur.signer.0 >= s[p - 1].signer.0);
                            }
                        }
                        lemma_signer_run_stops(prefix, 0, cur.signer);
                        assert(prefix.take(0) =~= Seq::<SignedEncryptionKey>::empty());
                        assert(signer_run(Seq::<SignedEncryptionKey>::empty(), cur.signer)
                            == Seq::<SignedEncryptionKey>::empty());
                        assert(signer_run(prefix, cur.signer) == Seq::<
                            SignedEncryptionKey,
                        >::empty());
                        assert(signer_run(s.take(p + 1), cur.signer) =~= seq![s[p as int]]);
                        assert(ids_of(seq![s[p as int]]) =~= seq![s[p as int].body.id]);
                        assert(cands@[k].keys@ =~= seq![s[p as int].body.id]);
                    } else {
                        assert(cands@[k] == cands_before[k]);
                        if k < cands_before.len() - 1 {
                            assert(cands_before[k].id.0 < cands_before.last().id.0);
                        }
                        assert(s[p as int].signer.0 > cands_before[cands_before.len() - 1].id.0);
                        assert(s[p as int].signer != cands@[k].id);
                    }
                }
                assert forall|k: int| 0 <= k < cands@.len() - 1 implies #[trigger] cands@[k].id.0
                    < cur.signer.0 by {
                    assert(cands@[k].id == cands_before[k].id);
                    if k < cands_before.len() - 1 {
                        assert(cands_before[k].id.0 < cands_before[cands_before.len() - 1].id.0);
                    }
                    assert(cands_before[cands_before.len() - 1].id == s[p - 1].signer);
                    assert(s[p - 1].signer.0 <= s[p as int].signer.0);
                    assert(cands_before[cands_before.len() - 1].id.0 != cur.signer.0);
                }
                assert forall|k: int, j: int|
                    0 <= k < cands@.len() && 0 <= j < cands@[k].keys@.len() implies committee_key_from(
                    s,
                    cands@[k].id,
                    cands@[k].keys@[j],
                ) by {
                    if k == cands@.len() - 1 {
                        assert(s[p as int].signer == cands@[k].id);
                        assert(s[p as int].body.id == cands@[k].keys@[j]);
                    } else {
                        assert(cands@[k] == cands_before[k]);
                        assert(committee_key_from(s, cands_before[k].id, cands_before[k].keys@[j]));
                    }
                }
                assert(keys_traced(cands@, s));
                assert forall|jj: int| 0 <= jj < p + 1 implies has_candidate(
                    cands@,
                    (#[trigger] s[jj]).signer,
                ) by {
                    if jj == p {
                        assert(cands@[cands@.len() - 1].id == s[jj].signer);
                    } else {
                        assert(s.take(p as int)[jj] == s[jj]);
                        assert(has_candidate(cands_before, s[jj].signer));
                        let k = choose|k: int|
                            0 <= k < cands_before.len() && (#[trigger] cands_before[k]).id
                                == s[jj].signer;
                        assert(cands@[k].id == cands_before[k].id);
                    }
                }
                assert forall|jj: int| 0 <= jj < p + 1 implies s.take(p + 1)[jj] == s[jj] by {}
                assert(signers_covered(s.take(p + 1), cands@));
            }
        }
        p = p + 1;
    }
    proof {
        assert(s.take(s.len() as int) =~= s);
    }
    cands
}

/// Relies on itertools' `sorted_by` (a stable `Vec::sort_by`): returns
/// the same items, reordered so the comparator (here: by signer id) is
/// non-decreasing; items comparing equal — exactly those with one
/// signer — keep their relative order, so each signer's subsequence is
/// unchanged.
#[verifier::external_body]
fn sorted_by_signer(v: Vec<SignedEncryptionKey>) -> (r: Vec<SignedEncryptionKey>)
    ensures
        r@.len() == v@.len(),
        r@.to_multiset() == v@.to_multiset(),
        forall|x: SignedEncryptionKey| r@.contains(x) <==> v@.contains(x),
        forall|i: int, j: int|
            0 <= i < j < r@.len() ==> #[trigger] r@[i].signer.0 <= #[trigger] r@[j].signer.0,
        forall|id: AgentId| #[trigger] signer_run(r@, id) == signer_run(v@, id),
{
    v.into_iter().sorted_by(|a, b| a.signer.0.cmp(&b.signer.0)).collect()
}

} // verus!
