//! Key-dependent streams and checksums shared by the signing and
//! encryption engines.
//!
//! Both engines bind material to a key by combining it with a
//! deterministic key-dependent stream; the encryption engine adds a
//! checksum tag over the plaintext so tampering is detected.

use vstd::prelude::*;

verus! {

/// The checksum modulus: the largest prime below `2^64`.
pub const CHK_MODULUS: u64 = 0xFFFF_FFFF_FFFF_FFC5;

/// Byte `i` of the stream keyed by `k`.
pub open spec fn ks_byte(k: u64, i: int) -> u8 {
    (((k % 256) + (i % 256)) % 256) as u8
}

/// A byte sequence combined with the stream keyed by `k`. Applying the
/// same stream twice gives the sequence back.
pub open spec fn xored_bytes(s: Seq<u8>, k: u64) -> Seq<u8> {
    Seq::new(s.len(), |i: int| s[i] ^ ks_byte(k, i))
}

/// Word `i` of the stream keyed by `k`.
pub open spec fn ks_word(k: u64, i: int) -> u64 {
    (((k as int) + (i % 0x1_0000_0000)) % 0x1_0000_0000_0000_0000) as u64
}

/// A word sequence combined with the stream keyed by `k`.
pub open spec fn xored_words(s: Seq<u64>, k: u64) -> Seq<u64> {
    Seq::new(s.len(), |i: int| s[i] ^ ks_word(k, i))
}

/// The running checksum of a word sequence, folded from `acc`.
pub open spec fn chk_words(s: Seq<u64>, acc: u64) -> u64
    decreases s.len(),
{
    if s.len() == 0 {
        acc
    } else {
        chk_words(s.drop_first(), ((acc * 131 + s.first() + 1) % (CHK_MODULUS as int)) as u64)
    }
}

/// Combines the bytes with the stream keyed by `k`, exactly as
/// `xored_bytes` says.
pub fn xor_bytes(s: &Vec<u8>, k: u64) -> (r: Vec<u8>)
    ensures
        r@ == xored_bytes(s@, k),
{
    let mut r: Vec<u8> = Vec::new();
    let mut i: usize = 0;
    while i < s.len()
        invariant
            i <= s@.len(),
            r@.len() == i,
            forall|j: int| 0 <= j < i ==> #[trigger] r@[j] == s@[j] ^ ks_byte(k, j),
        decreases s@.len() - i,
    {
        let b: u8 = ((k % 256 + (i as u64) % 256) % 256) as u8;
        r.push(s[i] ^ b);
        i = i + 1;
    }
    proof {
        assert(r@ =~= xored_bytes(s@, k));
    }
    r
}

/// Combines the words with the stream keyed by `k`, exactly as
/// `xored_words` says.
pub fn xor_words(s: &Vec<u64>, k: u64) -> (r: Vec<u64>)
    ensures
        r@ == xored_words(s@, k),
{
    let mut r: Vec<u64> = Vec::new();
    let mut i: usize = 0;
    while i < s.len()
        invariant
            i <= s@.len(),
            r@.len() == i,
            forall|j: int| 0 <= j < i ==> #[trigger] r@[j] == s@[j] ^ ks_word(k, j),
        decreases s@.len() - i,
    {
        let w: u64 = ((k as u128 % 0x1_0000_0000_0000_0000u128 + (i as u128) % 0x1_0000_0000u128)
            % 0x1_0000_0000_0000_0000u128) as u64;
        r.push(s[i] ^ w);
        i = i + 1;
    }
    proof {
        assert(r@ =~= xored_words(s@, k));
    }
    r
}

/// Folds the checksum over the words, exactly as `chk_words` says.
pub fn checksum_words(s: &Vec<u64>, seed: u64) -> (r: u64)
    ensures
        r == chk_words(s@, seed),
{
    let mut acc: u64 = seed;
    let mut i: usize = 0;
    proof {
        assert(s@.skip(0) =~= s@);
    }
    while i < s.len()
        invariant
            i <= s@.len(),
            chk_words(s@, seed) == chk_words(s@.skip(i as int), acc),
        decreases s@.len() - i,
    {
        let next: u64 = ((acc as u128 * 131u128 + s[i] as u128 + 1u128)
            % (CHK_MODULUS as u128)) as u64;
        proof {
            assert(s@.skip(i as int).first() == s@[i as int]);
            assert(s@.skip(i as int).drop_first() =~= s@.skip(i as int + 1));
        }
        acc = next;
        i = i + 1;
    }
    proof {
        assert(s@.skip(s@.len() as int) =~= Seq::<u64>::empty());
    }
    acc
}

/// Applying the word stream keyed by `k` twice gives the words back.
pub proof fn lemma_xored_words_involution(s: Seq<u64>, k: u64)
    ensures
        xored_words(xored_words(s, k), k) == s,
{
    assert(forall|a: u64, b: u64| (a ^ b) ^ b == a) by (bit_vector);
    assert(xored_words(xored_words(s, k), k) =~= s);
}

/// Sequences that differ somewhere still differ after both are combined
/// with the same stream: the stream never maps two different bytes at one
/// position to the same byte.
pub proof fn lemma_xored_bytes_injective(s1: Seq<u8>, s2: Seq<u8>, k: u64, i: int)
    requires
        s1.len() == s2.len(),
        0 <= i < s1.len(),
        s1[i] != s2[i],
    ensures
        xored_bytes(s1, k)[i] != xored_bytes(s2, k)[i],
{
    let a = s1[i];
    let b = s2[i];
    let x = ks_byte(k, i);
    assert(forall|a: u8, b: u8, x: u8| a != b ==> a ^ x != b ^ x) by (bit_vector);
    assert(a ^ x != b ^ x);
}

} // verus!
