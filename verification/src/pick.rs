//! A stable choice among nodes: FNV-1a over bytes, then mixed, so every
//! process on every platform and build picks the same node for the same
//! pair — which `std`'s hasher does not promise. The mix matters: FNV's
//! lowest bit is only the parity of the bytes', so unmixed and taken modulo
//! two, a pair's process node would decide its send node.

use vstd::prelude::*;

verus! {

/// FNV-1a's offset basis.
pub const OFFSET: u64 = 0xcbf2_9ce4_8422_2325;

/// FNV-1a's prime.
pub const PRIME: u64 = 0x0100_0000_01b3;

/// The mixing multiplier.
pub const MIXER: u64 = 0xff51_afd7_ed55_8ccd;

/// FNV-1a folded over `bytes` from `seed`.
pub open spec fn fnv_fold(seed: u64, bytes: Seq<u8>) -> u64
    decreases bytes.len(),
{
    if bytes.len() == 0 {
        seed
    } else {
        (fnv_fold(seed, bytes.drop_last()) ^ (bytes.last() as u64)).wrapping_mul(PRIME)
    }
}

/// The mix applied to an FNV-1a result.
pub open spec fn mix(hash: u64) -> u64 {
    let mixed = (hash ^ (hash >> 33u64)).wrapping_mul(MIXER);
    mixed ^ (mixed >> 33u64)
}

/// The stable hash of `bytes`.
pub open spec fn stable_hash(bytes: Seq<u8>) -> u64 {
    mix(fnv_fold(OFFSET, bytes))
}

/// Folding over two pieces is folding over the first, then the second.
pub proof fn lemma_fold_concat(seed: u64, first: Seq<u8>, second: Seq<u8>)
    ensures
        fnv_fold(seed, first + second) == fnv_fold(fnv_fold(seed, first), second),
    decreases second.len(),
{
    if second.len() == 0 {
        assert(first + second == first);
    } else {
        lemma_fold_concat(seed, first, second.drop_last());
        assert((first + second).drop_last() == first + second.drop_last());
        assert((first + second).last() == second.last());
    }
}

/// FNV-1a folded over `bytes` from `seed`.
pub fn fold_bytes(seed: u64, bytes: &[u8]) -> (hash: u64)
    ensures
        hash == fnv_fold(seed, bytes@),
{
    let mut hash = seed;
    let mut i: usize = 0;
    while i < bytes.len()
        invariant
            i <= bytes@.len(),
            hash == fnv_fold(seed, bytes@.take(i as int)),
        decreases bytes@.len() - i,
    {
        assert(bytes@.take(i as int + 1).drop_last() == bytes@.take(i as int));
        hash = (hash ^ (bytes[i] as u64)).wrapping_mul(PRIME);
        i = i + 1;
    }
    assert(bytes@.take(bytes@.len() as int) == bytes@);
    hash
}

/// The mix applied to an FNV-1a result.
pub fn mixed(hash: u64) -> (out: u64)
    ensures
        out == mix(hash),
{
    let first = (hash ^ (hash >> 33u64)).wrapping_mul(MIXER);
    first ^ (first >> 33u64)
}

/// The bytes of a path of three words: `first/second/third`.
pub open spec fn path_key(first: Seq<char>, second: Seq<char>, third: Seq<char>) -> Seq<u8> {
    vstd::utf8::encode_utf8(first) + seq![47u8] + vstd::utf8::encode_utf8(second) + seq![47u8]
        + vstd::utf8::encode_utf8(third)
}

/// The stable hash of `first/second/third`.
pub fn hash_path(first: &str, second: &str, third: &str) -> (hash: u64)
    ensures
        hash == stable_hash(path_key(first@, second@, third@)),
{
    let slash: Vec<u8> = vec![47u8];
    let a = first.as_bytes();
    let b = second.as_bytes();
    let c = third.as_bytes();
    let h1 = fold_bytes(OFFSET, a);
    let h2 = fold_bytes(h1, slash.as_slice());
    let h3 = fold_bytes(h2, b);
    let h4 = fold_bytes(h3, slash.as_slice());
    let h5 = fold_bytes(h4, c);
    proof {
        assert(slash@ == seq![47u8]);
        lemma_fold_concat(OFFSET, a@, slash@);
        lemma_fold_concat(OFFSET, a@ + slash@, b@);
        lemma_fold_concat(OFFSET, a@ + slash@ + b@, slash@);
        lemma_fold_concat(OFFSET, a@ + slash@ + b@ + slash@, c@);
        assert(path_key(first@, second@, third@) == a@ + slash@ + b@ + slash@ + c@);
    }
    mixed(h5)
}

} // verus!
