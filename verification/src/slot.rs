use crate::word::{from_be_bytes, word_be_bytes, word_from_be, Word};
use vstd::prelude::*;

verus! {

/// The Keccak-256 digest of a byte sequence. The digest is fixed by the input
/// bytes alone; nothing further is assumed of its contents.
pub uninterp spec fn keccak256_of(input: Seq<u8>) -> Seq<u8>;

/// Relies on revm::primitives::keccak256: the Keccak-256 digest of the input,
/// a function of the input bytes alone, always 32 bytes long.
#[verifier::external_body]
fn keccak256_digest(input: &Vec<u8>) -> (r: Vec<u8>)
    ensures
        r@ == keccak256_of(input@),
        r@.len() == 32,
{
    revm::primitives::keccak256(input.as_slice()).0.to_vec()
}

/// The storage slot of a mapping entry: the Keccak-256 digest of the 32
/// big-endian key bytes followed by the 32 big-endian base-slot bytes, read
/// back as a big-endian word.
pub open spec fn derived_slot(key: Word, base: Word) -> Word {
    word_from_be(keccak256_of(word_be_bytes(key) + word_be_bytes(base)))
}

/// Derives the storage slot holding the value of a mapping entry from its key
/// and the mapping's base slot: hash of the key's 32 big-endian bytes followed
/// by the base slot's 32 big-endian bytes.
pub fn compute(key: &Word, base: &Word) -> (r: Word)
    ensures
        r == derived_slot(*key, *base),
{
    let mut buf: Vec<u8> = Vec::new();
    key.append_be_bytes(&mut buf);
    base.append_be_bytes(&mut buf);
    proof {
        assert(buf@ =~= word_be_bytes(*key) + word_be_bytes(*base));
    }
    let digest = keccak256_digest(&buf);
    from_be_bytes(&digest)
}

/// Slot derivation is a pure function of the key and the base slot: two
/// derivations from equal inputs always yield the same slot.
pub proof fn lemma_derived_slot_deterministic(k1: Word, b1: Word, k2: Word, b2: Word)
    requires
        k1 == k2,
        b1 == b2,
    ensures
        derived_slot(k1, b1) == derived_slot(k2, b2),
{
}

} // verus!
