use crate::word::{
    lemma_as_nat_split224, lemma_word_nat_fields, pow128, pow160, pow224, pow64, Word,
};
use vstd::arithmetic::div_mod::lemma_fundamental_div_mod;
use vstd::arithmetic::div_mod::lemma_fundamental_div_mod_converse;
use vstd::prelude::*;

verus! {

/// Decoded view of a packed record word: `first` occupies bits [0, 64),
/// `second` bits [64, 224), and the unlocked flag sits at bit 224. The
/// remaining bits are opaque and stay in the word itself.
#[derive(Clone, Copy, PartialEq, Eq, Structural, Debug)]
pub struct Record {
    pub first: u64,
    pub second: Word,
    pub unlocked: bool,
}

/// Bits [0, 64) of a packed word.
pub open spec fn spec_first(w: Word) -> u64 {
    w.limb0
}

/// Bits [64, 224) of a packed word, as a word.
pub open spec fn spec_second(w: Word) -> Word {
    Word { limb0: w.limb1, limb1: w.limb2, limb2: w.limb3 & 0xffff_ffff, limb3: 0 }
}

/// Whether bit 224 of a packed word is set.
pub open spec fn spec_unlocked(w: Word) -> bool {
    (w.limb3 >> 32) & 1 == 1
}

/// The packed word with bit 224 set and every other bit unchanged.
pub open spec fn spec_set_unlocked(w: Word) -> Word {
    Word { limb0: w.limb0, limb1: w.limb1, limb2: w.limb2, limb3: w.limb3 | 0x1_0000_0000 }
}

/// Extracts the packed fields of a record word. Pure bit masking: no input is
/// rejected.
pub fn decode(w: &Word) -> (r: Record)
    ensures
        r == (Record { first: spec_first(*w), second: spec_second(*w), unlocked: spec_unlocked(*w) }),
        r.first == w.as_nat() % pow64(),
        r.second.as_nat() == w.as_nat() / pow64() % pow160(),
        r.unlocked == (w.as_nat() / pow224() % 2 == 1),
{
    let second = Word { limb0: w.limb1, limb1: w.limb2, limb2: w.limb3 & 0xffff_ffff, limb3: 0 };
    let unlocked = (w.limb3 >> 32) & 1 == 1;
    proof {
        lemma_decode_fields(*w);
    }
    Record { first: w.limb0, second, unlocked }
}

/// Sets the unlocked flag (bit 224) of a packed word, leaving every other bit
/// as it was. Applied to an already-unlocked word it changes nothing.
pub fn set_unlocked_bit(w: &Word) -> (r: Word)
    ensures
        r == spec_set_unlocked(*w),
        r.as_nat() % pow224() == w.as_nat() % pow224(),
        r.as_nat() / pow224() % 2 == 1,
        r.as_nat() / pow224() / 2 == w.as_nat() / pow224() / 2,
{
    proof {
        lemma_set_unlocked_value(*w);
    }
    Word { limb0: w.limb0, limb1: w.limb1, limb2: w.limb2, limb3: w.limb3 | 0x1_0000_0000 }
}

/// The key the traversal visits after a record: `first` when it is even,
/// `second` when it is odd.
pub open spec fn spec_next_key(w: Word) -> Word {
    if spec_first(w) % 2 == 0 {
        Word::spec_from_u64(spec_first(w))
    } else {
        spec_second(w)
    }
}

/// Picks the next traversal key from a packed record word by the parity of
/// its `first` field: even (zero included) takes `first`, odd takes `second`.
pub fn next_key(w: &Word) -> (r: Word)
    ensures
        r == spec_next_key(*w),
        w.as_nat() % pow64() % 2 == 0 ==> r.as_nat() == w.as_nat() % pow64(),
        w.as_nat() % pow64() % 2 == 1 ==> r.as_nat() == w.as_nat() / pow64() % pow160(),
{
    proof {
        lemma_decode_fields(*w);
    }
    if w.limb0 % 2 == 0 {
        Word::from_u64(w.limb0)
    } else {
        Word { limb0: w.limb1, limb1: w.limb2, limb2: w.limb3 & 0xffff_ffff, limb3: 0 }
    }
}

/// Setting the unlocked flag twice is the same as setting it once.
pub proof fn lemma_set_unlocked_idempotent(w: Word)
    ensures
        spec_set_unlocked(spec_set_unlocked(w)) == spec_set_unlocked(w),
{
    let b = w.limb3 as u64;
    assert((b | 0x1_0000_0000) | 0x1_0000_0000 == b | 0x1_0000_0000) by (bit_vector);
}

/// Setting the unlocked flag changes no bit outside position 224: the value
/// below bit 224 and the value above bit 225 both stay as they were, and it
/// never clears the flag of an already-unlocked word.
pub proof fn lemma_set_unlocked_preserves_other_bits(w: Word)
    ensures
        spec_set_unlocked(w).as_nat() % pow224() == w.as_nat() % pow224(),
        spec_set_unlocked(w).as_nat() / pow224() % 2 == 1,
        spec_set_unlocked(w).as_nat() / pow224() / 2 == w.as_nat() / pow224() / 2,
        spec_unlocked(spec_set_unlocked(w)),
        spec_unlocked(w) ==> spec_set_unlocked(w) == w,
{
    lemma_set_unlocked_value(w);
    let b3 = w.limb3 as u64;
    assert(((b3 | 0x1_0000_0000) >> 32) & 1 == 1) by (bit_vector);
    if spec_unlocked(w) {
        let b = w.limb3 as u64;
        assert((b >> 32) & 1 == 1 ==> b | 0x1_0000_0000 == b) by (bit_vector)
            requires
                (b >> 32) & 1 == 1,
        ;
    }
}

/// The packed fields as windows of the word's value: `first` is the low 64
/// bits, `second` the 160 bits above them, and the flag is bit 224.
proof fn lemma_decode_fields(w: Word)
    ensures
        w.as_nat() % pow64() == spec_first(w),
        w.as_nat() / pow64() % pow160() == spec_second(w).as_nat(),
        w.as_nat() / pow224() % 2 == (if spec_unlocked(w) { 1nat } else { 0nat }),
{
    lemma_word_nat_fields(w);
    let n = w.as_nat() as int;
    let lo3 = w.limb3 as int % 0x1_0000_0000;
    let hi3 = w.limb3 as int / 0x1_0000_0000;
    lemma_fundamental_div_mod(w.limb3 as int, 0x1_0000_0000);
    let b = w.limb3 as u64;
    assert(b & 0xffff_ffff == b % 0x1_0000_0000) by (bit_vector);

    // The quotient by 2^64 is the upper three limbs.
    let q1 = w.limb1 as int + w.limb2 as int * pow64() + w.limb3 as int * pow128();
    assert(n == q1 * pow64() + w.limb0);
    lemma_fundamental_div_mod_converse(n, pow64() as int, q1, w.limb0 as int);

    // Splitting that quotient at bit 160 leaves `second` as the remainder.
    let sec = w.limb1 as int + w.limb2 as int * pow64() + lo3 * pow128();
    assert(w.limb3 as int * pow128() == (0x1_0000_0000 * hi3 + lo3) * pow128());
    assert((0x1_0000_0000 * hi3 + lo3) * pow128() == hi3 * pow160() + lo3 * pow128())
        by (nonlinear_arith);
    assert(q1 == hi3 * pow160() + sec);
    assert(0 <= lo3 * pow128() <= (0x1_0000_0000 - 1) * pow128());
    assert(0 <= sec < pow160());
    lemma_fundamental_div_mod_converse(q1, pow160() as int, hi3, sec);
    assert(spec_second(w).as_nat() == sec);

    // Bit 224 is the parity of the value shifted down by 224.
    lemma_as_nat_split224(w);
    assert(((b >> 32) & 1 == 1 ==> b / 0x1_0000_0000 % 2 == 1) && ((b >> 32) & 1 != 1 ==> b
        / 0x1_0000_0000 % 2 == 0)) by (bit_vector);
}

/// Setting bit 224 in limb terms: only the top limb changes, by an or with
/// bit 32, so the windows of the value move exactly as stated.
proof fn lemma_set_unlocked_value(w: Word)
    ensures
        spec_set_unlocked(w).as_nat() % pow224() == w.as_nat() % pow224(),
        spec_set_unlocked(w).as_nat() / pow224() % 2 == 1,
        spec_set_unlocked(w).as_nat() / pow224() / 2 == w.as_nat() / pow224() / 2,
{
    let s = spec_set_unlocked(w);
    lemma_as_nat_split224(w);
    lemma_as_nat_split224(s);
    let b = w.limb3 as u64;
    assert((b | 0x1_0000_0000) % 0x1_0000_0000 == b % 0x1_0000_0000) by (bit_vector);
    assert((b | 0x1_0000_0000) / 0x1_0000_0000 % 2 == 1) by (bit_vector);
    assert((b | 0x1_0000_0000) / 0x1_0000_0000 / 2 == b / 0x1_0000_0000 / 2) by (bit_vector);
}

} // verus!
