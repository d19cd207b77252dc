use vstd::arithmetic::div_mod::lemma_fundamental_div_mod;
use vstd::arithmetic::div_mod::lemma_fundamental_div_mod_converse;
use vstd::prelude::*;

verus! {

/// 2^64.
pub open spec fn pow64() -> nat {
    0x1_0000_0000_0000_0000nat
}

/// 2^128.
pub open spec fn pow128() -> nat {
    0x1_0000_0000_0000_0000_0000_0000_0000_0000nat
}

/// 2^160.
pub open spec fn pow160() -> nat {
    0x1_0000_0000_0000_0000_0000_0000_0000_0000_0000_0000nat
}

/// 2^192.
pub open spec fn pow192() -> nat {
    0x1_0000_0000_0000_0000_0000_0000_0000_0000_0000_0000_0000_0000nat
}

/// 2^224.
pub open spec fn pow224() -> nat {
    0x1_0000_0000_0000_0000_0000_0000_0000_0000_0000_0000_0000_0000_0000_0000nat
}

/// A 256-bit unsigned word, canonically 32 big-endian bytes, stored here as
/// four 64-bit limbs, least significant limb first.
#[derive(Clone, Copy, PartialEq, Eq, Structural, Debug)]
pub struct Word {
    pub limb0: u64,
    pub limb1: u64,
    pub limb2: u64,
    pub limb3: u64,
}

impl Word {
    /// The mathematical value of the word.
    pub open spec fn as_nat(self) -> nat {
        self.limb0 as nat + self.limb1 as nat * pow64() + self.limb2 as nat * pow128()
            + self.limb3 as nat * pow192()
    }

    /// The word whose value is the given 64-bit integer.
    pub open spec fn spec_from_u64(x: u64) -> Word {
        Word { limb0: x, limb1: 0, limb2: 0, limb3: 0 }
    }

    /// The all-zero word.
    pub fn zero() -> (r: Word)
        ensures
            r == Word::spec_from_u64(0),
            r.as_nat() == 0,
    {
        Word { limb0: 0, limb1: 0, limb2: 0, limb3: 0 }
    }

    /// The word holding a 64-bit value.
    pub fn from_u64(x: u64) -> (r: Word)
        ensures
            r == Word::spec_from_u64(x),
            r.as_nat() == x,
    {
        Word { limb0: x, limb1: 0, limb2: 0, limb3: 0 }
    }

    /// Appends the 32 big-endian bytes of this word to `out`.
    pub fn append_be_bytes(&self, out: &mut Vec<u8>)
        ensures
            final(out)@ == old(out)@ + word_be_bytes(*self),
    {
        push_u64_be(out, self.limb3);
        push_u64_be(out, self.limb2);
        push_u64_be(out, self.limb1);
        push_u64_be(out, self.limb0);
        proof {
            assert(out@ =~= old(out)@ + word_be_bytes(*self));
        }
    }

    /// The 32 big-endian bytes of this word.
    pub fn to_be_bytes(&self) -> (r: Vec<u8>)
        ensures
            r@ == word_be_bytes(*self),
            r@.len() == 32,
    {
        let mut out: Vec<u8> = Vec::new();
        self.append_be_bytes(&mut out);
        proof {
            assert(out@ =~= word_be_bytes(*self));
        }
        out
    }
}

/// The eight big-endian bytes of a 64-bit integer.
pub open spec fn u64_be_bytes(x: u64) -> Seq<u8> {
    seq![
        (x >> 56) as u8,
        (x >> 48) as u8,
        (x >> 40) as u8,
        (x >> 32) as u8,
        (x >> 24) as u8,
        (x >> 16) as u8,
        (x >> 8) as u8,
        x as u8,
    ]
}

/// The 32 big-endian bytes of a word: most significant limb first.
pub open spec fn word_be_bytes(w: Word) -> Seq<u8> {
    u64_be_bytes(w.limb3) + u64_be_bytes(w.limb2) + u64_be_bytes(w.limb1) + u64_be_bytes(w.limb0)
}

/// The 64-bit integer read from eight big-endian bytes.
pub open spec fn u64_from_be(s: Seq<u8>) -> u64 {
    ((s[0] as u64) << 56) | ((s[1] as u64) << 48) | ((s[2] as u64) << 40) | ((s[3] as u64) << 32)
        | ((s[4] as u64) << 24) | ((s[5] as u64) << 16) | ((s[6] as u64) << 8) | (s[7] as u64)
}

/// The word read from 32 big-endian bytes.
pub open spec fn word_from_be(s: Seq<u8>) -> Word {
    Word {
        limb3: u64_from_be(s.subrange(0, 8)),
        limb2: u64_from_be(s.subrange(8, 16)),
        limb1: u64_from_be(s.subrange(16, 24)),
        limb0: u64_from_be(s.subrange(24, 32)),
    }
}

fn push_u64_be(out: &mut Vec<u8>, x: u64)
    ensures
        final(out)@ == old(out)@ + u64_be_bytes(x),
{
    out.push((x >> 56) as u8);
    out.push((x >> 48) as u8);
    out.push((x >> 40) as u8);
    out.push((x >> 32) as u8);
    out.push((x >> 24) as u8);
    out.push((x >> 16) as u8);
    out.push((x >> 8) as u8);
    out.push(x as u8);
    proof {
        assert(out@ =~= old(out)@ + u64_be_bytes(x));
    }
}

fn read_u64_be(bytes: &Vec<u8>, off: usize) -> (r: u64)
    requires
        off + 8 <= bytes@.len(),
    ensures
        r == u64_from_be(bytes@.subrange(off as int, off as int + 8)),
{
    // Binding the length as a usize puts its machine bound in scope for the
    // index arithmetic below.
    let n: usize = bytes.len();
    ((bytes[off] as u64) << 56) | ((bytes[off + 1] as u64) << 48) | ((bytes[off + 2] as u64) << 40)
        | ((bytes[off + 3] as u64) << 32) | ((bytes[off + 4] as u64) << 24)
        | ((bytes[off + 5] as u64) << 16) | ((bytes[off + 6] as u64) << 8)
        | (bytes[off + 7] as u64)
}

/// The word read from a 32-byte big-endian buffer.
pub fn from_be_bytes(bytes: &Vec<u8>) -> (r: Word)
    requires
        bytes@.len() == 32,
    ensures
        r == word_from_be(bytes@),
{
    let limb3 = read_u64_be(bytes, 0);
    let limb2 = read_u64_be(bytes, 8);
    let limb1 = read_u64_be(bytes, 16);
    let limb0 = read_u64_be(bytes, 24);
    Word { limb0, limb1, limb2, limb3 }
}

/// How the value of a word determines its limbs: each limb is the matching
/// 64-bit window of the value.
pub proof fn lemma_word_nat_fields(w: Word)
    ensures
        w.as_nat() % pow64() == w.limb0,
        w.as_nat() / pow64() % pow64() == w.limb1,
        w.as_nat() / pow128() % pow64() == w.limb2,
        w.as_nat() / pow192() == w.limb3,
{
    let n = w.as_nat() as int;
    let q1 = w.limb1 as int + w.limb2 as int * pow64() + w.limb3 as int * pow128();
    assert(n == q1 * pow64() + w.limb0);
    lemma_fundamental_div_mod_converse(n, pow64() as int, q1, w.limb0 as int);
    let q2 = w.limb2 as int + w.limb3 as int * pow64();
    assert(q1 == q2 * pow64() + w.limb1);
    lemma_fundamental_div_mod_converse(q1, pow64() as int, q2, w.limb1 as int);
    assert(q2 == (w.limb3 as int) * pow64() + w.limb2);
    lemma_fundamental_div_mod_converse(q2, pow64() as int, w.limb3 as int, w.limb2 as int);
    assert(n == q2 * pow128() + (w.limb1 as int * pow64() + w.limb0));
    assert(0 <= w.limb1 as int * pow64() + w.limb0 < pow128());
    lemma_fundamental_div_mod_converse(
        n,
        pow128() as int,
        q2,
        w.limb1 as int * pow64() + w.limb0,
    );
    let r3 = w.limb2 as int * pow128() + w.limb1 as int * pow64() + w.limb0;
    assert(n == (w.limb3 as int) * pow192() + r3);
    assert(0 <= r3 < pow192());
    lemma_fundamental_div_mod_converse(n, pow192() as int, w.limb3 as int, r3);
}

/// Two words with the same value are the same word.
pub proof fn lemma_as_nat_injective(a: Word, b: Word)
    requires
        a.as_nat() == b.as_nat(),
    ensures
        a == b,
{
    lemma_word_nat_fields(a);
    lemma_word_nat_fields(b);
}

/// Splitting the value of a word at bit 224: everything below is the three low
/// limbs plus the low half of the top limb, everything at or above is the high
/// half of the top limb.
pub proof fn lemma_as_nat_split224(w: Word)
    ensures
        w.as_nat() % pow224() == w.limb0 as nat + w.limb1 as nat * pow64()
            + w.limb2 as nat * pow128() + (w.limb3 as nat % 0x1_0000_0000) * pow192(),
        w.as_nat() / pow224() == w.limb3 as nat / 0x1_0000_0000,
{
    let n = w.as_nat() as int;
    let hi = w.limb3 as int / 0x1_0000_0000;
    let lo3 = w.limb3 as int % 0x1_0000_0000;
    lemma_fundamental_div_mod(w.limb3 as int, 0x1_0000_0000);
    let r = w.limb0 as int + w.limb1 as int * pow64() + w.limb2 as int * pow128() + lo3 * pow192();
    assert(w.limb3 as int * pow192() == (0x1_0000_0000 * hi + lo3) * pow192());
    assert((0x1_0000_0000 * hi + lo3) * pow192() == hi * pow224() + lo3 * pow192())
        by (nonlinear_arith);
    assert(n == hi * pow224() + r);
    assert(0 <= lo3 * pow192() <= (0x1_0000_0000 - 1) * pow192());
    assert(0 <= r < pow224());
    lemma_fundamental_div_mod_converse(n, pow224() as int, hi, r);
}

} // verus!
