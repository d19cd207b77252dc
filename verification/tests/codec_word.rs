use gate_solver::codec::{decode, next_key, set_unlocked_bit};
use gate_solver::slot::compute;
use gate_solver::store::MemStore;
use gate_solver::word::{from_be_bytes, Word};

fn word(limb0: u64, limb1: u64, limb2: u64, limb3: u64) -> Word {
    Word { limb0, limb1, limb2, limb3 }
}

#[test]
fn zero_and_from_u64() {
    assert_eq!(Word::zero(), word(0, 0, 0, 0));
    assert_eq!(Word::from_u64(77), word(77, 0, 0, 0));
}

#[test]
fn be_bytes_round_trip() {
    let w = word(
        0x0102_0304_0506_0708,
        0x1112_1314_1516_1718,
        0x2122_2324_2526_2728,
        0x3132_3334_3536_3738,
    );
    let bytes = w.to_be_bytes();
    assert_eq!(bytes.len(), 32);
    assert_eq!(bytes[0], 0x31);
    assert_eq!(bytes[7], 0x38);
    assert_eq!(bytes[8], 0x21);
    assert_eq!(bytes[24], 0x01);
    assert_eq!(bytes[31], 0x08);
    assert_eq!(from_be_bytes(&bytes), w);
}

#[test]
fn decode_packed_two() {
    // The word 0x...0002: first = 2, second = 0, unlocked clear.
    let w = Word::from_u64(2);
    let r = decode(&w);
    assert_eq!(r.first, 2);
    assert_eq!(r.second, Word::zero());
    assert!(!r.unlocked);
}

#[test]
fn decode_general_word() {
    // second spans limbs 1, 2 and the low 32 bits of limb 3.
    let w = word(10, 11, 12, 0x0000_0005_0000_000d);
    let r = decode(&w);
    assert_eq!(r.first, 10);
    assert_eq!(r.second, word(11, 12, 0x0000_000d, 0));
    assert!(r.unlocked);
    let locked = word(10, 11, 12, 0x0000_0004_0000_000d);
    assert!(!decode(&locked).unlocked);
}

#[test]
fn set_unlocked_bit_on_two() {
    // 0x...0002 with bit 224 set: 0x0000000100...0002.
    let w = Word::from_u64(2);
    let s = set_unlocked_bit(&w);
    assert_eq!(s, word(2, 0, 0, 0x1_0000_0000));
    let r = decode(&s);
    assert_eq!(r.first, 2);
    assert_eq!(r.second, Word::zero());
    assert!(r.unlocked);
}

#[test]
fn set_unlocked_bit_idempotent() {
    let w = word(
        0xdead_beef_dead_beef,
        0xffff_ffff_ffff_ffff,
        0x0123_4567_89ab_cdef,
        0xfedc_ba98_7654_3210,
    );
    let once = set_unlocked_bit(&w);
    let twice = set_unlocked_bit(&once);
    assert_eq!(once, twice);
}

#[test]
fn set_unlocked_bit_preserves_other_bits() {
    let w = word(
        0xdead_beef_dead_beef,
        0xffff_ffff_ffff_ffff,
        0x0123_4567_89ab_cdef,
        0xfedc_ba98_7654_3210,
    );
    let s = set_unlocked_bit(&w);
    let mask: u64 = !0x1_0000_0000;
    assert_eq!(s.limb0, w.limb0);
    assert_eq!(s.limb1, w.limb1);
    assert_eq!(s.limb2, w.limb2);
    assert_eq!(s.limb3 & mask, w.limb3 & mask);
    assert_eq!(s.limb3 & 0x1_0000_0000, 0x1_0000_0000);
}

#[test]
fn next_key_even_takes_first() {
    // first = 2, second = 7: the even branch takes first.
    let w = word(2, 7, 0, 0);
    assert_eq!(next_key(&w), Word::from_u64(2));
}

#[test]
fn next_key_odd_takes_second() {
    // first = 3, second = 7: the odd branch takes second.
    let w = word(3, 7, 0, 0);
    assert_eq!(next_key(&w), Word::from_u64(7));
}

#[test]
fn next_key_zero_counts_as_even() {
    let w = word(0, 7, 0, 0);
    assert_eq!(next_key(&w), Word::zero());
}

#[test]
fn slot_derivation_deterministic() {
    let key = Word::from_u64(123);
    let base = Word::from_u64(2);
    assert_eq!(compute(&key, &base), compute(&key, &base));
}

#[test]
fn slot_derivation_distinguishes_inputs() {
    let base = Word::from_u64(2);
    let s0 = compute(&Word::zero(), &base);
    let s1 = compute(&Word::from_u64(1), &base);
    assert_ne!(s0, s1);
    assert_ne!(s0, Word::zero());
    assert_ne!(compute(&Word::zero(), &Word::zero()), compute(&Word::zero(), &base));
}

#[test]
fn slot_derivation_known_digest() {
    // Keccak-256 of 64 zero bytes:
    // ad3228b676f7d3cd4284a5443f17f1962b36e491b30a40b2405849e597ba5fb5.
    let s = compute(&Word::zero(), &Word::zero());
    assert_eq!(s.limb3, 0xad32_28b6_76f7_d3cd);
    assert_eq!(s.limb2, 0x4284_a544_3f17_f196);
    assert_eq!(s.limb1, 0x2b36_e491_b30a_40b2);
    assert_eq!(s.limb0, 0x4058_49e5_97ba_5fb5);
}

#[test]
fn store_read_missing_is_zero() {
    let store = MemStore::new();
    assert_eq!(store.read(&Word::from_u64(4)), Word::zero());
}

#[test]
fn store_write_then_read() {
    let mut store = MemStore::new();
    let slot = Word::from_u64(4);
    let other = Word::from_u64(5);
    store.write(&slot, &Word::from_u64(3));
    assert_eq!(store.read(&slot), Word::from_u64(3));
    assert_eq!(store.read(&other), Word::zero());
    store.write(&slot, &Word::from_u64(9));
    assert_eq!(store.read(&slot), Word::from_u64(9));
}
