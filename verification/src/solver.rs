use crate::codec::{
    lemma_set_unlocked_preserves_other_bits, next_key, set_unlocked_bit, spec_next_key,
    spec_set_unlocked, spec_unlocked,
};
use crate::slot::{compute, derived_slot};
use crate::store::{stored_word, MemStore};
use crate::word::{lemma_word_nat_fields, pow64, Word};
use vstd::prelude::*;

verus! {

/// Base slot of the contract's value mapping; a record's slot is derived from
/// its key and this slot.
pub const VALUE_MAP_BASE_SLOT: u64 = 2;

/// Fixed slot whose low 64 bits hold the number of chain nodes.
pub const LENGTH_SLOT: u64 = 4;

/// The value mapping's base slot as a word.
pub open spec fn base_slot_word() -> Word {
    Word::spec_from_u64(VALUE_MAP_BASE_SLOT)
}

/// The length slot as a word.
pub open spec fn length_slot_word() -> Word {
    Word::spec_from_u64(LENGTH_SLOT)
}

/// Ephemeral state of one traversal: the identifiers visited so far in order,
/// the key about to be visited, and how many visits are still owed.
pub struct ChainState {
    pub ids: Vec<Word>,
    pub cur_key: Word,
    pub remaining: u64,
}

/// Storage after one visit of `key`: the record at the derived slot has its
/// unlocked flag set; every other slot is untouched.
pub open spec fn chain_step_map(m: Map<Word, Word>, key: Word) -> Map<Word, Word> {
    m.insert(
        derived_slot(key, base_slot_word()),
        spec_set_unlocked(stored_word(m, derived_slot(key, base_slot_word()))),
    )
}

/// The key visited after `key`: the parity branch applied to the record word
/// at the derived slot.
pub open spec fn chain_step_key(m: Map<Word, Word>, key: Word) -> Word {
    spec_next_key(stored_word(m, derived_slot(key, base_slot_word())))
}

/// The identifiers an `n`-step traversal visits, starting from `key` over
/// storage `m`: each step records the current key, flips the unlocked flag in
/// storage, and branches on the record just read.
pub open spec fn chain_ids(m: Map<Word, Word>, key: Word, n: nat) -> Seq<Word>
    decreases n,
{
    if n == 0 {
        Seq::empty()
    } else {
        seq![key] + chain_ids(chain_step_map(m, key), chain_step_key(m, key), (n - 1) as nat)
    }
}

/// Storage after an `n`-step traversal starting from `key` over `m`.
pub open spec fn chain_final_map(m: Map<Word, Word>, key: Word, n: nat) -> Map<Word, Word>
    decreases n,
{
    if n == 0 {
        m
    } else {
        chain_final_map(chain_step_map(m, key), chain_step_key(m, key), (n - 1) as nat)
    }
}

/// Whatever the storage holds, an `n`-step traversal visits exactly `n`
/// identifiers, and the first one is the starting key.
pub proof fn lemma_chain_ids_shape(m: Map<Word, Word>, key: Word, n: nat)
    ensures
        chain_ids(m, key, n).len() == n,
        n > 0 ==> chain_ids(m, key, n)[0] == key,
    decreases n,
{
    if n > 0 {
        lemma_chain_ids_shape(chain_step_map(m, key), chain_step_key(m, key), (n - 1) as nat);
    }
}

/// Once a slot holds an unlocked record, the rest of a traversal never clears
/// it: every write only sets the flag, it never clears a bit.
proof fn lemma_chain_preserves_unlocked(m: Map<Word, Word>, key: Word, n: nat, slot: Word)
    requires
        spec_unlocked(stored_word(m, slot)),
    ensures
        spec_unlocked(stored_word(chain_final_map(m, key, n), slot)),
    decreases n,
{
    if n > 0 {
        lemma_set_unlocked_preserves_other_bits(
            stored_word(m, derived_slot(key, base_slot_word())),
        );
        lemma_chain_preserves_unlocked(
            chain_step_map(m, key),
            chain_step_key(m, key),
            (n - 1) as nat,
            slot,
        );
    }
}

/// After a traversal, the record of every visited identifier sits in storage
/// with its unlocked flag set.
pub proof fn lemma_chain_unlocks_every_visited(m: Map<Word, Word>, key: Word, n: nat)
    ensures
        forall|i: int|
            0 <= i < n ==> spec_unlocked(
                stored_word(
                    chain_final_map(m, key, n),
                    derived_slot(chain_ids(m, key, n)[i], base_slot_word()),
                ),
            ),
    decreases n,
{
    if n > 0 {
        let m1 = chain_step_map(m, key);
        let k1 = chain_step_key(m, key);
        lemma_chain_unlocks_every_visited(m1, k1, (n - 1) as nat);
        lemma_set_unlocked_preserves_other_bits(
            stored_word(m, derived_slot(key, base_slot_word())),
        );
        lemma_chain_preserves_unlocked(m1, k1, (n - 1) as nat, derived_slot(key, base_slot_word()));
        lemma_chain_ids_shape(m1, k1, (n - 1) as nat);
        assert(chain_ids(m, key, n) == seq![key] + chain_ids(m1, k1, (n - 1) as nat));
        assert forall|i: int| 0 <= i < n implies spec_unlocked(
            stored_word(
                chain_final_map(m, key, n),
                derived_slot(chain_ids(m, key, n)[i], base_slot_word()),
            ),
        ) by {
            if i > 0 {
                assert(chain_ids(m, key, n)[i] == chain_ids(m1, k1, (n - 1) as nat)[i - 1]);
            }
        }
    }
}

/// Starts a traversal: the step count is the low 64 bits of the word read
/// from the length slot, the first key is zero, and no identifier has been
/// visited yet.
pub fn chain_begin(total_len_word: &Word) -> (st: ChainState)
    ensures
        st.remaining == total_len_word.limb0,
        st.remaining == total_len_word.as_nat() % pow64(),
        st.cur_key == Word::spec_from_u64(0),
        st.ids@ == Seq::<Word>::empty(),
{
    proof {
        lemma_word_nat_fields(*total_len_word);
    }
    let st = ChainState { ids: Vec::new(), cur_key: Word::zero(), remaining: total_len_word.limb0 };
    proof {
        assert(st.ids@ =~= Seq::<Word>::empty());
    }
    st
}

/// Whether the traversal has performed all its steps.
pub fn chain_done(st: &ChainState) -> (r: bool)
    ensures
        r == (st.remaining == 0),
{
    st.remaining == 0
}

/// The storage slot the traversal visits next: derived from the current key
/// and the value mapping's base slot.
pub fn chain_slot(st: &ChainState) -> (r: Word)
    ensures
        r == derived_slot(st.cur_key, base_slot_word()),
{
    let base = Word::from_u64(VALUE_MAP_BASE_SLOT);
    compute(&st.cur_key, &base)
}

/// Performs one step on the record word read from the current slot: records
/// the current key, branches to the next key by the record's parity, counts
/// the step, and hands back the word to write: the same word with its
/// unlocked flag set.
pub fn chain_apply(st: &mut ChainState, word: &Word) -> (updated: Word)
    requires
        old(st).remaining > 0,
    ensures
        updated == spec_set_unlocked(*word),
        final(st).ids@ == old(st).ids@ + seq![old(st).cur_key],
        final(st).cur_key == spec_next_key(*word),
        final(st).remaining == old(st).remaining - 1,
{
    let cur = st.cur_key;
    st.ids.push(cur);
    st.cur_key = next_key(word);
    st.remaining = st.remaining - 1;
    set_unlocked_bit(word)
}

/// Runs a whole traversal against an in-memory store: reads the step count
/// from the length slot, visits exactly that many records (flipping each
/// unlocked flag in storage), and returns the visited identifiers in order.
/// Revisited keys are recorded again; nothing is deduplicated.
pub fn solve(store: &mut MemStore) -> (ids: Vec<Word>)
    ensures
        ids@ == chain_ids(
            old(store)@,
            Word::spec_from_u64(0),
            stored_word(old(store)@, length_slot_word()).limb0 as nat,
        ),
        final(store)@ == chain_final_map(
            old(store)@,
            Word::spec_from_u64(0),
            stored_word(old(store)@, length_slot_word()).limb0 as nat,
        ),
        ids@.len() == stored_word(old(store)@, length_slot_word()).limb0,
        ids@.len() > 0 ==> ids@[0] == Word::spec_from_u64(0),
        forall|i: int|
            0 <= i < ids@.len() ==> spec_unlocked(
                stored_word(final(store)@, derived_slot(ids@[i], base_slot_word())),
            ),
{
    let ghost m0 = store@;
    let ghost z = Word::spec_from_u64(0);
    let ghost total = stored_word(m0, length_slot_word()).limb0 as nat;

    let length_slot = Word::from_u64(LENGTH_SLOT);
    let total_word = store.read(&length_slot);
    let mut st = chain_begin(&total_word);
    proof {
        lemma_chain_ids_shape(m0, z, total);
        assert(st.ids@ + chain_ids(store@, st.cur_key, st.remaining as nat) =~= chain_ids(
            m0,
            z,
            total,
        ));
    }
    while st.remaining > 0
        invariant
            st.ids@ + chain_ids(store@, st.cur_key, st.remaining as nat) == chain_ids(m0, z, total),
            chain_final_map(store@, st.cur_key, st.remaining as nat) == chain_final_map(
                m0,
                z,
                total,
            ),
        decreases st.remaining,
    {
        let slot = chain_slot(&st);
        let word = store.read(&slot);
        let ghost m_before = store@;
        let ghost k_before = st.cur_key;
        let ghost r_before = st.remaining as nat;
        let updated = chain_apply(&mut st, &word);
        store.write(&slot, &updated);
        proof {
            assert(store@ =~= chain_step_map(m_before, k_before));
            assert(st.cur_key == chain_step_key(m_before, k_before));
            assert(chain_ids(m_before, k_before, r_before) == seq![k_before] + chain_ids(
                store@,
                st.cur_key,
                st.remaining as nat,
            ));
            assert(st.ids@ + chain_ids(store@, st.cur_key, st.remaining as nat) =~= chain_ids(
                m0,
                z,
                total,
            ));
        }
    }
    proof {
        assert(st.ids@ =~= st.ids@ + chain_ids(store@, st.cur_key, 0));
        lemma_chain_ids_shape(m0, z, total);
        lemma_chain_unlocks_every_visited(m0, z, total);
    }
    st.ids
}

} // verus!
