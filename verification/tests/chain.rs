use gate_solver::codec::set_unlocked_bit;
use gate_solver::slot::compute;
use gate_solver::solver::{chain_apply, chain_begin, chain_done, chain_slot, solve, LENGTH_SLOT, VALUE_MAP_BASE_SLOT};
use gate_solver::store::MemStore;
use gate_solver::word::Word;

fn word(limb0: u64, limb1: u64, limb2: u64, limb3: u64) -> Word {
    Word { limb0, limb1, limb2, limb3 }
}

fn record_slot(key: u64) -> Word {
    compute(&Word::from_u64(key), &Word::from_u64(VALUE_MAP_BASE_SLOT))
}

/// A ledger holding a three-node chain 0 -> 5 -> 9 (the record of 9 is
/// terminal and its successor fields are never used).
fn three_node_store() -> MemStore {
    let mut store = MemStore::new();
    store.write(&Word::from_u64(LENGTH_SLOT), &Word::from_u64(3));
    // Record of key 0: first = 7 (odd), second = 5.
    store.write(&record_slot(0), &word(7, 5, 0, 0));
    // Record of key 5: first = 3 (odd), second = 9.
    store.write(&record_slot(5), &word(3, 9, 0, 0));
    // Record of key 9: first = 4 (even), never followed.
    store.write(&record_slot(9), &word(4, 0xdead, 0, 0));
    store
}

#[test]
fn three_node_chain() {
    let mut store = three_node_store();
    let ids = solve(&mut store);
    assert_eq!(ids, vec![Word::zero(), Word::from_u64(5), Word::from_u64(9)]);
    // Every visited record was written back with its unlocked bit set and
    // every other bit intact.
    assert_eq!(store.read(&record_slot(0)), word(7, 5, 0, 0x1_0000_0000));
    assert_eq!(store.read(&record_slot(5)), word(3, 9, 0, 0x1_0000_0000));
    assert_eq!(store.read(&record_slot(9)), word(4, 0xdead, 0, 0x1_0000_0000));
    // The length slot itself is untouched.
    assert_eq!(store.read(&Word::from_u64(LENGTH_SLOT)), Word::from_u64(3));
}

#[test]
fn empty_chain_yields_no_ids() {
    let mut store = MemStore::new();
    let ids = solve(&mut store);
    assert!(ids.is_empty());
}

#[test]
fn ids_length_matches_count_and_starts_at_zero() {
    let mut store = three_node_store();
    let ids = solve(&mut store);
    assert_eq!(ids.len(), 3);
    assert_eq!(ids[0], Word::zero());
}

#[test]
fn short_cycle_repeats_entries() {
    // The record of key 0 points back to key 0; the loop still runs the full
    // count and records the duplicate visits.
    let mut store = MemStore::new();
    store.write(&Word::from_u64(LENGTH_SLOT), &Word::from_u64(3));
    store.write(&record_slot(0), &word(0, 0, 0, 0));
    let ids = solve(&mut store);
    assert_eq!(ids, vec![Word::zero(), Word::zero(), Word::zero()]);
}

#[test]
fn count_reads_low_64_bits_only() {
    // Bits of the length word above 64 do not enter the count.
    let mut store = MemStore::new();
    store.write(&Word::from_u64(LENGTH_SLOT), &word(1, 0xffff, 0, 0));
    store.write(&record_slot(0), &word(2, 0, 0, 0));
    let ids = solve(&mut store);
    assert_eq!(ids, vec![Word::zero()]);
}

#[test]
fn aborted_solve_keeps_committed_writes() {
    // Drive the traversal step by step, as a caller against a fallible
    // backend would, and abort before the second write: the first write
    // stays committed, the rest of the ledger is untouched, and the partial
    // ids are discarded by dropping the state.
    let mut store = three_node_store();
    let total = store.read(&Word::from_u64(LENGTH_SLOT));
    let mut st = chain_begin(&total);

    assert!(!chain_done(&st));
    let slot0 = chain_slot(&st);
    let read0 = store.read(&slot0);
    let updated0 = chain_apply(&mut st, &read0);
    store.write(&slot0, &updated0);

    // Second iteration: the read succeeds, the write "fails"; the solve
    // aborts here and st is dropped.
    assert!(!chain_done(&st));
    let slot1 = chain_slot(&st);
    let read1 = store.read(&slot1);
    let _would_write = chain_apply(&mut st, &read1);
    drop(st);

    assert_eq!(store.read(&record_slot(0)), word(7, 5, 0, 0x1_0000_0000));
    assert_eq!(store.read(&record_slot(5)), word(3, 9, 0, 0));
    assert_eq!(store.read(&record_slot(9)), word(4, 0xdead, 0, 0));
}

#[test]
fn step_functions_match_whole_solve() {
    let mut manual = three_node_store();
    let total = manual.read(&Word::from_u64(LENGTH_SLOT));
    let mut st = chain_begin(&total);
    while !chain_done(&st) {
        let slot = chain_slot(&st);
        let read = manual.read(&slot);
        let updated = chain_apply(&mut st, &read);
        assert_eq!(updated, set_unlocked_bit(&read));
        manual.write(&slot, &updated);
    }

    let mut whole = three_node_store();
    let ids = solve(&mut whole);
    assert_eq!(st.ids, ids);
    for key in [0u64, 5, 9] {
        assert_eq!(manual.read(&record_slot(key)), whole.read(&record_slot(key)));
    }
}
