use crate::word::Word;
use vstd::prelude::*;

verus! {

/// In-memory stand-in for one contract's persistent storage: a mapping from
/// slot to word. A slot never written reads as the all-zero word, as ledger
/// storage does. Reads and writes against it cannot fail, so it also serves
/// as the controllable backend the solver is exercised against.
pub struct MemStore {
    entries: Vec<(Word, Word)>,
}

/// The mapping a sequence of writes builds up: later writes win.
spec fn entries_map(s: Seq<(Word, Word)>) -> Map<Word, Word>
    decreases s.len(),
{
    if s.len() == 0 {
        Map::empty()
    } else {
        entries_map(s.drop_last()).insert(s.last().0, s.last().1)
    }
}

/// The word a storage mapping holds at a slot: the stored value, or the
/// all-zero word where nothing was ever stored.
pub open spec fn stored_word(m: Map<Word, Word>, slot: Word) -> Word {
    if m.dom().contains(slot) {
        m[slot]
    } else {
        Word::spec_from_u64(0)
    }
}

impl View for MemStore {
    type V = Map<Word, Word>;

    closed spec fn view(&self) -> Map<Word, Word> {
        entries_map(self.entries@)
    }
}

impl MemStore {
    /// An empty store: every slot reads as zero.
    pub fn new() -> (r: MemStore)
        ensures
            r@ == Map::<Word, Word>::empty(),
    {
        MemStore { entries: Vec::new() }
    }

    /// Reads the word at a slot; a slot never written reads as zero.
    pub fn read(&self, slot: &Word) -> (r: Word)
        ensures
            r == stored_word(self@, *slot),
    {
        let n: usize = self.entries.len();
        let mut i: usize = n;
        while i > 0
            invariant
                i <= n,
                n == self.entries@.len(),
                forall|j: int| i <= j < n ==> self.entries@[j].0 != *slot,
            decreases i,
        {
            i = i - 1;
            let pair = &self.entries[i];
            if pair.0 == *slot {
                proof {
                    lemma_entries_map_found(self.entries@, i as int, *slot);
                }
                return pair.1;
            }
        }
        proof {
            lemma_entries_map_absent(self.entries@, *slot);
        }
        Word::zero()
    }

    /// Writes a word at a slot, replacing whatever the slot held.
    pub fn write(&mut self, slot: &Word, value: &Word)
        ensures
            final(self)@ == old(self)@.insert(*slot, *value),
    {
        self.entries.push((*slot, *value));
        proof {
            assert(self.entries@.drop_last() =~= old(self).entries@);
        }
    }
}

/// A match with no later match for the same key is what the mapping holds.
proof fn lemma_entries_map_found(s: Seq<(Word, Word)>, j: int, key: Word)
    requires
        0 <= j < s.len(),
        s[j].0 == key,
        forall|j2: int| j < j2 < s.len() ==> s[j2].0 != key,
    ensures
        entries_map(s).dom().contains(key),
        entries_map(s)[key] == s[j].1,
    decreases s.len(),
{
    if j == s.len() - 1 {
    } else {
        lemma_entries_map_found(s.drop_last(), j, key);
    }
}

/// A key no entry carries is absent from the mapping.
proof fn lemma_entries_map_absent(s: Seq<(Word, Word)>, key: Word)
    requires
        forall|j: int| 0 <= j < s.len() ==> s[j].0 != key,
    ensures
        !entries_map(s).dom().contains(key),
    decreases s.len(),
{
    if s.len() > 0 {
        lemma_entries_map_absent(s.drop_last(), key);
    }
}

} // verus!
