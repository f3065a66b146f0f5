//! Read-only access to word-addressed memory.
//!
//! The decoder never depends on how memory is stored: it sees a `WordReader`,
//! whose model is a map from the addresses that were written to their words.

use std::collections::HashMap;
use vstd::prelude::*;

verus! {

broadcast use vstd::std_specs::hash::group_hash_axioms;

/// The unit of memory: four limbs.
pub type Word = [u64; 4];

/// The word at `address`, or `None` where nothing was written there.
pub open spec fn word_at(memory: Map<u64, Word>, address: u64) -> Option<Word> {
    if memory.contains_key(address) {
        Some(memory[address])
    } else {
        None
    }
}

/// Random access to a snapshot of memory.
pub trait WordReader {
    /// The words of the snapshot, by address.
    spec fn memory(&self) -> Map<u64, Word>;

    /// The word at `address`, or `None` where that address was never written.
    fn read(&self, address: u64) -> (word: Option<Word>)
        ensures
            word == word_at(self.memory(), address),
    ;
}

/// A run of consecutive words that starts at a base address.
#[derive(Debug)]
pub struct WordMemory {
    pub base: u64,
    pub words: Vec<Word>,
}

impl WordMemory {
    /// The snapshot that holds `words` at `base`, `base + 1`, and so on.
    pub fn new(base: u64, words: Vec<Word>) -> (snapshot: WordMemory)
        ensures
            snapshot.base == base,
            snapshot.words == words,
    {
        WordMemory { base, words }
    }

    /// Whether `address` lies in the run.
    pub open spec fn holds(&self, address: u64) -> bool {
        self.base <= address && address - self.base < self.words.len()
    }
}

impl WordReader for WordMemory {
    open spec fn memory(&self) -> Map<u64, Word> {
        Map::new(|a: u64| self.holds(a), |a: u64| self.words@[a - self.base])
    }

    fn read(&self, address: u64) -> (word: Option<Word>) {
        if address < self.base {
            return None;
        }
        let offset: u64 = address - self.base;
        if offset < self.words.len() as u64 {
            Some(self.words[offset as usize])
        } else {
            None
        }
    }
}

/// Words at scattered addresses.
pub struct SparseMemory {
    pub cells: HashMap<u64, Word>,
}

impl SparseMemory {
    /// The snapshot in which nothing was written.
    pub fn new() -> (snapshot: SparseMemory)
        ensures
            snapshot.memory() == Map::<u64, Word>::empty(),
    {
        SparseMemory { cells: HashMap::new() }
    }

    /// Writes `word` at `address`, over what was there.
    pub fn store(&mut self, address: u64, word: Word)
        ensures
            final(self).memory() == old(self).memory().insert(address, word),
    {
        self.cells.insert(address, word);
    }
}

impl WordReader for SparseMemory {
    open spec fn memory(&self) -> Map<u64, Word> {
        self.cells@
    }

    fn read(&self, address: u64) -> (word: Option<Word>) {
        match self.cells.get(&address) {
            Some(word) => Some(*word),
            None => None,
        }
    }
}

/// `f` can be called on every address, and its answer depends on the address alone.
pub open spec fn reads_words<F: Fn(u64) -> Option<Word>>(f: F) -> bool {
    &&& forall|address: u64| call_requires(f, (address,))
    &&& forall|address: u64, first: Option<Word>, second: Option<Word>|
        #[trigger] call_ensures(f, (address,), first) && #[trigger] call_ensures(
            f,
            (address,),
            second,
        ) ==> first == second
}

/// `f` answers `address` with `word`.
pub open spec fn answers<F: Fn(u64) -> Option<Word>>(f: F, address: u64, word: Word) -> bool {
    call_ensures(f, (address,), Some(word))
}

/// The memory that `f` gives access to: at each address the word that `f`
/// answers with, and nothing where it answers `None`.
pub open spec fn memory_of<F: Fn(u64) -> Option<Word>>(f: F) -> Map<u64, Word> {
    Map::new(
        |address: u64| exists|word: Word| answers(f, address, word),
        |address: u64| choose|word: Word| answers(f, address, word),
    )
}

/// A snapshot behind a function from addresses to words.
pub struct FnMemory<F: Fn(u64) -> Option<Word>> {
    lookup: F,
}

impl<F: Fn(u64) -> Option<Word>> FnMemory<F> {
    #[verifier::type_invariant]
    spec fn well_formed(self) -> bool {
        reads_words(self.lookup)
    }

    /// The function behind this snapshot.
    pub closed spec fn lookup(self) -> F {
        self.lookup
    }

    /// The snapshot that reads through `lookup`.
    pub fn new(lookup: F) -> (snapshot: Self)
        requires
            reads_words(lookup),
        ensures
            snapshot.lookup() == lookup,
            snapshot.memory() == memory_of(lookup),
    {
        FnMemory { lookup }
    }
}

impl<F: Fn(u64) -> Option<Word>> WordReader for FnMemory<F> {
    closed spec fn memory(&self) -> Map<u64, Word> {
        memory_of(self.lookup)
    }

    fn read(&self, address: u64) -> (word: Option<Word>) {
        proof {
            use_type_invariant(self);
        }
        let word = (self.lookup)(address);
        proof {
            match word {
                Some(w) => {
                    assert(answers(self.lookup, address, w));
                    let chosen = choose|c: Word| answers(self.lookup, address, c);
                    assert(call_ensures(self.lookup, (address,), Some(chosen)));
                },
                None => {
                    if exists|w: Word| answers(self.lookup, address, w) {
                        let w = choose|w: Word| answers(self.lookup, address, w);
                        assert(call_ensures(self.lookup, (address,), Some(w)));
                        assert(false);
                    }
                },
            }
        }
        word
    }
}

} // verus!
