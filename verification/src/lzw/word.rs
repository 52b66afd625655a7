//! `Word` structure usefull for LZW encoding and decoding.

use vstd::prelude::*;

verus! {

/// Represents words as a sequence of symbols held in a `Vec<u8>`.
pub struct Word {
    symbols: Vec<u8>,
}

impl View for Word {
    type V = Seq<u8>;

    closed spec fn view(&self) -> Seq<u8> {
        self.symbols@
    }
}

impl Word {
    /// Creates new empty instance of `Word`.
    pub fn new() -> (word: Word)
        ensures
            word@ == Seq::<u8>::empty(),
    {
        let word = Word { symbols: Vec::new() };
        proof {
            assert(word@ =~= Seq::<u8>::empty());
        }
        word
    }

    /// Adds one symbol to the end of the `Word`.
    pub fn add_symbol(&mut self, symbol: u8)
        ensures
            final(self)@ == old(self)@.push(symbol),
    {
        self.symbols.push(symbol);
    }

    /// Returns number of symbols in `Word`.
    pub fn len(&self) -> (n: usize)
        ensures
            n == self@.len(),
    {
        self.symbols.len()
    }

    /// Returns last symbol from the `Word`.
    pub fn get_last_symbol(&self) -> (symbol: u8)
        requires
            self@.len() >= 1,
        ensures
            symbol == self@.last(),
    {
        self.symbols[self.symbols.len() - 1]
    }

    /// Return first symbol from the `Word`.
    pub fn get_first_symbol(&self) -> (symbol: u8)
        requires
            self@.len() >= 1,
        ensures
            symbol == self@.first(),
    {
        self.symbols[0]
    }

    /// Returns `Word`'s symbols as `Vec<u8>`.
    /// Consumes `Word` so it can't be used later.
    pub fn get_symbols(self) -> (symbols: Vec<u8>)
        ensures
            symbols@ == self@,
    {
        self.symbols
    }

    /// Returns `Word`'s symbols as `&[u8]`.
    pub fn get_symbols_ref(&self) -> (symbols: &[u8])
        ensures
            symbols@ == self@,
    {
        self.symbols.as_slice()
    }

    /// Returns new `Word` which is this `Word` without last symbol.
    pub fn without_last_symbol(&self) -> (word: Word)
        requires
            self@.len() >= 1,
        ensures
            word@ == self@.drop_last(),
    {
        let n = self.symbols.len() - 1;
        let mut symbols: Vec<u8> = Vec::new();
        let mut i: usize = 0;
        while i < n
            invariant
                i <= n < self@.len() + 1,
                symbols@ == self@.take(i as int),
            decreases n - i,
        {
            symbols.push(self.symbols[i]);
            proof {
                assert(symbols@ =~= self@.take(i + 1));
            }
            i = i + 1;
        }
        proof {
            assert(self@.take(n as int) =~= self@.drop_last());
        }
        Word { symbols }
    }

    /// Builds a `Word` from its symbols.
    pub fn from_vec(symbols: Vec<u8>) -> (word: Word)
        ensures
            word@ == symbols@,
    {
        Word { symbols }
    }

    /// Returns a second `Word` holding the same symbols.
    pub(crate) fn duplicate(&self) -> (word: Word)
        ensures
            word@ == self@,
    {
        let n = self.symbols.len();
        let mut symbols: Vec<u8> = Vec::new();
        let mut i: usize = 0;
        while i < n
            invariant
                i <= n == self@.len(),
                symbols@ == self@.take(i as int),
            decreases n - i,
        {
            symbols.push(self.symbols[i]);
            proof {
                assert(symbols@ =~= self@.take(i + 1));
            }
            i = i + 1;
        }
        proof {
            assert(self@.take(n as int) =~= self@);
        }
        Word { symbols }
    }

    /// True exactly when both words hold the same symbols.
    pub(crate) fn same_symbols(&self, other: &Word) -> (same: bool)
        ensures
            same == (self@ == other@),
    {
        if self.symbols.len() != other.symbols.len() {
            proof {
                assert(self@ != other@);
            }
            return false;
        }
        let n = self.symbols.len();
        let mut i: usize = 0;
        while i < n
            invariant
                i <= n == self@.len() == other@.len(),
                forall|j: int| 0 <= j < i ==> self@[j] == other@[j],
            decreases n - i,
        {
            if self.symbols[i] != other.symbols[i] {
                return false;
            }
            i = i + 1;
        }
        proof {
            assert(self@ =~= other@);
        }
        true
    }
}

} // verus!
