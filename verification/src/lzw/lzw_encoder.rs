//! Things usefull for encoding LZW encoded data.

use vstd::prelude::*;

verus! {

use crate::lzw::word::Word;
use crate::lzw::{
    dict_model, first_index, init_dict, lemma_first_index_of, lemma_init_dict, lzw_dict_inv,
    lzw_enc, lzw_encode_spec, Dictionary, ALPHABET_SIZE,
};
use crate::number_encoders::as_ints;

/// Used to encode LZW encoded data.
pub struct LzwEncoder {
    dictionary: Dictionary,
    word_code: usize,
    last_symbol: Option<u8>,
}

impl LzwEncoder {
    /// The dictionary as a sequence of words, a word's code being its
    /// index.
    pub closed spec fn dict(self) -> Seq<Seq<u8>> {
        dict_model(self.dictionary@)
    }

    /// The carried-over word: the last symbol of the previously inserted
    /// word, if one is pending.
    pub closed spec fn carry(self) -> Seq<u8> {
        match self.last_symbol {
            Option::Some(s) => seq![s],
            Option::None => Seq::<u8>::empty(),
        }
    }

    /// The dictionary extends the seed words and the next free code is the
    /// dictionary size.
    pub closed spec fn wf(self) -> bool {
        &&& lzw_dict_inv(self.dict())
        &&& self.word_code == self.dict().len()
    }

    /// A freshly seeded encoder.
    pub closed spec fn is_fresh(self) -> bool {
        &&& self.dict() == init_dict()
        &&& self.last_symbol is None
    }

    /// Creates new instance of `LzwEncoder` with dictionary initialized
    /// to all single-symbol words.
    pub fn new() -> (encoder: LzwEncoder)
        ensures
            encoder.wf(),
            encoder.is_fresh(),
    {
        let encoder = LzwEncoder {
            dictionary: crate::lzw::create_hashmap_dictionary(),
            word_code: ALPHABET_SIZE as usize + 1,
            last_symbol: None,
        };
        proof {
            lemma_init_dict();
        }
        encoder
    }

    /// Finds word in the dictionary: the first code carrying it, if any.
    fn find_word(&self, word: &Word) -> (code: Option<usize>)
        ensures
            match code {
                Option::Some(i) => {
                    &&& i < self.dict().len()
                    &&& self.dict()[i as int] == word@
                    &&& forall|j: int| 0 <= j < i ==> self.dict()[j] != word@
                    &&& first_index(self.dict(), word@) == i
                },
                Option::None => !self.dict().contains(word@),
            },
    {
        let n = self.dictionary.len();
        let mut i: usize = 0;
        while i < n
            invariant
                i <= n == self.dict().len(),
                forall|j: int| 0 <= j < i ==> self.dict()[j] != word@,
            decreases n - i,
        {
            if self.dictionary[i].same_symbols(word) {
                proof {
                    assert(self.dict()[i as int] == word@);
                    lemma_first_index_of(self.dict(), word@, i as int);
                }
                return Some(i);
            }
            proof {
                assert(self.dict()[i as int] == self.dictionary@[i as int]@);
            }
            i = i + 1;
        }
        proof {
            if self.dict().contains(word@) {
                let k = choose|k: int| 0 <= k < self.dict().len() && self.dict()[k] == word@;
                assert(self.dict()[k] != word@);
            }
        }
        None
    }

    /// The code of a word known to be in the dictionary.
    fn get_word_code(&self, word: &Word) -> (code: usize)
        requires
            self.dict().contains(word@),
        ensures
            code == first_index(self.dict(), word@),
    {
        match self.find_word(word) {
            Some(code) => code,
            None => vstd::pervasive::unreached(),
        }
    }

    /// The number of words the dictionary currently holds.
    pub fn dictionary_len(&self) -> (n: usize)
        ensures
            n == self.dict().len(),
    {
        self.dictionary.len()
    }

    /// Gets the next code from `text` starting at `pos`, updating the
    /// dictionary and the carried symbol; `None` once everything has been
    /// consumed and emitted.
    pub fn get_next_code(&mut self, text: &[u8], pos: usize) -> (step: Option<(usize, usize)>)
        requires
            old(self).wf(),
            pos <= text@.len(),
        ensures
            final(self).wf(),
            match step {
                Option::None => {
                    &&& *final(self) == *old(self)
                    &&& old(self).carry().len() == 0
                    &&& pos == text@.len()
                },
                Option::Some((code, next_pos)) => {
                    &&& pos <= next_pos <= text@.len()
                    &&& seq![code as int] + lzw_enc(
                        final(self).dict(),
                        final(self).carry(),
                        text@.skip(next_pos as int),
                    ) == lzw_enc(old(self).dict(), old(self).carry(), text@.skip(pos as int))
                    &&& text@.len() - next_pos + final(self).carry().len() < text@.len() - pos
                        + old(self).carry().len()
                },
            },
    {
        let ghost start_dict = self.dict();
        let ghost start_carry = self.carry();
        let mut curr_word = Word::new();
        let mut i = pos;
        match self.last_symbol {
            Some(last_symbol) => {
                curr_word.add_symbol(last_symbol);
                proof {
                    assert(curr_word@ =~= start_carry);
                }
            },
            None => {
                if i >= text.len() {
                    return None;
                }
                curr_word.add_symbol(text[i]);
                i = i + 1;
                proof {
                    assert(text@.skip(pos as int).first() == text@[pos as int]);
                    assert(text@.skip(pos as int).drop_first() =~= text@.skip(pos + 1));
                    assert(start_carry.push(text@[pos as int]) =~= curr_word@);
                    assert(self.dict()[text@[pos as int] as int] == seq![text@[pos as int]]);
                    assert(self.dict().contains(curr_word@)) by {
                        assert(self.dict()[text@[pos as int] as int] == curr_word@);
                    }
                }
            },
        }
        proof {
            assert(self.dict().contains(curr_word@)) by {
                if self.last_symbol is Some {
                    assert(self.dict()[curr_word@[0] as int] == curr_word@);
                }
            }
        }
        loop
            invariant
                self.wf(),
                *self == *old(self),
                start_dict == old(self).dict(),
                start_carry == old(self).carry(),
                pos <= i <= text@.len(),
                curr_word@.len() >= 1,
                self.dict().contains(curr_word@),
                start_carry.len() == 0 ==> pos < i,
                lzw_enc(self.dict(), curr_word@, text@.skip(i as int)) == lzw_enc(
                    start_dict,
                    start_carry,
                    text@.skip(pos as int),
                ),
            decreases text@.len() - i,
        {
            if i >= text.len() {
                let code = self.get_word_code(&curr_word);
                self.last_symbol = None;
                proof {
                    assert(text@.skip(i as int) =~= Seq::<u8>::empty());
                    assert(lzw_enc(self.dict(), self.carry(), text@.skip(i as int))
                        =~= Seq::<int>::empty());
                    assert(seq![code as int] + Seq::<int>::empty() =~= seq![code as int]);
                }
                return Some((code, i));
            }
            let symbol = text[i];
            let ghost w_prev = curr_word@;
            curr_word.add_symbol(symbol);
            i = i + 1;
            proof {
                assert(text@.skip(i - 1).first() == text@[i - 1]);
                assert(text@.skip(i - 1).drop_first() =~= text@.skip(i as int));
            }
            match self.find_word(&curr_word) {
                Some(_) => {
                    proof {
                        assert(self.dict().contains(curr_word@));
                    }
                },
                None => {
                    proof {
                        assert(curr_word@.drop_last() =~= w_prev);
                    }
                    let code = self.get_word_code(&curr_word.without_last_symbol());
                    self.last_symbol = Some(curr_word.get_last_symbol());
                    let ghost prev_dict = self.dict();
                    self.dictionary.push(curr_word);
                    let new_len = self.dictionary.len();
                    proof {
                        assert(new_len == prev_dict.len() + 1);
                    }
                    self.word_code = self.word_code + 1;
                    proof {
                        assert(self.dict() =~= prev_dict.push(w_prev.push(symbol)));
                        assert(lzw_dict_inv(self.dict())) by {
                            assert(forall|k: int|
                                0 <= k < prev_dict.len() ==> self.dict()[k] == #[trigger] prev_dict[k]);
                        }
                        assert(self.carry() =~= seq![symbol]);
                        assert(seq![symbol].first() == symbol);
                    }
                    return Some((code, i));
                },
            }
        }
    }

    /// Encodes `text` using LZW encoding into a `Vec<usize>` of codes.
    pub fn encode_text(&mut self, text: &[u8]) -> (codes: Vec<usize>)
        requires
            old(self).wf(),
            old(self).is_fresh(),
        ensures
            final(self).wf(),
            as_ints(codes@) == lzw_encode_spec(text@),
    {
        let mut codes: Vec<usize> = Vec::new();
        let mut pos: usize = 0;
        proof {
            assert(text@.skip(0) =~= text@);
            assert(as_ints(codes@) =~= Seq::<int>::empty());
            assert(Seq::<int>::empty() + lzw_encode_spec(text@) =~= lzw_encode_spec(text@));
            assert(old(self).carry() =~= Seq::<u8>::empty());
        }
        loop
            invariant
                self.wf(),
                pos <= text@.len(),
                as_ints(codes@) + lzw_enc(self.dict(), self.carry(), text@.skip(pos as int))
                    == lzw_encode_spec(text@),
            ensures
                self.wf(),
                as_ints(codes@) == lzw_encode_spec(text@),
            decreases text@.len() - pos + self.carry().len(),
        {
            let ghost before = as_ints(codes@);
            match self.get_next_code(text, pos) {
                Some((code, next_pos)) => {
                    codes.push(code);
                    pos = next_pos;
                    proof {
                        assert(as_ints(codes@) =~= before + seq![code as int]);
                        assert((before + seq![code as int]) + lzw_enc(
                            self.dict(),
                            self.carry(),
                            text@.skip(pos as int),
                        ) =~= before + (seq![code as int] + lzw_enc(
                            self.dict(),
                            self.carry(),
                            text@.skip(pos as int),
                        )));
                    }
                },
                None => {
                    proof {
                        assert(text@.skip(pos as int) =~= Seq::<u8>::empty());
                        assert(lzw_enc(self.dict(), self.carry(), text@.skip(pos as int))
                            =~= Seq::<int>::empty());
                        assert(as_ints(codes@) + Seq::<int>::empty() =~= as_ints(codes@));
                    }
                    break ;
                },
            }
        }
        codes
    }
}

} // verus!
