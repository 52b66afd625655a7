//! Things usefull for decoding LZW encoded data.

use vstd::prelude::*;

verus! {

use crate::lzw::word::Word;
use crate::lzw::{
    dict_model, init_dict, lemma_init_dict, lzw_dec, lzw_dec_ok, lzw_decode_ok, lzw_decode_spec,
    Dictionary,
};
use crate::number_encoders::as_ints;

/// Used to decode LZW encoded data.
pub struct LzwDecoder {
    dictionary: Dictionary,
    last_word: Option<Word>,
}

impl LzwDecoder {
    /// The dictionary as a sequence of words, indexed by code.
    pub closed spec fn dict(self) -> Seq<Seq<u8>> {
        dict_model(self.dictionary@)
    }

    /// The previously emitted word, if any.
    pub closed spec fn last(self) -> Option<Seq<u8>> {
        match self.last_word {
            Option::Some(w) => Option::Some(w@),
            Option::None => Option::None,
        }
    }

    /// Every dictionary word is nonempty, and so is the previous word.
    pub closed spec fn wf(self) -> bool {
        &&& forall|i: int| 0 <= i < self.dict().len() ==> (#[trigger] self.dict()[i]).len() >= 1
        &&& match self.last() {
            Option::Some(w) => w.len() >= 1,
            Option::None => true,
        }
    }

    /// A freshly seeded decoder.
    pub closed spec fn is_fresh(self) -> bool {
        &&& self.dict() == init_dict()
        &&& self.last_word is None
    }

    /// Creates new instance of `LzwDecoder` with dictionary initialized
    /// to all single-symbol words.
    pub fn new() -> (decoder: LzwDecoder)
        ensures
            decoder.wf(),
            decoder.is_fresh(),
    {
        let decoder = LzwDecoder { dictionary: crate::lzw::create_dictionary(), last_word: None };
        proof {
            lemma_init_dict();
        }
        decoder
    }

    /// Finds word in dictionary.
    fn find_word(&self, code: usize) -> (word: Option<Word>)
        ensures
            match word {
                Option::Some(w) => code < self.dict().len() && w@ == self.dict()[code as int],
                Option::None => code >= self.dict().len(),
            },
    {
        if code < self.dictionary.len() {
            proof {
                assert(self.dict()[code as int] == self.dictionary@[code as int]@);
            }
            Some(self.dictionary[code].duplicate())
        } else {
            None
        }
    }

    /// A known code: if a previous word exists it gets extended with the
    /// first symbol of the current word and inserted. Sets the current
    /// word as the new previous word.
    fn word_in_dictionary(&mut self, word: Word) -> (emitted: Option<Word>)
        requires
            old(self).wf(),
            word@.len() >= 1,
        ensures
            final(self).wf(),
            emitted is Some && emitted->0@ == word@,
            final(self).last() == Option::Some(word@),
            final(self).dict() == match old(self).last() {
                Option::Some(lw) => old(self).dict().push(lw.push(word@.first())),
                Option::None => old(self).dict(),
            },
    {
        let taken = self.last_word.take();
        if let Some(mut last_word) = taken {
            last_word.add_symbol(word.get_first_symbol());
            let ghost prev_dict = self.dict();
            self.dictionary.push(last_word);
            proof {
                assert(self.dict() =~= prev_dict.push(old(self).last()->0.push(word@.first())));
                assert forall|i: int| 0 <= i < self.dict().len() implies (#[trigger] self.dict()[i]).len() >= 1 by {
                    if i < prev_dict.len() {
                        assert(self.dict()[i] == prev_dict[i]);
                        assert(prev_dict[i] == old(self).dict()[i]);
                        assert(old(self).dict()[i].len() >= 1);
                    } else {
                        assert(self.dict()[i] == old(self).last()->0.push(word@.first()));
                    }
                }
            }
        }
        self.last_word = Some(word.duplicate());
        Some(word)
    }

    /// The code just past the dictionary: the previous word extended with
    /// its own first symbol is formed, inserted and emitted.
    fn word_not_in_dictionary(&mut self) -> (emitted: Option<Word>)
        requires
            old(self).wf(),
            old(self).last() is Some,
        ensures
            final(self).wf(),
            emitted is Some && emitted->0@ == old(self).last()->0.push(
                old(self).last()->0.first(),
            ),
            final(self).last() == Option::Some(emitted->0@),
            final(self).dict() == old(self).dict().push(emitted->0@),
    {
        let taken = self.last_word.take();
        let mut last_word = match taken {
            Some(w) => w,
            None => vstd::pervasive::unreached(),
        };
        let first = last_word.get_first_symbol();
        last_word.add_symbol(first);
        let ghost prev_dict = self.dict();
        self.dictionary.push(last_word.duplicate());
        proof {
            assert(self.dict() =~= prev_dict.push(last_word@));
            assert forall|i: int| 0 <= i < self.dict().len() implies (#[trigger] self.dict()[i]).len() >= 1 by {
                if i < prev_dict.len() {
                    assert(self.dict()[i] == prev_dict[i]);
                    assert(prev_dict[i] == old(self).dict()[i]);
                    assert(old(self).dict()[i].len() >= 1);
                } else {
                    assert(self.dict()[i] == last_word@);
                }
            }
        }
        self.last_word = Some(last_word.duplicate());
        Some(last_word)
    }

    /// Fetches the code at `pos`, transforms it into a word and updates
    /// the dictionary to handle the rest of the codes.
    fn get_next_word(&mut self, text: &[usize], pos: usize) -> (emitted: Option<Word>)
        requires
            old(self).wf(),
            pos <= text@.len(),
            lzw_dec_ok(old(self).dict(), old(self).last(), as_ints(text@).skip(pos as int)),
        ensures
            final(self).wf(),
            pos == text@.len() ==> emitted is None && *final(self) == *old(self),
            pos < text@.len() ==> {
                &&& emitted is Some
                &&& emitted->0@ + lzw_dec(
                    final(self).dict(),
                    final(self).last(),
                    as_ints(text@).skip(pos + 1),
                ) == lzw_dec(old(self).dict(), old(self).last(), as_ints(text@).skip(pos as int))
                &&& lzw_dec_ok(final(self).dict(), final(self).last(), as_ints(text@).skip(pos + 1))
            },
    {
        if pos >= text.len() {
            return None;
        }
        let code = text[pos];
        proof {
            assert(as_ints(text@).skip(pos as int).first() == code as int);
            assert(as_ints(text@).skip(pos as int).drop_first() =~= as_ints(text@).skip(pos + 1));
        }
        match self.find_word(code) {
            Some(word) => self.word_in_dictionary(word),
            None => self.word_not_in_dictionary(),
        }
    }

    /// Decodes LZW encoded `text` into a `Vec<u8>`.
    pub fn decode_text(&mut self, text: &[usize]) -> (decoded: Vec<u8>)
        requires
            old(self).wf(),
            old(self).is_fresh(),
            lzw_decode_ok(as_ints(text@)),
        ensures
            final(self).wf(),
            decoded@ == lzw_decode_spec(as_ints(text@)),
    {
        let mut decoded: Vec<u8> = Vec::new();
        let mut pos: usize = 0;
        proof {
            assert(as_ints(text@).skip(0) =~= as_ints(text@));
            assert(decoded@ =~= Seq::<u8>::empty());
            assert(Seq::<u8>::empty() + lzw_decode_spec(as_ints(text@)) =~= lzw_decode_spec(
                as_ints(text@),
            ));
        }
        while pos < text.len()
            invariant
                self.wf(),
                pos <= text@.len(),
                lzw_dec_ok(self.dict(), self.last(), as_ints(text@).skip(pos as int)),
                decoded@ + lzw_dec(self.dict(), self.last(), as_ints(text@).skip(pos as int))
                    == lzw_decode_spec(as_ints(text@)),
            decreases text@.len() - pos,
        {
            let ghost before = decoded@;
            let word = match self.get_next_word(text, pos) {
                Some(word) => word,
                None => vstd::pervasive::unreached(),
            };
            let symbols = word.get_symbols();
            let n = symbols.len();
            let mut k: usize = 0;
            while k < n
                invariant
                    k <= n == symbols@.len(),
                    decoded@ == before + symbols@.take(k as int),
                decreases n - k,
            {
                decoded.push(symbols[k]);
                proof {
                    assert(decoded@ =~= before + symbols@.take(k + 1));
                }
                k = k + 1;
            }
            proof {
                assert(symbols@.take(n as int) =~= symbols@);
                assert((before + symbols@) + lzw_dec(
                    self.dict(),
                    self.last(),
                    as_ints(text@).skip(pos + 1),
                ) =~= before + (symbols@ + lzw_dec(
                    self.dict(),
                    self.last(),
                    as_ints(text@).skip(pos + 1),
                )));
            }
            pos = pos + 1;
        }
        proof {
            assert(as_ints(text@).skip(text@.len() as int) =~= Seq::<int>::empty());
            assert(decoded@ + Seq::<u8>::empty() =~= decoded@);
        }
        decoded
    }
}

} // verus!
