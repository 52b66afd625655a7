//! LZW dictionary coding over an 8-bit alphabet: the shared dictionaries,
//! the mathematical model of encoding and decoding, and the round-trip law.

pub mod lzw_decoder;
pub mod lzw_encoder;
pub mod word;

use vstd::prelude::*;

verus! {

use crate::lzw::word::Word;

/// The largest symbol of the 8-bit alphabet.
pub const ALPHABET_SIZE: u8 = 255;

/// A dictionary of words where a word's code is its index.
pub type Dictionary = Vec<Word>;

/// The dictionary as the sequence of the words it holds.
pub open spec fn dict_model(words: Seq<Word>) -> Seq<Seq<u8>> {
    words.map_values(|w: Word| w@)
}

/// The seed dictionary: the 256 single-symbol words, each at the code
/// equal to its symbol.
pub open spec fn init_dict() -> Seq<Seq<u8>> {
    Seq::new(256, |b: int| seq![b as u8])
}

/// The code of the first occurrence of `w` in the dictionary.
pub open spec fn first_index(dict: Seq<Seq<u8>>, w: Seq<u8>) -> int
    decreases dict.len(),
{
    if dict.len() == 0 {
        0
    } else if dict.first() == w {
        0
    } else {
        1 + first_index(dict.drop_first(), w)
    }
}

/// Where a word occurs, `first_index` finds its first occurrence.
pub proof fn lemma_first_index(dict: Seq<Seq<u8>>, w: Seq<u8>)
    requires
        dict.contains(w),
    ensures
        0 <= first_index(dict, w) < dict.len(),
        dict[first_index(dict, w)] == w,
        forall|j: int| 0 <= j < first_index(dict, w) ==> dict[j] != w,
    decreases dict.len(),
{
    if dict.first() == w {
    } else {
        assert(dict.drop_first().contains(w)) by {
            let i = choose|i: int| 0 <= i < dict.len() && dict[i] == w;
            assert(dict.drop_first()[i - 1] == w);
        }
        lemma_first_index(dict.drop_first(), w);
        assert forall|j: int| 0 <= j < first_index(dict, w) implies dict[j] != w by {
            if j > 0 {
                assert(dict.drop_first()[j - 1] == dict[j]);
            }
        }
    }
}

/// A first occurrence pins `first_index` down.
pub proof fn lemma_first_index_of(dict: Seq<Seq<u8>>, w: Seq<u8>, i: int)
    requires
        0 <= i < dict.len(),
        dict[i] == w,
        forall|j: int| 0 <= j < i ==> dict[j] != w,
    ensures
        first_index(dict, w) == i,
    decreases dict.len(),
{
    if i > 0 {
        assert(dict.first() != w);
        assert(dict.drop_first()[i - 1] == w);
        assert forall|j: int| 0 <= j < i - 1 implies dict.drop_first()[j] != w by {
            assert(dict.drop_first()[j] == dict[j + 1]);
        }
        lemma_first_index_of(dict.drop_first(), w, i - 1);
    }
}

/// The codes the LZW encoder emits from a given dictionary, current word
/// and remaining input. The current word is extended while the dictionary
/// knows it; as soon as it does not, the code of the known prefix is
/// emitted, the extended word enters the dictionary, and the search
/// restarts from the last symbol.
pub open spec fn lzw_enc(dict: Seq<Seq<u8>>, w: Seq<u8>, rest: Seq<u8>) -> Seq<int>
    decreases rest.len(),
{
    if rest.len() == 0 {
        if w.len() == 0 {
            Seq::<int>::empty()
        } else {
            seq![first_index(dict, w)]
        }
    } else {
        let grown = w.push(rest.first());
        if dict.contains(grown) {
            lzw_enc(dict, grown, rest.drop_first())
        } else {
            seq![first_index(dict, w)] + lzw_enc(
                dict.push(grown),
                seq![rest.first()],
                rest.drop_first(),
            )
        }
    }
}

/// The code stream of a byte string, from the seed dictionary.
pub open spec fn lzw_encode_spec(text: Seq<u8>) -> Seq<int> {
    lzw_enc(init_dict(), Seq::<u8>::empty(), text)
}

/// The bytes the LZW decoder emits from a given dictionary, previous word
/// and remaining codes. Each known code emits its word and inserts the
/// previous word extended by the new word's first symbol; the code just
/// past the dictionary is the KwKwK case.
pub open spec fn lzw_dec(dict: Seq<Seq<u8>>, last: Option<Seq<u8>>, codes: Seq<int>) -> Seq<u8>
    decreases codes.len(),
{
    if codes.len() == 0 {
        Seq::<u8>::empty()
    } else {
        let c = codes.first();
        match last {
            Option::None => {
                let w = dict[c];
                w + lzw_dec(dict, Option::Some(w), codes.drop_first())
            },
            Option::Some(lw) => {
                if c < dict.len() {
                    let w = dict[c];
                    w + lzw_dec(dict.push(lw.push(w.first())), Option::Some(w), codes.drop_first())
                } else {
                    let w = lw.push(lw.first());
                    w + lzw_dec(dict.push(w), Option::Some(w), codes.drop_first())
                }
            },
        }
    }
}

/// Whether a code stream stays within the dictionary as it is decoded: the
/// first code must be a seeded one, and every later code at most one past
/// the current dictionary.
pub open spec fn lzw_dec_ok(dict: Seq<Seq<u8>>, last: Option<Seq<u8>>, codes: Seq<int>) -> bool
    decreases codes.len(),
{
    if codes.len() == 0 {
        true
    } else {
        let c = codes.first();
        match last {
            Option::None => 0 <= c < dict.len() && lzw_dec_ok(
                dict,
                Option::Some(dict[c]),
                codes.drop_first(),
            ),
            Option::Some(lw) => {
                &&& 0 <= c <= dict.len()
                &&& if c < dict.len() {
                    lzw_dec_ok(
                        dict.push(lw.push(dict[c].first())),
                        Option::Some(dict[c]),
                        codes.drop_first(),
                    )
                } else {
                    lzw_dec_ok(
                        dict.push(lw.push(lw.first())),
                        Option::Some(lw.push(lw.first())),
                        codes.drop_first(),
                    )
                }
            },
        }
    }
}

/// The byte string of a code stream, from the seed dictionary.
pub open spec fn lzw_decode_spec(codes: Seq<int>) -> Seq<u8> {
    lzw_dec(init_dict(), Option::None, codes)
}

/// A code stream the decoder accepts, from the seed dictionary.
pub open spec fn lzw_decode_ok(codes: Seq<int>) -> bool {
    lzw_dec_ok(init_dict(), Option::None, codes)
}

/// An encoder dictionary is well formed: it extends the seed dictionary
/// and all its words are nonempty.
pub open spec fn lzw_dict_inv(dict: Seq<Seq<u8>>) -> bool {
    &&& dict.len() >= 256
    &&& forall|b: int| 0 <= b < 256 ==> dict[b] == seq![b as u8]
    &&& forall|i: int| 0 <= i < dict.len() ==> (#[trigger] dict[i]).len() >= 1
}

/// The seed dictionary is well formed.
pub proof fn lemma_init_dict()
    ensures
        lzw_dict_inv(init_dict()),
        init_dict().len() == 256,
{
}

/// How the decoder trails the encoder: either nothing has been emitted and
/// the dictionaries agree, or the decoder is exactly one insertion behind,
/// missing the entry the encoder formed from its previous word and the
/// first symbol of the current one.
pub open spec fn enc_dec_inv(
    de: Seq<Seq<u8>>,
    w: Seq<u8>,
    dd: Seq<Seq<u8>>,
    last: Option<Seq<u8>>,
) -> bool {
    &&& lzw_dict_inv(de)
    &&& (w.len() > 0 ==> de.contains(w))
    &&& match last {
        Option::None => dd == de,
        Option::Some(lw) => lw.len() >= 1 && w.len() >= 1 && de == dd.push(lw.push(w.first())),
    }
}

/// The heart of the round trip: from corresponding states, decoding what
/// the encoder emits recovers the current word followed by the remaining
/// input, and every code stays within the decoder's dictionary.
proof fn lemma_lzw_enc_dec(
    de: Seq<Seq<u8>>,
    w: Seq<u8>,
    rest: Seq<u8>,
    dd: Seq<Seq<u8>>,
    last: Option<Seq<u8>>,
)
    requires
        enc_dec_inv(de, w, dd, last),
    ensures
        lzw_dec_ok(dd, last, lzw_enc(de, w, rest)),
        lzw_dec(dd, last, lzw_enc(de, w, rest)) == w + rest,
    decreases rest.len(),
{
    if rest.len() == 0 {
        if w.len() == 0 {
            assert(w + rest =~= Seq::<u8>::empty());
        } else {
            lemma_first_index(de, w);
            let c = first_index(de, w);
            let codes = lzw_enc(de, w, rest);
            assert(codes == seq![c]);
            assert(codes.first() == c);
            assert(codes.drop_first() =~= Seq::<int>::empty());
            match last {
                Option::None => {
                    assert(dd[c] == w);
                    assert(w + lzw_dec(dd, Option::Some(w), codes.drop_first()) =~= w + rest);
                    assert(lzw_dec_ok(dd, Option::Some(dd[c]), codes.drop_first()));
                },
                Option::Some(lw) => {
                    if c < dd.len() {
                        assert(de[c] == dd[c]);
                        assert(dd[c] == w);
                        assert(w + lzw_dec(
                            dd.push(lw.push(w.first())),
                            Option::Some(w),
                            codes.drop_first(),
                        ) =~= w + rest);
                        assert(lzw_dec_ok(
                            dd.push(lw.push(dd[c].first())),
                            Option::Some(dd[c]),
                            codes.drop_first(),
                        ));
                    } else {
                        assert(c == dd.len());
                        assert(de[c] == lw.push(w.first()));
                        assert(w == lw.push(w.first()));
                        assert(w.first() == lw.first());
                        assert(lw.push(lw.first()) == w);
                        assert(w + lzw_dec(dd.push(w), Option::Some(w), codes.drop_first()) =~= w
                            + rest);
                        assert(lzw_dec_ok(
                            dd.push(lw.push(lw.first())),
                            Option::Some(lw.push(lw.first())),
                            codes.drop_first(),
                        ));
                    }
                },
            }
        }
    } else {
        let s = rest.first();
        let grown = w.push(s);
        if de.contains(grown) {
            lemma_lzw_enc_dec(de, grown, rest.drop_first(), dd, last);
            assert(grown + rest.drop_first() =~= w + rest) by {
                assert(w + rest =~= w.push(s) + rest.drop_first());
            }
            if last is Some {
                assert(grown.first() == w.first());
            }
        } else {
            assert(w.len() > 0) by {
                if w.len() == 0 {
                    assert(de[s as int] == seq![s]);
                    assert(grown =~= seq![s]);
                    assert(de.contains(grown));
                }
            }
            lemma_first_index(de, w);
            let c = first_index(de, w);
            let codes = lzw_enc(de, w, rest);
            let tail = lzw_enc(de.push(grown), seq![s], rest.drop_first());
            assert(codes == seq![c] + tail);
            assert(codes.first() == c);
            assert(codes.drop_first() =~= tail);
            assert(grown.len() >= 1 && grown.first() == w.first());
            let pend = grown;
            match last {
                Option::None => {
                    assert(dd[c] == w);
                    assert(enc_dec_inv(de.push(grown), seq![s], dd, Option::Some(w))) by {
                        assert(seq![s].first() == s);
                        assert(w.push(s) == w.push(seq![s].first()));
                        assert(lzw_dict_inv(de.push(grown))) by {
                            assert(forall|i: int|
                                0 <= i < de.len() ==> de.push(grown)[i] == #[trigger] de[i]);
                        }
                        assert(de.push(grown).contains(seq![s])) by {
                            assert(de.push(grown)[s as int] == seq![s as u8]);
                        }
                    }
                    lemma_lzw_enc_dec(de.push(grown), seq![s], rest.drop_first(), dd, Option::Some(w));
                    assert(lzw_dec_ok(dd, Option::Some(dd[c]), codes.drop_first()));
                    assert(lzw_dec(dd, last, codes) == w + (seq![s] + rest.drop_first()));
                    assert(w + (seq![s] + rest.drop_first()) =~= w + rest);
                },
                Option::Some(lw) => {
                    let wd = if c < dd.len() {
                        dd[c]
                    } else {
                        lw.push(lw.first())
                    };
                    assert(c <= dd.len());
                    if c < dd.len() {
                        assert(de[c] == dd[c]);
                        assert(wd == w);
                    } else {
                        assert(de[c] == lw.push(w.first()));
                        assert(w == lw.push(w.first()));
                        assert(w.first() == lw.first());
                        assert(wd == w);
                    }
                    let dd2 = dd.push(lw.push(wd.first()));
                    assert(dd2 == de) by {
                        assert(lw.push(wd.first()) == lw.push(w.first()));
                    }
                    assert(enc_dec_inv(de.push(grown), seq![s], dd2, Option::Some(w))) by {
                        assert(seq![s].first() == s);
                        assert(lzw_dict_inv(de.push(grown))) by {
                            assert(forall|i: int|
                                0 <= i < de.len() ==> de.push(grown)[i] == #[trigger] de[i]);
                        }
                        assert(de.push(grown).contains(seq![s])) by {
                            assert(de.push(grown)[s as int] == seq![s as u8]);
                        }
                        assert(de.push(grown) == dd2.push(w.push(seq![s].first())));
                    }
                    lemma_lzw_enc_dec(
                        de.push(grown),
                        seq![s],
                        rest.drop_first(),
                        dd2,
                        Option::Some(w),
                    );
                    if c < dd.len() {
                        assert(lzw_dec_ok(
                            dd.push(lw.push(dd[c].first())),
                            Option::Some(dd[c]),
                            codes.drop_first(),
                        ));
                    } else {
                        assert(lzw_dec_ok(
                            dd.push(lw.push(lw.first())),
                            Option::Some(lw.push(lw.first())),
                            codes.drop_first(),
                        ));
                    }
                    assert(lzw_dec(dd, last, codes) == w + (seq![s] + rest.drop_first()));
                    assert(w + (seq![s] + rest.drop_first()) =~= w + rest);
                },
            }
        }
    }
}

/// LZW round trip law: decoding the code stream of any byte string gives
/// the byte string back, and the code stream is always accepted.
pub proof fn lemma_lzw_round_trip(text: Seq<u8>)
    ensures
        lzw_decode_ok(lzw_encode_spec(text)),
        lzw_decode_spec(lzw_encode_spec(text)) == text,
{
    lemma_init_dict();
    lemma_lzw_enc_dec(init_dict(), Seq::<u8>::empty(), text, init_dict(), Option::None);
    assert(Seq::<u8>::empty() + text =~= text);
}

/// Every emitted code is a dictionary index at the moment of emission, so
/// it stays below the seed size plus the input length.
proof fn lemma_lzw_enc_bounded(de: Seq<Seq<u8>>, w: Seq<u8>, rest: Seq<u8>)
    requires
        lzw_dict_inv(de),
        w.len() > 0 ==> de.contains(w),
    ensures
        lzw_enc(de, w, rest).len() <= rest.len() + 1,
        forall|k: int|
            0 <= k < lzw_enc(de, w, rest).len() ==> 0 <= #[trigger] lzw_enc(de, w, rest)[k]
                < de.len() + rest.len(),
    decreases rest.len(),
{
    if rest.len() == 0 {
        if w.len() > 0 {
            lemma_first_index(de, w);
        }
    } else {
        let s = rest.first();
        let grown = w.push(s);
        if de.contains(grown) {
            lemma_lzw_enc_bounded(de, grown, rest.drop_first());
        } else {
            assert(w.len() > 0) by {
                if w.len() == 0 {
                    assert(de[s as int] == seq![s]);
                    assert(grown =~= seq![s]);
                    assert(de.contains(grown));
                }
            }
            lemma_first_index(de, w);
            assert(lzw_dict_inv(de.push(grown))) by {
                assert(forall|i: int| 0 <= i < de.len() ==> de.push(grown)[i] == #[trigger] de[i]);
            }
            assert(de.push(grown).contains(seq![s])) by {
                assert(de.push(grown)[s as int] == seq![s as u8]);
            }
            lemma_lzw_enc_bounded(de.push(grown), seq![s], rest.drop_first());
            let codes = lzw_enc(de, w, rest);
            let tail = lzw_enc(de.push(grown), seq![s], rest.drop_first());
            assert forall|k: int| 0 <= k < codes.len() implies 0 <= #[trigger] codes[k] < de.len()
                + rest.len() by {
                if k > 0 {
                    assert(codes[k] == tail[k - 1]);
                }
            }
        }
    }
}

/// The code stream of a byte string: at most one code more than there are
/// bytes, every code below the seed size plus the input length.
pub proof fn lemma_lzw_codes_bounded(text: Seq<u8>)
    ensures
        lzw_encode_spec(text).len() <= text.len() + 1,
        forall|k: int|
            0 <= k < lzw_encode_spec(text).len() ==> 0 <= #[trigger] lzw_encode_spec(text)[k] < 256
                + text.len(),
{
    lemma_init_dict();
    lemma_lzw_enc_bounded(init_dict(), Seq::<u8>::empty(), text);
}

/// Creates initial dictionary for LzwDecoder.
pub fn create_dictionary() -> (dictionary: Dictionary)
    ensures
        dict_model(dictionary@) == init_dict(),
{
    let mut dictionary: Dictionary = Vec::new();
    let mut n: usize = 0;
    while n < 256
        invariant
            n <= 256,
            dictionary@.len() == n,
            forall|i: int| 0 <= i < n ==> #[trigger] dict_model(dictionary@)[i] == seq![i as u8],
        decreases 256 - n,
    {
        let ghost prev = dictionary@;
        dictionary.push(Word::from_vec(vec![n as u8]));
        proof {
            assert forall|i: int| 0 <= i <= n implies #[trigger] dict_model(dictionary@)[i]
                == seq![i as u8] by {
                assert(dict_model(dictionary@)[i] == dictionary@[i]@);
                if i < n {
                    assert(dictionary@[i] == prev[i]);
                    assert(dict_model(prev)[i] == prev[i]@);
                } else {
                    assert(dictionary@[n as int]@ =~= seq![n as u8]);
                }
            }
        }
        n = n + 1;
    }
    proof {
        assert(dict_model(dictionary@) =~= init_dict());
    }
    dictionary
}

/// Creates initial dictionary for LzwEncoder: the same seed words, looked
/// up by word, with a word's code given by its index.
pub fn create_hashmap_dictionary() -> (dictionary: Dictionary)
    ensures
        dict_model(dictionary@) == init_dict(),
{
    create_dictionary()
}

} // verus!
