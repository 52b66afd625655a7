//! A lossless byte-stream compressor in two stages: LZW dictionary coding
//! over an 8-bit alphabet, followed by a universal integer coding (Elias
//! gamma, Elias delta, Elias omega, or Fibonacci) that packs the codes into
//! a dense bit stream. Since the integer coders only represent positive
//! numbers, the pipeline shifts every LZW code up by one when encoding and
//! back down when decoding.

pub mod bits;
pub mod elias_omega;
pub mod lzw;
pub mod number_encoders;

pub use number_encoders::{NumberDecoder, NumberEncoder};
pub use number_encoders::delta::{EliasDeltaDecoder, EliasDeltaEncoder};
pub use number_encoders::fibbonaci::{FibbonaciDecoder, FibbonaciEncoder};
pub use number_encoders::gamma::{EliasGammaDecoder, EliasGammaEncoder};
pub use number_encoders::omega::{EliasOmegaDecoder, EliasOmegaEncoder};

use vstd::prelude::*;

verus! {

use crate::bits::Bits;
use crate::lzw::lzw_decoder::LzwDecoder;
use crate::lzw::lzw_encoder::LzwEncoder;
use crate::lzw::{lemma_lzw_codes_bounded, lemma_lzw_round_trip, lzw_decode_spec, lzw_encode_spec};
use crate::number_encoders::{
    all_positive, as_ints, code_concat, lemma_decode_encode, valid_stream,
};

/// Every code moved up by one, away from zero.
pub open spec fn shift_up(codes: Seq<int>) -> Seq<int> {
    codes.map_values(|c: int| c + 1)
}

/// Every code moved back down by one.
pub open spec fn shift_down(codes: Seq<int>) -> Seq<int> {
    codes.map_values(|c: int| c - 1)
}

/// What the compressor produces: the LZW codes of the input, shifted up by
/// one, written as the chosen coder's codewords.
pub open spec fn compress_spec<E: NumberEncoder>(data: Seq<u8>) -> Seq<bool> {
    code_concat(|n: int| E::spec_code(n), shift_up(lzw_encode_spec(data)))
}

/// The same bit stream, described through the decoder's codeword function.
pub open spec fn stream_of<D: NumberDecoder>(data: Seq<u8>) -> Seq<bool> {
    code_concat(|n: int| D::spec_code(n), shift_up(lzw_encode_spec(data)))
}

/// What the decompressor produces: the chosen coder's numbers, shifted
/// back down, decoded as LZW codes.
pub open spec fn decompress_spec<D: NumberDecoder>(bits: Seq<bool>) -> Seq<u8> {
    lzw_decode_spec(shift_down(D::spec_decode(bits)))
}

/// The inputs the compressor accepts: comfortably addressable, so that the
/// shifted codes and the emitted bits all fit the machine word.
pub open spec fn encode_input_ok(data: Seq<u8>) -> bool {
    data.len() + 257 <= usize::MAX / 256
}

/// Compresses `data`: LZW coding, the shift away from zero, then the
/// number coder `E`.
pub fn encode<E: NumberEncoder>(data: &[u8]) -> (bits: Bits)
    requires
        encode_input_ok(data@),
    ensures
        bits.wf(),
        bits@ == compress_spec::<E>(data@),
{
    let mut lzw_encoder = LzwEncoder::new();
    let encoded_lzw = lzw_encoder.encode_text(data);

    proof {
        lemma_lzw_codes_bounded(data@);
    }
    // Needed because elias can't handle 0.
    let mut shifted: Vec<usize> = Vec::new();
    let mut i: usize = 0;
    while i < encoded_lzw.len()
        invariant
            encode_input_ok(data@),
            as_ints(encoded_lzw@) == lzw_encode_spec(data@),
            i <= encoded_lzw@.len(),
            shifted@.len() == i,
            forall|j: int| 0 <= j < i ==> shifted@[j] == encoded_lzw@[j] + 1,
        decreases encoded_lzw@.len() - i,
    {
        proof {
            lemma_lzw_codes_bounded(data@);
            assert(as_ints(encoded_lzw@)[i as int] == encoded_lzw@[i as int] as int);
            assert(0 <= lzw_encode_spec(data@)[i as int] < 256 + data@.len());
        }
        let code = encoded_lzw[i];
        shifted.push(code + 1);
        i = i + 1;
    }
    proof {
        assert(as_ints(shifted@) =~= shift_up(as_ints(encoded_lzw@)));
        assert forall|j: int| 0 <= j < shifted@.len() implies 1 <= #[trigger] shifted@[j]
            <= usize::MAX / 4 by {
            assert(0 <= lzw_encode_spec(data@)[j] < 256 + data@.len());
            assert(shifted@[j] <= 256 + data@.len());
            assert(256 * (256 + data@.len()) <= 256 * (usize::MAX / 256)) by (nonlinear_arith)
                requires
                    data@.len() + 257 <= usize::MAX / 256,
            ;
            assert(256 * (usize::MAX / 256) <= usize::MAX) by (nonlinear_arith);
            assert(4 * (256 + data@.len()) <= 256 * (256 + data@.len())) by (nonlinear_arith)
                requires
                    data@.len() >= 0,
            ;
            assert(4 * (usize::MAX / 4) + 4 > usize::MAX) by (nonlinear_arith);
        }
        assert(shifted@.len() <= usize::MAX / 256);
        E::lemma_encode_pre(shifted@);
    }
    let encoded_numbers = E::encode(shifted.as_slice());
    encoded_numbers
}

/// Decompresses `data`: the number coder `D`, the shift back towards zero,
/// then LZW decoding. The bit stream must have come from the matching
/// compressor.
pub fn decode<D: NumberDecoder>(data: &Bits) -> (decoded: Vec<u8>)
    requires
        data.wf(),
        exists|input: Seq<u8>|
            encode_input_ok(input) && data@ == #[trigger] stream_of::<D>(input),
    ensures
        decoded@ == decompress_spec::<D>(data@),
{
    let ghost input: Seq<u8> = choose|input: Seq<u8>|
        encode_input_ok(input) && data@ == #[trigger] stream_of::<D>(input);
    let ghost codes = shift_up(lzw_encode_spec(input));
    proof {
        lemma_lzw_codes_bounded(input);
        let ns = codes.map_values(|c: int| c as usize);
        assert forall|j: int| 0 <= j < codes.len() implies 1 <= #[trigger] codes[j]
            <= usize::MAX by {
            assert(0 <= lzw_encode_spec(input)[j] < 256 + input.len());
        }
        assert(as_ints(ns) =~= codes);
        assert(valid_stream(|n: int| D::spec_code(n), data@)) by {
            assert(all_positive(as_ints(ns)) && data@ == code_concat(
                |n: int| D::spec_code(n),
                as_ints(ns),
            ));
        }
    }
    let decoded_numbers = D::decode(data);
    proof {
        assert(all_positive(codes)) by {
            assert forall|j: int| 0 <= j < codes.len() implies codes[j] >= 1 by {
                assert(0 <= lzw_encode_spec(input)[j]);
            }
        }
        lemma_decode_encode::<D>(codes);
        assert(as_ints(decoded_numbers@) == codes);
    }

    // Needed because elias can't handle 0.
    let mut shifted: Vec<usize> = Vec::new();
    let mut i: usize = 0;
    while i < decoded_numbers.len()
        invariant
            as_ints(decoded_numbers@) == codes,
            all_positive(codes),
            i <= decoded_numbers@.len(),
            shifted@.len() == i,
            forall|j: int| 0 <= j < i ==> shifted@[j] + 1 == decoded_numbers@[j],
        decreases decoded_numbers@.len() - i,
    {
        proof {
            assert(as_ints(decoded_numbers@)[i as int] == decoded_numbers@[i as int] as int);
            assert(codes[i as int] >= 1);
        }
        let code = decoded_numbers[i];
        shifted.push(code - 1);
        i = i + 1;
    }
    proof {
        assert(as_ints(shifted@) =~= shift_down(as_ints(decoded_numbers@)));
        assert(shift_down(codes) =~= lzw_encode_spec(input));
        lemma_lzw_round_trip(input);
    }
    let mut lzw_decoder = LzwDecoder::new();
    let decoded = lzw_decoder.decode_text(shifted.as_slice());
    decoded
}

/// The compressor round trip, generically: whenever the decoder inverts
/// the encoder's codewords, decompressing a compressed byte string yields
/// the byte string back.
pub proof fn lemma_compressor_round_trip<E: NumberEncoder, D: NumberDecoder>(data: Seq<u8>)
    requires
        forall|n: int| #[trigger] E::spec_code(n) == D::spec_code(n),
    ensures
        decompress_spec::<D>(compress_spec::<E>(data)) == data,
{
    lemma_lzw_codes_bounded(data);
    let codes = shift_up(lzw_encode_spec(data));
    assert(all_positive(codes)) by {
        assert forall|j: int| 0 <= j < codes.len() implies codes[j] >= 1 by {
            assert(0 <= lzw_encode_spec(data)[j]);
        }
    }
    assert((|n: int| E::spec_code(n)) =~= (|n: int| D::spec_code(n)));
    lemma_decode_encode::<D>(codes);
    assert(shift_down(shift_up(lzw_encode_spec(data))) =~= lzw_encode_spec(data));
    lemma_lzw_round_trip(data);
}

/// The compressor round trip for each of the four coders: decompressing a
/// compressed byte string yields the byte string back.
pub proof fn lemma_compressor_round_trip_all(data: Seq<u8>)
    ensures
        decompress_spec::<EliasGammaDecoder>(compress_spec::<EliasGammaEncoder>(data)) == data,
        decompress_spec::<EliasDeltaDecoder>(compress_spec::<EliasDeltaEncoder>(data)) == data,
        decompress_spec::<EliasOmegaDecoder>(compress_spec::<EliasOmegaEncoder>(data)) == data,
        decompress_spec::<FibbonaciDecoder>(compress_spec::<FibbonaciEncoder>(data)) == data,
{
    lemma_compressor_round_trip::<EliasGammaEncoder, EliasGammaDecoder>(data);
    lemma_compressor_round_trip::<EliasDeltaEncoder, EliasDeltaDecoder>(data);
    lemma_compressor_round_trip::<EliasOmegaEncoder, EliasOmegaDecoder>(data);
    lemma_compressor_round_trip::<FibbonaciEncoder, FibbonaciDecoder>(data);
}

} // verus!
