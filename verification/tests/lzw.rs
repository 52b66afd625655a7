use universal_compressor::lzw::lzw_decoder::LzwDecoder;
use universal_compressor::lzw::lzw_encoder::LzwEncoder;

#[test]
fn lzw_decode_works() {
    let mut lzw_decode_dict = LzwDecoder::new();
    let codes = [0, 1, 256, 258, 257, 1];

    let words = lzw_decode_dict.decode_text(&codes);

    assert_eq!(vec![0, 1, 0, 1, 0, 1, 0, 1, 0, 1], words);
}

#[test]
fn initialization_works() {
    let lzw_dict = LzwEncoder::new();

    assert_eq!(256, lzw_dict.dictionary_len());
}

#[test]
fn next_code_works() {
    let mut lzw_dict = LzwEncoder::new();
    let symbols = [0, 1, 2];

    let step = lzw_dict.get_next_code(&symbols, 0);
    let code = step.map(|(code, _)| code);
    let next_pos = step.map(|(_, pos)| pos).unwrap_or(symbols.len());
    let code_two = lzw_dict.get_next_code(&symbols, next_pos).map(|(code, _)| code);

    assert_eq!(Some(0), code);
    assert_eq!(Some(1), code_two);
}

#[test]
fn lzw_works() {
    let mut lzw_dict = LzwEncoder::new();
    let symbols = [0, 1, 0, 1, 0, 1, 0, 1, 0, 1];

    let codes = lzw_dict.encode_text(&symbols);

    assert_eq!(vec![0, 1, 256, 258, 257, 1], codes);
}

#[test]
fn lzw_round_trip_recovers_the_input() {
    let text: Vec<u8> = b"abracadabra abracadabra abracadabra".to_vec();
    let mut encoder = LzwEncoder::new();
    let codes = encoder.encode_text(&text);
    let mut decoder = LzwDecoder::new();
    let decoded = decoder.decode_text(&codes);
    assert_eq!(text, decoded);
}

#[test]
fn lzw_of_empty_input_is_empty() {
    let mut encoder = LzwEncoder::new();
    let codes = encoder.encode_text(&[]);
    assert_eq!(Vec::<usize>::new(), codes);

    let mut decoder = LzwDecoder::new();
    let decoded = decoder.decode_text(&[]);
    assert_eq!(Vec::<u8>::new(), decoded);
}
