use universal_compressor::{
    decode, encode, EliasDeltaDecoder, EliasDeltaEncoder, EliasGammaDecoder, EliasGammaEncoder,
    EliasOmegaDecoder, EliasOmegaEncoder, FibbonaciDecoder, FibbonaciEncoder,
};

#[test]
fn gamma_pipeline_round_trip() {
    let data: Vec<u8> = b"the quick brown fox jumps over the lazy dog".to_vec();
    let bits = encode::<EliasGammaEncoder>(&data);
    let decoded = decode::<EliasGammaDecoder>(&bits);
    assert_eq!(data, decoded);
}

#[test]
fn delta_pipeline_round_trip() {
    let data: Vec<u8> = b"aaaaaaaaaaaaaaaaaaaaaaaabbbbbbbbcccccccc".to_vec();
    let bits = encode::<EliasDeltaEncoder>(&data);
    let decoded = decode::<EliasDeltaDecoder>(&bits);
    assert_eq!(data, decoded);
}

#[test]
fn omega_pipeline_round_trip() {
    let data: Vec<u8> = (0..=255u8).chain(0..=255u8).collect();
    let bits = encode::<EliasOmegaEncoder>(&data);
    let decoded = decode::<EliasOmegaDecoder>(&bits);
    assert_eq!(data, decoded);
}

#[test]
fn fibbonaci_pipeline_round_trip() {
    let data: Vec<u8> = b"to be or not to be, that is the question".to_vec();
    let bits = encode::<FibbonaciEncoder>(&data);
    let decoded = decode::<FibbonaciDecoder>(&bits);
    assert_eq!(data, decoded);
}

#[test]
fn kwkwk_pipeline_round_trip() {
    // The alternating pattern drives the decoder through the case where a
    // code refers to the entry being defined.
    let data: Vec<u8> = vec![0, 1, 0, 1, 0, 1, 0, 1, 0, 1];
    let bits = encode::<EliasOmegaEncoder>(&data);
    let decoded = decode::<EliasOmegaDecoder>(&bits);
    assert_eq!(data, decoded);
}

#[test]
fn empty_input_round_trip() {
    let data: Vec<u8> = Vec::new();
    let bits = encode::<EliasOmegaEncoder>(&data);
    assert_eq!(0, bits.len());
    let decoded = decode::<EliasOmegaDecoder>(&bits);
    assert_eq!(data, decoded);
}

#[test]
fn single_byte_round_trip() {
    for byte in [0u8, 1, 127, 255] {
        let data = vec![byte];
        let bits = encode::<EliasGammaEncoder>(&data);
        let decoded = decode::<EliasGammaDecoder>(&bits);
        assert_eq!(data, decoded);
    }
}
