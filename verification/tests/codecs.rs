use universal_compressor::number_encoders::fibbonaci::Fibbonaci;
use universal_compressor::{
    EliasDeltaDecoder, EliasDeltaEncoder, EliasGammaDecoder, EliasGammaEncoder, EliasOmegaDecoder,
    EliasOmegaEncoder, FibbonaciDecoder, FibbonaciEncoder, NumberDecoder, NumberEncoder,
};

#[test]
fn gamma_encode_works() {
    let number = [137];

    let bits = EliasGammaEncoder::encode(&number);

    assert_eq!([0b00000001, 0b00010010], bits.get_bits());
}

#[test]
fn gamma_decode_number_works() {
    let numbers = [1, 2, 257, 259, 258, 2];

    let encoded = EliasGammaEncoder::encode(&numbers);
    let decoded = EliasGammaDecoder::decode(&encoded);

    assert_eq!(vec![1, 2, 257, 259, 258, 2], decoded);
}

#[test]
fn delta_encode_works() {
    let number = [137];

    let bits = EliasDeltaEncoder::encode(&number);

    assert_eq!([0b00010000, 0b00100100], bits.get_bits());
}

#[test]
fn delta_decode_number_works() {
    let numbers = [1, 2, 257, 259, 258, 2];

    let encoded = EliasDeltaEncoder::encode(&numbers);
    let decoded = EliasDeltaDecoder::decode(&encoded);

    assert_eq!(vec![1, 2, 257, 259, 258, 2], decoded);
}

#[test]
fn omega_encode_works() {
    let number = [137];

    let bits = EliasOmegaEncoder::encode(&number);

    assert_eq!([0b10111100, 0b01001000], bits.get_bits());
}

#[test]
fn omega_decode_number_works() {
    let numbers = [1, 2, 257, 259, 258, 2];

    let encoded = EliasOmegaEncoder::encode(&numbers);
    let decoded = EliasOmegaDecoder::decode(&encoded);

    assert_eq!(vec![1, 2, 257, 259, 258, 2], decoded);
}

#[test]
fn fibbonaci_works() {
    let mut fibbonaci = Fibbonaci::new();

    let index = fibbonaci.find_greater_index(137);

    assert_eq!(10, index);
}

#[test]
fn fibbonaci_encode_works() {
    let number = [137];

    let bits = FibbonaciEncoder::encode(&number);

    assert_eq!([0b10000101, 0b01100000], bits.get_bits());
}

#[test]
fn fibbonaci_decode_number_works() {
    let numbers = [1, 2, 257, 259, 258, 2];

    let encoded = FibbonaciEncoder::encode(&numbers);
    let decoded = FibbonaciDecoder::decode(&encoded);

    assert_eq!(vec![1, 2, 257, 259, 258, 2], decoded);
}

#[test]
fn codeword_bit_lengths_match_the_formats() {
    assert_eq!(15, EliasGammaEncoder::encode(&[137]).len());
    assert_eq!(14, EliasDeltaEncoder::encode(&[137]).len());
    assert_eq!(14, EliasOmegaEncoder::encode(&[137]).len());
    assert_eq!(11, FibbonaciEncoder::encode(&[137]).len());
}

#[test]
fn gamma_streams_concatenate() {
    let first = [5, 1, 9];
    let second = [1, 1, 300];
    let mut bits = EliasGammaEncoder::encode(&first);
    bits.append_bits(&EliasGammaEncoder::encode(&second));
    let decoded = EliasGammaDecoder::decode(&bits);
    assert_eq!(vec![5, 1, 9, 1, 1, 300], decoded);
}

#[test]
fn delta_streams_concatenate() {
    let first = [5, 1, 9];
    let second = [1, 1, 300];
    let mut bits = EliasDeltaEncoder::encode(&first);
    bits.append_bits(&EliasDeltaEncoder::encode(&second));
    let decoded = EliasDeltaDecoder::decode(&bits);
    assert_eq!(vec![5, 1, 9, 1, 1, 300], decoded);
}

#[test]
fn omega_streams_concatenate() {
    let first = [5, 1, 9];
    let second = [1, 1, 300];
    let mut bits = EliasOmegaEncoder::encode(&first);
    bits.append_bits(&EliasOmegaEncoder::encode(&second));
    let decoded = EliasOmegaDecoder::decode(&bits);
    assert_eq!(vec![5, 1, 9, 1, 1, 300], decoded);
}

#[test]
fn fibbonaci_streams_concatenate() {
    let first = [5, 1, 9];
    let second = [1, 1, 300];
    let mut bits = FibbonaciEncoder::encode(&first);
    bits.append_bits(&FibbonaciEncoder::encode(&second));
    let decoded = FibbonaciDecoder::decode(&bits);
    assert_eq!(vec![5, 1, 9, 1, 1, 300], decoded);
}

#[test]
fn fibonacci_table_obeys_the_recurrence() {
    let mut table = Fibbonaci::new();
    // find_greater_index(n) is the first index whose value exceeds n, so it
    // steps up exactly at the table values 1, 2, 3, 5, 8, 13, 21, ...
    assert_eq!(1, table.find_greater_index(0));
    assert_eq!(1, table.find_greater_index(1));
    assert_eq!(2, table.find_greater_index(2));
    assert_eq!(3, table.find_greater_index(4));
    assert_eq!(4, table.find_greater_index(5));
    assert_eq!(5, table.find_greater_index(8));
    assert_eq!(6, table.find_greater_index(13));
    assert_eq!(7, table.find_greater_index(21));
    assert_eq!(8, table.find_greater_index(34));
}
