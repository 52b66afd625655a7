use universal_compressor::bits::Bits;
use universal_compressor::elias_omega::{decode_number, encode_number_and_append, get_usize_bit_len};

#[test]
fn elias_omega_get_usize_bit_len_works() {
    let number = 137;

    let bit_len = get_usize_bit_len(number) - 1;
    let another_bit_len = get_usize_bit_len(bit_len) - 1;

    assert_eq!(0b111, bit_len);
    assert_eq!(0b10, another_bit_len);
}

#[test]
fn encode_number_and_append_works() {
    let mut bits = Bits::new();

    let number = 137;

    encode_number_and_append(number, &mut bits);

    assert_eq!([0b10111100, 0b01001000], bits.get_bits());
}

#[test]
fn elias_omega_decode_number_works() {
    let mut bits = Bits::new();

    let numbers = [1, 2, 257, 259, 258, 2];

    for number in numbers {
        encode_number_and_append(number, &mut bits);
    }

    let numbers = decode_number(&bits);

    assert_eq!(vec![1, 2, 257, 259, 258, 2], numbers);
}
