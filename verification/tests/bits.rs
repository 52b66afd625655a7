use universal_compressor::bits::{from_usize, get_usize_bit_len, Bit, Bits};

#[test]
fn bits_working() {
    let mut bits = Bits::new();

    for i in 0..9 {
        if i % 2 == 0 {
            bits.push_bit(Bit::ONE);
        } else {
            bits.push_bit(Bit::ZERO);
        }
    }

    assert_eq!([0b10101010, 0b10000000], bits.get_bits());
}

#[test]
fn append_bits_working() {
    let mut bits = Bits::new();

    for i in 0..5 {
        if i % 2 == 0 {
            bits.push_bit(Bit::ONE);
        } else {
            bits.push_bit(Bit::ZERO);
        }
    }

    let other_bits = Bits::new();

    for i in 0..4 {
        if i % 2 == 0 {
            bits.push_bit(Bit::ONE);
        } else {
            bits.push_bit(Bit::ZERO);
        }
    }

    bits.append_bits(&other_bits);

    assert_eq!([0b10101101, 0b00000000], bits.get_bits());
}

#[test]
fn from_usize_works() {
    let number = 137;

    let bits: Bits = from_usize(number);

    assert_eq!([0b10001001], bits.get_bits());
}

#[test]
fn usize_from_bits_works() {
    let number = 137;
    let bits: Bits = from_usize(number);
    let other_number: usize = bits.to_usize();

    assert_eq!(number, other_number);
}

#[test]
fn bits_get_usize_bit_len_works() {
    let number = 137;

    let bit_len = get_usize_bit_len(number) - 1;
    let another_bit_len = get_usize_bit_len(bit_len) - 1;

    assert_eq!(0b111, bit_len);
    assert_eq!(0b10, another_bit_len);
}

#[test]
fn set_bit_works() {
    let number = 0b11010110;

    let mut bits: Bits = from_usize(number);
    bits.set_bit(0, Bit::ZERO);

    assert_eq!(0b01010110, bits.get_bits()[0]);
}

#[test]
fn shift_left_works() {
    let number = 0b11010110;

    let mut bits: Bits = from_usize(number);
    bits.shift_left_and_shrink_size();

    assert_eq!(0b10101100, bits.get_bits()[0]);
}

#[test]
fn get_bit_reads_back_pushed_bits() {
    let pattern = [true, false, false, true, true, true, false, true, false, true, true];
    let mut bits = Bits::new();
    for &b in pattern.iter() {
        bits.push_bit(if b { Bit::ONE } else { Bit::ZERO });
    }
    assert_eq!(pattern.len(), bits.len());
    for (i, &b) in pattern.iter().enumerate() {
        let read = matches!(bits.get_bit(i), Bit::ONE);
        assert_eq!(b, read);
    }
}

#[test]
fn usize_round_trip_and_length() {
    for number in 1..300usize {
        let bits = from_usize(number);
        assert_eq!(get_usize_bit_len(number), bits.len());
        assert_eq!(number, bits.to_usize());
    }
    assert_eq!(1, get_usize_bit_len(0));
    assert_eq!(1, get_usize_bit_len(1));
    assert_eq!(8, get_usize_bit_len(137));
}

#[test]
fn from_vec_round_trips_through_bytes() {
    let mut bits = Bits::new();
    for i in 0..9 {
        if i % 2 == 0 {
            bits.push_bit(Bit::ONE);
        } else {
            bits.push_bit(Bit::ZERO);
        }
    }
    let copied = Bits::from_vec(bits.len(), bits.get_bits().to_vec());
    assert_eq!(bits.len(), copied.len());
    assert_eq!(bits.get_bits(), copied.get_bits());
}

#[test]
fn iterator_yields_all_bits() {
    let mut bits = Bits::new();
    bits.push_bit(Bit::ONE);
    bits.push_bit(Bit::ZERO);
    bits.push_bit(Bit::ONE);
    let mut iter = bits.iter();
    assert!(matches!(iter.next(), Some(Bit::ONE)));
    assert!(matches!(iter.next(), Some(Bit::ZERO)));
    assert!(matches!(iter.next(), Some(Bit::ONE)));
    assert!(matches!(iter.next(), None));
}
