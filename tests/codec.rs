use accurate_float::util::{
    bit_length, decode, decode_as_tuple, encode, f_max, try_encode, w_max, AfError,
};

#[test]
fn bit_length_of_small_and_large_numbers() {
    assert_eq!(bit_length(0), 0);
    assert_eq!(bit_length(1), 1);
    assert_eq!(bit_length(5), 3);
    assert_eq!(bit_length(125), 7);
    assert_eq!(bit_length(u32::MAX), 32);
}

#[test]
fn larger_of_two_numbers() {
    assert_eq!(f_max(3, 7), 7);
    assert_eq!(f_max(9, 2), 9);
    assert_eq!(f_max(4, 4), 4);
    assert_eq!(w_max(3, 7), 8);
    assert_eq!(w_max(9, 2), 10);
}

#[test]
fn negative_zero_decodes_unsigned() {
    assert_eq!(encode("-0.0"), 0);
    assert_eq!(decode(encode("-0.0")), "0.0");
}

#[test]
fn encode_gives_pointer_and_value_fields() {
    // 3.125: fraction 125 needs 7 bits; magnitude (3 << 7) | 125 = 509.
    let w = encode("3.125");
    assert_eq!(w >> 27, 7);
    assert_eq!(w & 0x07FF_FFFF, 509);
    assert_eq!(encode("-3.125"), w | (1 << 26));
    assert_eq!(encode("5"), 5);
    assert_eq!(encode(".5"), (3 << 27) | 5);
    assert_eq!(encode("5."), 5);
}

#[test]
fn integer_digits_beyond_the_field_are_dropped() {
    // 67108869 = 2^26 + 5: only the low 26 bits stay.
    assert_eq!(encode("67108869.0"), 5);
    assert_eq!(encode("-67108864.0"), 0);
}

#[test]
fn fraction_width_is_not_kept() {
    // The fraction is stored as the integer its digits write.
    assert_eq!(encode("0.02"), encode("0.2"));
    assert_eq!(encode("0.30"), (5 << 27) | 30);
}

#[test]
fn malformed_text_is_refused() {
    for s in ["", "-", "+", ".", "-.", "abc", "1.2.3", "1,5", "--1.0", "1.-5", " 1.0", "1e5"] {
        assert_eq!(try_encode(s), Err(AfError::MalformedNumber), "accepted {:?}", s);
    }
    // A fraction that needs more than 26 bits.
    assert_eq!(try_encode("1.67108864"), Err(AfError::MalformedNumber));
    assert_eq!(try_encode("0.67108863"), Ok((26 << 27) | 67108863));
    assert_eq!(decode((26 << 27) | 67108863), "0.67108863");
    assert_eq!(try_encode("-2.5"), Ok(encode("-2.5")));
}

#[test]
fn decode_splits_at_the_pointer() {
    // Pointer 3 over magnitude 0b11101: integer 0b11 = 3, fraction 0b101 = 5.
    assert_eq!(decode((3 << 27) | 0b11101), "3.5");
    // A pointer beyond the value field leaves all of it to the fraction.
    assert_eq!(decode((28 << 27) | 5), "0.5");
    // A sign bit over a zero magnitude reads as zero.
    assert_eq!(decode(1 << 26), "0.0");
    assert_eq!(decode((26 << 27) | (1 << 26) | 3), "-0.3");
}

#[test]
fn decode_as_tuple_carries_the_sign() {
    assert_eq!(decode_as_tuple(encode("-15.3")), (true, -15, 3));
    assert_eq!(decode_as_tuple(encode("15.3")), (false, 15, 3));
    assert_eq!(decode_as_tuple(0), (false, 0, 0));
}
