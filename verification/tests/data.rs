use huff_tree_tap::data::{is_bit_text, is_bit_vec, BitVec, BitVector, Byte, Padded, PaddedBits, ToByte, ToFromChar, UnPadded, UnPaddedBits};
use huff_tree_tap::error::HuffmanError;

const UNPADDED: &str = "1011100101010000010100000110100101110101001010011011111000111001111011101001001010111010111111100001100";
const PADDED: &str = "1101110011010100100010101000011011001011110101001101001110111110100111001111101111010010101010111101011111111000101100";

#[test]
fn test_unpadded_bits_pad() {
    let input_data = UnPaddedBits::from_string("1011100101010000010100000110100101110101001010011011111000111001111011101001001010111010111111100001100");

    let expected_data = PaddedBits::from_string("1101110011010100100010101000011011001011110101001101001110111110100111001111101111010010101010111101011111111000101100");

    let test_output = input_data.pad();

    assert_eq!(expected_data, test_output);
}

#[test]
fn test_padded_bits_unpad() {
    let input_data = PaddedBits::from_string("1101110011010100100010101000011011001011110101001101001110111110100111001111101111010010101010111101011111111000101100");

    let expected_data = BitVec::from_string("1011100101010000010100000110100101110101001010011011111000111001111011101001001010111010111111100001100");

    let test_output = input_data.unpad();

    assert_eq!(expected_data, test_output);
}

#[test]
fn test_padded_bits_to_u8_vec() {
    let input_data = PaddedBits::from_string("1101110011010100100010101000011011001011110101001101001110111110100111001111101111010010101010111101011111111000101100");

    let expected_data: Vec<u8> = vec![
        220, 212, 138, 134, 203, 212, 211, 190, 156, 251, 210, 171, 215, 248, 44,
    ];

    let test_output = input_data.to_vec_u8().unwrap();

    assert_eq!(expected_data, test_output);
}

#[test]
fn test_padded_bits_from_vec_u8() {
    let input_data: Vec<u8> = vec![
        220, 212, 138, 134, 203, 212, 211, 190, 156, 251, 210, 171, 215, 248, 44,
    ];

    let expected_data = PaddedBits::from_string("1101110011010100100010101000011011001011110101001101001110111110100111001111101111010010101010111101011111111000101100");

    let test_output = PaddedBits::from_vec_u8(&input_data);

    assert_eq!(expected_data, test_output);
}

#[test]
fn test_pad_encoded_data() {
    let input_data = "1011100101010000010100000110100101110101001010011011111000111001111011101001001010111010111111100001100";

    let expected_data = "1101110011010100100010101000011011001011110101001101001110111110100111001111101111010010101010111101011111111000101100";

    let test_output = BitVec::from_string(input_data).pad().to_string();

    assert_eq!(expected_data, test_output);
}

#[test]
fn test_unpad_encoded_data() {
    let input_data = "1101110011010100100010101000011011001011110101001101001110111110100111001111101111010010101010111101011111111000101100";

    let expected_data = "1011100101010000010100000110100101110101001010011011111000111001111011101001001010111010111111100001100";

    let test_output = BitVec::from_string(input_data).unpad().to_string();

    assert_eq!(expected_data, test_output);
}

#[test]
fn test_bin_string_to_u8_vec() {
    let input_data = "1101110011010100100010101000011011001011110101001101001110111110100111001111101111010010101010111101011111111000101100";

    let expected_data: Vec<u8> = vec![
        220, 212, 138, 134, 203, 212, 211, 190, 156, 251, 210, 171, 215, 248, 44,
    ];

    let test_output = BitVec::from_string(input_data).to_vec_u8().unwrap();

    assert_eq!(expected_data, test_output);
}

#[test]
fn test_u8_vec_to_bin_string() {
    let input_data: Vec<u8> = vec![
        220, 212, 138, 134, 203, 212, 211, 190, 156, 251, 210, 171, 215, 248, 44,
    ];

    let expected_data = "1101110011010100100010101000011011001011110101001101001110111110100111001111101111010010101010111101011111111000101100";

    let test_output = PaddedBits::from_vec_u8(&input_data).to_string();

    assert_eq!(expected_data, test_output);
}

#[test]
fn bit_and_char_convert_both_ways() {
    assert_eq!(0u8.to_char(), '0');
    assert_eq!(1u8.to_char(), '1');
    assert_eq!(<u8 as ToFromChar>::from_char('0'), 0);
    assert_eq!(<u8 as ToFromChar>::from_char('1'), 1);
}

#[test]
fn text_and_bits_convert_both_ways() {
    let bits: BitVec = vec![1, 0, 0, 1, 1];
    assert_eq!(bits.to_string(), "10011");
    assert_eq!(BitVec::from_string("10011"), bits);
    assert_eq!(BitVec::from_string(""), Vec::<u8>::new());
    assert_eq!(Vec::<u8>::new().to_string(), "");
    assert_eq!(BitVec::from_string(UNPADDED).to_string(), UNPADDED);
}

#[test]
fn pad_of_nothing_is_the_marker_alone() {
    let nothing: UnPaddedBits = Vec::new();
    assert_eq!(nothing.pad(), vec![1]);
}

#[test]
fn pad_puts_a_marker_before_every_seven_bits() {
    let seven: UnPaddedBits = vec![0, 1, 0, 1, 0, 1, 0];
    assert_eq!(seven.pad(), vec![1, 0, 1, 0, 1, 0, 1, 0]);
    let eight: UnPaddedBits = vec![0, 1, 0, 1, 0, 1, 0, 1];
    assert_eq!(eight.pad(), vec![1, 0, 1, 0, 1, 0, 1, 0, 1, 1]);
    let fourteen: UnPaddedBits = vec![0; 14];
    assert_eq!(fourteen.pad().len(), 16);
    let one: UnPaddedBits = vec![0];
    assert_eq!(one.pad(), vec![1, 0]);
}

#[test]
fn unpad_drops_every_eighth_position() {
    let nothing: PaddedBits = Vec::new();
    assert_eq!(nothing.unpad(), Vec::<u8>::new());
    let marker: PaddedBits = vec![1];
    assert_eq!(marker.unpad(), Vec::<u8>::new());
    let groups: PaddedBits = vec![1, 0, 1, 0, 1, 0, 1, 0, 1, 1];
    assert_eq!(groups.unpad(), vec![0, 1, 0, 1, 0, 1, 0, 1]);
}

#[test]
fn unpad_undoes_pad_for_every_length() {
    for length in 0..64usize {
        let mut bits: UnPaddedBits = Vec::new();
        for i in 0..length {
            bits.push(((i * 7 + length) % 3 % 2) as u8);
        }
        assert_eq!(bits.pad().unpad(), bits);
        assert_eq!(bits.pad().len(), if length == 0 { 1 } else { length + (length + 6) / 7 });
    }
}

#[test]
fn unpacking_undoes_packing_of_padded_bits() {
    for length in 0..64usize {
        let mut bits: UnPaddedBits = Vec::new();
        for i in 0..length {
            bits.push(((i * 5 + length) % 3 % 2) as u8);
        }
        let padded = bits.pad();
        let bytes = padded.to_vec_u8().unwrap();
        assert_eq!(PaddedBits::from_vec_u8(&bytes), padded);
        assert_eq!(PaddedBits::from_vec_u8(&bytes).unpad(), bits);
    }
}

#[test]
fn packed_sample_unpacks_and_unpads_to_the_bits() {
    let bytes: Vec<u8> = vec![
        220, 212, 138, 134, 203, 212, 211, 190, 156, 251, 210, 171, 215, 248, 44,
    ];
    assert_eq!(BitVec::from_string(UNPADDED).pad().to_vec_u8().unwrap(), bytes);
    assert_eq!(PaddedBits::from_vec_u8(&bytes).unpad().to_string(), UNPADDED);
    assert_eq!(PaddedBits::from_vec_u8(&bytes).to_string(), PADDED);
}

#[test]
fn to_byte_reads_most_significant_bit_first() {
    let bits: Byte = vec![1, 0, 1, 1, 0, 0];
    assert_eq!(bits.to_byte(), Ok(44));
    let full: Byte = vec![1, 1, 0, 1, 1, 1, 0, 0];
    assert_eq!(full.to_byte(), Ok(220));
    let nothing: Byte = Vec::new();
    assert_eq!(nothing.to_byte(), Ok(0));
    let long: Byte = vec![1, 0, 0, 0, 0, 0, 0, 0, 1];
    assert_eq!(long.to_byte(), Ok(1));
}

#[test]
fn to_byte_refuses_what_is_no_bit() {
    let bits: Byte = vec![1, 0, 2];
    assert_eq!(bits.to_byte(), Err(HuffmanError::ByteConversion));
}

#[test]
fn from_byte_leaves_leading_zeros_out() {
    assert_eq!(Byte::from_byte(0), Vec::<u8>::new());
    assert_eq!(Byte::from_byte(1), vec![1]);
    assert_eq!(Byte::from_byte(44), vec![1, 0, 1, 1, 0, 0]);
    assert_eq!(Byte::from_byte(220), vec![1, 1, 0, 1, 1, 1, 0, 0]);
    assert_eq!(Byte::from_byte(255), vec![1; 8]);
    for byte in 1..=255u8 {
        assert_eq!(Byte::from_byte(byte).to_byte(), Ok(byte));
    }
}

#[test]
fn to_vec_u8_packs_eight_bits_to_a_byte() {
    let nothing: PaddedBits = Vec::new();
    assert_eq!(nothing.to_vec_u8(), Ok(vec![0]));
    let eight: PaddedBits = vec![1, 0, 0, 0, 0, 0, 0, 1];
    assert_eq!(eight.to_vec_u8(), Ok(vec![129]));
    let nine: PaddedBits = vec![1, 0, 0, 0, 0, 0, 0, 1, 1];
    assert_eq!(nine.to_vec_u8(), Ok(vec![129, 1]));
}

#[test]
fn to_vec_u8_refuses_what_is_no_bit() {
    let early: PaddedBits = vec![1, 0, 7, 0, 0, 0, 0, 1, 1];
    assert_eq!(early.to_vec_u8(), Err(HuffmanError::ByteConversion));
    let late: PaddedBits = vec![1, 0, 0, 0, 0, 0, 0, 1, 3];
    assert_eq!(late.to_vec_u8(), Err(HuffmanError::ByteConversion));
}

#[test]
fn from_vec_u8_of_nothing_is_nothing() {
    assert_eq!(PaddedBits::from_vec_u8(&[]), Vec::<u8>::new());
    assert_eq!(PaddedBits::from_vec_u8(&[0, 0]), Vec::<u8>::new());
    assert_eq!(PaddedBits::from_vec_u8(&[1, 0, 5]), vec![1, 1, 0, 1]);
}

#[test]
fn bit_vectors_and_bit_texts_are_told_from_others() {
    assert!(is_bit_vec(&vec![0, 1, 1, 0]));
    assert!(is_bit_vec(&Vec::new()));
    assert!(!is_bit_vec(&vec![0, 1, 2]));
    assert!(is_bit_text("0110"));
    assert!(is_bit_text(""));
    assert!(!is_bit_text("01a0"));
    assert!(!is_bit_text("2"));
}
