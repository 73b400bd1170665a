use huff_tree_tap::data::{BitVec, BitVector, Padded, PaddedBits, UnPadded, UnPaddedBits};
use huff_tree_tap::encoding_map::EncodingMap;
use huff_tree_tap::encoding_stats::EncodingStats;
use huff_tree_tap::error::HuffmanError;
use huff_tree_tap::huffman::HuffmanData;
use std::collections::HashMap;

fn ratio(stats: &EncodingStats) -> f32 {
    (1_f32 - (stats.encoded_size as f32 / stats.data_size as f32)) * 100_f32
}

fn sample_table() -> HashMap<u8, String> {
    [
        (b'h', "10010"),
        (b'a', "0011"),
        (b' ', "01"),
        (b'g', "0001"),
        (b'i', "101"),
        (b's', "110"),
        (b'!', "0010"),
        (b'n', "10011"),
        (b'r', "1000"),
        (b't', "111"),
        (b'e', "0000"),
    ]
    .iter()
    .map(|(k, v)| (*k, v.to_string()))
    .collect()
}

#[test]
fn test_huffman_encode() {
    let input_data: Vec<u8> = Vec::from("this is a test string!");
    let input_encoding_map: HashMap<u8, String> = [
        (b'h', "10010"),
        (b'a', "0011"),
        (b' ', "01"),
        (b'g', "0001"),
        (b'i', "101"),
        (b's', "110"),
        (b'!', "0010"),
        (b'n', "10011"),
        (b'r', "1000"),
        (b't', "111"),
        (b'e', "0000"),
    ]
    .iter()
    .map(|(k, v)| (*k, v.to_string()))
    .collect();
    let input_encoding_map = EncodingMap::from(input_encoding_map).unwrap();

    let expected_data = UnPaddedBits::from_string(
        "11110010101110011011100100110111100001101110111011110001011001100010010",
    );

    let test_output = HuffmanData::huffman_encode(&input_data, &input_encoding_map);

    assert_eq!(expected_data, test_output);
}

#[test]
fn test_huffman_decode() {
    let input_data = UnPaddedBits::from_string(
        "11110010101110011011100100110111100001101110111011110001011001100010010",
    );
    let input_encoding_map: HashMap<u8, String> = [
        (b'h', "10010"),
        (b'a', "0011"),
        (b' ', "01"),
        (b'g', "0001"),
        (b'i', "101"),
        (b's', "110"),
        (b'!', "0010"),
        (b'n', "10011"),
        (b'r', "1000"),
        (b't', "111"),
        (b'e', "0000"),
    ]
    .iter()
    .map(|(k, v)| (*k, v.to_string()))
    .collect();
    let input_encoding_map = EncodingMap::from(input_encoding_map).unwrap();

    let expected_data: Vec<u8> = Vec::from("this is a test string!");

    let test_output = HuffmanData::huffman_decode(&input_data, &input_encoding_map);
    println!("{:?}", input_encoding_map.extract());
    assert_eq!(expected_data, test_output);
    assert_eq!(
        String::from_utf8(expected_data).unwrap(),
        String::from_utf8(test_output).unwrap()
    );
}

#[test]
fn test_huffman_encode_string() {
    let input_data: Vec<u8> = Vec::from("this is a test string!");
    let input_encoding_map: HashMap<u8, String> = [
        (b'h', "10010"),
        (b'a', "0011"),
        (b' ', "01"),
        (b'g', "0001"),
        (b'i', "101"),
        (b's', "110"),
        (b'!', "0010"),
        (b'n', "10011"),
        (b'r', "1000"),
        (b't', "111"),
        (b'e', "0000"),
    ]
    .iter()
    .map(|(k, v)| (*k, v.to_string()))
    .collect();

    let expected_data = "11110010101110011011100100110111100001101110111011110001011001100010010";

    let test_output = HuffmanData::huffman_encode(
        &input_data,
        &EncodingMap::from(input_encoding_map).unwrap(),
    )
    .to_string();

    assert_eq!(expected_data, test_output);
}

#[test]
fn test_huffman_decode_bin_string() {
    let input_data = "11110010101110011011100100110111100001101110111011110001011001100010010";
    let input_encoding_map: HashMap<u8, String> = [
        (b'h', "10010"),
        (b'a', "0011"),
        (b' ', "01"),
        (b'g', "0001"),
        (b'i', "101"),
        (b's', "110"),
        (b'!', "0010"),
        (b'n', "10011"),
        (b'r', "1000"),
        (b't', "111"),
        (b'e', "0000"),
    ]
    .iter()
    .map(|(k, v)| (*k, v.to_string()))
    .collect();

    let expected_data: Vec<u8> = Vec::from("this is a test string!");

    let test_output = HuffmanData::huffman_decode(
        &BitVec::from_string(input_data),
        &EncodingMap::from(input_encoding_map).unwrap(),
    );

    assert_eq!(expected_data, test_output);
}

#[test]
fn test_huffmandata_decode() {
    let input_encoded_data = vec![182, 188, 239, 160, 190, 196, 223, 148, 209, 87];
    let input_encoding_map: HashMap<u8, String> = [
        (b'M', "0110".to_string()),
        (b'g', "0111".to_string()),
        (b' ', "111".to_string()),
        (b'y', "1100".to_string()),
        (b'u', "11011".to_string()),
        (b'p', "11010".to_string()),
        (b'e', "000".to_string()),
        (b'n', "0101".to_string()),
        (b't', "101".to_string()),
        (b'r', "001".to_string()),
        (b'i', "0100".to_string()),
        (b's', "100".to_string()),
    ]
    .iter()
    .cloned()
    .collect();
    let input_data = HuffmanData {
        encoded_data: input_encoded_data,
        encoding_map: input_encoding_map,
        stats: EncodingStats {
            data_size: 1,
            encoded_size: 1,
        },
    };

    let expected_data = "My super test string".to_string().into_bytes();

    let test_output: Vec<u8> = input_data.decode().unwrap();

    assert_eq!(expected_data, test_output);
}

#[test]
fn test_huffmandata_encode() {
    let input_data = "My super test string".to_string().into_bytes();

    let expected_encoded_data = vec![182, 188, 239, 160, 190, 196, 223, 148, 209, 87];
    let expected_data_encoding_map: HashMap<u8, String> = [
        (b'M', "0110".to_string()),
        (b'g', "0111".to_string()),
        (b' ', "111".to_string()),
        (b'y', "1100".to_string()),
        (b'u', "11011".to_string()),
        (b'p', "11010".to_string()),
        (b'e', "000".to_string()),
        (b'n', "0101".to_string()),
        (b't', "101".to_string()),
        (b'r', "001".to_string()),
        (b'i', "0100".to_string()),
        (b's', "100".to_string()),
    ]
    .iter()
    .cloned()
    .collect();

    let test_output = HuffmanData::new(&input_data).unwrap();

    assert_eq!(expected_encoded_data, test_output.encoded_data);
    assert_eq!(expected_data_encoding_map, test_output.encoding_map);
}

#[test]
fn test_huffmandata_stats() {
    let input_data = "My super test string".to_string().into_bytes();
    let test_output = HuffmanData::new(&input_data).unwrap();

    assert_eq!(160.0_f32, test_output.stats.data_size as f32);
    assert_eq!(80.0_f32, test_output.stats.encoded_size as f32);
    assert_eq!(50.0_f32, ratio(&test_output.stats));
    assert_eq!(test_output.encoded_data.len(), 10);
}

#[test]
fn test_bench() {
    let mut unencoded_data = Vec::<u8>::new();
    for _ in 0..1000 {
        unencoded_data.append(&mut vec![b'a', b'b', b'c', b'd', b'e', b'f', b'g', b'h']);
    }
    let encoded_data = HuffmanData::new(&unencoded_data).unwrap();

    assert_eq!(
        encoded_data.stats,
        EncodingStats {
            data_size: 64000,
            encoded_size: 27432,
        }
    );
    assert_eq!(ratio(&encoded_data.stats), 57.1375_f32);

    assert_eq!(encoded_data.decode().unwrap(), unencoded_data);
}

#[test]
fn sample_text_has_its_code_table_and_bits() {
    let data: Vec<u8> = Vec::from("this is a test string!");
    let encoded = HuffmanData::new(&data).unwrap();
    assert_eq!(encoded.encoding_map, sample_table());
    let bits = PaddedBits::from_vec_u8(&encoded.encoded_data).unpad();
    assert_eq!(
        bits.to_string(),
        "11110010101110011011100100110111100001101110111011110001011001100010010"
    );
    assert_eq!(bits.pad().to_vec_u8().unwrap(), encoded.encoded_data);
    assert_eq!(encoded.decode().unwrap(), data);
}

#[test]
fn encoding_nothing_fails() {
    match HuffmanData::new(&[]) {
        Err(e) => assert_eq!(e, HuffmanError::EmptyInput),
        Ok(_) => panic!("an encoding of nothing"),
    }
}

#[test]
fn decode_undoes_encode() {
    let inputs: Vec<Vec<u8>> = vec![
        vec![0, 1],
        vec![1, 0, 0, 0, 0, 0, 0, 0],
        Vec::from("abracadabra"),
        (0..=255u8).collect(),
        (0..3000u32).map(|i| (i * i % 251) as u8).collect(),
        (0..700u32).map(|i| if i % 9 == 0 { 0 } else { (i % 4) as u8 }).collect(),
    ];
    for data in inputs {
        let encoded = HuffmanData::new(&data).unwrap();
        assert_eq!(encoded.decode().unwrap(), data);
    }
}

#[test]
fn encoding_twice_gives_the_same() {
    let data: Vec<u8> = (0..2000u32).map(|i| (i * 31 % 17) as u8).collect();
    let first = HuffmanData::new(&data).unwrap();
    let second = HuffmanData::new(&data).unwrap();
    assert_eq!(first.encoded_data, second.encoded_data);
    assert_eq!(first.encoding_map, second.encoding_map);
    assert_eq!(first.stats, second.stats);
}

#[test]
fn one_repeated_byte_has_one_empty_code() {
    let data = vec![0x41u8; 1000];
    let encoded = HuffmanData::new(&data).unwrap();
    assert_eq!(encoded.encoding_map.len(), 1);
    assert_eq!(encoded.encoding_map.get(&0x41), Some(&String::new()));
    assert_eq!(encoded.encoded_data, vec![1]);
    assert_eq!(encoded.stats, EncodingStats { data_size: 8000, encoded_size: 8 });
    assert_eq!(encoded.decode().unwrap(), Vec::<u8>::new());
}

#[test]
fn a_byte_without_a_code_adds_no_bits() {
    let table = EncodingMap::from(sample_table()).unwrap();
    let bits = HuffmanData::huffman_encode(&[b't', b'z', b'h'], &table);
    assert_eq!(bits.to_string(), "11110010");
}

#[test]
fn a_candidate_left_at_the_end_is_dropped() {
    let table = EncodingMap::from(sample_table()).unwrap();
    let bits = BitVec::from_string("1111001");
    assert_eq!(HuffmanData::huffman_decode(&bits, &table), vec![b't']);
    assert_eq!(HuffmanData::huffman_decode(&Vec::new(), &table), Vec::<u8>::new());
}

#[test]
fn decode_refuses_a_table_with_a_shared_code() {
    let texts: HashMap<u8, String> = [(b'a', "0"), (b'b', "0")]
        .iter()
        .map(|(k, v)| (*k, v.to_string()))
        .collect();
    let encoded = HuffmanData {
        encoded_data: vec![2],
        encoding_map: texts,
        stats: EncodingStats { data_size: 8, encoded_size: 8 },
    };
    assert_eq!(encoded.decode(), Err(HuffmanError::InvalidCodeTable));
}

#[test]
fn decode_of_no_bytes_is_nothing() {
    let encoded = HuffmanData {
        encoded_data: Vec::new(),
        encoding_map: sample_table(),
        stats: EncodingStats { data_size: 0, encoded_size: 0 },
    };
    assert_eq!(encoded.decode(), Ok(Vec::new()));
}

#[test]
fn stats_of_the_sample() {
    let data = "My super test string".to_string().into_bytes();
    let encoded = HuffmanData::new(&data).unwrap();
    assert_eq!(encoded.stats.data_size, 8 * data.len() as u128);
    assert_eq!(encoded.stats.encoded_size, 80);
    assert_eq!(encoded.stats, EncodingStats::new(&data, &encoded.encoded_data));
}
