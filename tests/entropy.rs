use std::collections::HashMap;

use ljpeg::{get_huffmaned_value, BitCursor, DecodeError, SSSSTable};

fn category_table(max_code_length: usize, escape_at_six: bool) -> SSSSTable {
    let six = if escape_at_six { 16 } else { 2 };
    SSSSTable {
        t_c: 0,
        t_h: 0,
        table: HashMap::from([
            (4, 0),
            (30, 4),
            (6, six),
            (126, 6),
            (254, 7),
            (510, 8),
            (14, 3),
            (5, 1),
            (62, 5),
        ]),
        min_code_length: 2,
        max_code_length,
    }
}

#[test]
fn get_huffmaned_value_0_bits() {
    let ssss_table = category_table(8, false);
    let image_bits: Vec<u8> = Vec::from([0, 0, 0, 0, 1, 1, 1, 0, 0, 0, 0, 0, 0, 0, 0]);
    let pixel_diff = get_huffmaned_value(&ssss_table, &mut BitCursor::new(image_bits));
    assert_eq!(pixel_diff, Ok(0));
}

#[test]
fn get_huffmaned_value_1_bit() {
    let ssss_table = category_table(8, false);
    let image_bits: Vec<u8> = Vec::from([0, 1, 1, 1, 1, 1, 1, 0, 0, 0, 0, 0, 0, 0, 0]);
    let pixel_diff = get_huffmaned_value(&ssss_table, &mut BitCursor::new(image_bits));
    assert_eq!(pixel_diff, Ok(1));
}

#[test]
fn get_huffmaned_value_1_bit_neg() {
    let ssss_table = category_table(8, false);
    let image_bits: Vec<u8> = Vec::from([0, 1, 0, 0, 1, 1, 1, 0, 0, 0, 0, 0, 0, 0, 0]);
    let pixel_diff = get_huffmaned_value(&ssss_table, &mut BitCursor::new(image_bits));
    assert_eq!(pixel_diff, Ok(-1));
}

#[test]
fn get_huffmaned_value_2_bits() {
    let ssss_table = category_table(8, false);
    let image_bits: Vec<u8> = Vec::from([1, 0, 1, 1, 1, 1, 1, 0, 0, 0, 0, 0, 0, 0, 0]);
    let pixel_diff = get_huffmaned_value(&ssss_table, &mut BitCursor::new(image_bits));
    assert_eq!(pixel_diff, Ok(3));
}

#[test]
fn get_huffmaned_value_2_bits_neg() {
    let ssss_table = category_table(8, false);
    let image_bits: Vec<u8> = Vec::from([1, 0, 0, 1, 0, 1, 1, 0, 0, 0, 0, 0, 0, 0, 0]);
    let pixel_diff = get_huffmaned_value(&ssss_table, &mut BitCursor::new(image_bits));
    assert_eq!(pixel_diff, Ok(-2));
}

#[test]
fn get_huffmaned_value_16_bits() {
    let ssss_table = category_table(16, true);
    let image_bits: Vec<u8> = Vec::from([1, 0, 0, 0, 0, 1, 1, 0, 0, 0, 0, 0, 0, 0, 0]);
    let pixel_diff = get_huffmaned_value(&ssss_table, &mut BitCursor::new(image_bits));
    assert_eq!(pixel_diff, Ok(32768));
}

#[test]
fn escape_category_reads_no_magnitude_bits() {
    let ssss_table = category_table(16, true);
    let mut cursor = BitCursor::new(Vec::from([1, 0, 0, 0, 0, 1, 1]));
    assert_eq!(get_huffmaned_value(&ssss_table, &mut cursor), Ok(32768));
    assert_eq!(cursor.position(), 2);
}

#[test]
fn values_follow_one_another() {
    let ssss_table = category_table(8, false);
    // category 1 with bit 1, then category 2 with bits 00
    let mut cursor = BitCursor::new(Vec::from([0, 1, 1, 1, 0, 0, 0]));
    assert_eq!(get_huffmaned_value(&ssss_table, &mut cursor), Ok(1));
    assert_eq!(cursor.position(), 3);
    assert_eq!(get_huffmaned_value(&ssss_table, &mut cursor), Ok(-3));
    assert_eq!(cursor.position(), 7);
}

#[test]
fn magnitude_round_trip_category_three() {
    let ssss_table = category_table(8, false);
    // code 110 selects category 3; -5 is sent as 5 + 1 - 8 = 2 -> 010, and 6 as 110
    let mut cursor = BitCursor::new(Vec::from([1, 1, 0, 0, 1, 0, 1, 1, 0, 1, 1, 0]));
    assert_eq!(get_huffmaned_value(&ssss_table, &mut cursor), Ok(-5));
    assert_eq!(get_huffmaned_value(&ssss_table, &mut cursor), Ok(6));
}

#[test]
fn no_matching_code_is_an_error() {
    let ssss_table = SSSSTable {
        t_c: 0,
        t_h: 0,
        table: HashMap::from([(4, 0)]),
        min_code_length: 2,
        max_code_length: 2,
    };
    let mut cursor = BitCursor::new(Vec::from([1, 1, 1, 1]));
    assert_eq!(get_huffmaned_value(&ssss_table, &mut cursor), Err(DecodeError::BadHuffmanCode));
}

#[test]
fn running_out_of_bits_is_an_error() {
    let ssss_table = category_table(8, false);
    let mut cursor = BitCursor::new(Vec::from([0]));
    assert_eq!(get_huffmaned_value(&ssss_table, &mut cursor), Err(DecodeError::OutOfBits));
    let mut cursor = BitCursor::new(Vec::from([1, 1, 0, 1]));
    assert_eq!(get_huffmaned_value(&ssss_table, &mut cursor), Err(DecodeError::OutOfBits));
}

#[test]
fn category_above_sixteen_is_an_error() {
    let ssss_table = SSSSTable {
        t_c: 0,
        t_h: 0,
        table: HashMap::from([(4, 17)]),
        min_code_length: 2,
        max_code_length: 2,
    };
    let mut cursor = BitCursor::new(Vec::from([0, 0, 1, 1]));
    assert_eq!(get_huffmaned_value(&ssss_table, &mut cursor), Err(DecodeError::BadCategory));
}
