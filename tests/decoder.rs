use std::collections::HashMap;

use ljpeg::{
    is_jpeg, make_prediciton, reconstruct, Component, DecodeError, FrameHeader, HeaderParameter, Jpeg,
    SSSSTable, ScanHeader,
};

fn image_at_start(encoded_image: Vec<u8>) -> Jpeg {
    Jpeg {
        encoded_image,
        read_index: 0,
        frame_header: None,
        ssss_tables: HashMap::new(),
        raw_image: Vec::new(),
    }
}

/// A 2 x 1 image of one 8-bit component: samples 129 and 126, predictor 1.
fn tiny_image() -> Vec<u8> {
    let mut bytes: Vec<u8> = vec![0xFF, 0xD8];
    // frame header
    bytes.extend_from_slice(&[0xFF, 0xC3, 0x00, 0x0B, 0x08, 0x00, 0x01, 0x00, 0x02, 0x01, 0x00, 0x11, 0x00]);
    // Huffman table 0: three 2-bit codes for categories 0, 1, 2
    bytes.extend_from_slice(&[0xFF, 0xC4, 0x00, 0x16, 0x00]);
    bytes.extend_from_slice(&[0, 3, 0, 0, 0, 0, 0, 0, 0, 0, 0, 0, 0, 0, 0, 0]);
    bytes.extend_from_slice(&[0x00, 0x01, 0x02]);
    // scan header: component 0 with table 0, predictor 1, no point transform
    bytes.extend_from_slice(&[0xFF, 0xDA, 0x00, 0x08, 0x01, 0x00, 0x00, 0x01, 0x00, 0x00]);
    // 01 1 | 10 00 | padding
    bytes.push(0x71);
    bytes.extend_from_slice(&[0xFF, 0xD9]);
    bytes
}

#[test]
fn get_image_data_without_stuffed_zero_bytes_good_reguar_number_then_marker() {
    let encoded_image: Vec<u8> = Vec::from([0x00, 0xFE, 0x00, 0xFF, 0x00, 0x05, 0xFF, 0xDA]);
    let expected_bits: Vec<u8> = Vec::from([
        0, 0, 0, 0, 0, 0, 0, 0, 1, 1, 1, 1, 1, 1, 1, 0, 0, 0, 0, 0, 0, 0, 0, 0, 1, 1, 1, 1, 1, 1, 1,
        1, 0, 0, 0, 0, 0, 1, 0, 1,
    ]);

    let mut image = image_at_start(encoded_image);

    let actual_bits = image.get_image_data_without_stuffed_zero_bytes();

    assert_eq!(actual_bits, expected_bits);
    assert_eq!(actual_bits.len(), 40);
    assert_eq!(image.encoded_image[image.read_index], 0xFF);
    assert_eq!(image.encoded_image[image.read_index + 1], 0xDA);
}

#[test]
fn get_image_data_without_stuffed_zero_bytes_good_padding_then_marker() {
    let encoded_image: Vec<u8> = Vec::from([0x00, 0xFE, 0x00, 0xFF, 0x00, 0xFF, 0xDA]);
    let expected_bits: Vec<u8> = Vec::from([
        0, 0, 0, 0, 0, 0, 0, 0, 1, 1, 1, 1, 1, 1, 1, 0, 0, 0, 0, 0, 0, 0, 0, 0, 1, 1, 1, 1, 1, 1, 1,
        1,
    ]);

    let mut image = image_at_start(encoded_image);

    let actual_bits = image.get_image_data_without_stuffed_zero_bytes();

    assert_eq!(actual_bits, expected_bits);
    assert_eq!(actual_bits.len(), 32);
    assert_eq!(image.encoded_image[image.read_index], 0xFF);
    assert_eq!(image.encoded_image[image.read_index + 1], 0xDA);
}

#[test]
fn get_image_data_without_stuffed_zero_bytes_good_reguar_number_with_no_marker() {
    let encoded_image: Vec<u8> = Vec::from([0x00, 0xFE, 0x00, 0xFF, 0x00, 0x05]);
    let expected_bits: Vec<u8> = Vec::from([
        0, 0, 0, 0, 0, 0, 0, 0, 1, 1, 1, 1, 1, 1, 1, 0, 0, 0, 0, 0, 0, 0, 0, 0, 1, 1, 1, 1, 1, 1, 1,
        1, 0, 0, 0, 0, 0, 1, 0, 1,
    ]);

    let mut image = image_at_start(encoded_image);

    let actual_bits = image.get_image_data_without_stuffed_zero_bytes();

    assert_eq!(actual_bits, expected_bits);
    assert_eq!(actual_bits.len(), 40);
    assert_eq!(image.read_index, 6);
}

#[test]
fn get_image_data_without_stuffed_zero_bytes_good_padding_with_no_marker() {
    let encoded_image: Vec<u8> = Vec::from([0x00, 0xFE, 0x00, 0xFF, 0x00]);
    let expected_bits: Vec<u8> = Vec::from([
        0, 0, 0, 0, 0, 0, 0, 0, 1, 1, 1, 1, 1, 1, 1, 0, 0, 0, 0, 0, 0, 0, 0, 0, 1, 1, 1, 1, 1, 1, 1,
        1,
    ]);

    let mut image = image_at_start(encoded_image);

    let actual_bits = image.get_image_data_without_stuffed_zero_bytes();

    assert_eq!(actual_bits, expected_bits);
    assert_eq!(actual_bits.len(), 32);
    assert_eq!(image.read_index, 5);
}

#[test]
fn last_byte_of_the_data_is_kept() {
    let mut image = image_at_start(vec![0x80, 0x01]);
    let bits = image.get_image_data_without_stuffed_zero_bytes();
    assert_eq!(bits, vec![1, 0, 0, 0, 0, 0, 0, 0, 0, 0, 0, 0, 0, 0, 0, 1]);
    assert_eq!(image.read_index, 2);
}

#[test]
fn consecutive_ff_bytes_are_taken_as_a_marker() {
    // two 0xFF bytes in a row: the single-lookahead rule sees a marker at the first
    let mut image = image_at_start(vec![0x12, 0xFF, 0xFF, 0x00]);
    let bits = image.get_image_data_without_stuffed_zero_bytes();
    assert_eq!(bits, vec![0, 0, 0, 1, 0, 0, 1, 0]);
    assert_eq!(image.read_index, 1);
}

#[test]
fn extraction_starts_at_the_read_position() {
    let mut image = image_at_start(vec![0xAA, 0x0F, 0xFF, 0xD9]);
    image.read_index = 1;
    let bits = image.get_image_data_without_stuffed_zero_bytes();
    assert_eq!(bits, vec![0, 0, 0, 0, 1, 1, 1, 1]);
    assert_eq!(image.read_index, 2);
}

#[test]
fn test_bytes_to_int_two_consumed() {
    let mut image = image_at_start(vec![5, 6]);

    assert_eq!(image.bytes_to_int_two_consumed(), 1286);
    assert_eq!(image.read_index, 2)
}

#[test]
fn test_bytes_to_int_two_peeked() {
    let image = image_at_start(vec![5, 6]);

    assert_eq!(image.bytes_to_int_two_peeked(), 1286);
    assert_eq!(image.read_index, 0)
}

#[test]
fn test_byte_to_int_one_consumed() {
    let mut image = image_at_start(vec![5, 6]);

    assert_eq!(image.byte_to_int_one_consumed(), 5);
    assert_eq!(image.read_index, 1)
}

#[test]
fn test_is_jpeg_passing() {
    assert!(is_jpeg(&vec![0xFF, 0xD8]));
}

#[test]
fn test_is_jpeg_failing() {
    assert!(!is_jpeg(&vec![0xFF, 0x00]));
}

#[test]
fn short_input_is_no_jpeg() {
    assert!(!is_jpeg(&vec![0xFF]));
    assert!(matches!(Jpeg::from_encoded_vec(vec![0x00, 0xD8, 0x01]), Err(DecodeError::NotJpeg)));
}

#[test]
fn from_encoded_vec_skips_the_start_marker() {
    let image = Jpeg::from_encoded_vec(tiny_image()).unwrap();
    assert_eq!(image.read_index, 2);
    assert_eq!(image.encoded_image.len(), 52);
    assert!(image.frame_header.is_none());
}

#[test]
fn frame_header_fields_are_read() {
    let mut image = Jpeg::from_encoded_vec(tiny_image()).unwrap();
    assert_eq!(image.parse_frame_header(0xFFC3), Ok(()));
    let frame = image.frame_header.as_ref().unwrap();
    assert_eq!(frame.marker, 0xFFC3);
    assert_eq!(frame.p_, 8);
    assert_eq!(frame.y_, 1);
    assert_eq!(frame.x_, 2);
    assert_eq!(frame.components.len(), 1);
    assert_eq!((frame.components[0].c_, frame.components[0].h_, frame.components[0].v_), (0, 1, 1));
    assert_eq!(image.read_index, 15);
    assert_eq!(image.bytes_to_int_two_consumed(), 0xFFC4);
}

#[test]
fn truncated_frame_header_is_an_error() {
    let mut image = image_at_start(vec![0xFF, 0xC3, 0x00, 0x0B, 0x08]);
    assert_eq!(image.parse_frame_header(0xFFC3), Err(DecodeError::Truncated));
}

#[test]
fn huffman_segment_registers_its_table() {
    let mut image = Jpeg::from_encoded_vec(tiny_image()).unwrap();
    image.read_index = 15;
    assert_eq!(image.make_ssss_tables(), Ok(()));
    let table = &image.ssss_tables[&0];
    assert_eq!(table.table, HashMap::from([(4, 0), (5, 1), (6, 2)]));
    assert_eq!((table.min_code_length, table.max_code_length), (2, 2));
    assert_eq!(image.read_index, 39);
}

#[test]
fn oversized_huffman_row_is_an_error() {
    let mut bytes: Vec<u8> = vec![0xFF, 0xC4, 0x00, 0x16, 0x00, 17];
    bytes.extend_from_slice(&[0; 40]);
    let mut image = image_at_start(bytes);
    assert_eq!(image.make_ssss_tables(), Err(DecodeError::BadHeader));
}

#[test]
fn whole_image_decodes() {
    let mut image = Jpeg::from_encoded_vec(tiny_image()).unwrap();
    assert_eq!(image.decode(), Ok(()));
    assert_eq!(image.raw_image, vec![129, 126]);
    assert_eq!(image.bytes_to_int_two_peeked(), 0xFFD9);
}

#[test]
fn decoding_twice_gives_the_same_samples() {
    let mut first = Jpeg::from_encoded_vec(tiny_image()).unwrap();
    let mut second = Jpeg::from_encoded_vec(tiny_image()).unwrap();
    assert_eq!(first.decode(), Ok(()));
    assert_eq!(second.decode(), Ok(()));
    assert_eq!(first.raw_image, second.raw_image);
}

#[test]
fn unknown_marker_is_refused() {
    let mut image = Jpeg::from_encoded_vec(vec![0xFF, 0xD8, 0xFF, 0xE0, 0x00, 0x02]).unwrap();
    assert_eq!(image.decode(), Err(DecodeError::UnsupportedMarker(0xFFE0)));
}

fn one_component_frame(p_: u8) -> FrameHeader {
    FrameHeader {
        marker: 0xFFC3,
        p_,
        y_: 1,
        x_: 2,
        components: vec![Component { c_: 0, h_: 1, v_: 1, t_q: 0 }],
    }
}

fn scan_with_table(t_d: u8) -> ScanHeader {
    ScanHeader {
        head_params: vec![HeaderParameter { c_s: 0, t_d, t_a: 0 }],
        s_s: 1,
        s_e: 0,
        a_h: 0,
        a_l_p_t: 0,
    }
}

#[test]
fn scan_without_frame_is_an_error() {
    let mut image = image_at_start(vec![0x00]);
    assert_eq!(image.decode_image(scan_with_table(0)), Err(DecodeError::MissingFrame));
}

#[test]
fn precision_below_two_is_an_error() {
    let mut image = image_at_start(vec![0x00]);
    image.frame_header = Some(one_component_frame(1));
    assert_eq!(image.decode_image(scan_with_table(0)), Err(DecodeError::BadHeader));
}

#[test]
fn scan_naming_an_unknown_table_is_an_error() {
    let mut image = Jpeg::from_encoded_vec(tiny_image()).unwrap();
    image.read_index = 15;
    assert_eq!(image.make_ssss_tables(), Ok(()));
    image.frame_header = Some(one_component_frame(8));
    image.read_index = 49;
    assert_eq!(image.decode_image(scan_with_table(1)), Err(DecodeError::MissingTable));
    assert_eq!(image.decode_image(scan_with_table(0)), Ok(()));
    assert_eq!(image.raw_image, vec![129, 126]);
}

#[test]
fn first_pixel_uses_the_origin_constant() {
    for predictor in 0..9 {
        assert_eq!(make_prediciton(&vec![], 1, 2, 8, 0, predictor), 128);
        assert_eq!(make_prediciton(&vec![], 3, 2, 12, 2, predictor), 512);
    }
}

#[test]
fn first_column_uses_the_sample_above() {
    // width 2, one component: index 2 is x = 0, y = 1
    assert_eq!(make_prediciton(&vec![10, 20], 1, 2, 8, 0, 1), 10);
    assert_eq!(make_prediciton(&vec![10, 20], 1, 2, 8, 0, 7), 10);
}

#[test]
fn first_row_uses_the_sample_to_the_left() {
    // two components: index 3 is component 1 of x = 1, y = 0
    assert_eq!(make_prediciton(&vec![10, 20, 30], 2, 4, 8, 0, 2), 20);
}

#[test]
fn inner_predictors() {
    // width 2, one component: index 3 is x = 1, y = 1 with A = 40, B = 20, C = 10
    let img = vec![10, 20, 40];
    assert_eq!(make_prediciton(&img, 1, 2, 8, 0, 0), 0);
    assert_eq!(make_prediciton(&img, 1, 2, 8, 0, 1), 40);
    assert_eq!(make_prediciton(&img, 1, 2, 8, 0, 2), 20);
    assert_eq!(make_prediciton(&img, 1, 2, 8, 0, 3), 10);
    assert_eq!(make_prediciton(&img, 1, 2, 8, 0, 4), 50);
    assert_eq!(make_prediciton(&img, 1, 2, 8, 0, 5), 45);
    assert_eq!(make_prediciton(&img, 1, 2, 8, 0, 6), 35);
    assert_eq!(make_prediciton(&img, 1, 2, 8, 0, 7), 30);
    assert_eq!(make_prediciton(&img, 1, 2, 8, 0, 9), 128);
    // negative halves round down
    let img = vec![30, 10, 10];
    assert_eq!(make_prediciton(&img, 1, 2, 8, 0, 5), 0);
}

#[test]
fn reconstruction_wraps_modulo_precision() {
    assert_eq!(reconstruct(250, 10, 8), 4);
    assert_eq!(reconstruct(3, -5, 8), 254);
    assert_eq!(reconstruct(100, 32768, 16), 32868);
    assert_eq!(reconstruct(0, -1, 2), 3);
    assert_eq!(reconstruct(65535, 1, 16), 0);
}

#[test]
fn tables_follow_the_scan_component_order() {
    let mut image = image_at_start(vec![0x4F]);
    image.frame_header = Some(FrameHeader {
        marker: 0xFFC3,
        p_: 8,
        y_: 1,
        x_: 1,
        components: vec![Component { c_: 5, h_: 1, v_: 1, t_q: 0 }, Component { c_: 7, h_: 1, v_: 1, t_q: 0 }],
    });
    image.ssss_tables.insert(
        0,
        SSSSTable { t_c: 0, t_h: 0, table: HashMap::from([(4, 0), (5, 1), (6, 2)]), min_code_length: 2, max_code_length: 2 },
    );
    image.ssss_tables.insert(
        1,
        SSSSTable { t_c: 0, t_h: 1, table: HashMap::from([(2, 1)]), min_code_length: 1, max_code_length: 1 },
    );
    let scan = ScanHeader {
        head_params: vec![HeaderParameter { c_s: 7, t_d: 1, t_a: 0 }, HeaderParameter { c_s: 5, t_d: 0, t_a: 0 }],
        s_s: 1,
        s_e: 0,
        a_h: 0,
        a_l_p_t: 0,
    };
    // first sample: table 1, code 0 then bit 1 -> +1; second: table 0, code 00 -> 0
    assert_eq!(image.decode_image(scan), Ok(()));
    assert_eq!(image.raw_image, vec![129, 128]);
}
