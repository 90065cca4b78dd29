use std::collections::HashMap;

use ljpeg::{make_ssss_table, number_of_used_bits};

#[test]
fn make_ssss_tables_good() {
    let mut code_lengths: [[Option<u8>; 16]; 16] = [[None; 16]; 16];
    code_lengths[1][0] = Some(0);
    code_lengths[1][1] = Some(1);
    code_lengths[1][2] = Some(2);
    code_lengths[2][0] = Some(3);
    code_lengths[3][0] = Some(4);
    code_lengths[4][0] = Some(5);
    code_lengths[5][0] = Some(6);
    code_lengths[6][0] = Some(7);
    code_lengths[7][0] = Some(8);

    let expected = HashMap::from([
        (4, 0),
        (30, 4),
        (6, 2),
        (126, 6),
        (254, 7),
        (510, 8),
        (14, 3),
        (5, 1),
        (62, 5),
    ]);

    let (tables, min_code_length, max_code_length) = make_ssss_table(code_lengths);

    assert_eq!(tables, expected);
    assert_eq!(min_code_length, 2);
    assert_eq!(max_code_length, 8);
}

#[test]
fn make_ssss_tables_good2() {
    let mut code_lengths: [[Option<u8>; 16]; 16] = [[None; 16]; 16];
    for (i, symbol) in [0u8, 1, 2, 3, 4, 5, 6].iter().enumerate() {
        code_lengths[2][i] = Some(*symbol);
    }

    let expected = HashMap::from([(8, 0), (9, 1), (10, 2), (11, 3), (12, 4), (13, 5), (14, 6)]);

    let (tables, min_code_length, max_code_length) = make_ssss_table(code_lengths);

    assert_eq!(tables, expected);
    assert_eq!(min_code_length, 3);
    assert_eq!(max_code_length, 3);
}

#[test]
fn empty_code_lengths_give_an_empty_table() {
    let (tables, min_code_length, max_code_length) = make_ssss_table([[None; 16]; 16]);
    assert!(tables.is_empty());
    assert_eq!(min_code_length, 0);
    assert_eq!(max_code_length, 0);
}

#[test]
fn building_twice_gives_the_same_table() {
    let mut code_lengths: [[Option<u8>; 16]; 16] = [[None; 16]; 16];
    code_lengths[0][0] = Some(9);
    code_lengths[2][0] = Some(1);
    code_lengths[2][1] = Some(2);
    code_lengths[15][0] = Some(16);
    assert_eq!(make_ssss_table(code_lengths), make_ssss_table(code_lengths));
}

#[test]
fn codes_are_prefix_free() {
    let mut code_lengths: [[Option<u8>; 16]; 16] = [[None; 16]; 16];
    code_lengths[0][0] = Some(0);
    code_lengths[1][0] = Some(1);
    code_lengths[2][0] = Some(2);
    code_lengths[4][0] = Some(3);
    code_lengths[4][1] = Some(4);
    let (table, min_code_length, max_code_length) = make_ssss_table(code_lengths);
    // codes 0, 10, 110, 11100, 11101
    assert_eq!(table, HashMap::from([(2, 0), (6, 1), (14, 2), (60, 3), (61, 4)]));
    assert_eq!((min_code_length, max_code_length), (1, 5));
    let keys: Vec<u32> = table.keys().copied().collect();
    for a in &keys {
        for b in &keys {
            if a != b {
                let (la, lb) = (number_of_used_bits(a), number_of_used_bits(b));
                if la <= lb {
                    assert_ne!(*b >> (lb - la), *a);
                }
            }
        }
    }
}

#[test]
fn holes_in_a_row_are_skipped() {
    let mut code_lengths: [[Option<u8>; 16]; 16] = [[None; 16]; 16];
    code_lengths[1][0] = Some(7);
    code_lengths[1][3] = Some(8);
    let (table, _, _) = make_ssss_table(code_lengths);
    assert_eq!(table, HashMap::from([(4, 7), (5, 8)]));
}

#[test]
fn number_of_used_bits_32() {
    let n = 0xFFFFFFFF / 2 + 1;
    assert_eq!(number_of_used_bits(&n), 32);
}

#[test]
fn number_of_used_bits_4() {
    let n = 0xF;
    assert_eq!(number_of_used_bits(&n), 4);
}

#[test]
fn number_of_used_bits_2() {
    let n = 3;
    assert_eq!(number_of_used_bits(&n), 2);
    assert_eq!(number_of_used_bits(&n), 2);
}

#[test]
fn number_of_used_bits_1() {
    let n = 1;
    assert_eq!(number_of_used_bits(&n), 1);
}

#[test]
fn number_of_used_bits_0() {
    let n = 0;
    assert_eq!(number_of_used_bits(&n), 0);
}

#[test]
fn overfull_code_lengths_follow_the_tree_walk() {
    // two 1-bit codes fill the code space; the walk then wraps from 1 back to 1 and the
    // 2-bit code 10 follows, which the builder does not reject
    let mut code_lengths: [[Option<u8>; 16]; 16] = [[None; 16]; 16];
    code_lengths[0][0] = Some(0);
    code_lengths[0][1] = Some(1);
    code_lengths[1][0] = Some(2);
    let (table, min_code_length, max_code_length) = make_ssss_table(code_lengths);
    assert_eq!(table, HashMap::from([(2, 0), (3, 1), (6, 2)]));
    assert_eq!((min_code_length, max_code_length), (1, 2));
}
