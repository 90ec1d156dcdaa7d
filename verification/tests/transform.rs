use rust_bwt::bwtstring::BWTStr;
use rust_bwt::error::BwtError;
use rust_bwt::pipeline::{compress, decompress};
use rust_bwt::symbol::BWTByte;
use std::cmp::Ordering;

fn symbols(s: &BWTStr) -> Vec<BWTByte> {
    (0..s.len()).map(|i| s.symbol(i)).collect()
}

#[test]
fn new_appends_the_marker() {
    let s = BWTStr::new(vec![1, 2, 3]);
    assert_eq!(s.len(), 4);
    assert_eq!(s.sentinel_index(), 3);
    assert_eq!(
        symbols(&s),
        vec![BWTByte::Byte(1), BWTByte::Byte(2), BWTByte::Byte(3), BWTByte::Sentinel]
    );
    assert_eq!(s.to_bytes(), vec![1, 2, 3]);
}

#[test]
fn new_with_sentinal_inserts_the_marker() {
    let s = BWTStr::new_with_sentinal(vec![1, 2, 3], 1);
    assert_eq!(s.len(), 4);
    assert_eq!(s.sentinel_index(), 1);
    assert_eq!(
        symbols(&s),
        vec![BWTByte::Byte(1), BWTByte::Sentinel, BWTByte::Byte(2), BWTByte::Byte(3)]
    );
}

#[test]
fn marker_sorts_below_every_byte() {
    assert_eq!(BWTByte::Sentinel.partial_cmp(&BWTByte::Byte(0)), Some(Ordering::Less));
    assert_eq!(BWTByte::Byte(0).partial_cmp(&BWTByte::Sentinel), Some(Ordering::Greater));
    assert_eq!(BWTByte::Sentinel.partial_cmp(&BWTByte::Sentinel), Some(Ordering::Equal));
    assert_eq!(BWTByte::Byte(3).partial_cmp(&BWTByte::Byte(200)), Some(Ordering::Less));
    assert_eq!(BWTByte::Byte(200).partial_cmp(&BWTByte::Byte(3)), Some(Ordering::Greater));
    assert_eq!(BWTByte::Byte(7).partial_cmp(&BWTByte::Byte(7)), Some(Ordering::Equal));
    assert!(BWTByte::Sentinel < BWTByte::Byte(0));
    assert!(BWTByte::Sentinel.is_before(&BWTByte::Byte(0)));
    assert!(!BWTByte::Byte(0).is_before(&BWTByte::Sentinel));
    assert!(!BWTByte::Byte(5).is_before(&BWTByte::Byte(5)));
}

#[test]
fn symbol_predicates() {
    assert!(BWTByte::Sentinel.is_sentinel());
    assert!(!BWTByte::Byte(0).is_sentinel());
    assert!(BWTByte::Byte(4).is_byte_and(|b| *b == 4));
    assert!(!BWTByte::Byte(4).is_byte_and(|b| *b == 5));
    assert!(!BWTByte::Sentinel.is_byte_and(|_| true));
}

#[test]
fn rotations_of_banana_in_order() {
    let s = BWTStr::new(b"banana".to_vec());
    assert_eq!(s.all_rotations_sorted(), vec![6, 5, 3, 1, 0, 4, 2]);
    assert_eq!(s.rotated_symbol(5, 0), BWTByte::Byte(b'a'));
    assert_eq!(s.rotated_symbol(5, 1), BWTByte::Sentinel);
    assert_eq!(s.rotated_symbol(5, 2), BWTByte::Byte(b'b'));
    assert!(s.rotation_less(6, 5));
    assert!(!s.rotation_less(5, 6));
    assert!(!s.rotation_less(3, 3));
    assert!(s.rotation_less(3, 1));
}

#[test]
fn banana_forward() {
    let s = BWTStr::new(vec![98, 97, 110, 97, 110, 97]);
    let t = s.forward_transform();
    assert_eq!(t.len(), 7);
    assert_eq!(t.to_bytes(), b"annbaa".to_vec());
    assert_eq!(t.sentinel_index(), 4);
    let first = s.all_rotations_sorted()[0];
    assert_eq!(s.rotated_symbol(first, 0), BWTByte::Sentinel);
}

#[test]
fn banana_round_trip() {
    let input = vec![98, 97, 110, 97, 110, 97];
    let stream = compress(input.clone());
    assert_eq!(
        stream,
        vec![4, 0, 0, 0, 0, 0, 0, 0, 97, 1, 0, 110, 2, 0, 98, 1, 0, 97, 2, 0]
    );
    assert_eq!(decompress(&stream), Ok(input));
}

#[test]
fn banana_inverse() {
    let t = BWTStr::new_with_sentinal(b"annbaa".to_vec(), 4);
    let s = t.reverse_transform().unwrap();
    assert_eq!(s.to_bytes(), b"banana".to_vec());
    assert_eq!(s.sentinel_index(), 6);
    assert_eq!(s.len(), 7);
}

#[test]
fn ranks_count_earlier_occurrences() {
    let t = BWTStr::new_with_sentinal(b"annbaa".to_vec(), 4);
    assert_eq!(t.rank_vec(), vec![0, 0, 1, 0, 0, 1, 2]);
}

#[test]
fn empty_input() {
    let s = BWTStr::new(Vec::new());
    assert_eq!(s.len(), 1);
    let t = s.forward_transform();
    assert_eq!(t.to_bytes().len(), 0);
    assert_eq!(t.sentinel_index(), 0);
    let mut stream = Vec::new();
    t.rle_write(&mut stream);
    assert_eq!(stream, vec![0u8; 8]);
    assert_eq!(compress(Vec::new()), vec![0u8; 8]);
    assert_eq!(decompress(&[0u8; 8]), Ok(Vec::new()));
}

#[test]
fn single_byte_round_trip() {
    let stream = compress(vec![200]);
    assert_eq!(stream, vec![1, 0, 0, 0, 0, 0, 0, 0, 200, 1, 0]);
    assert_eq!(decompress(&stream), Ok(vec![200]));
}

#[test]
fn every_byte_value_once_round_trip() {
    let input: Vec<u8> = (0..=255u8).rev().collect();
    let stream = compress(input.clone());
    assert_eq!(decompress(&stream), Ok(input));
    let input: Vec<u8> = (0..=255u8).collect();
    let stream = compress(input.clone());
    assert_eq!(decompress(&stream), Ok(input));
}

#[test]
fn repeated_byte_round_trip() {
    let input = vec![5u8; 3000];
    let stream = compress(input.clone());
    assert_eq!(stream, vec![184, 11, 0, 0, 0, 0, 0, 0, 5, 184, 11]);
    assert_eq!(decompress(&stream), Ok(input));
}

#[test]
fn byte_repeated_beyond_one_record_round_trip() {
    let input = vec![5u8; 65536];
    let stream = compress(input.clone());
    assert_eq!(stream, vec![0, 0, 1, 0, 0, 0, 0, 0, 5, 255, 255, 5, 1, 0]);
    assert_eq!(decompress(&stream), Ok(input));
}

#[test]
fn mixed_inputs_round_trip() {
    let inputs: Vec<Vec<u8>> = vec![
        b"abracadabra".to_vec(),
        b"mississippi".to_vec(),
        vec![0, 0, 0, 255, 255, 0],
        vec![1, 2, 1, 2, 1, 2, 1, 2],
        b"the quick brown fox jumps over the lazy dog".to_vec(),
    ];
    for input in inputs {
        let s = BWTStr::new(input.clone());
        let t = s.forward_transform();
        assert_eq!(t.len(), s.len());
        let back = t.reverse_transform().unwrap();
        assert_eq!(back.to_bytes(), input);
        assert_eq!(back.sentinel_index(), input.len());
        assert_eq!(decompress(&compress(input.clone())), Ok(input));
    }
}

#[test]
fn marker_elsewhere_comes_back_rotated() {
    let s = BWTStr::new_with_sentinal(b"abcd".to_vec(), 1);
    let back = s.forward_transform().reverse_transform().unwrap();
    assert_eq!(back.to_bytes(), b"bcda".to_vec());
}

#[test]
fn short_stream_is_malformed() {
    assert_eq!(decompress(&[]), Err(BwtError::MalformedStream));
    assert_eq!(decompress(&[0, 0, 0, 0, 0, 0, 0]), Err(BwtError::MalformedStream));
    assert_eq!(decompress(&[0, 0, 0, 0, 0, 0, 0, 0, 1, 1]), Err(BwtError::MalformedStream));
}

#[test]
fn sequence_that_is_no_transform_is_refused() {
    let t = BWTStr::new_with_sentinal(vec![97, 98], 0);
    assert_eq!(t.reverse_transform().err(), Some(BwtError::Validation));
    let stream = vec![0, 0, 0, 0, 0, 0, 0, 0, 97, 1, 0, 98, 1, 0];
    assert_eq!(decompress(&stream), Err(BwtError::Validation));
}

#[test]
fn rotate_moves_front_to_back() {
    let mut s = BWTStr::new(vec![1, 2, 3]);
    s.rotate();
    assert_eq!(s.to_bytes(), vec![2, 3, 1]);
    assert_eq!(s.sentinel_index(), 2);
    assert_eq!(
        symbols(&s),
        vec![BWTByte::Byte(2), BWTByte::Byte(3), BWTByte::Sentinel, BWTByte::Byte(1)]
    );
    let mut s = BWTStr::new_with_sentinal(vec![1, 2, 3], 0);
    s.rotate();
    assert_eq!(s.to_bytes(), vec![1, 2, 3]);
    assert_eq!(s.sentinel_index(), 3);
    let mut s = BWTStr::new(Vec::new());
    s.rotate();
    assert_eq!(s.len(), 1);
    assert_eq!(s.sentinel_index(), 0);
}

#[test]
fn all_rotations_are_as_many_as_symbols() {
    let s = BWTStr::new(vec![7, 8]);
    let all = s.all_rotations();
    assert_eq!(all.len(), 3);
    assert_eq!(symbols(&all[0]), symbols(&s));
    assert_eq!(
        symbols(&all[1]),
        vec![BWTByte::Byte(8), BWTByte::Sentinel, BWTByte::Byte(7)]
    );
    assert_eq!(
        symbols(&all[2]),
        vec![BWTByte::Sentinel, BWTByte::Byte(7), BWTByte::Byte(8)]
    );
    for (k, r) in all.iter().enumerate() {
        for j in 0..s.len() {
            assert_eq!(r.symbol(j), s.rotated_symbol(k, j));
        }
    }
    assert_eq!(BWTStr::new(Vec::new()).all_rotations().len(), 1);
}

#[test]
fn sorted_column_of_banana() {
    let t = BWTStr::new_with_sentinal(b"annbaa".to_vec(), 4);
    let left = t.as_sorted();
    assert_eq!(left.sentinel_index(), 0);
    assert_eq!(left.to_bytes(), b"aaabnn".to_vec());
    assert_eq!(left.len(), 7);
    let s = BWTStr::new(b"banana".to_vec());
    let ord = s.all_rotations_sorted();
    for (r, k) in ord.iter().enumerate() {
        assert_eq!(left.symbol(r), s.rotated_symbol(*k, 0));
        assert_eq!(t.symbol(r), s.rotated_symbol(*k, s.len() - 1));
    }
}

#[test]
fn first_row_starts_with_the_marker() {
    let inputs: Vec<Vec<u8>> = vec![Vec::new(), vec![0], vec![0, 0, 0], b"banana".to_vec()];
    for input in inputs {
        for at in 0..=input.len() {
            let s = BWTStr::new_with_sentinal(input.clone(), at);
            let ord = s.all_rotations_sorted();
            assert_eq!(ord[0], at);
            assert_eq!(s.rotated_symbol(ord[0], 0), BWTByte::Sentinel);
        }
    }
}

#[test]
fn duplicate_keeps_the_symbols() {
    let s = BWTStr::new_with_sentinal(vec![4, 5, 6], 2);
    let c = s.duplicate();
    assert_eq!(symbols(&c), symbols(&s));
    assert_eq!(c.sentinel_index(), 2);
}

#[test]
fn text_of_a_sequence() {
    let s = BWTStr::new_with_sentinal(vec![0, 9, 10, 99, 100, 255], 2);
    assert_eq!(s.to_text(), b"0, 9, $, 10, 99, 100, 255".to_vec());
    assert_eq!(BWTStr::new(Vec::new()).to_text(), b"$".to_vec());
    assert_eq!(BWTStr::new(vec![7]).to_text(), b"7, $".to_vec());
}

#[test]
fn marker_place_is_validated() {
    let s = BWTStr::try_with_sentinel(vec![1, 2], 2).unwrap();
    assert_eq!(s.sentinel_index(), 2);
    assert_eq!(s.to_bytes(), vec![1, 2]);
    assert_eq!(BWTStr::try_with_sentinel(vec![1, 2], 3).err(), Some(BwtError::Validation));
    assert_eq!(BWTStr::try_with_sentinel(Vec::new(), 1).err(), Some(BwtError::Validation));
    assert!(BWTStr::try_with_sentinel(Vec::new(), 0).is_ok());
}

#[test]
fn symbols_sort_with_the_marker_first() {
    let mut v = vec![BWTByte::Byte(9), BWTByte::Sentinel, BWTByte::Byte(0), BWTByte::Byte(255)];
    v.sort();
    assert_eq!(
        v,
        vec![BWTByte::Sentinel, BWTByte::Byte(0), BWTByte::Byte(9), BWTByte::Byte(255)]
    );
    assert_eq!(BWTByte::Sentinel.cmp(&BWTByte::Byte(0)), Ordering::Less);
    assert_eq!(BWTByte::Byte(1).cmp(&BWTByte::Byte(0)), Ordering::Greater);
    assert_eq!(BWTByte::Byte(1).cmp(&BWTByte::Byte(1)), Ordering::Equal);
}
