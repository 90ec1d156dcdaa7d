use rust_bwt::bwtstring::BWTStr;
use rust_bwt::error::BwtError;
use rust_bwt::rle::MAX_RUN;

fn encode(bytes: Vec<u8>, at: usize) -> Vec<u8> {
    let s = BWTStr::new_with_sentinal(bytes, at);
    let mut out = Vec::new();
    s.rle_write(&mut out);
    out
}

#[test]
fn header_is_little_endian() {
    let out = encode(vec![7u8; 300], 258);
    assert_eq!(&out[..8], &[2, 1, 0, 0, 0, 0, 0, 0]);
    assert_eq!(&out[..8], &258u64.to_le_bytes());
}

#[test]
fn runs_become_records() {
    let out = encode(vec![97, 110, 110, 98, 97, 97], 6);
    assert_eq!(
        out,
        vec![6, 0, 0, 0, 0, 0, 0, 0, 97, 1, 0, 110, 2, 0, 98, 1, 0, 97, 2, 0]
    );
}

#[test]
fn marker_ends_a_run() {
    let out = encode(vec![9, 9, 9, 9], 1);
    assert_eq!(out, vec![1, 0, 0, 0, 0, 0, 0, 0, 9, 1, 0, 9, 3, 0]);
}

#[test]
fn long_run_is_chunked() {
    let out = encode(vec![5u8; 70000], 70000);
    assert_eq!(out.len(), 8 + 6);
    assert_eq!(&out[8..], &[5, 255, 255, 5, 113, 17]);
    let back = BWTStr::rle_read(&out).unwrap();
    assert_eq!(back.to_bytes(), vec![5u8; 70000]);
    assert_eq!(back.sentinel_index(), 70000);
}

#[test]
fn full_chunk_is_followed_by_empty_record() {
    assert_eq!(MAX_RUN, 65535);
    let out = encode(vec![5u8; 65535], 0);
    assert_eq!(&out[8..], &[5, 255, 255, 5, 0, 0]);
    let back = BWTStr::rle_read(&out).unwrap();
    assert_eq!(back.to_bytes(), vec![5u8; 65535]);
    assert_eq!(back.sentinel_index(), 0);
}

#[test]
fn run_one_short_of_a_chunk_is_one_record() {
    let out = encode(vec![5u8; 65534], 0);
    assert_eq!(&out[8..], &[5, 254, 255]);
}

#[test]
fn empty_sequence_is_header_only() {
    let out = encode(Vec::new(), 0);
    assert_eq!(out, vec![0u8; 8]);
    let back = BWTStr::rle_read(&out).unwrap();
    assert_eq!(back.to_bytes(), Vec::<u8>::new());
    assert_eq!(back.sentinel_index(), 0);
    assert_eq!(back.len(), 1);
}

#[test]
fn rle_write_appends() {
    let s = BWTStr::new_with_sentinal(vec![1, 1], 2);
    let mut out = vec![42u8];
    s.rle_write(&mut out);
    assert_eq!(out, vec![42, 2, 0, 0, 0, 0, 0, 0, 0, 1, 2, 0]);
}

#[test]
fn decode_round_trip_keeps_marker() {
    let bytes = vec![1, 1, 2, 3, 3, 3, 0, 0, 255];
    for at in 0..=bytes.len() {
        let out = encode(bytes.clone(), at);
        let back = BWTStr::rle_read(&out).unwrap();
        assert_eq!(back.to_bytes(), bytes);
        assert_eq!(back.sentinel_index(), at);
    }
}

#[test]
fn zero_length_record_adds_nothing() {
    let stream = vec![1, 0, 0, 0, 0, 0, 0, 0, 8, 0, 0, 9, 2, 0];
    let back = BWTStr::rle_read(&stream).unwrap();
    assert_eq!(back.to_bytes(), vec![9, 9]);
    assert_eq!(back.sentinel_index(), 1);
}

#[test]
fn count_is_little_endian() {
    let stream = vec![0, 0, 0, 0, 0, 0, 0, 0, 4, 1, 1];
    let back = BWTStr::rle_read(&stream).unwrap();
    assert_eq!(back.to_bytes(), vec![4u8; 257]);
}

#[test]
fn short_header_is_malformed() {
    for n in 0..8 {
        let stream = vec![0u8; n];
        assert_eq!(BWTStr::rle_read(&stream).err(), Some(BwtError::MalformedStream));
    }
}

#[test]
fn dangling_literal_is_malformed() {
    let stream = vec![0, 0, 0, 0, 0, 0, 0, 0, 7];
    assert_eq!(BWTStr::rle_read(&stream).err(), Some(BwtError::MalformedStream));
    let stream = vec![0, 0, 0, 0, 0, 0, 0, 0, 7, 1];
    assert_eq!(BWTStr::rle_read(&stream).err(), Some(BwtError::MalformedStream));
}

#[test]
fn marker_behind_the_end_is_malformed() {
    let stream = vec![3, 0, 0, 0, 0, 0, 0, 0, 7, 2, 0];
    assert_eq!(BWTStr::rle_read(&stream).err(), Some(BwtError::MalformedStream));
    let stream = vec![2, 0, 0, 0, 0, 0, 0, 0, 7, 2, 0];
    assert!(BWTStr::rle_read(&stream).is_ok());
    let stream = vec![0, 0, 0, 0, 0, 0, 0, 1, 7, 2, 0];
    assert_eq!(BWTStr::rle_read(&stream).err(), Some(BwtError::MalformedStream));
}
