use rle::codec::{decode, encode, transform, DecodeError, Mode, MAX_RUN};

fn round_trips(bytes: &[u8]) {
    let encoded = encode(bytes);
    assert_eq!(encoded.len() % 2, 0);
    assert_eq!(decode(&encoded), Ok(bytes.to_vec()));
}

#[test]
fn empty_input() {
    assert_eq!(encode(&[]), Vec::<u8>::new());
    assert_eq!(decode(&[]), Ok(Vec::new()));
}

#[test]
fn single_byte() {
    for v in 0..=255u8 {
        assert_eq!(encode(&[v]), vec![v, 1]);
        assert_eq!(decode(&[v, 1]), Ok(vec![v]));
    }
}

#[test]
fn run_of_cap_is_one_pair() {
    let bytes = vec![7u8; 255];
    assert_eq!(encode(&bytes), vec![7, 255]);
    assert_eq!(MAX_RUN, 255);
}

#[test]
fn run_over_cap_is_two_pairs() {
    let bytes = vec![7u8; 256];
    assert_eq!(encode(&bytes), vec![7, 255, 7, 1]);
    round_trips(&bytes);
}

#[test]
fn run_of_three_hundred() {
    let bytes = vec![0u8; 300];
    assert_eq!(encode(&bytes), vec![0, 255, 0, 45]);
    round_trips(&bytes);
}

#[test]
fn long_run_cut_into_full_pairs() {
    let bytes = vec![9u8; 255 * 3 + 2];
    assert_eq!(encode(&bytes), vec![9, 255, 9, 255, 9, 255, 9, 2]);
    round_trips(&bytes);
}

#[test]
fn mixed_runs() {
    let bytes = [1u8, 1, 1, 2, 2, 3];
    let encoded = encode(&bytes);
    assert_eq!(encoded, vec![1, 3, 2, 2, 3, 1]);
    assert_eq!(decode(&encoded), Ok(vec![1, 1, 1, 2, 2, 3]));
}

#[test]
fn runs_end_at_a_change_of_value() {
    assert_eq!(encode(&[4, 5, 4, 4, 5]), vec![4, 1, 5, 1, 4, 2, 5, 1]);
}

#[test]
fn malformed_decode() {
    for v in [0u8, 1, 3, 255] {
        assert_eq!(decode(&[v]), Err(DecodeError::MalformedInput));
    }
    assert_eq!(decode(&[1, 2, 3]), Err(DecodeError::MalformedInput));
}

#[test]
fn decode_expands_each_pair() {
    assert_eq!(decode(&[b'!', 3, b'a', 2]), Ok(b"!!!aa".to_vec()));
    assert_eq!(decode(&[33, 33]), Ok(vec![33u8; 33]));
}

#[test]
fn decode_zero_count_gives_nothing() {
    assert_eq!(decode(&[5, 0, 6, 1]), Ok(vec![6]));
}

#[test]
fn decode_non_canonical_pairs() {
    assert_eq!(decode(&[2, 1, 2, 1]), Ok(vec![2, 2]));
}

#[test]
fn round_trip_examples() {
    round_trips(&[]);
    round_trips(&[0]);
    round_trips(&[1, 2, 3, 4, 5]);
    round_trips(b"hello,    world!!!");
    let mut mixed = vec![1u8; 600];
    mixed.extend(vec![2u8; 255]);
    mixed.extend([1, 1, 2]);
    round_trips(&mixed);
    let all: Vec<u8> = (0..=255u8).collect();
    round_trips(&all);
}

#[test]
fn transform_selects_direction() {
    assert_eq!(transform(Mode::Encode, &[8, 8]), Ok(vec![8, 2]));
    assert_eq!(transform(Mode::Decode, &[8, 2]), Ok(vec![8, 8]));
    assert_eq!(transform(Mode::Decode, &[8]), Err(DecodeError::MalformedInput));
}
