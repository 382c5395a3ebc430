use acceleratorinator::codec::{
    cring_rle_calc_block_savings_frac, cring_rle_calc_header, cring_rle_calc_max_block_repeats,
    cring_rle_decode, cring_rle_encode, cring_rle_get_header_block_size, cring_rle_get_header_len,
    cring_rle_push_on_vec, RleDecodeError,
};

#[test]
fn rle_encode_correct() {
    assert_eq!(cring_rle_encode(&[]), &[]);
    assert_eq!(
        cring_rle_encode(&[0, 1, 2, 3, 4, 5, 6]),
        &[6 << 2 | 0, 0, 1, 2, 3, 4, 5, 6]
    );
    assert_eq!(
        cring_rle_encode(&[0, 0, 2, 3, 4, 5, 6]),
        &[1 << 2 | 1, 0, 4 << 2 | 0, 2, 3, 4, 5, 6]
    );
    assert_eq!(
        cring_rle_encode(&[0, 0, 2, 3, 4, 2, 3, 4]),
        &[1 << 2 | 1, 0, 1 << 2 | 3, 2, 3, 4]
    );
}

fn test_round_trip(input: &[u8]) {
    let encoded = cring_rle_encode(input);
    let output = cring_rle_decode(&encoded).unwrap();

    println!("input: {}, encoded: {}", input.len(), encoded.len());
    assert!(input == output);
}

#[test]
fn rle_round_trip() {
    test_round_trip(&[]);
    test_round_trip(&[0, 1, 2, 3, 4, 5, 6]);
    test_round_trip(&[0, 0, 2, 3, 4, 5, 6]);
    test_round_trip(&[0, 0, 2, 3, 4, 2, 3, 4]);
    // image-like payloads: long runs, repeating multi-byte units, noise
    let mut image: Vec<u8> = Vec::new();
    for i in 0..4096u32 {
        image.push((i % 251) as u8);
    }
    image.extend(std::iter::repeat(0u8).take(1000));
    for i in 0..1000u32 {
        image.push((i % 3) as u8);
    }
    image.extend(std::iter::repeat(0xAAu8).take(77));
    test_round_trip(&image);
}

#[test]
fn rle_round_trip_long_runs() {
    // repeat counts past the 64 a header can carry split into several
    // blocks: 64 three-byte units, then an eight-count single-byte run
    let zeros = vec![0u8; 200];
    let encoded = cring_rle_encode(&zeros);
    assert_eq!(encoded, &[63 << 2 | 3, 0, 0, 0, 7 << 2 | 1, 0]);
    assert_eq!(cring_rle_decode(&encoded).unwrap(), zeros);
}

#[test]
fn rle_literal_cap() {
    // 100 non-repeating bytes: literal blocks of at most 32 source bytes
    let mut input: Vec<u8> = Vec::new();
    for i in 0..100u32 {
        input.push(i as u8);
    }
    let encoded = cring_rle_encode(&input);
    let mut expected: Vec<u8> = Vec::new();
    for (start, len) in [(0u8, 32u8), (32, 32), (64, 32), (96, 4)] {
        expected.push((len - 1) << 2 | 0);
        for i in 0..len {
            expected.push(start + i);
        }
    }
    assert_eq!(encoded, expected);
}

#[test]
fn header_packing() {
    for len in 1u8..=64 {
        for unit in 0u8..=3 {
            let header = cring_rle_calc_header(len, unit);
            assert_eq!(cring_rle_get_header_len(header), len);
            assert_eq!(cring_rle_get_header_block_size(header), unit);
        }
    }
}

#[test]
fn savings_frac_values() {
    assert_eq!(cring_rle_calc_block_savings_frac(33, 32), 1031);
    assert_eq!(cring_rle_calc_block_savings_frac(2, 2), 1000);
    assert_eq!(cring_rle_calc_block_savings_frac(4, 6), 666);
    assert_eq!(cring_rle_calc_block_savings_frac(2, 64), 31);
    assert_eq!(cring_rle_calc_block_savings_frac(2, 1), 2000);
}

#[test]
fn max_block_repeats() {
    assert_eq!(cring_rle_calc_max_block_repeats(&[0, 0, 2, 3], 1), Some(2));
    assert_eq!(cring_rle_calc_max_block_repeats(&[2, 3, 4, 2, 3, 4], 3), Some(2));
    assert_eq!(cring_rle_calc_max_block_repeats(&[2, 3, 4, 2, 3], 3), Some(1));
    assert_eq!(cring_rle_calc_max_block_repeats(&[1, 2], 3), None);
    assert_eq!(cring_rle_calc_max_block_repeats(&[7; 300], 1), Some(300));
}

#[test]
fn push_on_vec_appends() {
    let mut v: Vec<u8> = vec![1, 2];
    cring_rle_push_on_vec(&mut v, 9);
    assert_eq!(v, &[1, 2, 9]);
}

#[test]
fn decode_repeat_blocks() {
    // unit size 1, count 2 -> two copies of the payload byte
    assert_eq!(cring_rle_decode(&[1 << 2 | 1, 7]).unwrap(), &[7, 7]);
    // unit size 3, count 2
    assert_eq!(cring_rle_decode(&[1 << 2 | 3, 2, 3, 4]).unwrap(), &[2, 3, 4, 2, 3, 4]);
    // literal block
    assert_eq!(cring_rle_decode(&[2 << 2 | 0, 9, 8, 7]).unwrap(), &[9, 8, 7]);
    // empty stream
    assert_eq!(cring_rle_decode(&[]).unwrap(), &[] as &[u8]);
}

#[test]
fn decode_truncated_stream() {
    // a literal header that claims seven bytes with none behind it
    assert_eq!(cring_rle_decode(&[6 << 2 | 0]), Err(RleDecodeError::TruncatedStream));
    // a repeat header with too short a payload
    assert_eq!(cring_rle_decode(&[1 << 2 | 3, 2, 3]), Err(RleDecodeError::TruncatedStream));
    // a sound block followed by a truncated one
    assert_eq!(
        cring_rle_decode(&[1 << 2 | 1, 0, 6 << 2 | 0, 1]),
        Err(RleDecodeError::TruncatedStream)
    );
}
