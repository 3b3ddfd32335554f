use bitdiff::{diff, patch, PatchError, LENGTH_LIMIT};

fn field(bytes: &[u8], k: usize) -> u32 {
    u32::from_be_bytes([bytes[4 * k], bytes[4 * k + 1], bytes[4 * k + 2], bytes[4 * k + 3]])
}

#[test]
fn round_trip_on_assorted_buffers() {
    let buffers: Vec<Vec<u8>> = vec![
        vec![],
        vec![0x00],
        vec![0xff],
        vec![0x12, 0x34, 0x56, 0x78, 0x9a],
        vec![0x80, 0x00, 0x01],
        vec![0xaa; 9],
    ];
    for left in &buffers {
        for right in &buffers {
            let encoded = diff(left, right);
            assert_eq!(patch(left, &encoded), Ok(right.clone()));
        }
    }
}

#[test]
fn identical_buffers_give_length_alone() {
    let b = [0x5a, 0x00, 0xff, 0x13, 0x77];
    let encoded = diff(&b, &b);
    assert_eq!(encoded, vec![0, 0, 0, 5]);
    assert_eq!(patch(&b, &encoded), Ok(b.to_vec()));
}

#[test]
fn length_prefix_is_target_length() {
    let left = [1, 2, 3];
    let right = vec![7u8; 300];
    let encoded = diff(&left, &right);
    assert_eq!(&encoded[0..4], &[0, 0, 1, 44]);
    assert_eq!(field(&encoded, 0), 300);
}

#[test]
fn summed_gaps_are_ascending_differing_bits() {
    let left = [0b1001_1011, 0b1110_0011, 0b0111_0001];
    let right = [0b1001_1111, 0b0111_0011, 0b0111_0011, 0b1010_0111];
    let encoded = diff(&left, &right);
    assert_eq!(encoded.len() % 4, 0);
    let mut sums: Vec<u64> = Vec::new();
    let mut total: u64 = 0;
    for k in 1..encoded.len() / 4 {
        total += field(&encoded, k) as u64;
        sums.push(total);
    }
    assert_eq!(sums, vec![2, 12, 15, 17, 24, 25, 26, 29, 31]);
    for w in sums.windows(2) {
        assert!(w[0] < w[1]);
    }
    assert!(sums.iter().all(|&i| i < 8 * right.len() as u64));
}

#[test]
fn empty_target() {
    let encoded = diff(&[1, 2, 3], &[]);
    assert_eq!(encoded, vec![0, 0, 0, 0]);
    assert_eq!(patch(&[1, 2, 3], &encoded), Ok(vec![]));
}

#[test]
fn empty_source_zero_extends() {
    let encoded = diff(&[], &[0x01, 0x80]);
    assert_eq!(encoded, vec![0, 0, 0, 2, 0, 0, 0, 0, 0, 0, 0, 15]);
    assert_eq!(patch(&[], &encoded), Ok(vec![0x01, 0x80]));
}

#[test]
fn patch_flips_a_bit_twice_with_zero_gap() {
    let encoded = [0, 0, 0, 1, 0, 0, 0, 3, 0, 0, 0, 0];
    assert_eq!(patch(&[0x00], &encoded), Ok(vec![0x00]));
}

#[test]
fn patch_cuts_source_to_declared_length() {
    let encoded = [0, 0, 0, 1, 0, 0, 0, 7];
    assert_eq!(patch(&[0x00, 0xff, 0xff], &encoded), Ok(vec![0x80]));
}

#[test]
fn patch_error_malformed_length() {
    assert_eq!(patch(&[0x00], &[0, 0, 0, 4, 0, 0]), Err(PatchError::MalformedEncoding));
}

#[test]
fn patch_error_empty_encoding() {
    assert_eq!(patch(&[0x00], &[]), Err(PatchError::MalformedEncoding));
}

#[test]
fn patch_error_index_out_of_range() {
    assert_eq!(
        patch(&[0x00], &[0, 0, 0, 1, 0, 0, 0, 20]),
        Err(PatchError::IndexOutOfRange)
    );
    assert_eq!(
        patch(&[0x00], &[0, 0, 0, 1, 0, 0, 0, 8]),
        Err(PatchError::IndexOutOfRange)
    );
}

#[test]
fn patch_error_index_overflow() {
    assert_eq!(
        patch(&[0x00], &[0, 0, 0, 1, 0, 0, 0, 1, 255, 255, 255, 255]),
        Err(PatchError::IndexOverflow)
    );
}

#[test]
fn patch_error_declared_length_too_large() {
    assert_eq!(patch(&[0x00], &[255, 255, 255, 253]), Err(PatchError::InputTooLarge));
    let limit = (LENGTH_LIMIT as u32).to_be_bytes();
    assert_eq!(patch(&[0x00], &limit), Err(PatchError::InputTooLarge));
}
