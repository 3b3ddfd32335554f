use bitdiff::{diff, patch};

#[test]
fn test_diff_inputs_same_size() {
    let left = [0b1111_0000, 0b1010_1111, 0b0011_1100, 0b0111_0001];
    let right = [0b1100_0000, 0b1110_1111, 0b0011_1101, 0b0110_0001];
    // The xor is [0b0011_0000, 0b0100_0000, 0b0000_0001, 0b0001_0000]. Bits are
    // numbered from the least significant bit of each byte, so the gaps between
    // set bits are [4, 1, 9, 2, 12], after the length of the right side, 4.
    let actual = diff(&left, &right);
    let expected = vec![
        0, 0, 0, 4, 0, 0, 0, 4, 0, 0, 0, 1, 0, 0, 0, 9, 0, 0, 0, 2, 0, 0, 0, 12,
    ];
    assert_eq!(actual, expected);

    let patched = patch(&left, &actual).unwrap();
    assert_eq!(patched, right.to_vec());
}

#[test]
fn test_diff_first_bit_different() {
    let left = [0b1111_0001];
    let right = [0b1111_0000];
    let actual = diff(&left, &right);
    let expected = [0, 0, 0, 1, 0, 0, 0, 0];
    assert_eq!(actual, expected);

    let patched = patch(&left, &actual).unwrap();
    assert_eq!(patched, right.to_vec());
}

#[test]
fn test_diff_readme_example() {
    let left = [0xff, 0xfa];
    let right = [0xff, 0xf8, 0x03];
    let actual = diff(&left, &right);
    let expected = vec![
        0x00, 0x00, 0x00, 0x03, 0x00, 0x00, 0x00, 0x09, 0x00, 0x00, 0x00, 0x07, 0x00, 0x00,
        0x00, 0x01,
    ];
    assert_eq!(actual, expected);

    let patched = patch(&left, &actual).unwrap();
    assert_eq!(patched, right.to_vec());
}

#[test]
fn test_diff_no_bits_different() {
    let left = [0b0110_0011, 0b1101_1000];
    let right = [0b0110_0011, 0b1101_1000];
    let actual = diff(&left, &right);
    let expected = vec![0, 0, 0, 2];
    assert_eq!(actual, expected);

    let patched = patch(&left, &actual).unwrap();
    assert_eq!(patched, right.to_vec());
}

#[test]
fn test_diff_left_longer() {
    let left = [
        0b1101_1111,
        0b0000_0000,
        0b0110_0000,
        0b1010_0111,
        0b0001_0001,
    ];
    let right = [0b1101_1101, 0b0000_0011, 0b0110_0001];
    // The xor, cut to the length of the right side, is
    // [0b0000_0010, 0b0000_0011, 0b0000_0001]; the gaps are [1, 7, 1, 7].
    let actual = diff(&left, &right);
    let expected = vec![0, 0, 0, 3, 0, 0, 0, 1, 0, 0, 0, 7, 0, 0, 0, 1, 0, 0, 0, 7];
    assert_eq!(actual, expected);

    let patched = patch(&left, &actual).unwrap();
    assert_eq!(patched, right.to_vec());
}

#[test]
fn test_diff_right_longer() {
    let left = [0b1001_1011, 0b1110_0011, 0b0111_0001];
    let right = [
        0b1001_1111,
        0b0111_0011,
        0b0111_0011,
        0b1010_0111,
        0b0001_0001,
    ];
    // The xor, extended to the length of the right side, is
    // [0b0000_0100, 0b1001_0000, 0b0000_0010, 0b1010_0111, 0b0001_0001]; the gaps
    // are [2, 10, 3, 2, 7, 1, 1, 3, 2, 1, 4].
    let actual = diff(&left, &right);
    let expected = vec![
        0, 0, 0, 5, 0, 0, 0, 2, 0, 0, 0, 10, 0, 0, 0, 3, 0, 0, 0, 2, 0, 0, 0, 7, 0, 0, 0, 1, 0,
        0, 0, 1, 0, 0, 0, 3, 0, 0, 0, 2, 0, 0, 0, 1, 0, 0, 0, 4,
    ];
    assert_eq!(actual, expected);

    let patched = patch(&left, &actual).unwrap();
    assert_eq!(patched, right.to_vec());
}

#[test]
fn test_patch_truncated() {
    let left = [0b0000_0000];
    let patch_bytes = [0, 0, 0, 4, 0, 0];
    assert!(patch(&left, &patch_bytes).is_err());
}

#[test]
fn test_patch_bit_index_out_of_range() {
    let left = [0b0000_0000];
    let patch_bytes = [0, 0, 0, 1, 0, 0, 0, 20];
    assert!(patch(&left, &patch_bytes).is_err());
}

#[test]
fn test_patch_bit_index_overflow() {
    let left = [0b0000_0000];
    let patch_bytes = [0, 0, 0, 1, 0, 0, 0, 1, 255, 255, 255, 255];
    assert!(patch(&left, &patch_bytes).is_err());
}

#[test]
fn test_patch_too_long() {
    let left = [0b0000_0000];
    let patch_bytes = [255, 255, 255, 253];
    assert!(patch(&left, &patch_bytes).is_err());
}
