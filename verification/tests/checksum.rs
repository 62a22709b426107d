use userspace_stack::checksum::{internet, pseudo_header};

#[test]
fn known_ipv4_header_checksum() {
    let header = [
        0x45, 0x00, 0x00, 0x73, 0x00, 0x00, 0x40, 0x00, 0x40, 0x11, 0xb8, 0x61, 0xc0, 0xa8,
        0x00, 0x01, 0xc0, 0xa8, 0x00, 0xc7,
    ];
    assert_eq!(internet(&header), 0);
}

#[test]
fn odd_length_checksum() {
    assert_eq!(internet(&[0x01, 0x02, 0x03]), 0xfbfd);
}

#[test]
fn pseudo_header_checksum_matches_concatenated_bytes() {
    let src = [192, 0, 2, 1];
    let dst = [198, 51, 100, 2];
    let segment = [0x12, 0x34, 0x56];
    let mut bytes = Vec::new();
    bytes.extend_from_slice(&src);
    bytes.extend_from_slice(&dst);
    bytes.extend_from_slice(&[0, 6, 0, segment.len() as u8]);
    bytes.extend_from_slice(&segment);
    assert_eq!(pseudo_header(src, dst, 6, &segment), internet(&bytes));
}

#[test]
fn empty_input_checksum_is_all_ones() {
    assert_eq!(internet(&[]), 0xffff);
}

#[test]
fn checksum_folds_carries() {
    // 0xffff + 0x0001 = 0x1_0000, which folds to 0x0001; its complement is 0xfffe.
    assert_eq!(internet(&[0xff, 0xff, 0x00, 0x01]), 0xfffe);
}

#[test]
fn appending_the_checksum_gives_zero() {
    let data = [0x12, 0x34, 0xab, 0xcd, 0x01];
    let sum = internet(&[0x12, 0x34, 0xab, 0xcd, 0x01, 0x00, 0x00, 0x00]);
    let mut with_sum = data.to_vec();
    with_sum.push(0);
    with_sum.extend_from_slice(&sum.to_be_bytes());
    assert_eq!(internet(&with_sum), 0);
}
