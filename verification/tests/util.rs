use malh::util::{bit, get_depth_and_num_pages, highest_set_bit, lower_bits};

#[test]
fn test_bit() {
    assert_eq!(bit(0, 0b1100), 0);
    assert_eq!(bit(1, 0b1100), 0);
    assert_eq!(bit(2, 0b1100), 1);
    assert_eq!(bit(3, 0b1100), 1);
    assert_eq!(bit(4, 0b1100), 0);
}

#[test]
fn test_hsb() {
    assert_eq!(highest_set_bit(0b0), 0);
    assert_eq!(highest_set_bit(0b1), 1);
    assert_eq!(highest_set_bit(0b10), 2);
    assert_eq!(highest_set_bit(0b100), 3);
    assert_eq!(highest_set_bit(0b1000), 4);
    assert_eq!(highest_set_bit(0b1011), 4);
    assert_eq!(highest_set_bit(0b101011), 6);
    assert_eq!(highest_set_bit(1 << 31), 32);
}

#[test]
fn test_lower_bits() {
    assert_eq!(lower_bits(2, 0b111101), 0b01);
}

#[test]
fn round_pages() {
    assert_eq!(get_depth_and_num_pages(0), (0, 1));
    assert_eq!(get_depth_and_num_pages(1), (0, 1));
    assert_eq!(get_depth_and_num_pages(2), (1, 2));
    assert_eq!(get_depth_and_num_pages(3), (2, 4));
    assert_eq!(get_depth_and_num_pages(6), (3, 8));
}

#[test]
fn hash_is_stable() {
    // the string hash is part of the on-disk contract: pin a few values of
    // the 64-bit FNV-1a hash truncated to 32 bits
    assert_eq!(malh::util::hash(""), 0x84222325);
    assert_eq!(malh::util::hash("a"), (0xaf63dc4c8601ec8cu64 & 0xffff_ffff) as u32);
}

#[test]
fn lower_bits_edges() {
    assert_eq!(lower_bits(0, 0xdead_beef), 0);
    assert_eq!(lower_bits(32, 0xdead_beef), 0xdead_beef);
}
