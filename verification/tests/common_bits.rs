use immix_rust::common::{lower_bits, test_nth_bit};

#[test]
pub fn test_u8_bits() {
    let value: u8 = 0b1100_0011;

    assert_eq!(test_nth_bit(value, 6), true);

    assert_eq!(lower_bits(value, 6), 0b00_0011);
}
