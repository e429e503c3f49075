use immix_rust::common::{
    is_power_of_two, lower_bits, test_nth_bit, Address, ObjectReference, LOG_POINTER_SIZE,
    POINTER_SIZE,
};

#[test]
fn pointer_size_constants() {
    assert_eq!(LOG_POINTER_SIZE, 3);
    assert_eq!(POINTER_SIZE, 8);
    assert_eq!(1usize << LOG_POINTER_SIZE, POINTER_SIZE);
}

#[test]
fn address_plus_and_sub() {
    let a = Address::from_usize(0x1000);
    assert_eq!(a.plus(0x10).as_usize(), 0x1010);
    assert_eq!(a.sub(0x10).as_usize(), 0xff0);
    assert_eq!(a.plus(0).as_usize(), 0x1000);
    assert_eq!(a.plus(usize::MAX - 0x1000).as_usize(), usize::MAX);
    assert_eq!(a.sub(0x1000).as_usize(), 0);
}

#[test]
fn address_offset_counts_elements() {
    let a = Address::from_usize(0x1000);
    assert_eq!(a.offset::<u64>(2).as_usize(), 0x1010);
    assert_eq!(a.offset::<u64>(-2).as_usize(), 0x0ff0);
    assert_eq!(a.offset::<u8>(5).as_usize(), 0x1005);
    assert_eq!(a.offset::<u32>(0).as_usize(), 0x1000);
    assert_eq!(a.offset::<()>(-7).as_usize(), 0x1000);
    assert_eq!(a.offset::<u16>(-0x800).as_usize(), 0);
}

#[test]
fn address_diff_is_distance() {
    let a = Address::from_usize(0x2000);
    let b = Address::from_usize(0x1ff0);
    assert_eq!(a.diff(b), 0x10);
    assert_eq!(a.diff(a), 0);
}

#[test]
fn address_zero_is_null() {
    assert!(Address::zero().is_zero());
    assert_eq!(Address::zero().as_usize(), 0);
    assert!(!Address::from_usize(1).is_zero());
}

#[test]
fn address_align_up_values() {
    assert_eq!(Address::from_usize(0x1001).align_up(8).as_usize(), 0x1008);
    assert_eq!(Address::from_usize(0x1008).align_up(8).as_usize(), 0x1008);
    assert_eq!(Address::from_usize(0x1000).align_up(1).as_usize(), 0x1000);
    assert_eq!(Address::from_usize(1).align_up(32768).as_usize(), 32768);
    assert_eq!(Address::from_usize(0).align_up(16).as_usize(), 0);
    assert_eq!(Address::from_usize(17).align_up(16).as_usize(), 32);
}

#[test]
fn address_align_up_gives_least_multiple() {
    for x in 0usize..200 {
        for shift in 0..6 {
            let align = 1usize << shift;
            let r = Address::from_usize(x).align_up(align).as_usize();
            assert_eq!(r % align, 0);
            assert!(r >= x);
            assert!(r < x + align);
        }
    }
}

#[test]
fn address_align_up_bounded_respects_limit() {
    let a = Address::from_usize(0x1001);
    assert_eq!(
        a.align_up_bounded(8, Address::from_usize(0x1008)),
        Some(Address::from_usize(0x1008))
    );
    assert_eq!(a.align_up_bounded(8, Address::from_usize(0x1007)), None);
    assert_eq!(a.align_up_bounded(8, Address::from_usize(0x0fff)), None);
    let top = Address::from_usize(usize::MAX);
    assert_eq!(top.align_up_bounded(8, top), None);
    assert_eq!(top.align_up_bounded(1, top), Some(top));
}

#[test]
fn address_is_aligned_to() {
    assert!(Address::from_usize(0x1000).is_aligned_to(8));
    assert!(!Address::from_usize(0x1004).is_aligned_to(8));
    assert!(Address::from_usize(0x1004).is_aligned_to(4));
    assert!(Address::from_usize(9).is_aligned_to(3));
}

#[test]
fn address_order_is_by_value() {
    let a = Address::from_usize(10);
    let b = Address::from_usize(20);
    assert!(a < b);
    assert!(b > a);
    assert!(a <= a);
    assert!(a >= a);
    assert!(a == Address::from_usize(10));
    assert!(a != b);
    assert_eq!(a.partial_cmp(&b), Some(std::cmp::Ordering::Less));
    assert_eq!(b.partial_cmp(&a), Some(std::cmp::Ordering::Greater));
    assert_eq!(a.partial_cmp(&a), Some(std::cmp::Ordering::Equal));
}

#[test]
fn object_reference_round_trip() {
    let a = Address::from_usize(0x4000);
    let r = a.to_object_reference();
    assert_eq!(r.value(), 0x4000);
    assert_eq!(r.to_address(), a);
    assert!(!r.is_null());
}

#[test]
fn object_reference_null_is_zero() {
    assert!(Address::zero().to_object_reference().is_null());
    assert!(!Address::from_usize(8).to_object_reference().is_null());
}

#[test]
fn object_reference_order_is_by_value() {
    let a: ObjectReference = Address::from_usize(8).to_object_reference();
    let b: ObjectReference = Address::from_usize(16).to_object_reference();
    assert!(a < b);
    assert!(a == a);
    assert!(a != b);
    assert_eq!(b.partial_cmp(&a), Some(std::cmp::Ordering::Greater));
}

#[test]
fn nth_bit_of_every_position() {
    let value: u8 = 0b1010_0101;
    let expected = [true, false, true, false, false, true, false, true];
    for i in 0..8 {
        assert_eq!(test_nth_bit(value, i), expected[i]);
    }
    for i in 0..8 {
        assert!(!test_nth_bit(0, i));
        assert!(test_nth_bit(0xff, i));
    }
}

#[test]
fn lower_bits_is_remainder() {
    for value in 0u16..256 {
        for len in 0..8 {
            assert_eq!(lower_bits(value as u8, len) as u16, value % (1u16 << len));
        }
    }
    assert_eq!(lower_bits(0xff, 0), 0);
    assert_eq!(lower_bits(0xff, 7), 0x7f);
}

#[test]
fn power_of_two_check() {
    assert!(!is_power_of_two(0));
    assert!(is_power_of_two(1));
    assert!(is_power_of_two(2));
    assert!(!is_power_of_two(3));
    assert!(is_power_of_two(4096));
    assert!(!is_power_of_two(4097));
    assert!(is_power_of_two(1usize << (usize::BITS - 1)));
    assert!(!is_power_of_two(usize::MAX));
}
