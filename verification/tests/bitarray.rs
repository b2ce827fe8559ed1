use gridpath::bitarray::BitArray;

#[test]
fn test_set_and_get_bit() {
    let mut bit_array = BitArray::new(64);

    // Initially, all bits should be clear
    assert!(!bit_array.get_bool(0));
    assert!(!bit_array.get_bool(63));

    // Set bit at position 3
    bit_array.set_bool(3, true);
    assert!(bit_array.get_bool(3));

    // Clear bit at position 3
    bit_array.set_bool(3, false);
    assert!(!bit_array.get_bool(3));

    // Set bit at position 5
    bit_array.set_bool(5, true);
    assert!(bit_array.get_bool(5));
}

#[test]
fn test_toggle_bit() {
    let mut bit_array = BitArray::new(64);

    // Toggle bit at position 2
    bit_array.toggle_bit(2);
    assert!(bit_array.get_bool(2));

    // Toggle bit at position 2 again
    bit_array.toggle_bit(2);
    assert!(!bit_array.get_bool(2));
}

#[test]
fn test_len_and_boundaries() {
    let mut bit_array = BitArray::new(64);
    assert_eq!(bit_array.len(), 64);

    // The last bit works like any other
    bit_array.set_bit(63);
    assert!(bit_array.is_bit_set(63));
    bit_array.clear_bit(63);
    assert!(!bit_array.is_bit_set(63));

    // Setting one bit leaves its word neighbours untouched
    bit_array.set_bit(32);
    assert!(!bit_array.get_bool(31));
    assert!(bit_array.get_bool(32));
    assert!(!bit_array.get_bool(33));
}
