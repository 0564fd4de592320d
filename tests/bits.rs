use oct::bits::next_power_of_two;
use oct::Bin;

#[test]
fn make_reserves_twice_the_next_power_of_two_plus_two() {
    assert_eq!(Bin::make(0).len(), 4);
    assert_eq!(Bin::make(1).len(), 4);
    assert_eq!(Bin::make(5).len(), 18);
    assert_eq!(Bin::make(8).len(), 18);
    assert_eq!(Bin::make(9).len(), 34);
    let b = Bin::make(9);
    assert_eq!(b.count_unset(), 34);
    assert_eq!(b.lowest_unset(), 0);
}

#[test]
fn next_power_of_two_values() {
    assert_eq!(next_power_of_two(0), 1);
    assert_eq!(next_power_of_two(1), 1);
    assert_eq!(next_power_of_two(2), 2);
    assert_eq!(next_power_of_two(3), 4);
    assert_eq!(next_power_of_two(1000), 1024);
}

#[test]
fn set_get_and_lowest_unset() {
    let mut b = Bin::make(5);
    b.set_bit(0);
    b.set_bit(1);
    b.set_bit(3);
    assert!(b.get(0));
    assert!(b.get(1));
    assert!(!b.get(2));
    assert!(b.get(3));
    assert_eq!(b.lowest_unset(), 2);
    b.set_bit(2);
    assert_eq!(b.lowest_unset(), 4);
    assert_eq!(b.count_unset(), 18 - 4);
    b.set_bit(17);
    assert!(b.get(17));
    assert_eq!(b.count_unset(), 18 - 5);
}

#[test]
fn zero_bits_clears_everything() {
    let mut b = Bin::make(5);
    b.set_bit(0);
    b.set_bit(9);
    b.zero_bits();
    assert_eq!(b.len(), 18);
    assert_eq!(b.count_unset(), 18);
    assert!(!b.get(9));
}

#[test]
fn set_all_bits_from_ors_a_shorter_bitset_in() {
    let mut small = Bin::make(1);
    small.set_bit(1);
    small.set_bit(3);
    let mut big = Bin::make(5);
    big.set_bit(2);
    big.set_bit(10);
    big.set_all_bits_from(&small);
    assert_eq!(big.len(), 18);
    assert!(big.get(1));
    assert!(big.get(2));
    assert!(big.get(3));
    assert!(big.get(10));
    assert!(!big.get(0));
    assert_eq!(big.count_unset(), 14);
    assert_eq!(big.lowest_unset(), 0);
}

#[test]
fn set_all_bits_from_ignores_bits_past_its_end() {
    let mut big = Bin::make(5);
    big.set_bit(12);
    let mut small = Bin::make(1);
    small.set_all_bits_from(&big);
    assert_eq!(small.len(), 4);
    assert_eq!(small.count_unset(), 4);
}
