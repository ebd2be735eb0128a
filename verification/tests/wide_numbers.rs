use nla_compass::wide::{add_wide, le_wide, mul_small, mul_wide, power_wide, shift_one, trim};

#[test]
fn limbs_are_trimmed_from_the_top() {
    assert_eq!(trim(vec![5, 0, 7, 0, 0]), vec![5, 0, 7]);
    assert_eq!(trim(vec![0, 0]), Vec::<u64>::new());
    assert_eq!(trim(vec![]), Vec::<u64>::new());
    assert_eq!(trim(vec![1]), vec![1]);
}

#[test]
fn products_and_sums_carry() {
    assert_eq!(mul_small(&vec![u64::MAX, u64::MAX], u64::MAX), vec![1, u64::MAX, u64::MAX - 1]);
    assert_eq!(mul_small(&vec![], 9), vec![0]);
    assert_eq!(mul_small(&vec![3, 4], 0), vec![0, 0, 0]);
    assert_eq!(add_wide(&vec![u64::MAX, u64::MAX], &vec![1, 0]), vec![0, 0, 1]);
    assert_eq!(add_wide(&vec![1, 2], &vec![3, 4]), vec![4, 6, 0]);
    assert_eq!(shift_one(&vec![7, 8]), vec![0, 7, 8]);
    // (2^128 - 1)^2 = 2^256 - 2^129 + 1
    assert_eq!(
        mul_wide(&vec![u64::MAX, u64::MAX], u128::MAX),
        vec![1, 0, u64::MAX - 1, u64::MAX]
    );
    assert_eq!(mul_wide(&vec![6], 7), vec![42]);
    assert_eq!(mul_wide(&vec![6, 1], 0), Vec::<u64>::new());
    assert_eq!(mul_wide(&vec![1], 1u128 << 64), vec![0, 1]);
}

#[test]
fn powers_of_any_size() {
    assert_eq!(power_wide(2, 0, 1), Some(vec![1]));
    assert_eq!(power_wide(2, 63, 1), Some(vec![1u64 << 63]));
    assert_eq!(power_wide(2, 64, 1), None);
    assert_eq!(power_wide(2, 64, 2), Some(vec![0, 1]));
    assert_eq!(power_wide(10, 20, 2), Some(vec![0x6bc75e2d63100000, 5]));
    assert_eq!(power_wide(2, 200, 4), Some(vec![0, 0, 0, 256]));
    assert_eq!(power_wide(2, 4_000_000_000, 4), None);
    assert_eq!(power_wide(u128::MAX, 2, 4), Some(vec![1, 0, u64::MAX - 1, u64::MAX]));
    assert_eq!(power_wide(u128::MAX, 3, 4), None);
}

#[test]
fn order_of_wide_numbers() {
    assert!(le_wide(&vec![], &vec![]));
    assert!(le_wide(&vec![], &vec![1]));
    assert!(!le_wide(&vec![1], &vec![]));
    assert!(le_wide(&vec![u64::MAX], &vec![0, 1]));
    assert!(!le_wide(&vec![0, 1], &vec![u64::MAX]));
    assert!(le_wide(&vec![9, 3, 5], &vec![9, 3, 5]));
    assert!(le_wide(&vec![9, 2, 5], &vec![0, 3, 5]));
    assert!(!le_wide(&vec![0, 3, 5], &vec![9, 2, 5]));
    assert!(le_wide(&vec![8, 3, 5], &vec![9, 3, 5]));
    assert!(!le_wide(&vec![9, 3, 6], &vec![9, 9, 5]));
}
