use nla_compass::arith::{
    add_capped, nth_root, pow_checked, pow_saturating, raise, Exponent, UNBOUNDED,
};

#[test]
fn powers_that_fit() {
    assert_eq!(pow_checked(0, 0), Some(1));
    assert_eq!(pow_checked(0, 7), Some(0));
    assert_eq!(pow_checked(1, 4_000_000_000), Some(1));
    assert_eq!(pow_checked(2, 10), Some(1024));
    assert_eq!(pow_checked(3, 5), Some(243));
    assert_eq!(pow_checked(2, 127), Some(1u128 << 127));
    assert_eq!(pow_checked(10, 38), Some(100_000_000_000_000_000_000_000_000_000_000_000_000));
}

#[test]
fn powers_that_do_not_fit() {
    assert_eq!(pow_checked(2, 128), None);
    assert_eq!(pow_checked(10, 39), None);
    assert_eq!(pow_checked(u128::MAX, 2), None);
    assert_eq!(pow_saturating(2, 128), UNBOUNDED);
    assert_eq!(pow_saturating(7, 2), 49);
    assert_eq!(pow_saturating(u128::MAX, 1), UNBOUNDED);
}

#[test]
fn integer_roots() {
    assert_eq!(nth_root(0, 2), 0);
    assert_eq!(nth_root(1, 9), 1);
    assert_eq!(nth_root(17, 1), 17);
    assert_eq!(nth_root(26, 3), 2);
    assert_eq!(nth_root(27, 3), 3);
    assert_eq!(nth_root(28, 3), 3);
    assert_eq!(nth_root(99, 2), 9);
    assert_eq!(nth_root(100, 2), 10);
    assert_eq!(nth_root(u128::MAX, 2), 18_446_744_073_709_551_615);
    assert_eq!(nth_root(u128::MAX, 128), 1);
    assert_eq!(nth_root(u128::MAX, 127), 2);
    assert_eq!(nth_root(1u128 << 127, 127), 2);
    assert_eq!(nth_root((1u128 << 127) - 1, 127), 1);
}

#[test]
fn rational_exponents() {
    let one_and_a_half = Exponent::new(3, 2);
    assert!(one_and_a_half.is_well_formed());
    assert_eq!(raise(0, &one_and_a_half), 0);
    assert_eq!(raise(1, &one_and_a_half), 1);
    assert_eq!(raise(2, &one_and_a_half), 2);
    assert_eq!(raise(3, &one_and_a_half), 5);
    assert_eq!(raise(4, &one_and_a_half), 8);
    assert_eq!(raise(100, &one_and_a_half), 1000);
    assert_eq!(raise(10, &Exponent::new(3, 1)), 1000);
    assert_eq!(raise(1030328, &Exponent::new(5, 1)), 1161121084722240930697214394368);
    assert_eq!(raise(5, &Exponent::new(0, 1)), 1);
    assert_eq!(raise(9, &Exponent::new(1, 2)), 3);
}

#[test]
fn a_power_is_capped_only_where_it_reaches_the_cap() {
    assert_eq!(raise(1u128 << 64, &Exponent::new(2, 2)), 1u128 << 64);
    assert_eq!(raise((1u128 << 64) - 1, &Exponent::new(2, 2)), (1u128 << 64) - 1);
    assert_eq!(raise(100_000_000, &Exponent::new(5, 1)), UNBOUNDED);
    assert_eq!(raise(2, &Exponent::new(127, 1)), 1u128 << 127);
    assert_eq!(raise(2, &Exponent::new(128, 1)), UNBOUNDED);
    assert_eq!(raise(2, &Exponent::new(255, 2)), 240615969168004511545033772477625056927);
    assert_eq!(raise(2, &Exponent::new(256, 2)), UNBOUNDED);
    assert_eq!(raise(1_000_000_000_000_000_000_000_000_000_000, &Exponent::new(3, 2)), UNBOUNDED);
    assert_eq!(
        raise(100_000_000_000_000_000_000, &Exponent::new(3, 2)),
        1_000_000_000_000_000_000_000_000_000_000
    );
    assert_eq!(raise(u128::MAX, &Exponent::new(128, 128)), UNBOUNDED);
    assert_eq!(raise(u128::MAX, &Exponent::new(129, 128)), UNBOUNDED);
    assert_eq!(raise(2, &Exponent::new(4_000_000_000, 128)), UNBOUNDED);
}

#[test]
fn powers_whose_numerator_is_large() {
    // The power under the root does not fit in 128 bits; the root of it does.
    assert_eq!(raise(3, &Exponent::new(150, 100)), 5);
    assert_eq!(raise(3, &Exponent::new(81, 41)), 8);
    assert_eq!(raise(7, &Exponent::new(199, 100)), 48);
    assert_eq!(raise(371, &Exponent::new(15, 10)), 7145);
    assert_eq!(raise(1000, &Exponent::new(79, 40)), 841395);
    assert_eq!(raise(1u128 << 100, &Exponent::new(2, 3)), 117129523791978766508);
    assert_eq!(
        raise(12345678901234567890, &Exponent::new(7, 4)),
        2571290884012223308840331773221992
    );
    assert_eq!(raise(u128::MAX, &Exponent::new(1, 2)), 18446744073709551615);
    assert_eq!(
        raise(u128::MAX, &Exponent::new(127, 128)),
        170141183460469231731687303715884105727
    );
    assert_eq!(raise(u128::MAX, &Exponent::new(1, 128)), 1);
    assert_eq!(raise(5, &Exponent::new(3, 128)), 1);
    assert_eq!(raise(0, &Exponent::new(150, 100)), 0);
    assert_eq!(raise(1, &Exponent::new(150, 100)), 1);
    assert_eq!(raise(9, &Exponent::new(0, 100)), 1);
}

#[test]
fn usable_exponents() {
    assert!(Exponent::new(3, 2).is_well_formed());
    assert!(Exponent::new(150, 100).is_well_formed());
    assert!(Exponent::new(0, 1).is_well_formed());
    assert!(Exponent::new(4_000_000_000, 128).is_well_formed());
    assert!(!Exponent::new(1, 0).is_well_formed());
    assert!(!Exponent::new(1, 129).is_well_formed());
}

#[test]
fn capped_addition() {
    assert_eq!(add_capped(2, 3), 5);
    assert_eq!(add_capped(u128::MAX, 1), UNBOUNDED);
    assert_eq!(add_capped(u128::MAX - 1, 1), UNBOUNDED);
    assert_eq!(add_capped(u128::MAX - 2, 1), u128::MAX - 1);
}
