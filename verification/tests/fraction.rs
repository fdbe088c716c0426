//! Exact numbers.

use libp2p_ffi::fraction::Fraction;
use libp2p_ffi::natural::Natural;

fn same(a: &Natural, b: &Natural) -> bool {
    !a.less(b) && !b.less(a)
}

#[test]
fn naturals_of_any_size_are_added_and_taken_away() {
    let big = Natural::from_u32(u32::MAX).times(u64::MAX).times(u64::MAX);
    let one = Natural::from_u32(1);
    assert!(big.less(&big.plus(&one)));
    assert!(!big.plus(&one).less(&big));
    assert!(same(&big.plus(&one).minus(&big), &one));
    assert!(same(&big.minus(&big), &Natural::from_u32(0)));
    assert!(same(&big.plus(&big), &big.times(2)));
    assert!(same(&one.minus(&one).plus(&big), &big.copy()));
    assert!(one.less(&big) && !big.less(&one) && !big.less(&big));
    // A carry through every digit.
    let round = Natural::from_u32(1).times(1 << 32).times(1 << 32).times(1 << 32);
    assert!(same(&round.minus(&one).plus(&one), &round));
    assert!(same(&big.times(0), &Natural::from_u32(0)));
}

#[test]
fn naturals_are_divided() {
    let big = Natural::from_u32(12_345).times(u64::MAX).times(1_000_003).plus(&Natural::from_u32(42));
    let (quotient, rest) = big.divided(u64::MAX);
    assert_eq!(rest, 42);
    assert!(same(&quotient, &Natural::from_u32(12_345).times(1_000_003)));
    let (quotient, rest) = Natural::from_u32(100).divided(7);
    assert!(same(&quotient, &Natural::from_u32(14)));
    assert_eq!(rest, 2);
    let (quotient, rest) = Natural::from_u32(0).divided(7);
    assert!(same(&quotient, &Natural::from_u32(0)));
    assert_eq!(rest, 0);
}

#[test]
fn shares_make_a_whole_exactly() {
    let mut f = Fraction::whole(0);
    for _ in 0..6 {
        f = f.plus(1, 1, 7);
    }
    assert!(f.below(1));
    // Six sevenths and three twenty-firsts.
    assert!(f.plus(2, 1, 21).below(1));
    let one = f.plus(1, 3, 21);
    assert!(!one.below(1) && one.below(2));
    assert!(!one.minus_one().below(0) && one.minus_one().below(1));
    let two = one.copy().plus(4_294_967_295, 4_294_967_295, 18_446_744_065_119_617_025);
    assert!(!two.below(2) && two.below(3));
    assert!(two.minus_one().minus_one().plus(1, 1, u64::MAX).below(1));
    assert!(!Fraction::whole(5).below(5) && Fraction::whole(5).below(6));
}

#[test]
fn unrelated_denominators_do_not_round() {
    let primes = [999_983u64, 1_000_003, 4_294_967_291, 4_294_967_279, 65_537, 257];
    let mut f = Fraction::whole(1);
    for p in primes {
        f = f.plus(1, 1, p);
    }
    assert!(!f.below(1) && f.below(2));
    let mut missing = f.minus_one();
    for p in primes {
        // All but what this one has added.
        missing = missing.plus(p - 1, 1, p);
    }
    assert!(!missing.below(primes.len() as u32));
    assert!(missing.below(primes.len() as u32 + 1));
    let mut short = Fraction::whole(0).plus(256, 1, 257);
    short = short.plus(1, 1, 258);
    assert!(short.below(1));
}
