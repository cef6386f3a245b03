use tok::fixed::Fx;

#[test]
fn fixed_point_constants_and_views() {
    assert_eq!(Fx::zero().raw(), 0);
    assert_eq!(Fx::one().raw(), 1 << 32);
    assert!(Fx::zero().is_zero());
    assert!(!Fx::one().is_zero());
    assert_eq!(Fx::from_int(3).raw(), 3 << 32);
    assert_eq!(Fx::from_int(-2).raw(), -(2 << 32));
    assert_eq!(Fx::from_ratio(1, 2).raw(), 1 << 31);
    assert_eq!(Fx::from_ratio(1, 4).raw(), 1 << 30);
}

#[test]
fn fixed_point_arithmetic_is_exact_on_dyadic_values() {
    let half = Fx::from_ratio(1, 2);
    assert_eq!(half.add(half), Fx::one());
    assert_eq!(Fx::one().sub(half), half);
    assert_eq!(Fx::from_int(3).mul(half), Fx::from_ratio(3, 2));
    assert_eq!(Fx::from_int(3).div(Fx::from_int(4)), Fx::from_ratio(3, 4));
    assert_eq!(Fx::from_int(25).sqrt(), Fx::from_int(5));
    assert_eq!(Fx::zero().sqrt(), Fx::zero());
    assert_eq!(Fx::ratio_u128(1, 8), Fx::from_ratio(1, 8));
}

#[test]
fn fixed_point_comparisons() {
    let a = Fx::from_int(1);
    let b = Fx::from_int(2);
    assert!(a.lt(&b) && a.le(&b) && b.gt(&a) && b.ge(&a));
    assert!(a.le(&a) && a.ge(&a) && !a.lt(&a) && !a.gt(&a));
    assert!(Fx::from_int(-1).lt(&Fx::zero()));
}

#[test]
fn ratio_u128_halves_large_denominators() {
    let big: u128 = 1 << 100;
    assert_eq!(Fx::ratio_u128(big / 4, big), Fx::from_ratio(1, 4));
    assert_eq!(Fx::ratio_u128(1 << 94, 1 << 94), Fx::one());
}
