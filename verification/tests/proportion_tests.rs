use point_exchange::proportion::{Proportion, BILLION};
use point_exchange::toVec;

#[test]
fn ratio_rounds_down_to_parts_per_billion() {
    assert_eq!(Proportion::from_rational(1, 3).parts, 333_333_333);
    assert_eq!(Proportion::from_rational(2, 3).parts, 666_666_666);
    assert_eq!(Proportion::from_rational(1, 2).parts, 500_000_000);
    assert_eq!(Proportion::from_rational(7, 7).parts, BILLION);
    assert_eq!(Proportion::from_rational(0, 5).parts, 0);
    // A zero total only ever pairs with a zero numerator.
    assert_eq!(Proportion::from_rational(0, 0).parts, 0);
}

#[test]
fn scaling_rounds_toward_zero_and_never_exceeds_the_amount() {
    let third = Proportion::from_rational(1, 3);
    assert_eq!(third.mul_floor(10), 3);
    assert_eq!(third.mul_floor(0), 0);
    let half = Proportion::from_rational(1, 2);
    assert_eq!(half.mul_floor(7), 3);
    assert_eq!(Proportion::one().mul_floor(u64::MAX), u64::MAX);
    assert_eq!(Proportion::one().parts, BILLION);
}

#[test]
#[allow(non_snake_case)]
fn toVec_copies_utf8_bytes() {
    assert_eq!(toVec("ANSWER_HASH"), b"ANSWER_HASH".to_vec());
    assert_eq!(toVec(""), Vec::<u8>::new());
    assert_eq!(toVec("abc"), vec![97u8, 98, 99]);
}
