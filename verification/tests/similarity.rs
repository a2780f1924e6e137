use kanpig::similarity::Similarity;
use kanpig::wide::{mul_wide, Wide};

#[test]
fn wide_product_of_small_numbers() {
    let p = mul_wide(6, 7);
    assert_eq!((p.hi, p.lo), (0, 42));
}

#[test]
fn wide_product_of_the_largest_numbers() {
    // (2^128 - 1)^2 = 2^256 - 2^129 + 1
    let p = mul_wide(u128::MAX, u128::MAX);
    assert_eq!(p.hi, u128::MAX - 1);
    assert_eq!(p.lo, 1);
}

#[test]
fn wide_product_carries_into_the_high_half() {
    // 2^64 * 2^64 = 2^128
    let p = mul_wide(1u128 << 64, 1u128 << 64);
    assert_eq!((p.hi, p.lo), (1, 0));
    // (2^127) * 6 = 3 * 2^128
    let q = mul_wide(1u128 << 127, 6);
    assert_eq!((q.hi, q.lo), (3, 0));
    // (2^64 + 3) * (2^64 + 5) = 2^128 + 8 * 2^64 + 15
    let r = mul_wide((1u128 << 64) + 3, (1u128 << 64) + 5);
    assert_eq!((r.hi, r.lo), (1, (8u128 << 64) + 15));
}

#[test]
fn wide_numbers_are_ordered_by_high_then_low() {
    let a = Wide { hi: 1, lo: 0 };
    let b = Wide { hi: 0, lo: u128::MAX };
    assert!(b.lt(&a));
    assert!(!a.lt(&b));
    assert!(!a.lt(&a));
    assert!(a.same(&a));
    assert!(!a.same(&b));
}

#[test]
fn a_ratio_is_held_with_its_squared_denominator() {
    let s = Similarity::new(9, 10).unwrap();
    assert_eq!((s.num, s.den_sq), (9, 100));
    assert!(s.is_valid());
}

#[test]
fn no_similarity_above_one_or_over_zero() {
    assert!(Similarity::new(11, 10).is_none());
    assert!(Similarity::new(0, 0).is_none());
    assert!(Similarity::new(1, 0).is_none());
    assert!(Similarity::new(0, 1).is_some());
    assert!(Similarity::new(u64::MAX, u64::MAX).is_some());
}

#[test]
fn validity_is_tested_on_the_fields() {
    assert!(!Similarity { num: 1, den_sq: 0 }.is_valid());
    assert!(!Similarity { num: 3, den_sq: 8 }.is_valid());
    assert!(Similarity { num: 3, den_sq: 9 }.is_valid());
    assert!(Similarity { num: u64::MAX, den_sq: u128::MAX }.is_valid());
}

#[test]
fn zero_and_one() {
    assert!(Similarity::zero().is_zero_value());
    assert!(!Similarity::zero().is_one_value());
    assert!(Similarity::one().is_one_value());
    assert!(!Similarity::one().is_zero_value());
    assert!(Similarity::new(7, 7).unwrap().is_one_value());
    assert!(Similarity::zero().less_than(&Similarity::one()));
    assert!(Similarity::one().same_as(&Similarity::new(5, 5).unwrap()));
}

#[test]
fn similarities_are_ordered_as_the_numbers_they_stand_for() {
    let half = Similarity::new(1, 2).unwrap();
    let two_quarters = Similarity::new(2, 4).unwrap();
    let two_thirds = Similarity::new(2, 3).unwrap();
    assert!(half.same_as(&two_quarters));
    assert!(!half.less_than(&two_quarters));
    assert!(half.at_most(&two_quarters));
    assert!(half.less_than(&two_thirds));
    assert!(!two_thirds.less_than(&half));
    assert!(!two_thirds.at_most(&half));
    assert!(!two_thirds.same_as(&half));
}

#[test]
fn a_value_with_an_irrational_root_is_ordered_too() {
    // 1 / sqrt(2) = 0.7071.. lies between 7/10 and 71/100
    let root = Similarity { num: 1, den_sq: 2 };
    assert!(Similarity::new(7, 10).unwrap().less_than(&root));
    assert!(root.less_than(&Similarity::new(71, 100).unwrap()));
}

#[test]
fn the_order_holds_where_the_products_need_more_than_128_bits() {
    let m = u64::MAX;
    let a = Similarity::new(m - 1, m).unwrap();
    let b = Similarity::new(m - 2, m - 1).unwrap();
    // (m-2)/(m-1) < (m-1)/m
    assert!(b.less_than(&a));
    assert!(!a.less_than(&b));
    assert!(!a.same_as(&b));
    assert!(a.same_as(&a));
}

#[test]
fn the_order_is_transitive_on_chosen_values() {
    let values = [
        Similarity::zero(),
        Similarity::new(1, 3).unwrap(),
        Similarity { num: 1, den_sq: 2 },
        Similarity::new(9, 10).unwrap(),
        Similarity::one(),
    ];
    for a in values.iter() {
        for b in values.iter() {
            for c in values.iter() {
                if a.less_than(b) && b.less_than(c) {
                    assert!(a.less_than(c));
                }
            }
        }
    }
    for i in 0..values.len() {
        for j in 0..values.len() {
            assert_eq!(values[i].less_than(&values[j]), i < j);
        }
    }
}
