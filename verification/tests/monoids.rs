use solution::traits::monoid::Monoid;
use solution::traits::semigroup::{Max, Min, Product, Semigroup, Sum};

#[test]
fn small_and_wide_integer_monoids() {
    assert_eq!(Sum(250u8).merge(Sum(10u8)), Sum(4u8));
    assert_eq!(Sum(-100i8).merge(Sum(-100i8)), Sum(56i8));
    assert_eq!(Sum(1u128 << 100).merge(Sum(1u128 << 100)), Sum(1u128 << 101));
    assert_eq!(Product(300u16).merge(Product(300u16)), Product(24464u16));
    assert_eq!(Product(16u8).merge(Product(16u8)), Product(0u8));
    assert_eq!(Max::Has(-3i8).merge(Max::Has(7i8)), Max::Has(7i8));
    assert_eq!(Min::Has(5u128).merge(Min::Inf), Min::Has(5u128));
    assert!(Sum::<i16>::empty().is_empty());
    assert!(!Sum(1i128).is_empty());
    assert!(Product::<u128>::empty().is_empty());
    assert!(Max::<u16>::empty().is_empty());
    assert!(!Min::Has(0i8).is_empty());
}
