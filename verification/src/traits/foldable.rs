use vstd::prelude::*;

verus! {

/// A container whose elements can be folded in order.
pub trait Foldable {
    type Item;

    fn fold_left<T, F: Clone + Fn(T, &Self::Item) -> T>(&self, init: T, func: F) -> T;

    fn fold_right<T, F: Clone + Fn(&Self::Item, T) -> T>(&self, func: F, init: T) -> T;
}

} // verus!
