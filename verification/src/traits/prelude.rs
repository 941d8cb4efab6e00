pub use super::monoid::{Monoid, Size};
pub use super::semigroup::{Identity, Max, Min, Product, Semigroup, Sum};
