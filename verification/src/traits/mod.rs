pub mod foldable;
pub mod laws;
pub mod monoid;
pub mod semigroup;

pub mod prelude;
