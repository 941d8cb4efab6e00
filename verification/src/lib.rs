pub mod data_structure;
pub mod io;
pub mod seg_tree;
pub mod subarray_gcd;
pub mod text_history;
pub mod traits;
