pub mod lct;
pub mod seg_tree;
pub mod ref_store;
pub mod finger_tree;
