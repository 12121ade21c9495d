pub mod engine;
pub mod matches;
pub mod offers;
pub mod typed_tree;
pub mod engine_btree;
