pub mod keys;
pub mod merge;
