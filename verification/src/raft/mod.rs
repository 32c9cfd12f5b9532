pub mod log;
pub mod storage;
