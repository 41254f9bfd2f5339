pub mod models;
pub mod operations;
pub mod storage;
