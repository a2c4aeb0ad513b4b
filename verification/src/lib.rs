//! Reading and writing of SquashFS 4.0 archives: the packed on-disk records,
//! the metadata block stream, the tables built on it, and the rules of the
//! archive writer and opener.

pub mod bytes;
pub mod compress_threads;
pub mod compression;
pub mod config;
pub mod errors;
pub mod packed;
pub mod pool;
pub mod read;
pub mod repr;
pub mod shared_position_file;
pub mod sparse;
pub mod write;
