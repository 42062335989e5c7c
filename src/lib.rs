//! A log-structured key/value store: a verified storage engine whose every
//! change to its log is handed to the caller as a list of disk actions.
pub mod codec;
pub mod error;
pub mod kv;
pub mod engine;
pub mod protocol;
pub mod log_files;
