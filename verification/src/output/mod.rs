//! Output tables and run directories.
pub mod parquet;
pub mod run_directory;
