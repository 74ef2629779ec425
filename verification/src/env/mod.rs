//! File naming and the contents of the files that point at other files.
pub mod file;
pub mod fs;

pub use fs::{current_file_contents, manifest_name_from_current, WritableFileOptions};
