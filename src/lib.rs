//! Resolves which backed-up revision of a file was current at a given time.
//!
//! A file version is written as `name.extension.YYYYMMDD-HHMMSS_rN` (prefix and
//! revision optional); a history document lists versions in order and marks
//! one of them as current.
pub mod constants;
pub mod datetime;
pub mod errors;
pub mod fileversionparser;
pub mod order;
pub mod render;
pub mod stack_history_parser;
pub mod text;
pub mod utils;

pub use constants::{BAKTIMEFMT, CTIMEFMT, STDTIMEFMT};
pub use datetime::DateTime;
pub use errors::BBError;
pub use fileversionparser::{FileVersion, FileVersionParser};
pub use stack_history_parser::get_file_version_on;
pub use utils::stack_history_from_path;
