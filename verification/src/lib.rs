//! Decoding of line-oriented, labelled metadata text into typed entity records.
//!
//! The captured text of one query is cut into lines, the header is dropped,
//! every nine property lines are assembled into one record, and each record
//! is decoded into a [`WindowsEntity`] whose mode token is read flag by flag.

pub mod blocks;
pub mod decode;
pub mod entity;
pub mod flags;
pub mod number;
pub mod paths;
pub mod query;
pub mod records;
pub mod split;
pub mod text;

pub use decode::{create_windows_entity, split_the_formatted_output};
pub use entity::{
    is_archive, is_archive_and_reparse_point_or_symlink, is_directory, is_directory_and_archive,
    is_directory_and_archive_and_reparse_point_or_symlink,
    is_directory_and_reparse_point_or_symlink, is_reparse_point_or_symlink, WindowsEntity,
};
pub use flags::{check_entity_permissions, Permissions};
pub use paths::{windows_paths_one_backslash, windows_paths_two_backslash};
pub use query::{entity_info, folder_info, QueryError};
pub use records::{empty_lines_cleanup, extract_the_output, format_the_output};
