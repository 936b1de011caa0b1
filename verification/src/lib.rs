//! Indexes the directory tree of a game or a mod and finds the localization
//! keys in its localization files.

pub mod database;
pub mod dir_tree;
pub mod error;
pub mod text;

pub use database::Database;
pub use error::Error;
