//! A directory-based library of markdown documents: finding the library
//! root, listing and searching its documents, and setting a document's title.
//! Paths are `/`-separated strings; the file system is left to the caller,
//! which hands in what it read.
pub mod config;
pub mod list;
pub mod path;
pub mod search;
pub mod text;
pub mod update;
pub mod utils;
