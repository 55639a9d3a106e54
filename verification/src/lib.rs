//! Renders a directory tree listing and concatenates the contents of
//! selected files into a single text document.
//!
//! The filesystem itself is out of scope: callers walk a directory tree and
//! hand the library a pre-order sequence of entries (path, bare name, depth,
//! file/directory flag) together with the outcome of each attempted file
//! read. The library prunes subtrees rooted at ignored directory names,
//! renders the indented tree listing, selects files by extension, and
//! assembles the final output document.

pub mod config;
pub mod walk;
pub mod render;
