//! Repair of broken relative file references in text documents.
//!
//! A document is scanned for reference targets. Each target that is a path is
//! resolved against the directory of its document; where it leads to no file,
//! the known files of the same base name are ranked by how close they lie, and
//! the closest takes the target's place in the text.
//!
//! The library never touches the file system. The caller hands it the paths
//! of the known files, the text of each document and the paths that exist,
//! and gets back the new text, the warnings and the statistics.
//!
//! - [`index`]: the known files by base name.
//! - [`lines`], [`matcher`], [`scan`]: from a text to the targets in it.
//! - [`resolve`], [`rank`]: what becomes of one target.
//! - [`rewrite`]: putting replacements into the text.
//! - [`check`]: a whole document, from text to report.
//! - [`paths`]: path arithmetic, done by the `camino`, `pathdiff` and
//!   `std::path` implementations.

pub mod check;
pub mod context;
pub mod counts;
pub mod document;
pub mod index;
pub mod lines;
pub mod matcher;
pub mod order;
pub mod paths;
pub mod rank;
pub mod resolve;
pub mod rewrite;
pub mod scan;
pub mod text;
