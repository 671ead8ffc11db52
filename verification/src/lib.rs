//! Tools that turn a book written as Markdown chapters into an HTML book and
//! a LaTeX book: the structure of the book, the amalgamation of its chapters
//! into one document and back, the links between chapters, the plans for
//! putting chapters together, and the configuration of the HTML book.
pub mod amalg;
pub mod config;
pub mod links;
pub mod mdbook;
pub mod merge;
pub mod paths;
pub mod quote;
pub mod strmap;
pub mod text;

pub use amalg::{match_amalg_prefix, AMALG_MAGIC};
