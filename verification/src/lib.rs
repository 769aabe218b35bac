//! Static resolver for a binary's shared-library dependencies.
//!
//! Given an executable's declared metadata, the resolver walks the declared
//! dependencies depth-first, resolving each name against a fixed ordered list
//! of search directories, and records the outcome in an ordered tree.  All
//! filesystem access is left to the caller, which drives the resolver as an
//! event/action machine; the decisions themselves are verified.

pub mod binary_file;
pub mod elf;
pub mod errors;
pub mod laws;
pub mod resolver;
pub mod tree;

pub use binary_file::BinaryFile;
pub use binary_file::BinaryFileView;
pub use elf::ElfMeta;
pub use errors::AnalyzeError;
pub use errors::ParseError;
pub use resolver::DependencyAnalyzer;
