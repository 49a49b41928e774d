//! Bundling: source-file model, dependency discovery and ordering,
//! artifact emission, and the minifier over the emitted text.

pub mod bundler;
pub mod code_src_file;
pub mod minifier;
