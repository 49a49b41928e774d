//! Bundler for Lua-style source trees: dependency discovery over an
//! in-memory file list, topological ordering of the discovered modules,
//! emission of a single self-executing artifact, and a tokenizer/minifier
//! pair that compacts the emitted text.

pub mod bundler;
pub mod command;
pub mod compiler;
pub mod luarocks;
pub mod repository;
pub mod text;
