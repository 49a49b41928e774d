//! Metadata formats of the remote package registry.

pub mod rockspec;
