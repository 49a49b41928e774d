//! Model of the remote package registry's data: namespaces, packages,
//! versions, and the rockspec metadata format.  The network client
//! that fills these lives with the binary.

pub mod formats;
pub mod luarocks_repo;
