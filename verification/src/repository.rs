//! The local repository: its manifest data, its lockfile, and the
//! record-keeping around installed packages.  File and network I/O on
//! these lives with the binary.

pub mod downloaders;
pub mod lpm_lockfile;
pub mod lpm_repository;
pub mod package_def;
pub mod repository;
