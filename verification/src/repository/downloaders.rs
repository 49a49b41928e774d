//! Package downloaders.

pub mod lpm_downloader;
