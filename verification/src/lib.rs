//! Generates the certificate gallery README files from a scanned tree of
//! certificate images.
pub mod config;
pub mod counts;
pub mod markdown;
pub mod model;
pub mod naming;
pub mod order;
pub mod path;
pub mod readme;
pub mod scan;
pub mod sort;
pub mod text;
