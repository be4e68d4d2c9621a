//! Web-ready images: which files are taken, how outputs are named, what is encoded at which
//! size, and what is reported about it.

pub mod markup;
pub mod names;
pub mod plan;
pub mod process;
pub mod render;
pub mod summary;
pub mod totals;
