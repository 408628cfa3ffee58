//! Symbol-driven planning of kernel module load orders, and parsing of the
//! kernel's live module-status listing.

pub mod module;
pub mod resolve;
pub mod laws;
pub mod text;
pub mod status;
pub mod loader;
pub mod plan;
