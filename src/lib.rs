//! Inventory of system-packaged Rust library components: parsing package-index
//! description blocks into records, ordering them for display, and correlating
//! them with an installed-package listing.

pub mod text;
pub mod version;
pub mod record;
pub mod parser;
pub mod pipeline;
pub mod laws;
