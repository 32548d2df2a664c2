//! Version discovery and request routing for a server of versioned,
//! pre-built documentation trees.
//!
//! The catalog is built from the paths of the documentation root's
//! subdirectories: those whose final segment is `<digits>.<digits>` are
//! versions, listed newest first. The menu context projects the catalog for
//! the home page template, and the router decides which handler answers a
//! request.
use vstd::prelude::*;

pub mod catalog;
pub mod menu;
pub mod router;
pub mod text;
pub mod version;

pub use catalog::{get_versions, list_version_dirs, sort_versions, VersionEntry};
pub use menu::{make_menu_data, MenuContext, MenuEntry};
pub use router::{fallback_message, handler_chain, route, Handler, Response};
pub use version::{parse_version, version_label};

verus! {

} // verus!
