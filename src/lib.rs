//! A content-addressed index of the files under a managed root directory.
//!
//! The index maps relative paths to resources (content id and modification
//! time) and content ids back to the paths that carry them. Everything that
//! decides what the index holds is verified here; reading the file system,
//! persisting and watching are done by the caller, who hands the library
//! plain values.
use vstd::prelude::*;

pub mod error;
pub mod index;
pub mod laws;
pub mod paths;
pub mod resource_id;
mod text;
pub mod watch;

pub use error::ArklibError;
pub use index::{IndexUpdate, IndexedResource, ResourceIndex};
pub use resource_id::ResourceId;
pub use watch::{Watch, WatchEvent};
