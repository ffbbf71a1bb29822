//! A dependency-resolution cache for interrelated documents.
//!
//! The heart of the crate is a keyed store ([`cache::Cache`]) together with
//! an iterative resolution algorithm
//! ([`cache::Cache::resolve_dependencies`]): the algorithm scans cached
//! entries for references to keys that are not yet cached, optionally fetches
//! the missing entries through a caller-supplied source, rewrites every
//! entry's references to reflect which targets are now present, and reports,
//! per entry, the signed number of references that changed state.  The store,
//! the algorithm, and the single-flight background wrapper
//! ([`session::ResolveSession`]) are generic over the key type, the value
//! type, and the fetch mechanism; [`doc`] holds the concrete document model
//! they are used with.

use vstd::prelude::*;

pub mod cache;
pub mod doc;
pub mod error;
pub mod order;
pub mod resolve;
pub mod session;
pub mod source;
pub mod strutil;
pub mod tabs;

pub use cache::{Cache, CacheReference};
pub use doc::{
    DocIdentifier, IetfDoc, Meta, StatefulDoc, Summary, name_to_id, update_missing_dep_count,
};
pub use error::DocError;
pub use order::CacheIdentifier;
pub use resolve::{
    KeySet, RelationalEntry, ResolvableEntry, ResolveParams, ResolveReport, ResolveTarget,
    REFS_BOUND,
};
pub use session::ResolveSession;
pub use source::SourceUrl;
pub use tabs::{Tab, Tabs};

verus! {

} // verus!
