//! Tags for filesystem paths: tag records, a resolver that loads the tag graph
//! reachable from a record while detecting cycles, and the membership, union,
//! intersection and tag-listing queries over the resolved graph.

mod chain;
pub mod error;
pub mod graph;
pub mod name_map;
pub mod reach;
pub mod record;
pub mod resolve;
pub mod sidecar;
pub mod string_set;

pub use error::{IoTagError, ResolveError, ResolvePath};
pub use graph::ResolvedTags;
pub use name_map::NameMap;
pub use record::{PathMetadata, RawTag, TagView};
pub use resolve::{LoadRequest, Resolution, TagCache};
pub use string_set::StringSet;
