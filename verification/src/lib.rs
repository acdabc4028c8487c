//! A read-only faceted index over sound presets: natural ordering, the
//! multi-key product table, ingest from flat rows, facet queries, preview
//! path resolution and the decisions of the playback worker.

pub mod category;
pub mod category_node;
pub mod index;
pub mod ingest;
pub mod library;
pub mod natural;
pub mod paginated_result;
pub mod playback;
pub mod preset;
pub mod preview;
pub mod product;
pub mod query;
pub mod rows;
pub mod slots;
pub mod text;
