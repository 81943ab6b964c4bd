//! A tiled, deferred, multi-resolution data pipeline for large
//! performance profiles: a hierarchical entry model, self-identifying
//! tiles over pyramidal zoom levels, pluggable data-source adapters,
//! and the codecs that name entries and tiles in archives and URLs.

pub mod archive_data;
pub mod data;
pub mod decimal;
pub mod deferred_data;
pub mod file_data;
pub mod http;
pub mod merge_data;
pub mod random_data;
pub mod tile_select;
pub mod timestamp;
