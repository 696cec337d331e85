//! Verified core of a GPU user-interface toolkit: glyph cache placement,
//! caches, dirty-flag propagation and texture-atlas bookkeeping.

pub mod keys;
pub mod recursive_atlas;
pub mod cache_node;
pub mod single_cache;
pub mod cache;
pub mod back_prop_dirty;
pub mod update_flag;
pub mod process_unique_id;
pub mod benchmark;
pub mod style;
pub mod texture_atlas;
pub mod cache_atlas;
pub mod atlas_manager;
