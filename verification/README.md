# tea_core

The bookkeeping of a GPU user-interface toolkit, verified with Verus.

`src/` is the library, every function proved against its contract:

- `cache_node`, `recursive_atlas`, `keys`: a square glyph atlas split
  recursively into quadrants, with least-recently-stored eviction; glyphs
  never share a pixel.
- `cache_atlas`: a grid glyph cache filled row by row, then reused oldest
  first.
- `texture_atlas`, `atlas_manager`: texture atlases whose pages are packed by
  `guillotiere`, their resizing, and one atlas per set of texture formats
  grown by a memory strategy.
- `cache`, `single_cache`: single-entry caches.
- `back_prop_dirty`, `update_flag`: dirty flags that propagate to their
  ancestors, and update flags with notifiers, kept in arenas.
- `process_unique_id`, `benchmark`, `style`: identifier counters, timing
  windows, and style enums.

`app/` holds what the library leaves to ordinary Rust: `wgpu` textures and
copies, locks and atomics shared between threads, the clock, and the
floating-point parts of the memory strategy and glyph metrics.

`tests/` runs the library on concrete values.
