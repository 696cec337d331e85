use tea_core::cache_atlas::{CacheAtlas, GlyphSlot};
use tea_core::keys::GlyphKey;

fn glyph(c: char) -> GlyphKey<256> {
    GlyphKey::from_scaled_size(c, 16 * 256, 7)
}

#[test]
fn cells_are_handed_out_row_by_row() {
    let mut atlas = CacheAtlas::<256>::new(32, 2, 2);
    assert_eq!(atlas.get_panel_size(), 32);
    assert_eq!(atlas.get_index_size(), (2, 2));
    let a = atlas.store(glyph('a'), [10, 12]);
    let b = atlas.store(glyph('b'), [11, 12]);
    let c = atlas.store(glyph('c'), [12, 12]);
    assert_eq!(a, GlyphSlot { index: [0, 0], data_offset: [0, 0], data_size: [10, 12] });
    assert_eq!(b, GlyphSlot { index: [1, 0], data_offset: [32, 0], data_size: [11, 12] });
    assert_eq!(c, GlyphSlot { index: [0, 1], data_offset: [0, 32], data_size: [12, 12] });
    assert!(!atlas.is_full());
    assert_eq!(atlas.get(glyph('b')), Some(b));
    assert_eq!(atlas.get(glyph('z')), None);
}

#[test]
fn full_atlas_evicts_the_oldest_glyph() {
    let mut atlas = CacheAtlas::<256>::new(8, 2, 1);
    atlas.store(glyph('a'), [1, 1]);
    atlas.store(glyph('b'), [2, 2]);
    assert!(atlas.is_full());
    let c = atlas.store(glyph('c'), [3, 3]);
    assert_eq!(c, GlyphSlot { index: [0, 0], data_offset: [0, 0], data_size: [3, 3] });
    assert_eq!(atlas.get(glyph('a')), None);
    assert!(atlas.get(glyph('b')).is_some());
    let d = atlas.store(glyph('d'), [4, 4]);
    assert_eq!(d.index, [1, 0]);
    assert_eq!(atlas.get(glyph('b')), None);
}
