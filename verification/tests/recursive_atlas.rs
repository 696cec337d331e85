use tea_core::recursive_atlas::{CacheKey, RecursiveAtlas};

const DUMMY_DATA_5X5: [u8; 25] = [0; 25];
const DUMMY_DATA_15X15: [u8; 225] = [0; 225];

fn key(c: char, font_size: f32, texture_size: u32) -> CacheKey<256> {
    CacheKey::from_scaled_size(c, (font_size * 256.0).round() as u32, texture_size)
}

#[test]
fn cache_atlas_1_depth() {
    // initialize cache atlas

    let mut atlas = RecursiveAtlas::<256>::new(Some("Test Atlas"), 1, 10);

    assert_eq!(atlas.get_label(), Some(&"Test Atlas".to_string()));
    assert_eq!(atlas.get_atlas_size(), 10);
    assert_eq!(atlas.get_levels(), 1);
    assert_eq!(atlas.get_min_size(), 10);

    // storing test

    let key_a = key('A', 5.0, 5);
    {
        let texture = atlas
            .get_or_insert_with(&key_a, || DUMMY_DATA_5X5.into())
            .unwrap()
            .0;
        assert_eq!(texture.atlas_x_range, [0, 9]);
        assert_eq!(texture.atlas_y_range, [0, 9]);
    }

    assert_eq!(atlas.get(&key_a).unwrap().atlas_x_range, [0, 9]);
    assert_eq!(atlas.get(&key_a).unwrap().atlas_y_range, [0, 9]);

    let key_b = key('B', 5.0, 5);
    {
        let texture = atlas
            .get_or_insert_with(&key_b, || DUMMY_DATA_5X5.into())
            .unwrap()
            .0;
        assert_eq!(texture.atlas_x_range, [0, 9]);
        assert_eq!(texture.atlas_y_range, [0, 9]);
    }

    assert_eq!(atlas.get(&key_b).unwrap().atlas_x_range, [0, 9]);
    assert_eq!(atlas.get(&key_b).unwrap().atlas_y_range, [0, 9]);

    assert!(atlas.get(&key_a).is_none());
}

#[test]
fn cache_atlas_2_depth() {
    let mut atlas = RecursiveAtlas::<256>::new(Some("Test Atlas"), 2, 10);

    assert_eq!(atlas.get_label(), Some(&"Test Atlas".to_string()));
    assert_eq!(atlas.get_atlas_size(), 20);
    assert_eq!(atlas.get_levels(), 2);
    assert_eq!(atlas.get_min_size(), 10);

    // small a
    let key_a = key('A', 5.0, 5);
    {
        let texture = atlas
            .get_or_insert_with(&key_a, || DUMMY_DATA_5X5.into())
            .unwrap()
            .0;
        assert_eq!(texture.atlas_x_range, [0, 9]);
        assert_eq!(texture.atlas_y_range, [0, 9]);
    }
    assert_eq!(atlas.get(&key_a).unwrap().atlas_x_range, [0, 9]);
    assert_eq!(atlas.get(&key_a).unwrap().atlas_y_range, [0, 9]);

    // small b
    let key_b = key('B', 5.0, 5);
    {
        let texture = atlas
            .get_or_insert_with(&key_b, || DUMMY_DATA_5X5.into())
            .unwrap()
            .0;
        assert_eq!(texture.atlas_x_range, [10, 19]);
        assert_eq!(texture.atlas_y_range, [0, 9]);
    }
    assert_eq!(atlas.get(&key_b).unwrap().atlas_x_range, [10, 19]);
    assert_eq!(atlas.get(&key_b).unwrap().atlas_y_range, [0, 9]);
    assert_eq!(atlas.get(&key_a).unwrap().atlas_x_range, [0, 9]);
    assert_eq!(atlas.get(&key_a).unwrap().atlas_y_range, [0, 9]);

    // small c
    let key_c = key('C', 5.0, 5);
    {
        let texture = atlas
            .get_or_insert_with(&key_c, || DUMMY_DATA_5X5.into())
            .unwrap()
            .0;
        assert_eq!(texture.atlas_x_range, [0, 9]);
        assert_eq!(texture.atlas_y_range, [10, 19]);
    }
    assert_eq!(atlas.get(&key_c).unwrap().atlas_x_range, [0, 9]);
    assert_eq!(atlas.get(&key_c).unwrap().atlas_y_range, [10, 19]);
    assert_eq!(atlas.get(&key_a).unwrap().atlas_x_range, [0, 9]);
    assert_eq!(atlas.get(&key_a).unwrap().atlas_y_range, [0, 9]);
    assert_eq!(atlas.get(&key_b).unwrap().atlas_x_range, [10, 19]);
    assert_eq!(atlas.get(&key_b).unwrap().atlas_y_range, [0, 9]);

    // small d
    let key_d = key('D', 5.0, 5);
    {
        let texture = atlas
            .get_or_insert_with(&key_d, || DUMMY_DATA_5X5.into())
            .unwrap()
            .0;
        assert_eq!(texture.atlas_x_range, [10, 19]);
        assert_eq!(texture.atlas_y_range, [10, 19]);
    }
    assert_eq!(atlas.get(&key_d).unwrap().atlas_x_range, [10, 19]);
    assert_eq!(atlas.get(&key_d).unwrap().atlas_y_range, [10, 19]);
    assert_eq!(atlas.get(&key_a).unwrap().atlas_x_range, [0, 9]);
    assert_eq!(atlas.get(&key_a).unwrap().atlas_y_range, [0, 9]);
    assert_eq!(atlas.get(&key_b).unwrap().atlas_x_range, [10, 19]);
    assert_eq!(atlas.get(&key_b).unwrap().atlas_y_range, [0, 9]);
    assert_eq!(atlas.get(&key_c).unwrap().atlas_x_range, [0, 9]);
    assert_eq!(atlas.get(&key_c).unwrap().atlas_y_range, [10, 19]);

    // small e
    let key_e = key('E', 5.0, 5);
    {
        let texture = atlas
            .get_or_insert_with(&key_e, || DUMMY_DATA_5X5.into())
            .unwrap()
            .0;
        assert_eq!(texture.atlas_x_range, [0, 9]);
        assert_eq!(texture.atlas_y_range, [0, 9]);
    }
    assert_eq!(atlas.get(&key_e).unwrap().atlas_x_range, [0, 9]);
    assert_eq!(atlas.get(&key_e).unwrap().atlas_y_range, [0, 9]);

    assert!(atlas.get(&key_a).is_none());

    assert_eq!(atlas.get(&key_b).unwrap().atlas_x_range, [10, 19]);
    assert_eq!(atlas.get(&key_b).unwrap().atlas_y_range, [0, 9]);
    assert_eq!(atlas.get(&key_c).unwrap().atlas_x_range, [0, 9]);
    assert_eq!(atlas.get(&key_c).unwrap().atlas_y_range, [10, 19]);
    assert_eq!(atlas.get(&key_d).unwrap().atlas_x_range, [10, 19]);
    assert_eq!(atlas.get(&key_d).unwrap().atlas_y_range, [10, 19]);

    // large A
    let key_large_a = key('A', 15.0, 15);
    {
        let texture = atlas
            .get_or_insert_with(&key_large_a, || DUMMY_DATA_15X15.into())
            .unwrap()
            .0;
        assert_eq!(texture.atlas_x_range, [0, 19]);
        assert_eq!(texture.atlas_y_range, [0, 19]);
    }
    assert_eq!(atlas.get(&key_large_a).unwrap().atlas_x_range, [0, 19]);
    assert_eq!(atlas.get(&key_large_a).unwrap().atlas_y_range, [0, 19]);

    assert!(atlas.get(&key_a).is_none());
    assert!(atlas.get(&key_b).is_none());
    assert!(atlas.get(&key_c).is_none());
    assert!(atlas.get(&key_d).is_none());
    assert!(atlas.get(&key_e).is_none());
}

#[test]
fn atlas_store_of_present_key_is_a_lookup() {
    let mut atlas = RecursiveAtlas::<256>::new(None, 2, 10);
    let a = key('A', 5.0, 5);
    let first = atlas.store(&a).unwrap();
    let again = atlas.store(&a).unwrap();
    assert_eq!(first, again);
    assert_eq!(atlas.get_label(), None);
}

#[test]
fn atlas_refuses_oversized_key() {
    let mut atlas = RecursiveAtlas::<256>::new(None, 2, 10);
    let a = key('A', 5.0, 5);
    atlas.store(&a).unwrap();
    let big = key('Z', 30.0, 21);
    assert!(atlas.store(&big).is_none());
    assert!(atlas.get(&big).is_none());
    assert!(atlas.get(&a).is_some());
}

#[test]
fn cache_key_accessors() {
    let k = key('q', 12.5, 40);
    assert_eq!(k.get_char(), 'q');
    assert_eq!(k.get_texture_size(), 40);
    assert_eq!(k.get_multiplied_font_size(), 3200);
    assert!(k.same_key(&key('q', 12.5, 40)));
    assert!(!k.same_key(&key('q', 12.5, 41)));
}

#[test]
fn get_or_insert_with_asks_for_bytes_only_for_new_keys() {
    let mut atlas = RecursiveAtlas::<256>::new(None, 2, 10);
    let a = key('a', 5.0, 5);
    let mut calls = 0;
    let (first, bytes) = atlas
        .get_or_insert_with(&a, || {
            calls += 1;
            vec![7u8; 25]
        })
        .unwrap();
    assert_eq!(bytes, Some(vec![7u8; 25]));
    let (again, bytes) = atlas
        .get_or_insert_with(&a, || {
            calls += 1;
            vec![1u8; 25]
        })
        .unwrap();
    assert_eq!(bytes, None);
    assert_eq!(calls, 1);
    assert_eq!(first.atlas_x_range, again.atlas_x_range);
    assert_eq!(first.atlas_y_range, again.atlas_y_range);

    let too_big = key('b', 50.0, 50);
    assert!(atlas.get_or_insert_with(&too_big, || vec![0u8; 2500]).is_none());
}

#[test]
fn placed_glyphs_never_share_a_pixel() {
    let mut atlas = RecursiveAtlas::<256>::new(None, 3, 8);
    let sizes = [8u32, 8, 16, 8, 4, 8, 16, 20, 8, 8];
    let mut held = Vec::new();
    for (i, s) in sizes.iter().enumerate() {
        let k = key(char::from(b'a' + i as u8), *s as f32, *s);
        atlas.store(&k).unwrap();
        held.push(k);
    }
    let placed: Vec<_> = held.iter().filter_map(|k| atlas.get(k)).collect();
    assert!(!placed.is_empty());
    for (i, a) in placed.iter().enumerate() {
        assert!(a.atlas_x_range[1] < atlas.get_atlas_size());
        assert!(a.atlas_y_range[1] < atlas.get_atlas_size());
        for b in &placed[i + 1..] {
            let apart = a.atlas_x_range[1] < b.atlas_x_range[0]
                || b.atlas_x_range[1] < a.atlas_x_range[0]
                || a.atlas_y_range[1] < b.atlas_y_range[0]
                || b.atlas_y_range[1] < a.atlas_y_range[0];
            assert!(apart);
        }
    }
}
