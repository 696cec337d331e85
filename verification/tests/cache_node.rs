use tea_core::cache_node::{CacheNode, StoreData, StoreResult};
use tea_core::recursive_atlas::CacheKey;

/// A key whose font size is given in points, scaled by 256 and rounded.
fn key(c: char, font_size: f32, texture_size: u32) -> CacheKey<256> {
    CacheKey::from_scaled_size(c, (font_size * 256.0).round() as u32, texture_size)
}

#[test]
fn test_1_depth_node() {
    let current_size = 1024;

    let mut node = CacheNode::<256>::new(current_size, 0, 0, 0).unwrap();

    // nothing is stored yet

    assert!(node.items().is_empty());

    assert_eq!(node.oldest(10), 0);
    assert_eq!(node.newest(10), 0);

    // store a key.

    let new_key_1 = key('a', 10.0, 10);
    let time = 1;
    let store_result = node.store(new_key_1, time);
    assert_eq!(
        store_result,
        Some(StoreResult {
            store_data: StoreData {
                key: new_key_1,
                atlas_x_range: node.x_range(),
                atlas_y_range: node.y_range(),
            },
            dead_items: vec![],
        })
    );

    assert_eq!(node.items(), vec![new_key_1]);
    assert_eq!(node.oldest(10), 1);
    assert_eq!(node.newest(10), 1);

    // store another key. this node can only store one key so it will remove the old key

    let new_key_2 = key('b', 10.0, 10);
    let time_2 = 2;
    let store_result = node.store(new_key_2, time_2);

    assert_eq!(
        store_result,
        Some(StoreResult {
            store_data: StoreData {
                key: new_key_2,
                atlas_x_range: [0, current_size - 1],
                atlas_y_range: [0, current_size - 1],
            },
            dead_items: vec![new_key_1]
        })
    );

    // store a key that is too big to be stored in this node (will be rejected)
    // this will not remove the old key

    let new_key_large = key('c', 2000.0, 2000);
    let time_large = 3;
    let store_result_large = node.store(new_key_large, time_large);

    assert_eq!(store_result_large, None);

    assert_eq!(node.items(), vec![new_key_2]);
    assert_eq!(node.oldest(10), 2);
    assert_eq!(node.newest(10), 2);
}

#[test]
fn test_2_depth_node() {
    let current_size = 1024;

    // create a node with 2 depth

    let mut node = CacheNode::<256>::new(current_size, 1, 0, 0).unwrap();

    // nothing is stored yet
    assert!(node.items().is_empty());
    assert_eq!(node.oldest(10), 0);
    assert_eq!(node.newest(10), 0);

    // store 1st key that is smaller than 512.0
    let small_key_1 = key('a', 10.0, 10);
    let time_small_1 = 1;
    let store_result_small_1 = node.store(small_key_1, time_small_1);

    assert_eq!(
        store_result_small_1,
        Some(StoreResult {
            store_data: StoreData {
                key: small_key_1,
                atlas_x_range: [0, current_size / 2 - 1],
                atlas_y_range: [0, current_size / 2 - 1],
            },
            dead_items: vec![],
        })
    );

    assert_eq!(node.items(), vec![small_key_1]);
    assert_eq!(node.oldest(10), 0); // there is still space in the node to store 10px glyph
    assert_eq!(node.oldest(600), 1); // to store 600px glyph, it have to remove existing key: [small_key_1]
    assert_eq!(node.newest(10), 1);

    // store 2nd key that is smaller than 512.0
    let small_key_2 = key('b', 10.0, 10);
    let time_small_2 = 2;
    let store_result_small_2 = node.store(small_key_2, time_small_2);
    assert_eq!(
        store_result_small_2,
        Some(StoreResult {
            store_data: StoreData {
                key: small_key_2,
                atlas_x_range: [current_size / 2, current_size - 1],
                atlas_y_range: [0, current_size / 2 - 1],
            },
            dead_items: vec![],
        })
    );

    assert_eq!(node.items(), vec![small_key_1, small_key_2]);
    assert_eq!(node.oldest(10), 0);
    assert_eq!(node.oldest(600), 1);
    assert_eq!(node.newest(10), 2);

    // store 3rd key that is smaller than 512.0
    let small_key_3 = key('c', 10.0, 10);
    let time_small_3 = 3;
    let store_result_small_3 = node.store(small_key_3, time_small_3);
    assert_eq!(
        store_result_small_3,
        Some(StoreResult {
            store_data: StoreData {
                key: small_key_3,
                atlas_x_range: [0, current_size / 2 - 1],
                atlas_y_range: [current_size / 2, current_size - 1],
            },
            dead_items: vec![],
        })
    );

    assert_eq!(node.items(), vec![small_key_1, small_key_2, small_key_3]);
    assert_eq!(node.oldest(10), 0);
    assert_eq!(node.oldest(600), 1);
    assert_eq!(node.newest(10), 3);

    // store 4th key that is smaller than 512.0
    let small_key_4 = key('d', 10.0, 10);
    let time_small_4 = 4;
    let store_result_small_4 = node.store(small_key_4, time_small_4);
    assert_eq!(
        store_result_small_4,
        Some(StoreResult {
            store_data: StoreData {
                key: small_key_4,
                atlas_x_range: [current_size / 2, current_size - 1],
                atlas_y_range: [current_size / 2, current_size - 1],
            },
            dead_items: vec![],
        })
    );

    assert_eq!(node.items().len(), 4);
    assert_eq!(node.oldest(10), 1);
    assert_eq!(node.oldest(600), 1);
    assert_eq!(node.newest(10), 4);

    // store 5th key that is smaller than 512.0
    // this will remove the oldest key (small_key_1) and store the new key in the 0th node
    let small_key_5 = key('e', 10.0, 10);
    let time_small_5 = 5;
    let store_result_small_5 = node.store(small_key_5, time_small_5);
    assert_eq!(
        store_result_small_5,
        Some(StoreResult {
            store_data: StoreData {
                key: small_key_5,
                atlas_x_range: [0, current_size / 2 - 1],
                atlas_y_range: [0, current_size / 2 - 1],
            },
            dead_items: vec![small_key_1],
        })
    );

    assert_eq!(
        node.items(),
        vec![small_key_5, small_key_2, small_key_3, small_key_4]
    );
    assert_eq!(node.oldest(600), 2);
    assert_eq!(node.oldest(10), 2);
    assert_eq!(node.newest(10), 5);

    // store 6th key that is larger than 512.0
    // this will remove all of existing keys and store the new key in this node
    let large_key_1 = key('f', 600.0, 600);
    let time_large_1 = 6;
    let store_result_large_1 = node.store(large_key_1, time_large_1);
    assert_eq!(
        store_result_large_1,
        Some(StoreResult {
            store_data: StoreData {
                key: large_key_1,
                atlas_x_range: [0, current_size - 1],
                atlas_y_range: [0, current_size - 1],
            },
            dead_items: vec![small_key_5, small_key_2, small_key_3, small_key_4,],
        })
    );

    assert_eq!(node.items(), vec![large_key_1]);
    assert_eq!(node.oldest(600), 6);
    assert_eq!(node.oldest(10), 6);
    assert_eq!(node.newest(10), 6);
}
