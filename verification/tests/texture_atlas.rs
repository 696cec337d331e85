use tea_core::texture_atlas::{
    check_texture_data, texture_error_of, AtlasState, TextureAtlasError, TextureDataError,
    TextureError,
};

/// Tests if the atlas state is initialized with the correct parameters.
#[test]
fn atlas_test_atlas_initialization() {
    let atlas = AtlasState::new(256, 256, 4);

    assert_eq!(atlas.width(), 256);
    assert_eq!(atlas.height(), 256);
    assert_eq!(atlas.page_count(), 4);
    assert_eq!(atlas.capacity(), 256 * 256 * 4);
    assert_eq!(atlas.usage(), 0);
    assert_eq!(atlas.allocation_count(), 0);
}

/// Allocation increases usage and deallocation decreases it.
#[test]
fn atlas_test_texture_allocation_and_deallocation() {
    let mut atlas = AtlasState::new(64, 64, 1);

    // Allocate one texture
    let texture1 = atlas.allocate([32, 32]).unwrap();
    assert_eq!(atlas.allocation_count(), 1);
    assert_eq!(atlas.usage(), 32 * 32);

    // Allocate another texture
    let texture2 = atlas.allocate([16, 16]).unwrap();
    assert_eq!(atlas.allocation_count(), 2);
    assert_eq!(atlas.usage(), 32 * 32 + 16 * 16);

    // Deallocate one texture
    atlas.deallocate(texture1.id).unwrap();
    assert_eq!(atlas.allocation_count(), 1);
    assert_eq!(atlas.usage(), 16 * 16);

    // Deallocate the other texture
    atlas.deallocate(texture2.id).unwrap();
    assert_eq!(atlas.allocation_count(), 0);
    assert_eq!(atlas.usage(), 0);
}

/// There is not enough space for a new allocation.
#[test]
fn test_allocation_failure() {
    let mut atlas = AtlasState::new(32, 32, 1);

    // This should succeed
    let _texture1 = atlas.allocate([32, 32]).unwrap();

    // This should fail
    let result = atlas.allocate([1, 1]);
    assert!(matches!(
        result,
        Err(TextureAtlasError::AllocationFailedNotEnoughSpace)
    ));
}

/// The space freed by a deallocated texture can be reused by a new allocation.
#[test]
fn atlas_test_reuse_deallocated_space() {
    let mut atlas = AtlasState::new(64, 64, 1);

    let texture1 = atlas.allocate([64, 64]).unwrap();
    assert_eq!(atlas.allocation_count(), 1);

    atlas.deallocate(texture1.id).unwrap();
    assert_eq!(atlas.allocation_count(), 0);

    // Should be able to allocate again in the same space
    let _texture2 = atlas.allocate([64, 64]).unwrap();
    assert_eq!(atlas.allocation_count(), 1);
}

/// The atlas can be resized to a larger size, preserving existing allocations.
#[test]
fn test_atlas_resize_grow() {
    let mut atlas = AtlasState::new(64, 64, 1);

    let _texture1 = atlas.allocate([32, 32]).unwrap();
    assert_eq!(atlas.allocation_count(), 1);

    atlas.resize(128, 128, 1, false, None).unwrap();

    assert_eq!((atlas.width(), atlas.height(), atlas.page_count()), (128, 128, 1));
    assert_eq!(atlas.allocation_count(), 1);
}

/// Resizing to a smaller size fails if existing textures do not fit and
/// data loss is not allowed.
#[test]
fn test_atlas_resize_shrink_fail() {
    let mut atlas = AtlasState::new(64, 64, 1);

    let _texture1 = atlas.allocate([64, 64]).unwrap();

    let result = atlas.resize(32, 32, 1, false, None);

    assert!(matches!(
        result,
        Err(TextureAtlasError::ResizeFailedNotEnoughSpace)
    ));
    // Ensure state is unchanged
    assert_eq!((atlas.width(), atlas.height(), atlas.page_count()), (64, 64, 1));
    assert_eq!(atlas.allocation_count(), 1);
}

/// Resizing to a smaller size succeeds with data loss when allowed,
/// discarding textures that no longer fit.
#[test]
fn test_atlas_resize_shrink_with_data_loss() {
    let mut atlas = AtlasState::new(64, 64, 1);

    let _texture1 = atlas.allocate([40, 40]).unwrap();

    atlas.resize(32, 32, 1, true, None).unwrap();

    assert_eq!((atlas.width(), atlas.height(), atlas.page_count()), (32, 32, 1));
    assert_eq!(atlas.allocation_count(), 0); // texture should be gone
}

/// The location of an allocated texture is inside the page and of the asked size.
#[test]
fn atlas_test_texture_uv() {
    let mut atlas = AtlasState::new(128, 128, 1);

    let texture = atlas.allocate([32, 64]).unwrap();
    let location = atlas.get_location(texture.id).unwrap();

    assert!(location.min_x >= 0 && location.min_x < 128);
    assert!(location.min_y >= 0 && location.min_y < 128);
    assert!(location.max_x > location.min_x && location.max_x <= 128);
    assert!(location.max_y > location.min_y && location.max_y <= 128);
    assert_eq!(location.size(), [32, 64]);
}

#[test]
fn atlas_max_allocation_size_and_lookup() {
    let mut atlas = AtlasState::new(128, 128, 2);
    assert_eq!(atlas.max_allocation_size(), [0, 0]);
    let a = atlas.allocate([20, 100]).unwrap();
    let b = atlas.allocate([90, 10]).unwrap();
    assert_eq!(atlas.max_allocation_size(), [90, 100]);
    assert_ne!(a.id, b.id);
    assert_eq!(b.id.serial, a.id.serial + 1);
    atlas.deallocate(a.id).unwrap();
    assert!(atlas.get_location(a.id).is_none());
    assert!(atlas.deallocate(a.id).is_err());
    assert_eq!(atlas.max_allocation_size(), [90, 10]);
}

#[test]
fn atlas_rejects_empty_and_oversized_requests() {
    let mut atlas = AtlasState::new(64, 64, 1);
    assert_eq!(atlas.allocate([0, 8]), Err(TextureAtlasError::AllocationFailedNotEnoughSpace));
    assert_eq!(atlas.allocate([65, 8]), Err(TextureAtlasError::AllocationFailedNotEnoughSpace));
    assert_eq!(atlas.allocation_count(), 0);
}

#[test]
fn atlas_pages_fill_in_order_and_never_overlap() {
    let mut atlas = AtlasState::new(32, 32, 2);
    let a = atlas.allocate([32, 32]).unwrap();
    let b = atlas.allocate([16, 16]).unwrap();
    let c = atlas.allocate([16, 16]).unwrap();
    assert_eq!(a.location.page_index, 0);
    assert_eq!(b.location.page_index, 1);
    assert_eq!(c.location.page_index, 1);
    let apart = b.location.max_x <= c.location.min_x
        || c.location.max_x <= b.location.min_x
        || b.location.max_y <= c.location.min_y
        || c.location.max_y <= b.location.min_y;
    assert!(apart);
}

#[test]
fn atlas_resize_with_new_allocation_reports_moves() {
    let mut atlas = AtlasState::new(32, 32, 1);
    let a = atlas.allocate([32, 32]).unwrap();
    let (added, moves) = atlas.resize(32, 32, 2, false, Some([8, 8])).unwrap();
    let added = added.unwrap();
    assert_eq!(moves.len(), 1);
    assert_eq!(moves[0].0, a.location);
    assert_eq!(atlas.allocation_count(), 2);
    assert_eq!(atlas.usage(), 32 * 32 + 8 * 8);
    assert_eq!(added.location.size(), [8, 8]);
    assert_eq!(added.location.page_index, 1);
    assert_eq!(atlas.get_location(a.id).unwrap().size(), [32, 32]);
}

#[test]
fn texture_data_is_checked_per_format() {
    // A 4 x 2 texture in a 4-byte and a 1-byte format.
    let blocks = vec![Some(4u32), Some(1u32)];
    assert_eq!(check_texture_data([4, 2], &blocks, &vec![32, 8]), Ok(()));
    assert_eq!(
        check_texture_data([4, 2], &blocks, &vec![32]),
        Err(TextureDataError::CountMismatch)
    );
    assert_eq!(
        check_texture_data([4, 2], &blocks, &vec![32, 9]),
        Err(TextureDataError::SizeMismatch(1))
    );
    assert_eq!(
        check_texture_data([4, 2], &vec![None, Some(1)], &vec![32, 8]),
        Err(TextureDataError::InvalidFormatBlockCopySize)
    );
    // The first bad slice is the one reported.
    assert_eq!(
        check_texture_data([4, 2], &blocks, &vec![31, 9]),
        Err(TextureDataError::SizeMismatch(0))
    );
}

#[test]
fn deallocating_undoes_allocating() {
    let mut atlas = AtlasState::new(64, 64, 2);
    let _keep = atlas.allocate([10, 10]).unwrap();
    let before_count = atlas.allocation_count();
    let before_usage = atlas.usage();
    let t = atlas.allocate([20, 30]).unwrap();
    assert_eq!(atlas.usage(), before_usage + 600);
    atlas.deallocate(t.id).unwrap();
    assert_eq!(atlas.allocation_count(), before_count);
    assert_eq!(atlas.usage(), before_usage);
    assert_eq!(atlas.deallocate(t.id).is_err(), true);
}

#[test]
fn growing_atlas_adds_a_page_when_full() {
    let mut atlas = AtlasState::new(32, 32, 1);
    let a = atlas.allocate_growing([32, 32]).unwrap();
    assert_eq!(atlas.page_count(), 1);
    let b = atlas.allocate_growing([16, 16]).unwrap();
    assert_eq!(atlas.page_count(), 2);
    assert_eq!(a.location.page_index, 0);
    assert_eq!(b.location.page_index, 1);
    assert_eq!(
        atlas.allocate_growing([33, 1]),
        Err(TextureAtlasError::AllocationFailedTooLarge)
    );
    assert_eq!(atlas.page_count(), 2);
}

#[test]
fn an_empty_page_always_takes_a_fitting_texture() {
    let mut atlas = AtlasState::new(64, 64, 2);
    // Page 0 is taken; a full-size texture still fits on the empty page 1.
    atlas.allocate([64, 64]).unwrap();
    let big = atlas.allocate([64, 64]).unwrap();
    assert_eq!(big.location.page_index, 1);
    // Freeing it empties page 1 again, and the space is used again.
    atlas.deallocate(big.id).unwrap();
    let again = atlas.allocate([64, 64]).unwrap();
    assert_eq!(again.location.page_index, 1);
}

#[test]
fn resize_with_a_page_per_texture_never_fails() {
    let mut atlas = AtlasState::new(64, 64, 1);
    atlas.allocate([40, 40]).unwrap();
    atlas.allocate([20, 20]).unwrap();
    let (added, moves) = atlas.resize(48, 48, 3, false, Some([48, 48])).unwrap();
    assert!(added.is_some());
    assert_eq!(moves.len(), 2);
    assert_eq!(atlas.allocation_count(), 3);
}

#[test]
fn data_check_errors_name_the_slice_at_fault() {
    assert_eq!(
        texture_error_of(TextureDataError::CountMismatch),
        TextureError::DataConsistencyError("Data length does not match formats length".to_string())
    );
    assert_eq!(
        texture_error_of(TextureDataError::InvalidFormatBlockCopySize),
        TextureError::InvalidFormatBlockCopySize
    );
    assert_eq!(
        texture_error_of(TextureDataError::SizeMismatch(12)),
        TextureError::DataConsistencyError(
            "Data size for format 12 does not match expected size".to_string()
        )
    );
}

#[test]
fn a_page_with_textures_takes_more_while_it_has_room() {
    let mut atlas = AtlasState::new(64, 64, 2);
    let a = atlas.allocate([32, 32]).unwrap();
    let b = atlas.allocate([32, 32]).unwrap();
    assert_eq!(a.location.page_index, 0);
    assert_eq!(b.location.page_index, 0);
    let d = atlas.allocate([64, 64]).unwrap();
    assert_eq!(d.location.page_index, 1);
    assert_eq!(atlas.allocate([64, 64]), Err(TextureAtlasError::AllocationFailedNotEnoughSpace));
    let e = atlas.allocate([16, 16]).unwrap();
    assert_eq!(e.location.page_index, 0);
}

#[test]
fn growing_atlas_refuses_too_large_before_empty_sides() {
    let mut atlas = AtlasState::new(64, 64, 1);
    assert_eq!(atlas.allocate_growing([65, 0]), Err(TextureAtlasError::AllocationFailedTooLarge));
    assert_eq!(atlas.page_count(), 1);
}

#[test]
fn pages_larger_than_the_i32_area_are_accepted() {
    let atlas = AtlasState::new(65536, 65536, 1);
    assert_eq!(atlas.capacity(), 65536usize * 65536);
}
