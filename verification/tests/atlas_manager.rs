use tea_core::atlas_manager::{AtlasManager, AtlasManagerError};
use tea_core::texture_atlas::TextureAtlasError;

/// The texture format set used throughout, as plain format codes.
const RGBA8_UNORM_SRGB: u32 = 1;

/// The floating-point half of the memory strategy, as an application
/// computes it before asking the manager for a texture.
fn strategy(
    manager: &AtlasManager,
    formats: &Vec<u32>,
    size: [u32; 2],
    resize_threshold: Option<f32>,
    resize_factor: f32,
) -> (bool, u32) {
    match manager.atlas(formats) {
        Some(atlas) => {
            let area = (size[0] * size[1]) as usize;
            let over = match resize_threshold {
                Some(t) => (atlas.usage() + area) as f32 / atlas.capacity() as f32 > t,
                None => false,
            };
            let scaled = (atlas.page_count() as f32 * resize_factor).ceil() as u32;
            (over, scaled)
        }
        None => (false, 0),
    }
}

fn pages(manager: &AtlasManager, formats: &Vec<u32>) -> usize {
    manager.atlas(formats).unwrap().page_count()
}

fn usage(manager: &AtlasManager, formats: &Vec<u32>) -> usize {
    manager.atlas(formats).unwrap().usage()
}

#[test]
fn test_manager_new() {
    let manager: AtlasManager = AtlasManager::new(1024, 1024, 8, 1);
    assert_eq!(manager.atlas_count(), 0);
}

#[test]
fn test_add_format_set() {
    let mut manager: AtlasManager = AtlasManager::new(1024, 1024, 8, 2);

    let formats = vec![RGBA8_UNORM_SRGB];
    manager.add_format_set(formats.clone()).unwrap();
    assert_eq!(manager.atlas_count(), 1);
    assert_eq!(pages(&manager, &formats), 2);

    let result = manager.add_format_set(vec![]);
    assert!(matches!(result, Err(AtlasManagerError::EmptyFormatSet)));

    let result = manager.add_format_set(formats.clone());
    assert!(matches!(result, Err(AtlasManagerError::FormatSetAlreadyExists)));
}

#[test]
fn test_allocate_basic() {
    let mut manager: AtlasManager = AtlasManager::new(256, 256, 1, 1);

    let formats = vec![RGBA8_UNORM_SRGB];
    manager.add_format_set(formats.clone()).unwrap();

    let (over, scaled) = strategy(&manager, &formats, [32, 32], Some(0.8), 2.0);
    let texture = manager.allocate([32, 32], &formats, over, scaled).unwrap();
    assert_eq!(texture.entry.location.size(), [32, 32]);
    assert_eq!(usage(&manager, &formats), 32 * 32);
}

#[test]
fn test_allocate_invalid_size() {
    let mut manager: AtlasManager = AtlasManager::new(256, 256, 1, 1);

    let formats = vec![RGBA8_UNORM_SRGB];
    manager.add_format_set(formats.clone()).unwrap();

    let result = manager.allocate([0, 32], &formats, false, 2);
    assert!(matches!(result, Err(AtlasManagerError::InvalidTextureSize)));

    let result = manager.allocate([32, 0], &formats, false, 2);
    assert!(matches!(result, Err(AtlasManagerError::InvalidTextureSize)));

    let result = manager.allocate([257, 32], &formats, false, 2);
    assert!(matches!(result, Err(AtlasManagerError::InvalidTextureSize)));

    let result = manager.allocate([32, 257], &formats, false, 2);
    assert!(matches!(result, Err(AtlasManagerError::InvalidTextureSize)));
}

#[test]
fn test_allocate_format_set_not_found() {
    let mut manager: AtlasManager = AtlasManager::new(256, 256, 1, 1);

    let formats = vec![RGBA8_UNORM_SRGB];
    let result = manager.allocate([32, 32], &formats, false, 2);
    assert!(matches!(result, Err(AtlasManagerError::FormatSetNotFound)));
}

#[test]
fn test_proactive_resize_only() {
    let mut manager: AtlasManager = AtlasManager::new(64, 64, 4, 1);

    let formats = vec![RGBA8_UNORM_SRGB];
    manager.add_format_set(formats.clone()).unwrap();

    assert_eq!(pages(&manager, &formats), 1);

    let (over, scaled) = strategy(&manager, &formats, [32, 32], Some(0.1), 2.0);
    let _texture = manager.allocate([32, 32], &formats, over, scaled).unwrap();

    assert_eq!(pages(&manager, &formats), 2);
}

#[test]
fn test_allocate_max_size_reached() {
    let mut manager: AtlasManager = AtlasManager::new(32, 32, 1, 1);

    let formats = vec![RGBA8_UNORM_SRGB];
    manager.add_format_set(formats.clone()).unwrap();

    let (over, scaled) = strategy(&manager, &formats, [32, 32], Some(0.1), 2.0);
    let _texture1 = manager.allocate([32, 32], &formats, over, scaled).unwrap();
    assert_eq!(pages(&manager, &formats), 1);
    assert_eq!(usage(&manager, &formats), 32 * 32);

    let (over, scaled) = strategy(&manager, &formats, [1, 1], Some(0.1), 2.0);
    let result = manager.allocate([1, 1], &formats, over, scaled);
    assert!(matches!(
        result,
        Err(AtlasManagerError::AtlasError(TextureAtlasError::AllocationFailedNotEnoughSpace))
    ));
}

#[test]
fn manager_grows_when_full_and_keeps_textures() {
    let mut manager: AtlasManager = AtlasManager::new(32, 32, 3, 1);
    let formats = vec![RGBA8_UNORM_SRGB];
    manager.add_format_set(formats.clone()).unwrap();

    let first = manager.allocate([32, 32], &formats, false, 2).unwrap();
    assert!(first.moves.is_none());

    // The only page is full: the atlas grows to the scaled count and keeps
    // the first texture where it was.
    let second = manager.allocate([16, 16], &formats, false, 2).unwrap();
    let moves = second.moves.unwrap();
    assert_eq!(moves.len(), 1);
    assert_eq!(moves[0].0, first.entry.location);
    assert_eq!(pages(&manager, &formats), 2);
    assert_eq!(second.entry.location.page_index, 1);
    assert_eq!(usage(&manager, &formats), 32 * 32 + 16 * 16);
}

#[test]
fn manager_caps_growth_at_largest_page_count() {
    let mut manager: AtlasManager = AtlasManager::new(32, 32, 3, 1);
    let formats = vec![RGBA8_UNORM_SRGB];
    manager.add_format_set(formats.clone()).unwrap();
    let _ = manager.allocate([8, 8], &formats, true, 100).unwrap();
    assert_eq!(pages(&manager, &formats), 3);
}

#[test]
fn manager_deallocates_by_format_set() {
    let mut manager: AtlasManager = AtlasManager::new(64, 64, 2, 1);
    let a = vec![1u32];
    let b = vec![2u32, 3u32];
    manager.add_format_set(a.clone()).unwrap();
    manager.add_format_set(b.clone()).unwrap();
    let t = manager.allocate([10, 20], &b, false, 2).unwrap();
    assert_eq!(usage(&manager, &b), 200);
    assert!(!manager.deallocate(&a, t.entry.id));
    assert!(manager.deallocate(&b, t.entry.id));
    assert_eq!(usage(&manager, &b), 0);
    assert!(!manager.deallocate(&b, t.entry.id));
    assert!(!manager.deallocate(&vec![9u32], t.entry.id));
}
