use tea_core::back_prop_dirty::{BackPropDirty, DirtyForest};

/// Basic single-thread propagation.
#[test]
fn test_single_thread_propagation() {
    let mut forest = DirtyForest::new();
    let root = BackPropDirty::new(&mut forest, false);
    let child = BackPropDirty::with_parent(&mut forest, &root);

    assert!(!root.is_dirty(&forest));
    assert!(!child.is_dirty(&forest));

    child.mark_dirty(&mut forest);

    // Both child and root should be observed dirty.
    assert!(child.is_dirty(&forest));
    assert!(root.is_dirty(&forest));

    // take_dirty clears and returns previous state.
    assert!(root.take_dirty(&mut forest));
    assert!(!root.is_dirty(&forest));

    // Clearing child independently should work too.
    assert!(child.take_dirty(&mut forest));
    assert!(!child.is_dirty(&forest));
}

/// Deep chain propagation — ensures propagation reaches the root through many ancestors.
#[test]
fn test_deep_chain_propagation() {
    let depth = 1000usize;
    let mut forest = DirtyForest::new();
    let mut nodes = Vec::with_capacity(depth + 1);

    nodes.push(BackPropDirty::new(&mut forest, false)); // root at index 0
    for _ in 0..depth {
        let parent = *nodes.last().unwrap();
        nodes.push(BackPropDirty::with_parent(&mut forest, &parent));
    }

    // Mark the deepest node dirty.
    let last = *nodes.last().unwrap();
    last.mark_dirty(&mut forest);

    // Root should be dirty.
    assert!(nodes[0].is_dirty(&forest));
    assert!(nodes[depth].is_dirty(&forest));

    // Clearing root should succeed.
    assert!(nodes[0].take_dirty(&mut forest));
    assert!(!nodes[0].is_dirty(&forest));
}

#[test]
fn mark_stops_at_first_dirty_ancestor() {
    let mut forest = DirtyForest::new();
    let root = BackPropDirty::new(&mut forest, false);
    let mid = root.make_child(&mut forest);
    let leaf = mid.make_child(&mut forest);

    mid.mark_dirty(&mut forest);
    assert!(root.is_dirty(&forest));
    // the root is cleared; the middle node stays dirty
    root.clear_dirty(&mut forest);
    assert!(!root.is_dirty(&forest));
    // marking the leaf stops at the already dirty middle node
    leaf.mark_dirty(&mut forest);
    assert!(leaf.is_dirty(&forest));
    assert!(mid.is_dirty(&forest));
    assert!(!root.is_dirty(&forest));
}

#[test]
fn new_root_keeps_initial_state() {
    let mut forest = DirtyForest::new();
    let a = BackPropDirty::new(&mut forest, true);
    let b = a.make_child(&mut forest);
    assert!(a.is_dirty(&forest));
    assert!(!b.is_dirty(&forest));
    assert_eq!(forest.len(), 2);
    assert!(!b.take_dirty(&mut forest));
}
