use hierarchy_layout::{HierarchyNode, PartitionLayout, TilingMethod, TreeLayout, TreemapLayout};

const DEPTH: usize = 100_000;

/// A chain of `DEPTH` nodes above one leaf, with a second leaf beside every node of the chain.
fn chain() -> HierarchyNode<String> {
    let mut node = HierarchyNode::new("bottom".to_string(), 1);
    for _ in 0..DEPTH {
        let mut parent = HierarchyNode::new("link".to_string(), 0);
        parent.add_child(HierarchyNode::new("side".to_string(), 2));
        parent.add_child(node);
        node = parent;
    }
    node
}

#[test]
fn deep_passes_do_not_use_the_call_stack() {
    let mut root = chain();
    assert_eq!(root.height, DEPTH);
    assert!(root.fits());
    assert_eq!(root.total_weight(), Some(2 * DEPTH as u64 + 1));
    assert_eq!(root.leaf_count(), Some(DEPTH as u64 + 1));
    assert_eq!(root.levels(), Some(DEPTH));

    root.sum();
    assert_eq!(root.value, 2 * DEPTH as u64 + 1);
    root.each_before();
    root.sort_by_value();
    // the chain below is heavier than the leaf beside it, but for the last link
    assert_eq!(root.children[0].data, "link");
    assert_eq!(root.children[1].data, "side");

    let mut count = 0;
    let mut deepest = 0;
    let mut it = root.iter();
    while let Some(node) = it.next() {
        count += 1;
        deepest = deepest.max(node.depth);
    }
    assert_eq!(count, 2 * DEPTH + 1);
    assert_eq!(deepest, DEPTH);

    let copy = root.clone();
    assert_eq!(copy.value, root.value);
    std::mem::forget(copy);
    std::mem::forget(root);
}

#[test]
fn deep_partition_layout_does_not_use_the_call_stack() {
    let root = chain();
    let layout = PartitionLayout::new().size(1_000_000, (DEPTH as u64 + 1) * 10);
    let result = layout.layout(&root);
    assert_eq!((result.y0, result.y1), (0, 10));
    let mut count = 0;
    let mut lowest = 0;
    let mut it = result.iter();
    while let Some(node) = it.next() {
        count += 1;
        lowest = lowest.max(node.y1);
        assert_eq!(node.y0, node.depth as u64 * 10);
    }
    assert_eq!(count, 2 * DEPTH + 1);
    assert_eq!(lowest, (DEPTH as u64 + 1) * 10);
    assert_eq!(result.descendants(false).len(), 2 * DEPTH);
    let copy = result.clone();
    assert_eq!(copy.value, result.value);
    std::mem::forget(copy);
    std::mem::forget(result);
    std::mem::forget(root);
}

#[test]
fn deep_tree_layout_does_not_use_the_call_stack() {
    let root = chain();
    assert!(root.leaf_count().is_some() && root.levels().is_some());
    let result = TreeLayout::new().size(DEPTH as u64, DEPTH as u64).layout(&root);
    // the leaf beside the first link is the first of all leaves
    assert_eq!((result.children[0].x, result.children[0].y), (0, 1));
    assert_eq!(result.y, 0);
    let copy = result.clone();
    assert_eq!(copy.x, result.x);
    std::mem::forget(copy);
    std::mem::forget(result);
    std::mem::forget(root);
}

#[test]
fn deep_treemap_layout_does_not_use_the_call_stack() {
    let root = chain();
    assert!(root.total_weight().is_some());
    for method in [TilingMethod::Binary, TilingMethod::Slice, TilingMethod::Dice, TilingMethod::Squarify] {
        let result = TreemapLayout::new().size(1 << 40, 1 << 40).tiling(method).layout(&root);
        assert_eq!((result.x, result.y, result.width, result.rect_height), (0, 0, 1 << 40, 1 << 40));
        assert_eq!(result.children.len(), 2);
        let copy = result.clone();
        assert_eq!(copy.value, result.value);
        std::mem::forget(copy);
        std::mem::forget(result);
    }
    std::mem::forget(root);
}

#[test]
fn wide_binary_tiling_does_not_use_the_call_stack() {
    // weights that halve from child to child make every cut as uneven as can be
    let mut root = HierarchyNode::new("root".to_string(), 0);
    for i in 0..60u32 {
        root.add_child(HierarchyNode::new(format!("c{}", i), 1u64 << (59 - i)));
    }
    for i in 0..50_000u32 {
        root.add_child(HierarchyNode::new(format!("z{}", i), 0));
    }
    assert!(root.fits());
    let result = TreemapLayout::new().size(1 << 30, 1 << 30).tiling(TilingMethod::Binary).layout(&root);
    assert_eq!(result.children.len(), 50_060);
    let size: u128 = result.children.iter().map(|c| c.width as u128 * c.rect_height as u128).sum();
    assert_eq!(size, 1u128 << 60);
}
