use hierarchy_layout::{HierarchyNode, PartitionLayout, PartitionNode, FULL_TURN, RESOLUTION};
use std::f64::consts::PI;

/// The number of grid steps that stand for `x` units.
fn steps(x: f64) -> u64 {
    (x * RESOLUTION as f64).round() as u64
}

/// The number of units that `s` grid steps stand for.
fn units(s: u64) -> f64 {
    s as f64 / RESOLUTION as f64
}

fn leaf(name: &str, value: u64) -> HierarchyNode<String> {
    HierarchyNode::new(name.to_string(), value)
}

fn branch(name: &str, children: Vec<HierarchyNode<String>>) -> HierarchyNode<String> {
    let mut node = HierarchyNode::new(name.to_string(), 0);
    for child in children {
        node.add_child(child);
    }
    node
}

/// The nodes of a positioned tree by plain recursion, each before its children.
fn walk<'a>(node: &'a PartitionNode<String>, into: &mut Vec<&'a PartitionNode<String>>) {
    into.push(node);
    for child in &node.children {
        walk(child, into);
    }
}

fn names(nodes: &[&PartitionNode<String>]) -> Vec<String> {
    nodes.iter().map(|n| n.name.clone()).collect()
}

/// (x0, x1, y0, y1, value, depth, height, color_index, name) of every node in pre-order.
fn geometry(root: &PartitionNode<String>) -> Vec<(u64, u64, u64, u64, u64, usize, usize, usize, String)> {
    let mut nodes = Vec::new();
    walk(root, &mut nodes);
    nodes
        .iter()
        .map(|n| (n.x0, n.x1, n.y0, n.y1, n.value, n.depth, n.height, n.color_index, n.name.clone()))
        .collect()
}

#[test]
fn test_partition_simple() {
    let mut root = HierarchyNode::new("root".to_string(), 0);
    root.add_child(HierarchyNode::new("a".to_string(), 10));
    root.add_child(HierarchyNode::new("b".to_string(), 20));

    let layout = PartitionLayout::new().size(steps(2.0 * PI), steps(100.0));
    assert!(root.fits());
    let result = layout.layout(&root);

    // Root should span full angle
    assert!((units(result.x0) - 0.0).abs() < 0.001);
    assert!((units(result.x1) - 2.0 * PI).abs() < 0.001);

    // Children should split angle proportionally (sorted by value, so b comes first)
    assert_eq!(result.children.len(), 2);
    // b has value 20, a has value 10, total 30
    // b gets 2/3 of 2π, a gets 1/3
    let b = &result.children[0];
    let a = &result.children[1];

    assert!((units(b.x1) - units(b.x0) - 2.0 * PI * 2.0 / 3.0).abs() < 0.001);
    assert!((units(a.x1) - units(a.x0) - 2.0 * PI * 1.0 / 3.0).abs() < 0.001);
}

#[test]
fn test_partition_depth() {
    let mut root = HierarchyNode::new("root".to_string(), 0);
    let mut child = HierarchyNode::new("child".to_string(), 0);
    child.add_child(HierarchyNode::new("grandchild".to_string(), 10));
    root.add_child(child);

    let layout = PartitionLayout::new().size(steps(2.0 * PI), steps(300.0));
    assert!(root.fits());
    let result = layout.layout(&root);

    // Root at depth 0: y0=0, y1=100
    assert!((units(result.y0) - 0.0).abs() < 0.001);
    assert!((units(result.y1) - 100.0).abs() < 0.001);

    // Child at depth 1: y0=100, y1=200
    let child = &result.children[0];
    assert!((units(child.y0) - 100.0).abs() < 0.001);
    assert!((units(child.y1) - 200.0).abs() < 0.001);

    // Grandchild at depth 2: y0=200, y1=300
    let grandchild = &child.children[0];
    assert!((units(grandchild.y0) - 200.0).abs() < 0.001);
    assert!((units(grandchild.y1) - 300.0).abs() < 0.001);
}

#[test]
fn two_children_exact_steps() {
    let root = branch("root", vec![leaf("a", 10), leaf("b", 20)]);
    let layout = PartitionLayout::new().size(6_283_185, 100_000_000);
    assert!(root.fits());
    let result = layout.layout(&root);

    assert_eq!((result.x0, result.x1), (0, 6_283_185));
    assert_eq!((result.y0, result.y1), (0, 50_000_000));
    assert_eq!(result.value, 30);
    assert_eq!(result.name, "root");
    assert_eq!(result.data, "root");

    let b = &result.children[0];
    assert_eq!(b.name, "b");
    assert_eq!(b.value, 20);
    // floor(20 * 6283185 / 30)
    assert_eq!((b.x0, b.x1), (0, 4_188_790));
    assert_eq!((b.y0, b.y1), (50_000_000, 100_000_000));

    let a = &result.children[1];
    assert_eq!(a.name, "a");
    assert_eq!(a.value, 10);
    assert_eq!((a.x0, a.x1), (4_188_790, 6_283_185));
    assert_eq!((a.y0, a.y1), (50_000_000, 100_000_000));
}

#[test]
fn three_levels_have_three_bands() {
    let root = branch("root", vec![branch("child", vec![leaf("grandchild", 10)])]);
    let layout = PartitionLayout::new().size(FULL_TURN, 300 * RESOLUTION);
    assert!(root.fits());
    let result = layout.layout(&root);
    let child = &result.children[0];
    let grandchild = &child.children[0];
    assert_eq!((result.y0, result.y1), (0, 100 * RESOLUTION));
    assert_eq!((child.y0, child.y1), (100 * RESOLUTION, 200 * RESOLUTION));
    assert_eq!((grandchild.y0, grandchild.y1), (200 * RESOLUTION, 300 * RESOLUTION));
    assert_eq!((result.depth, child.depth, grandchild.depth), (0, 1, 2));
    assert_eq!((result.height, child.height, grandchild.height), (2, 1, 0));
    // an only child takes the whole span of its parent
    assert_eq!((child.x0, child.x1), (0, FULL_TURN));
    assert_eq!((grandchild.x0, grandchild.x1), (0, FULL_TURN));
    assert_eq!((result.value, child.value, grandchild.value), (10, 10, 10));
}

#[test]
fn default_settings() {
    let layout = PartitionLayout::new();
    assert_eq!(layout.x_size, 6_283_185);
    assert_eq!(layout.x_size, FULL_TURN);
    assert_eq!(layout.y_size, 1_000_000);
    assert_eq!(layout.y_size, RESOLUTION);
    assert_eq!(layout.padding, 0);
    assert!(!layout.round);
    assert!((units(layout.x_size) - 2.0 * PI).abs() < 0.000001);
    assert!((units(layout.y_size) - 1.0).abs() < 0.000001);

    let by_default = PartitionLayout::default();
    assert_eq!(by_default.x_size, FULL_TURN);
    assert_eq!(by_default.y_size, RESOLUTION);
    assert_eq!(by_default.padding, 0);
    assert!(!by_default.round);
}

#[test]
fn setters_change_one_setting_each() {
    let layout = PartitionLayout::new().size(800, 600);
    assert_eq!((layout.x_size, layout.y_size, layout.padding, layout.round), (800, 600, 0, false));
    let layout = layout.padding(7);
    assert_eq!((layout.x_size, layout.y_size, layout.padding, layout.round), (800, 600, 7, false));
    let layout = layout.round(true);
    assert_eq!((layout.x_size, layout.y_size, layout.padding, layout.round), (800, 600, 7, true));
    let layout = layout.size(1, 2);
    assert_eq!((layout.x_size, layout.y_size, layout.padding, layout.round), (1, 2, 7, true));
}

#[test]
fn padding_and_round_do_not_move_anything() {
    let root = branch("root", vec![leaf("a", 3), branch("b", vec![leaf("c", 4), leaf("d", 1)]), leaf("e", 5)]);
    assert!(root.fits());
    let plain = PartitionLayout::new().size(1000, 90).layout(&root);
    let padded = PartitionLayout::new().size(1000, 90).padding(25).round(true).layout(&root);
    assert_eq!(geometry(&plain), geometry(&padded));
}

#[test]
fn single_node() {
    let root = leaf("only", 7);
    assert!(root.fits());
    let result = PartitionLayout::new().size(360, 100).layout(&root);
    assert_eq!((result.x0, result.x1, result.y0, result.y1), (0, 360, 0, 100));
    assert_eq!(result.value, 7);
    assert_eq!(result.depth, 0);
    assert_eq!(result.color_index, 0);
    assert!(result.children.is_empty());
    assert!(result.is_leaf());
}

#[test]
fn weights_are_aggregated_and_leaves_keep_theirs() {
    // the weight given to a node with children is overwritten
    let mut root = HierarchyNode::new("root".to_string(), 999);
    let mut mid = HierarchyNode::new("mid".to_string(), 555);
    mid.add_child(leaf("x", 2));
    mid.add_child(leaf("y", 3));
    root.add_child(mid);
    root.add_child(leaf("z", 4));
    assert!(root.fits());
    let result = PartitionLayout::new().size(900, 30).layout(&root);
    assert_eq!(result.value, 9);
    assert_eq!(result.children[0].name, "mid");
    assert_eq!(result.children[0].value, 5);
    assert_eq!(result.children[1].value, 4);
    assert_eq!(result.children[0].children[0].name, "y");
    assert_eq!(result.children[0].children[0].value, 3);
    assert_eq!(result.children[0].children[1].value, 2);
}

#[test]
fn children_tile_the_span_of_their_parent() {
    let root = branch(
        "root",
        vec![
            branch("a", vec![leaf("a1", 1), leaf("a2", 1), leaf("a3", 1)]),
            branch("b", vec![leaf("b1", 7), branch("b2", vec![leaf("b21", 2), leaf("b22", 5)])]),
            leaf("c", 3),
        ],
    );
    assert!(root.fits());
    let result = PartitionLayout::new().size(1000, 400).layout(&root);
    let mut nodes = Vec::new();
    walk(&result, &mut nodes);
    assert_eq!(nodes.len(), 11);
    for node in nodes {
        if node.children.is_empty() {
            continue;
        }
        assert!(node.value > 0);
        assert_eq!(node.children.first().unwrap().x0, node.x0);
        assert_eq!(node.children.last().unwrap().x1, node.x1);
        for pair in node.children.windows(2) {
            assert_eq!(pair[0].x1, pair[1].x0);
        }
        let widths: u64 = node.children.iter().map(|c| c.x1 - c.x0).sum();
        assert_eq!(widths, node.x1 - node.x0);
        let weights: u64 = node.children.iter().map(|c| c.value).sum();
        assert_eq!(weights, node.value);
    }
    // root: b (14) then a (3) then c (3): boundaries at floor(14000/20), floor(17000/20), 1000
    let spans: Vec<(String, u64, u64)> = result.children.iter().map(|c| (c.name.clone(), c.x0, c.x1)).collect();
    assert_eq!(
        spans,
        vec![("b".to_string(), 0, 700), ("a".to_string(), 700, 850), ("c".to_string(), 850, 1000)]
    );
    // below b, in [0, 700): b1 (7) and b2 (7) tie and keep their order
    let b = &result.children[0];
    assert_eq!((b.children[0].name.as_str(), b.children[0].x0, b.children[0].x1), ("b1", 0, 350));
    assert_eq!((b.children[1].name.as_str(), b.children[1].x0, b.children[1].x1), ("b2", 350, 700));
    // below b2, in [350, 700): b22 (5) then b21 (2): boundary at 350 + floor(5 * 350 / 7)
    let b2 = &b.children[1];
    assert_eq!((b2.children[0].name.as_str(), b2.children[0].x0, b2.children[0].x1), ("b22", 350, 600));
    assert_eq!((b2.children[1].name.as_str(), b2.children[1].x0, b2.children[1].x1), ("b21", 600, 700));
    // below a, in [700, 850): three equal parts
    let a = &result.children[1];
    let thirds: Vec<(u64, u64)> = a.children.iter().map(|c| (c.x0, c.x1)).collect();
    assert_eq!(thirds, vec![(700, 750), (750, 800), (800, 850)]);
}

#[test]
fn boundaries_are_rounded_down_without_gaps() {
    // 10 steps among weights 1, 1, 1: boundaries at floor(10/3), floor(20/3), 10
    let root = branch("root", vec![leaf("a", 1), leaf("b", 1), leaf("c", 1)]);
    assert!(root.fits());
    let result = PartitionLayout::new().size(10, 2).layout(&root);
    let spans: Vec<(u64, u64)> = result.children.iter().map(|c| (c.x0, c.x1)).collect();
    assert_eq!(spans, vec![(0, 3), (3, 6), (6, 10)]);
    // every width is within one step of the exact share 10/3
    for child in &result.children {
        let width = (child.x1 - child.x0) as i128;
        assert!((width * 3 - 10).abs() < 3);
    }
}

#[test]
fn bands_divide_the_height_evenly() {
    let root = branch("r", vec![branch("m", vec![leaf("l", 1)]), leaf("s", 1)]);
    assert!(root.fits());
    // three levels in 100 steps: a band of floor(100 / 3)
    let result = PartitionLayout::new().size(50, 100).layout(&root);
    let mut nodes = Vec::new();
    walk(&result, &mut nodes);
    for node in &nodes {
        assert_eq!(node.y1 - node.y0, 33);
        assert_eq!(node.y0, node.depth as u64 * 33);
        for child in &node.children {
            assert_eq!(child.y0, node.y1);
            assert_eq!(child.depth, node.depth + 1);
        }
    }
    // the shallow leaf lies in the band of its depth, not at the bottom
    let shallow = &result.children[1];
    assert_eq!((shallow.name.as_str(), shallow.y0, shallow.y1), ("s", 33, 66));
}

#[test]
fn zero_weight_collapses_children_onto_the_start() {
    let root = branch("root", vec![leaf("a", 5), branch("empty", vec![leaf("p", 0), leaf("q", 0)])]);
    assert!(root.fits());
    let result = PartitionLayout::new().size(100, 30).layout(&root);
    let a = &result.children[0];
    let empty = &result.children[1];
    assert_eq!((a.x0, a.x1), (0, 100));
    assert_eq!(empty.value, 0);
    assert_eq!((empty.x0, empty.x1), (100, 100));
    assert_eq!(empty.children.len(), 2);
    for child in &empty.children {
        assert_eq!((child.x0, child.x1), (100, 100));
        assert_eq!((child.y0, child.y1), (20, 30));
    }
}

#[test]
fn all_zero_tree() {
    let root = branch("root", vec![leaf("a", 0), leaf("b", 0)]);
    assert!(root.fits());
    let result = PartitionLayout::new().size(100, 10).layout(&root);
    assert_eq!((result.x0, result.x1), (0, 100));
    assert_eq!(result.value, 0);
    assert_eq!(result.children.len(), 2);
    for child in &result.children {
        assert_eq!((child.x0, child.x1), (0, 0));
        assert_eq!((child.y0, child.y1), (5, 10));
    }
    // equal weights keep the order in which they were added
    assert_eq!(result.children[0].name, "a");
    assert_eq!(result.children[1].name, "b");
}

#[test]
fn zero_size_target() {
    let root = branch("root", vec![leaf("a", 1), leaf("b", 2)]);
    assert!(root.fits());
    let result = PartitionLayout::new().size(0, 0).layout(&root);
    for row in geometry(&result) {
        assert_eq!((row.0, row.1, row.2, row.3), (0, 0, 0, 0));
    }
}

#[test]
fn colour_follows_the_branch_below_the_root() {
    let root = branch(
        "root",
        vec![
            branch("small", vec![leaf("s1", 1), leaf("s2", 2)]),
            branch("large", vec![branch("l1", vec![leaf("l11", 10), leaf("l12", 20)]), leaf("l2", 5)]),
            leaf("mid", 9),
        ],
    );
    assert!(root.fits());
    let result = PartitionLayout::new().layout(&root);
    assert_eq!(result.color_index, 0);
    let order: Vec<(String, usize)> = result.children.iter().map(|c| (c.name.clone(), c.color_index)).collect();
    assert_eq!(
        order,
        vec![("large".to_string(), 0), ("mid".to_string(), 1), ("small".to_string(), 2)]
    );
    for (index, top) in result.children.iter().enumerate() {
        let mut below = Vec::new();
        walk(top, &mut below);
        for node in below {
            assert_eq!(node.color_index, index);
        }
    }
}

#[test]
fn ties_keep_insertion_order() {
    let root = branch("root", vec![leaf("a", 5), leaf("b", 7), leaf("c", 5), leaf("d", 7), leaf("e", 5)]);
    assert!(root.fits());
    let result = PartitionLayout::new().size(29, 2).layout(&root);
    let order: Vec<String> = result.children.iter().map(|c| c.name.clone()).collect();
    assert_eq!(order, vec!["b", "d", "a", "c", "e"]);
    let values: Vec<u64> = result.children.iter().map(|c| c.value).collect();
    assert_eq!(values, vec![7, 7, 5, 5, 5]);
}

#[test]
fn layout_is_repeatable_and_leaves_the_hierarchy_alone() {
    let root = branch(
        "root",
        vec![leaf("a", 10), branch("b", vec![leaf("b1", 4), leaf("b2", 40)]), leaf("c", 30)],
    );
    assert!(root.fits());
    let layout = PartitionLayout::new().size(steps(2.0 * PI), steps(400.0));
    let first = layout.layout(&root);
    let second = layout.layout(&root);
    assert_eq!(geometry(&first), geometry(&second));

    // the hierarchy is as it was: not aggregated, not sorted, not stamped
    assert_eq!(root.value, 0);
    let kept: Vec<(String, u64, usize)> =
        root.children.iter().map(|c| (c.data.clone(), c.value, c.depth)).collect();
    assert_eq!(
        kept,
        vec![("a".to_string(), 10, 0), ("b".to_string(), 0, 0), ("c".to_string(), 30, 0)]
    );
    assert_eq!(root.children[1].children[0].data, "b1");

    // a later change of the hierarchy does not reach a result returned before
    let mut changed = root;
    changed.add_child(leaf("late", 1000));
    changed.children[0].value = 77;
    assert_eq!(geometry(&first), geometry(&second));
    assert_eq!(first.children.len(), 3);
}

#[test]
fn iteration_is_pre_order() {
    let root = branch(
        "root",
        vec![leaf("a", 1), branch("b", vec![leaf("b1", 40), branch("b2", vec![leaf("b21", 4)])]), leaf("c", 30)],
    );
    assert!(root.fits());
    let result = PartitionLayout::new().layout(&root);

    let mut expected = Vec::new();
    walk(&result, &mut expected);
    assert_eq!(names(&expected), vec!["root", "b", "b1", "b2", "b21", "c", "a"]);

    let mut it = result.iter();
    let mut seen = Vec::new();
    while let Some(node) = it.next() {
        seen.push(node);
    }
    assert_eq!(names(&seen), names(&expected));
    // an exhausted traversal stays exhausted
    assert!(it.next().is_none());
    assert!(it.next().is_none());
    // each call of iter starts afresh
    assert_eq!(result.iter().next().unwrap().name, "root");

    let with_root = result.descendants(true);
    assert_eq!(names(&with_root), names(&expected));
    let without_root = result.descendants(false);
    assert_eq!(names(&without_root), vec!["b", "b1", "b2", "b21", "c", "a"]);
    for (found, wanted) in with_root.iter().zip(expected.iter()) {
        assert!(std::ptr::eq(*found, *wanted));
    }
}

#[test]
fn descendants_of_a_leaf() {
    let root = leaf("only", 1);
    assert!(root.fits());
    let result = PartitionLayout::new().layout(&root);
    assert_eq!(names(&result.descendants(true)), vec!["only"]);
    assert!(result.descendants(false).is_empty());
    assert!(result.is_leaf());
}

#[test]
fn is_leaf_tells_leaves_from_branches() {
    let root = branch("root", vec![leaf("a", 1)]);
    assert!(root.fits());
    let result = PartitionLayout::new().layout(&root);
    assert!(!result.is_leaf());
    assert!(result.children[0].is_leaf());
}

#[test]
fn deep_chain_is_traversed_without_recursion() {
    let depth = 2000;
    let mut node = leaf("bottom", 1);
    for level in 0..depth {
        let mut parent = HierarchyNode::new(format!("n{}", level), 0);
        parent.add_child(node);
        node = parent;
    }
    assert!(node.fits());
    assert_eq!(node.height, depth);
    let mut it = node.iter();
    let mut count = 0;
    while let Some(_) = it.next() {
        count += 1;
    }
    assert_eq!(count, depth + 1);
}

#[test]
fn clone_of_a_result_keeps_the_geometry() {
    let root = branch("root", vec![leaf("a", 1), branch("b", vec![leaf("b1", 2)])]);
    assert!(root.fits());
    let result = PartitionLayout::new().size(300, 30).layout(&root);
    let copy = result.clone();
    assert_eq!(geometry(&result), geometry(&copy));
    assert_eq!(copy.children[0].data, "b");
}

#[test]
fn large_weights_do_not_overflow() {
    let half = u64::MAX / 2;
    let root = branch("root", vec![leaf("a", half), leaf("b", half), leaf("c", 1)]);
    assert!(root.fits());
    let result = PartitionLayout::new().size(u64::MAX, u64::MAX).layout(&root);
    assert_eq!(result.value, u64::MAX);
    assert_eq!((result.x0, result.x1), (0, u64::MAX));
    assert_eq!(result.children[0].x0, 0);
    assert_eq!(result.children[0].x1, half);
    assert_eq!(result.children[1].x1, 2 * half);
    assert_eq!(result.children[2].x1, u64::MAX);
    assert_eq!((result.y0, result.y1), (0, half));
    assert_eq!((result.children[0].y0, result.children[0].y1), (half, 2 * half));
}

#[test]
fn overflowing_weights_do_not_fit() {
    let root = branch("root", vec![leaf("a", u64::MAX), leaf("b", 1)]);
    assert!(!root.fits());
    let deep = branch("root", vec![leaf("ok", 1), branch("mid", vec![leaf("x", u64::MAX - 1), leaf("y", 2)])]);
    assert!(!deep.fits());
    let edge = branch("root", vec![leaf("a", u64::MAX - 1), leaf("b", 1)]);
    assert!(edge.fits());
}
