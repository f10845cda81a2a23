use hierarchy_layout::{HierarchyNode, TilingMethod, TreemapLayout, TreemapNode, RESOLUTION};

fn leaf(name: &str, value: u64) -> HierarchyNode<String> {
    HierarchyNode::new(name.to_string(), value)
}

fn branch(name: &str, children: Vec<HierarchyNode<String>>) -> HierarchyNode<String> {
    let mut node = HierarchyNode::new(name.to_string(), 0);
    for child in children {
        node.add_child(child);
    }
    node
}

fn flat(values: &[u64]) -> HierarchyNode<String> {
    branch("root", values.iter().enumerate().map(|(i, v)| leaf(&format!("c{}", i), *v)).collect())
}

fn walk<'a>(node: &'a TreemapNode<String>, into: &mut Vec<&'a TreemapNode<String>>) {
    into.push(node);
    for child in &node.children {
        walk(child, into);
    }
}

/// (x, y, width, height) of a node.
fn rect(node: &TreemapNode<String>) -> (u64, u64, u64, u64) {
    (node.x, node.y, node.width, node.rect_height)
}

fn rects(node: &TreemapNode<String>) -> Vec<(u64, u64, u64, u64)> {
    node.children.iter().map(rect).collect()
}

/// (name, x, y, width, height, value, depth) of every node in pre-order.
fn geometry(root: &TreemapNode<String>) -> Vec<(String, u64, u64, u64, u64, u64, usize)> {
    let mut nodes = Vec::new();
    walk(root, &mut nodes);
    nodes
        .iter()
        .map(|n| (n.data.clone(), n.x, n.y, n.width, n.rect_height, n.value, n.depth))
        .collect()
}

const METHODS: [TilingMethod; 4] =
    [TilingMethod::Binary, TilingMethod::Slice, TilingMethod::Dice, TilingMethod::Squarify];

/// What the padding leaves of a rectangle, computed the plain way.
fn usable(r: (u64, u64, u64, u64), padding: u64, padding_top: u64) -> (u64, u64, u64, u64) {
    let (x, y, w, h) = r;
    let left = padding.min(w);
    let right = padding.min(w - left);
    let top = (padding + padding_top).min(h);
    let bottom = padding.min(h - top);
    (x + left, y + top, w - left - right, h - top - bottom)
}

fn overlap(a: (u64, u64, u64, u64), b: (u64, u64, u64, u64)) -> bool {
    let (ax, ay, aw, ah) = a;
    let (bx, by, bw, bh) = b;
    aw > 0 && ah > 0 && bw > 0 && bh > 0 && ax < bx + bw && bx < ax + aw && ay < by + bh && by < ay + ah
}

#[test]
fn treemap_single_child_fills_the_usable_area() {
    let root = branch("root", vec![leaf("only", 10)]);
    assert!(root.fits());
    for method in METHODS {
        let layout = TreemapLayout::new().size(100, 80).padding(5).padding_top(10).tiling(method);
        let result = layout.layout(&root);
        assert_eq!(rect(&result), (0, 0, 100, 80));
        assert_eq!(result.children.len(), 1);
        assert_eq!(rect(&result.children[0]), (5, 15, 90, 60));
        assert_eq!(result.children[0].value, 10);
        assert_eq!(result.value, 10);
    }
    // without padding the child is as large as its parent
    for method in METHODS {
        let result = TreemapLayout::new().size(100, 80).tiling(method).layout(&root);
        assert_eq!(rect(&result.children[0]), (0, 0, 100, 80));
    }
}

#[test]
fn treemap_default_settings() {
    let layout = TreemapLayout::new();
    assert_eq!((layout.width, layout.height), (RESOLUTION, RESOLUTION));
    assert_eq!((layout.padding, layout.padding_top), (0, 0));
    assert_eq!(layout.tiling, TilingMethod::Binary);
    let by_default = TreemapLayout::default();
    assert_eq!((by_default.width, by_default.height), (1_000_000, 1_000_000));
    assert_eq!(by_default.tiling, TilingMethod::Binary);
}

#[test]
fn treemap_setters_change_one_setting_each() {
    let layout = TreemapLayout::new().size(640, 480);
    assert_eq!((layout.width, layout.height, layout.padding, layout.padding_top), (640, 480, 0, 0));
    let layout = layout.padding(3);
    assert_eq!((layout.width, layout.height, layout.padding, layout.padding_top), (640, 480, 3, 0));
    let layout = layout.padding_top(12);
    assert_eq!((layout.width, layout.height, layout.padding, layout.padding_top), (640, 480, 3, 12));
    let layout = layout.tiling(TilingMethod::Squarify);
    assert_eq!(layout.tiling, TilingMethod::Squarify);
    assert_eq!((layout.width, layout.height, layout.padding, layout.padding_top), (640, 480, 3, 12));
}

#[test]
fn treemap_slice_makes_horizontal_bands() {
    let root = flat(&[10, 20, 30]);
    assert!(root.fits());
    let result = TreemapLayout::new().size(60, 60).tiling(TilingMethod::Slice).layout(&root);
    // children keep their order
    let order: Vec<u64> = result.children.iter().map(|c| c.value).collect();
    assert_eq!(order, vec![10, 20, 30]);
    assert_eq!(rects(&result), vec![(0, 0, 60, 10), (0, 10, 60, 20), (0, 30, 60, 30)]);
}

#[test]
fn treemap_dice_makes_vertical_bands() {
    let root = flat(&[10, 20, 30]);
    assert!(root.fits());
    let result = TreemapLayout::new().size(60, 60).tiling(TilingMethod::Dice).layout(&root);
    assert_eq!(rects(&result), vec![(0, 0, 10, 60), (10, 0, 20, 60), (30, 0, 30, 60)]);
}

#[test]
fn treemap_bands_round_down_without_gaps() {
    let root = flat(&[1, 1, 1]);
    assert!(root.fits());
    let result = TreemapLayout::new().size(10, 7).tiling(TilingMethod::Dice).layout(&root);
    // boundaries at floor(10 / 3), floor(20 / 3), 10
    assert_eq!(rects(&result), vec![(0, 0, 3, 7), (3, 0, 3, 7), (6, 0, 4, 7)]);
}

#[test]
fn treemap_binary_halves_the_weight_and_cuts_the_longer_side() {
    let root = flat(&[30, 20, 10]);
    assert!(root.fits());
    let result = TreemapLayout::new().size(60, 60).tiling(TilingMethod::Binary).layout(&root);
    // 30 against 20 + 10: a cut at x = 30; then 20 against 10 in 30 x 60: a cut at y = 40
    assert_eq!(rects(&result), vec![(0, 0, 30, 60), (30, 0, 30, 40), (30, 40, 30, 20)]);
}

#[test]
fn treemap_binary_takes_the_first_of_equally_good_splits() {
    // 4 | 2 2 2 is off by 2, 4 2 | 2 2 is off by 2: the first of them is taken
    let root = flat(&[4, 2, 2, 2]);
    assert!(root.fits());
    let result = TreemapLayout::new().size(100, 10).tiling(TilingMethod::Binary).layout(&root);
    // first cut at x = floor(4 * 100 / 10) = 40
    assert_eq!(rect(&result.children[0]), (0, 0, 40, 10));
    // 2 against 2 + 2 in 60 x 10: off by 2; 2 + 2 against 2: off by 2; the first: x = 40 + 20
    assert_eq!(rect(&result.children[1]), (40, 0, 20, 10));
    // 2 against 2 in 40 x 10
    assert_eq!(rect(&result.children[2]), (60, 0, 20, 10));
    assert_eq!(rect(&result.children[3]), (80, 0, 20, 10));
}

#[test]
fn treemap_squarify_builds_rows_along_the_shorter_side() {
    let root = flat(&[6, 6, 4, 3, 2, 2, 1]);
    assert!(root.fits());
    let result = TreemapLayout::new().size(6, 4).tiling(TilingMethod::Squarify).layout(&root);
    assert_eq!(
        rects(&result),
        vec![
            // first row: 6 and 6, a band of width 3 on the left
            (0, 0, 3, 2),
            (0, 2, 3, 2),
            // second row: 4 and 3, a band of height 2 at the top of what is left
            (3, 0, 1, 2),
            (4, 0, 2, 2),
            // third row: 2 and 2, a band of width 2
            (3, 2, 2, 1),
            (3, 3, 2, 1),
            // last row: 1
            (5, 2, 1, 2),
        ]
    );
}

#[test]
fn treemap_squarify_visits_children_by_weight_and_keeps_their_order() {
    // the weights of the rows above, listed out of order
    let root = flat(&[2, 6, 1, 4, 6, 3, 2]);
    assert!(root.fits());
    let result = TreemapLayout::new().size(6, 4).tiling(TilingMethod::Squarify).layout(&root);
    let order: Vec<u64> = result.children.iter().map(|c| c.value).collect();
    assert_eq!(order, vec![2, 6, 1, 4, 6, 3, 2]);
    assert_eq!(
        rects(&result),
        vec![
            // the first 2 joins the third row first
            (3, 2, 2, 1),
            // the first 6 opens the first row
            (0, 0, 3, 2),
            (5, 2, 1, 2),
            (3, 0, 1, 2),
            (0, 2, 3, 2),
            (4, 0, 2, 2),
            (3, 3, 2, 1),
        ]
    );
}

#[test]
fn treemap_squarify_on_a_fine_grid_keeps_cells_near_square() {
    let root = flat(&[6, 6, 4, 3, 2, 2, 1]);
    assert!(root.fits());
    let result = TreemapLayout::new().size(600, 400).tiling(TilingMethod::Squarify).layout(&root);
    // first row: 6 and 6 share a band of width 600 * 12 / 24
    assert_eq!(rect(&result.children[0]), (0, 0, 300, 200));
    assert_eq!(rect(&result.children[1]), (0, 200, 300, 200));
    // second row: 4 and 3 share a band of height floor(400 * 7 / 12)
    assert_eq!(rect(&result.children[2]), (300, 0, 171, 233));
    assert_eq!(rect(&result.children[3]), (471, 0, 129, 233));
    for child in &result.children {
        let long = child.width.max(child.rect_height);
        let short = child.width.min(child.rect_height);
        assert!(short > 0);
        assert!(long <= 3 * short);
        // the size of every cell is its share of 240000, within the rounding of its edges
        let share = 240_000 * child.value / 24;
        let size = child.width * child.rect_height;
        assert!(size.abs_diff(share) <= 1_000);
    }
}

#[test]
fn treemap_children_tile_the_usable_area() {
    let root = branch(
        "root",
        vec![
            branch("a", vec![leaf("a1", 17), leaf("a2", 5), leaf("a3", 9), leaf("a4", 9)]),
            branch("b", vec![leaf("b1", 40), branch("b2", vec![leaf("b21", 3), leaf("b22", 11), leaf("b23", 1)])]),
            leaf("c", 23),
            leaf("d", 2),
            branch("e", vec![leaf("e1", 8), leaf("e2", 0), leaf("e3", 8)]),
        ],
    );
    assert!(root.fits());
    for method in METHODS {
        for (padding, padding_top) in [(0, 0), (3, 0), (2, 7)] {
            let layout =
                TreemapLayout::new().size(997, 613).padding(padding).padding_top(padding_top).tiling(method);
            let result = layout.layout(&root);
            assert_eq!(rect(&result), (0, 0, 997, 613));
            let mut nodes = Vec::new();
            walk(&result, &mut nodes);
            assert_eq!(nodes.len(), 18);
            for node in nodes {
                if node.children.is_empty() {
                    continue;
                }
                let inner = usable(rect(node), padding, padding_top);
                let weights: u64 = node.children.iter().map(|c| c.value).sum();
                assert_eq!(weights, node.value);
                let mut size: u128 = 0;
                for (i, child) in node.children.iter().enumerate() {
                    let (x, y, w, h) = rect(child);
                    assert!(inner.0 <= x && x + w <= inner.0 + inner.2);
                    assert!(inner.1 <= y && y + h <= inner.1 + inner.3);
                    size += w as u128 * h as u128;
                    for other in &node.children[i + 1..] {
                        assert!(!overlap(rect(child), rect(other)));
                    }
                    assert_eq!(child.depth, node.depth + 1);
                }
                assert_eq!(size, inner.2 as u128 * inner.3 as u128);
            }
        }
    }
}

#[test]
fn treemap_sizes_follow_the_weights() {
    let root = flat(&[50, 30, 15, 5]);
    assert!(root.fits());
    for method in METHODS {
        let result = TreemapLayout::new().size(1000, 1000).tiling(method).layout(&root);
        for child in &result.children {
            // the exact share of a million cells, within the rounding of the edges
            let share = 1_000_000 * child.value / 100;
            let size = child.width * child.rect_height;
            assert!(size.abs_diff(share) <= 2_000);
        }
    }
}

#[test]
fn treemap_without_weight_gives_empty_cells() {
    let root = branch("root", vec![leaf("a", 0), branch("b", vec![leaf("b1", 0)]), leaf("c", 0)]);
    assert!(root.fits());
    for method in METHODS {
        let result = TreemapLayout::new().size(50, 40).padding(4).tiling(method).layout(&root);
        assert_eq!(rect(&result), (0, 0, 50, 40));
        for child in &result.children {
            assert_eq!(rect(child), (4, 4, 0, 0));
        }
        assert_eq!(rect(&result.children[1].children[0]), (4, 4, 0, 0));
    }
}

#[test]
fn treemap_children_without_weight_take_no_room() {
    let root = flat(&[0, 7, 0, 3]);
    assert!(root.fits());
    for method in METHODS {
        let result = TreemapLayout::new().size(100, 100).tiling(method).layout(&root);
        let sizes: Vec<u64> = result.children.iter().map(|c| c.width * c.rect_height).collect();
        assert_eq!(sizes, vec![0, 7000, 0, 3000]);
    }
}

#[test]
fn treemap_padding_larger_than_the_rectangle_leaves_nothing() {
    let root = branch("root", vec![leaf("a", 1), leaf("b", 2)]);
    assert!(root.fits());
    for method in METHODS {
        let result = TreemapLayout::new().size(10, 10).padding(8).tiling(method).layout(&root);
        assert_eq!(rect(&result), (0, 0, 10, 10));
        for child in &result.children {
            let (x, y, w, h) = rect(child);
            assert_eq!(w * h, 0);
            assert!(x + w <= 10 && y + h <= 10);
        }
        let result = TreemapLayout::new().size(10, 10).padding(u64::MAX).padding_top(u64::MAX).tiling(method).layout(&root);
        for child in &result.children {
            assert_eq!(rect(child), (10, 10, 0, 0));
        }
    }
}

#[test]
fn treemap_padding_top_reserves_a_header() {
    let root = branch("root", vec![branch("group", vec![leaf("x", 1), leaf("y", 1)])]);
    assert!(root.fits());
    let result = TreemapLayout::new().size(100, 100).padding(2).padding_top(10).tiling(TilingMethod::Dice).layout(&root);
    let group = &result.children[0];
    assert_eq!(rect(group), (2, 12, 96, 86));
    assert_eq!(rects(group), vec![(4, 24, 46, 72), (50, 24, 46, 72)]);
}

#[test]
fn treemap_zero_size() {
    let root = flat(&[3, 2, 1]);
    assert!(root.fits());
    for method in METHODS {
        let result = TreemapLayout::new().size(0, 0).tiling(method).layout(&root);
        for row in geometry(&result) {
            assert_eq!((row.1, row.2, row.3, row.4), (0, 0, 0, 0));
        }
    }
}

#[test]
fn treemap_single_node() {
    let root = leaf("only", 5);
    assert!(root.fits());
    let result = TreemapLayout::new().size(30, 20).padding(3).layout(&root);
    assert_eq!(rect(&result), (0, 0, 30, 20));
    assert!(result.is_leaf());
    assert_eq!(result.depth, 0);
}

#[test]
fn treemap_layout_is_repeatable_and_leaves_the_hierarchy_alone() {
    let root = branch(
        "root",
        vec![leaf("a", 10), branch("b", vec![leaf("b1", 4), leaf("b2", 40)]), leaf("c", 30)],
    );
    assert!(root.fits());
    for method in METHODS {
        let layout = TreemapLayout::new().size(800, 600).padding(1).tiling(method);
        let first = layout.layout(&root);
        let second = layout.layout(&root);
        assert_eq!(geometry(&first), geometry(&second));
        let copy = first.clone();
        assert_eq!(geometry(&first), geometry(&copy));
    }
    assert_eq!(root.value, 0);
    let kept: Vec<&str> = root.children.iter().map(|c| c.data.as_str()).collect();
    assert_eq!(kept, vec!["a", "b", "c"]);
    // the positioned children stand in the same order
    let result = TreemapLayout::new().layout(&root);
    let placed: Vec<&str> = result.children.iter().map(|c| c.data.as_str()).collect();
    assert_eq!(placed, vec!["a", "b", "c"]);
}

#[test]
fn treemap_walks_deep_trees() {
    let depth = 500;
    let mut node = leaf("bottom", 1);
    for level in 0..depth {
        let mut parent = HierarchyNode::new(format!("n{}", level), 0);
        parent.add_child(node);
        node = parent;
    }
    assert!(node.fits());
    let result = TreemapLayout::new().size(5000, 5000).padding(1).layout(&node);
    let mut nodes = Vec::new();
    walk(&result, &mut nodes);
    assert_eq!(nodes.len(), depth + 1);
    let bottom = nodes.last().unwrap();
    assert_eq!(bottom.depth, depth);
    assert_eq!(rect(bottom), (500, 500, 4000, 4000));
}

#[test]
fn treemap_large_numbers_do_not_overflow() {
    let half = u64::MAX / 2;
    let root = flat(&[half, half, 1]);
    assert!(root.fits());
    for method in METHODS {
        let result = TreemapLayout::new().size(u64::MAX, u64::MAX).tiling(method).layout(&root);
        assert_eq!(rect(&result), (0, 0, u64::MAX, u64::MAX));
        let size: u128 = result.children.iter().map(|c| c.width as u128 * c.rect_height as u128).sum();
        assert_eq!(size, u64::MAX as u128 * u64::MAX as u128);
    }
}
