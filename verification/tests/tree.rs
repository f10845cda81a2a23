use hierarchy_layout::{HierarchyNode, TreeLayout, TreeNode, RESOLUTION};

fn leaf(name: &str, value: u64) -> HierarchyNode<String> {
    HierarchyNode::new(name.to_string(), value)
}

fn branch(name: &str, children: Vec<HierarchyNode<String>>) -> HierarchyNode<String> {
    let mut node = HierarchyNode::new(name.to_string(), 0);
    for child in children {
        node.add_child(child);
    }
    node
}

fn accepts(root: &HierarchyNode<String>) -> bool {
    root.leaf_count().is_some() && root.levels().is_some()
}

fn walk<'a>(node: &'a TreeNode<String>, into: &mut Vec<&'a TreeNode<String>>) {
    into.push(node);
    for child in &node.children {
        walk(child, into);
    }
}

/// (name, x, y, depth) of every node in pre-order.
fn positions(root: &TreeNode<String>) -> Vec<(String, u64, u64, usize)> {
    let mut nodes = Vec::new();
    walk(root, &mut nodes);
    nodes.iter().map(|n| (n.data.clone(), n.x, n.y, n.depth)).collect()
}

fn row(name: &str, x: u64, y: u64, depth: usize) -> (String, u64, u64, usize) {
    (name.to_string(), x, y, depth)
}

#[test]
fn tree_leaves_take_even_slots_and_parents_the_mean() {
    let root = branch("root", vec![branch("a", vec![leaf("a1", 1), leaf("a2", 1)]), leaf("b", 1)]);
    assert!(accepts(&root));
    let result = TreeLayout::new().size(200, 60).layout(&root);
    assert_eq!(
        positions(&result),
        vec![
            // (50 + 200) / 2
            row("root", 125, 0, 0),
            // (0 + 100) / 2
            row("a", 50, 30, 1),
            row("a1", 0, 60, 2),
            row("a2", 100, 60, 2),
            row("b", 200, 30, 1),
        ]
    );
}

#[test]
fn tree_three_leaves() {
    let root = branch("root", vec![leaf("a", 5), leaf("b", 1), leaf("c", 9)]);
    assert!(accepts(&root));
    let result = TreeLayout::new().size(100, 40).layout(&root);
    assert_eq!(
        positions(&result),
        vec![row("root", 50, 0, 0), row("a", 0, 40, 1), row("b", 50, 40, 1), row("c", 100, 40, 1)]
    );
    // weights are carried along and play no part
    let weights: Vec<u64> = result.children.iter().map(|c| c.value).collect();
    assert_eq!(weights, vec![5, 1, 9]);
    assert_eq!(result.value, 0);
}

#[test]
fn tree_single_node_stands_in_the_middle() {
    let root = leaf("only", 3);
    assert!(accepts(&root));
    let result = TreeLayout::new().size(800, 600).layout(&root);
    assert_eq!(positions(&result), vec![row("only", 400, 0, 0)]);
    assert!(result.is_leaf());
}

#[test]
fn tree_chain_stands_in_the_middle() {
    let root = branch("root", vec![branch("child", vec![leaf("grandchild", 1)])]);
    assert!(accepts(&root));
    let result = TreeLayout::new().size(800, 600).layout(&root);
    assert_eq!(
        positions(&result),
        vec![row("root", 400, 0, 0), row("child", 400, 300, 1), row("grandchild", 400, 600, 2)]
    );
}

#[test]
fn tree_default_size_is_one_unit() {
    let layout = TreeLayout::new();
    assert_eq!((layout.width, layout.height), (RESOLUTION, RESOLUTION));
    let by_default = TreeLayout::default();
    assert_eq!((by_default.width, by_default.height), (1_000_000, 1_000_000));
    let sized = layout.size(3, 4);
    assert_eq!((sized.width, sized.height), (3, 4));
}

#[test]
fn tree_positions_are_rounded_down() {
    // four leaves across 10 steps: floor(k * 10 / 3)
    let root = branch("root", vec![leaf("a", 1), leaf("b", 1), leaf("c", 1), leaf("d", 1)]);
    assert!(accepts(&root));
    let result = TreeLayout::new().size(10, 7).layout(&root);
    let xs: Vec<u64> = result.children.iter().map(|c| c.x).collect();
    assert_eq!(xs, vec![0, 3, 6, 10]);
    // (0 + 3 + 6 + 10) / 4
    assert_eq!(result.x, 4);
    let ys: Vec<u64> = result.children.iter().map(|c| c.y).collect();
    assert_eq!(ys, vec![7, 7, 7, 7]);
}

#[test]
fn tree_levels_share_the_height() {
    let root = branch(
        "r",
        vec![leaf("shallow", 1), branch("m", vec![branch("n", vec![leaf("deep", 1)])])],
    );
    assert!(accepts(&root));
    let result = TreeLayout::new().size(90, 100).layout(&root);
    let mut nodes = Vec::new();
    walk(&result, &mut nodes);
    for node in &nodes {
        // floor(depth * 100 / 3)
        assert_eq!(node.y, node.depth as u64 * 100 / 3);
        for child in &node.children {
            assert_eq!(child.depth, node.depth + 1);
        }
    }
    assert_eq!(positions(&result)[1], row("shallow", 0, 33, 1));
    assert_eq!(positions(&result)[4], row("deep", 90, 100, 3));
}

#[test]
fn tree_siblings_keep_their_order() {
    let root = branch(
        "root",
        vec![
            branch("a", vec![leaf("a1", 9), leaf("a2", 1), leaf("a3", 5)]),
            leaf("b", 100),
            branch("c", vec![branch("c1", vec![leaf("c11", 2), leaf("c12", 7)]), leaf("c2", 3)]),
            leaf("d", 0),
        ],
    );
    assert!(accepts(&root));
    let result = TreeLayout::new().size(700, 300).layout(&root);
    let order: Vec<&str> = result.children.iter().map(|c| c.data.as_str()).collect();
    assert_eq!(order, vec!["a", "b", "c", "d"]);
    let below: Vec<&str> = result.children[0].children.iter().map(|c| c.data.as_str()).collect();
    assert_eq!(below, vec!["a1", "a2", "a3"]);
    let mut nodes = Vec::new();
    walk(&result, &mut nodes);
    for node in nodes {
        for pair in node.children.windows(2) {
            assert!(pair[0].x < pair[1].x);
        }
        if !node.children.is_empty() {
            let sum: u128 = node.children.iter().map(|c| c.x as u128).sum();
            assert_eq!(node.x as u128, sum / node.children.len() as u128);
            assert!(node.children.first().unwrap().x <= node.x);
            assert!(node.x <= node.children.last().unwrap().x);
        }
        assert!(node.x <= 700);
        assert!(node.y <= 300);
    }
}

#[test]
fn tree_too_narrow_keeps_order_without_gaps() {
    // five leaves across two steps: some leaves share a position, none goes back
    let root = branch("root", vec![leaf("a", 1), leaf("b", 1), leaf("c", 1), leaf("d", 1), leaf("e", 1)]);
    assert!(accepts(&root));
    let result = TreeLayout::new().size(2, 1).layout(&root);
    let xs: Vec<u64> = result.children.iter().map(|c| c.x).collect();
    assert_eq!(xs, vec![0, 0, 1, 1, 2]);
}

#[test]
fn tree_zero_size() {
    let root = branch("root", vec![leaf("a", 1), branch("b", vec![leaf("b1", 1)])]);
    assert!(accepts(&root));
    let result = TreeLayout::new().size(0, 0).layout(&root);
    for (_, x, y, _) in positions(&result) {
        assert_eq!((x, y), (0, 0));
    }
}

#[test]
fn tree_layout_is_repeatable_and_leaves_the_hierarchy_alone() {
    let root = branch("root", vec![leaf("a", 3), branch("b", vec![leaf("b1", 2), leaf("b2", 8)])]);
    assert!(accepts(&root));
    let layout = TreeLayout::new().size(640, 480);
    let first = layout.layout(&root);
    let second = layout.layout(&root);
    assert_eq!(positions(&first), positions(&second));
    assert_eq!(root.children[1].children[1].data, "b2");
    assert_eq!(root.children[1].depth, 0);
    assert_eq!(first.children[1].height, 1);
    assert_eq!(first.height, 2);
}
