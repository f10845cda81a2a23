use hierarchy_layout::{HierarchyNode, Label};

fn leaf(name: &str, value: u64) -> HierarchyNode<String> {
    HierarchyNode::new(name.to_string(), value)
}

fn branch(name: &str, value: u64, children: Vec<HierarchyNode<String>>) -> HierarchyNode<String> {
    let mut node = HierarchyNode::new(name.to_string(), value);
    for child in children {
        node.add_child(child);
    }
    node
}

fn sample() -> HierarchyNode<String> {
    branch(
        "root",
        100,
        vec![
            leaf("a", 3),
            branch("b", 50, vec![leaf("b1", 4), branch("b2", 7, vec![leaf("b21", 1), leaf("b22", 6)]), leaf("b3", 4)]),
            leaf("c", 11),
        ],
    )
}

fn walk<'a>(node: &'a HierarchyNode<String>, into: &mut Vec<&'a HierarchyNode<String>>) {
    into.push(node);
    for child in &node.children {
        walk(child, into);
    }
}

fn names(node: &HierarchyNode<String>) -> Vec<String> {
    let mut nodes = Vec::new();
    walk(node, &mut nodes);
    nodes.iter().map(|n| n.data.clone()).collect()
}

#[test]
fn new_makes_a_leaf() {
    let node = HierarchyNode::new("x".to_string(), 42);
    assert_eq!(node.data, "x");
    assert_eq!(node.value, 42);
    assert_eq!(node.depth, 0);
    assert_eq!(node.height, 0);
    assert!(node.children.is_empty());
    assert!(node.is_leaf());
}

#[test]
fn payload_need_not_be_text() {
    let mut root = HierarchyNode::new((1u8, 'r'), 0);
    root.add_child(HierarchyNode::new((2u8, 'c'), 5));
    root.sum();
    assert_eq!(root.value, 5);
    assert_eq!(root.children[0].data, (2u8, 'c'));
}

#[test]
fn add_child_appends_and_raises_the_height() {
    let mut root = leaf("root", 0);
    root.add_child(leaf("a", 1));
    assert!(!root.is_leaf());
    assert_eq!(root.height, 1);
    root.add_child(branch("b", 0, vec![branch("b1", 0, vec![leaf("b11", 2)])]));
    assert_eq!(root.height, 3);
    root.add_child(leaf("c", 3));
    assert_eq!(root.height, 3);
    let order: Vec<&str> = root.children.iter().map(|c| c.data.as_str()).collect();
    assert_eq!(order, vec!["a", "b", "c"]);
    assert_eq!(root.children[1].height, 2);
    assert_eq!(root.children[1].children[0].height, 1);
    // the weight of the parent is not touched
    assert_eq!(root.value, 0);
}

#[test]
fn height_stops_at_the_largest_number() {
    let mut top = leaf("top", 0);
    let mut child = leaf("child", 0);
    child.height = usize::MAX;
    top.add_child(child);
    assert_eq!(top.height, usize::MAX);
}

#[test]
fn sum_conserves_weight_at_every_node() {
    let mut root = sample();
    assert!(root.fits());
    root.sum();
    assert_eq!(root.value, 29);
    assert_eq!(root.children[1].value, 15);
    assert_eq!(root.children[1].children[1].value, 7);
    let mut nodes = Vec::new();
    walk(&root, &mut nodes);
    for node in nodes {
        if !node.children.is_empty() {
            let of_children: u64 = node.children.iter().map(|c| c.value).sum();
            assert_eq!(node.value, of_children);
        }
    }
    // leaves keep their weights
    assert_eq!(root.children[0].value, 3);
    assert_eq!(root.children[2].value, 11);
    assert_eq!(root.children[1].children[1].children[1].value, 6);
    // the order of the children is not changed
    assert_eq!(names(&root), names(&sample()));
}

#[test]
fn sum_twice_changes_nothing_more() {
    let mut once = sample();
    once.sum();
    let mut twice = sample();
    twice.sum();
    twice.sum();
    let mut a = Vec::new();
    walk(&once, &mut a);
    let mut b = Vec::new();
    walk(&twice, &mut b);
    let left: Vec<u64> = a.iter().map(|n| n.value).collect();
    let right: Vec<u64> = b.iter().map(|n| n.value).collect();
    assert_eq!(left, right);
}

#[test]
fn sum_of_a_leaf_keeps_its_weight() {
    let mut node = leaf("x", 9);
    node.sum();
    assert_eq!(node.value, 9);
}

#[test]
fn each_before_stamps_depths_from_zero() {
    let mut root = sample();
    root.each_before();
    let mut nodes = Vec::new();
    walk(&root, &mut nodes);
    let depths: Vec<(String, usize)> = nodes.iter().map(|n| (n.data.clone(), n.depth)).collect();
    let expected: Vec<(String, usize)> = [
        ("root", 0),
        ("a", 1),
        ("b", 1),
        ("b1", 2),
        ("b2", 2),
        ("b21", 3),
        ("b22", 3),
        ("b3", 2),
        ("c", 1),
    ]
    .iter()
    .map(|(n, d)| (n.to_string(), *d))
    .collect();
    assert_eq!(depths, expected);
    for node in nodes {
        for child in &node.children {
            assert_eq!(child.depth, node.depth + 1);
        }
    }
}

#[test]
fn each_before_counts_from_the_node_it_is_called_on() {
    let mut root = sample();
    root.each_before();
    let b = &mut root.children[1];
    assert_eq!(b.depth, 1);
    b.each_before();
    assert_eq!(b.depth, 0);
    assert_eq!(b.children[1].depth, 1);
    assert_eq!(b.children[1].children[0].depth, 2);
}

#[test]
fn sort_by_value_is_descending_and_stable() {
    let mut root = branch(
        "root",
        0,
        vec![
            leaf("a", 5),
            leaf("b", 9),
            leaf("c", 5),
            branch("d", 9, vec![leaf("d1", 1), leaf("d2", 3), leaf("d3", 1), leaf("d4", 2)]),
            leaf("e", 0),
            leaf("f", 5),
        ],
    );
    root.sort_by_value();
    let order: Vec<(String, u64)> = root.children.iter().map(|c| (c.data.clone(), c.value)).collect();
    let expected: Vec<(String, u64)> = [("b", 9), ("d", 9), ("a", 5), ("c", 5), ("f", 5), ("e", 0)]
        .iter()
        .map(|(n, v)| (n.to_string(), *v))
        .collect();
    assert_eq!(order, expected);
    let below: Vec<&str> = root.children[1].children.iter().map(|c| c.data.as_str()).collect();
    assert_eq!(below, vec!["d2", "d4", "d1", "d3"]);
    // sorting moves whole subtrees and changes nothing else
    assert_eq!(root.value, 0);
    assert_eq!(root.children[1].height, 1);
}

#[test]
fn sort_by_value_of_sorted_children_changes_nothing() {
    let mut root = sample();
    root.sum();
    root.sort_by_value();
    let once = names(&root);
    root.sort_by_value();
    assert_eq!(names(&root), once);
    assert_eq!(once, vec!["root", "b", "b2", "b22", "b21", "b1", "b3", "c", "a"]);
}

#[test]
fn iter_is_lazy_pre_order() {
    let root = sample();
    let mut it = root.iter();
    assert_eq!(it.next().unwrap().data, "root");
    assert_eq!(it.next().unwrap().data, "a");
    assert_eq!(it.next().unwrap().data, "b");
    let mut rest = Vec::new();
    while let Some(node) = it.next() {
        rest.push(node.data.clone());
    }
    assert_eq!(rest, vec!["b1", "b2", "b21", "b22", "b3", "c"]);
    assert!(it.next().is_none());

    let mut again = root.iter();
    let mut all = Vec::new();
    while let Some(node) = again.next() {
        all.push(node.data.clone());
    }
    assert_eq!(all, names(&root));
    assert_eq!(all.len(), 9);
}

#[test]
fn iter_yields_the_nodes_themselves() {
    let root = sample();
    let mut expected = Vec::new();
    walk(&root, &mut expected);
    let mut it = root.iter();
    for wanted in expected {
        let found = it.next().unwrap();
        assert!(std::ptr::eq(found, wanted));
    }
    assert!(it.next().is_none());
}

#[test]
fn clone_copies_the_whole_tree() {
    let mut root = sample();
    root.each_before();
    let copy = root.clone();
    assert_eq!(names(&copy), names(&root));
    let mut a = Vec::new();
    walk(&root, &mut a);
    let mut b = Vec::new();
    walk(&copy, &mut b);
    for (x, y) in a.iter().zip(b.iter()) {
        assert_eq!((x.value, x.depth, x.height), (y.value, y.depth, y.height));
        assert!(!std::ptr::eq(*x, *y));
    }
    // the copy is its own tree
    root.sum();
    assert_eq!(copy.value, 100);
}

#[test]
fn fits_checks_weight_and_levels() {
    assert!(sample().fits());
    assert!(leaf("x", u64::MAX).fits());
    assert!(!branch("r", 0, vec![leaf("x", u64::MAX), leaf("y", 1)]).fits());
    // the weight written on a node with children does not count
    assert!(branch("r", u64::MAX, vec![leaf("x", 1), leaf("y", 1)]).fits());
}

#[test]
fn text_labels_itself() {
    assert_eq!("leaf".to_string().label(), "leaf");
    assert_eq!(String::new().label(), "");
}
