use btree::btree::{BTree, BTreeBuilder};
use btree::node::Node;
use btree::node_type::{Key, KeyValuePair, NodeType, Offset};
use btree::page::Page;
use btree::page_builder::PageBuilder;
use btree::page_layout::PAGE_SIZE;

fn load(tree: &BTree, offset: usize) -> Node {
    let page = tree.get_pager().get_page(&Offset(offset)).unwrap();
    Node::try_from(page).unwrap()
}

/// Walks the tree and checks what holds of every sound tree. Hands out the
/// keys of the leaves in order and the depth of the leaves.
fn check_subtree(
    tree: &BTree,
    offset: usize,
    parent: Option<usize>,
    min: usize,
    depth: usize,
    leaf_depth: &mut Option<usize>,
    keys: &mut Vec<String>,
    seen: &mut Vec<usize>,
) {
    let b = tree.get_b();
    assert_eq!(offset % PAGE_SIZE, 0);
    assert!(!seen.contains(&offset));
    seen.push(offset);
    let node = load(tree, offset);
    let is_root = parent.is_none();
    assert_eq!(node.is_root, is_root);
    assert_eq!(node.parent_offset, parent.map(Offset));
    match node.node_type {
        NodeType::Leaf(pairs) => {
            assert!(pairs.len() <= 2 * b - 1);
            if !is_root {
                assert!(pairs.len() >= min);
            }
            match leaf_depth {
                Some(d) => assert_eq!(*d, depth),
                None => *leaf_depth = Some(depth),
            }
            for pair in pairs {
                keys.push(pair.key);
            }
        }
        NodeType::Internal(children, separators) => {
            assert_eq!(children.len(), separators.len() + 1);
            assert!(children.len() <= 2 * b);
            if is_root {
                assert!(children.len() >= 2);
            } else {
                assert!(separators.len() >= min);
            }
            for (i, child) in children.iter().enumerate() {
                let from = keys.len();
                check_subtree(
                    tree,
                    child.0,
                    Some(offset),
                    min,
                    depth + 1,
                    leaf_depth,
                    keys,
                    seen,
                );
                for key in &keys[from..] {
                    if i > 0 {
                        assert!(key.as_str() > separators[i - 1].0.as_str());
                    }
                    if i < separators.len() {
                        assert!(key.as_str() <= separators[i].0.as_str());
                    }
                }
            }
        }
        NodeType::Unexpected => panic!("a page holds no node"),
    }
}

fn check_tree(tree: &BTree, min: usize) -> Vec<String> {
    let root = tree.get_wal().get_root().unwrap().0;
    let mut keys = Vec::new();
    let mut leaf_depth = None;
    let mut seen = Vec::new();
    check_subtree(tree, root, None, min, 0, &mut leaf_depth, &mut keys, &mut seen);
    for pair in keys.windows(2) {
        assert!(pair[0] < pair[1]);
    }
    keys
}

fn scrambled(n: usize) -> Vec<String> {
    (0..n).map(|i| format!("{:04}", (i * 389) % n)).collect()
}

#[test]
fn inserts_keep_the_tree_sound_and_balanced() {
    for b in [2usize, 3, 5] {
        let mut tree = BTreeBuilder::new().path("db").b_parameter(b).build().unwrap();
        let keys = scrambled(300);
        for (n, key) in keys.iter().enumerate() {
            tree.insert(KeyValuePair::new(key.clone(), "v".to_string()))
                .unwrap();
            let stored = check_tree(&tree, b - 1);
            assert_eq!(stored.len(), n + 1);
        }
        let mut sorted = keys.clone();
        sorted.sort();
        assert_eq!(check_tree(&tree, b - 1), sorted);
    }
}

#[test]
fn deletes_keep_the_tree_sound_and_balanced() {
    for b in [2usize, 3, 4] {
        let mut tree = BTreeBuilder::new().path("db").b_parameter(b).build().unwrap();
        let keys = scrambled(200);
        for key in &keys {
            tree.insert(KeyValuePair::new(key.clone(), "v".to_string()))
                .unwrap();
        }
        let mut left: Vec<String> = keys.clone();
        left.sort();
        for (n, key) in keys.iter().enumerate() {
            if n % 3 != 1 {
                tree.delete(Key(key.clone())).unwrap();
                left.retain(|k| k != key);
                assert_eq!(check_tree(&tree, b - 1), left);
            }
        }
        for key in &keys {
            assert_eq!(tree.search(key.clone()).is_ok(), left.contains(key));
        }
    }
}

#[test]
fn every_insert_and_delete_adds_one_record_to_the_log() {
    let mut tree = BTreeBuilder::new().path("db").b_parameter(2).build().unwrap();
    let mut records = tree.get_wal().get_log().len() / 8;
    assert_eq!(records, 1);
    for key in scrambled(40) {
        tree.insert(KeyValuePair::new(key, "v".to_string())).unwrap();
        records += 1;
        assert_eq!(tree.get_wal().get_log().len(), 8 * records);
    }
    for key in scrambled(40) {
        tree.delete(Key(key)).unwrap();
        records += 1;
        assert_eq!(tree.get_wal().get_log().len(), 8 * records);
    }
    assert!(tree.delete(Key("none".to_string())).is_err());
    assert_eq!(tree.get_wal().get_log().len(), 8 * records);
}

#[test]
fn children_of_the_root_name_it_as_their_parent() {
    let mut tree = BTreeBuilder::new().path("db").b_parameter(3).build().unwrap();
    for key in ["m", "c", "x", "a", "k", "q", "e", "z", "b", "t", "g"] {
        tree.insert(KeyValuePair::new(key.to_string(), "v".to_string()))
            .unwrap();
    }
    tree.delete(Key("a".to_string())).unwrap();
    tree.delete(Key("b".to_string())).unwrap();
    tree.delete(Key("c".to_string())).unwrap();
    let root_offset = tree.get_wal().get_root().unwrap().0;
    match load(&tree, root_offset).node_type {
        NodeType::Internal(children, _) => {
            assert!(children.len() >= 2);
            for child in children {
                let node = load(&tree, child.0);
                assert!(matches!(node.node_type, NodeType::Leaf(_)));
                assert_eq!(node.parent_offset, Some(Offset(root_offset)));
            }
        }
        _ => panic!("the tree has two levels"),
    }
}

#[test]
fn print_lists_a_node_before_its_children() {
    let mut tree = BTreeBuilder::new().path("db").b_parameter(2).build().unwrap();
    let single = tree.print().unwrap();
    assert_eq!(single.len(), 1);
    assert_eq!(single[0].depth, 0);
    assert_eq!(single[0].offset, Offset(0));
    assert_eq!(single[0].node.node_type, NodeType::Leaf(vec![]));
    for key in ["a", "b", "c", "d", "e", "f", "g", "h", "i", "j"] {
        tree.insert(KeyValuePair::new(key.to_string(), "v".to_string()))
            .unwrap();
    }
    let listing = tree.print().unwrap();
    let root_offset = tree.get_wal().get_root().unwrap();
    assert_eq!(listing[0].depth, 0);
    assert_eq!(listing[0].offset, root_offset);
    // the listing is the walk from the root, a node before its children
    let mut expected: Vec<(usize, usize)> = Vec::new();
    let mut pending = vec![(0usize, root_offset.0)];
    while let Some((depth, offset)) = pending.pop() {
        expected.push((depth, offset));
        if let NodeType::Internal(children, _) = load(&tree, offset).node_type {
            for child in children.iter().rev() {
                pending.push((depth + 1, child.0));
            }
        }
    }
    let listed: Vec<(usize, usize)> = listing.iter().map(|n| (n.depth, n.offset.0)).collect();
    assert_eq!(listed, expected);
    assert!(listing.iter().any(|n| n.depth == 2));
    for printed in &listing {
        assert_eq!(printed.node.node_type, load(&tree, printed.offset.0).node_type);
    }
}

#[test]
fn page_builder_writes_the_page_of_a_node() {
    let mut builder = PageBuilder::new();
    builder
        .is_root(false)
        .node_type(NodeType::Leaf(vec![KeyValuePair::new(
            "hello".to_string(),
            "world".to_string(),
        )]))
        .parent_offset(3 * PAGE_SIZE);
    let page = builder.build().unwrap();
    let node = Node::new(
        NodeType::Leaf(vec![KeyValuePair::new(
            "hello".to_string(),
            "world".to_string(),
        )]),
        false,
        Some(Offset(3 * PAGE_SIZE)),
    );
    assert_eq!(page.get_data(), Page::try_from(&node).unwrap().get_data());

    // a root keeps the parent offset that the builder was given
    let mut builder = PageBuilder::new();
    builder
        .node_type(NodeType::Internal(
            vec![Offset(PAGE_SIZE), Offset(2 * PAGE_SIZE)],
            vec![Key("k".to_string())],
        ))
        .parent_offset(PAGE_SIZE)
        .is_root(true);
    let data = builder.build().unwrap().get_data();
    assert_eq!(
        &data[..18],
        &[1u8, 1, 0, 0, 0, 0, 0, 0, 0x10, 0, 0, 0, 0, 0, 0, 0, 0, 2][..]
    );
    let back = Node::try_from(Page::new(data)).unwrap();
    assert!(back.is_root);
    assert_eq!(back.parent_offset, None);

    assert!(PageBuilder::new().build().is_err());
    let mut long = PageBuilder::new();
    long.node_type(NodeType::Leaf(vec![KeyValuePair::new(
        "abcdefghijk".to_string(),
        "v".to_string(),
    )]));
    assert!(matches!(
        long.build(),
        Err(btree::error::Error::KeyOverflowError)
    ));
}

#[test]
fn a_full_node_of_the_widest_tree_fits_its_page() {
    let mut tree = BTreeBuilder::new().path("db").b_parameter(102).build().unwrap();
    for i in 0..203 {
        tree.insert(KeyValuePair::new(
            format!("key{:07}", i),
            format!("val{:07}", i),
        ))
        .unwrap();
    }
    // 203 pairs of ten bytes each fill the root leaf
    assert_eq!(tree.get_pager().len(), PAGE_SIZE);
    match load(&tree, 0).node_type {
        NodeType::Leaf(pairs) => assert_eq!(pairs.len(), 203),
        _ => panic!("the root is a leaf"),
    }
    tree.insert(KeyValuePair::new(
        "key0000203".to_string(),
        "val0000203".to_string(),
    ))
    .unwrap();
    assert_eq!(tree.get_pager().len(), 3 * PAGE_SIZE);
    assert_eq!(check_tree(&tree, 101).len(), 204);
}

#[test]
fn underflow_next_to_a_full_neighbour_shares_the_entries() {
    let mut tree = BTreeBuilder::new().path("db").b_parameter(3).build().unwrap();
    for key in ["00", "06", "05", "04", "03", "02", "01"] {
        tree.insert(KeyValuePair::new(key.to_string(), format!("v{}", key)))
            .unwrap();
    }
    let root_offset = tree.get_wal().get_root().unwrap().0;
    let (leaves, keys) = match load(&tree, root_offset).node_type {
        NodeType::Internal(children, keys) => (children, keys),
        _ => panic!("the tree has two levels"),
    };
    assert_eq!(keys, vec![Key("04".to_string())]);
    let pages = tree.get_pager().len();
    // the second leaf is left with one pair; the first holds five, which is
    // too much to merge the two
    tree.delete(Key("06".to_string())).unwrap();
    assert_eq!(tree.get_pager().len(), pages);
    assert_eq!(tree.get_wal().get_root().unwrap().0, root_offset);
    match load(&tree, root_offset).node_type {
        NodeType::Internal(children, keys) => {
            assert_eq!(children, leaves);
            assert_eq!(keys, vec![Key("02".to_string())]);
        }
        _ => panic!("the tree has two levels"),
    }
    let first: Vec<String> = match load(&tree, leaves[0].0).node_type {
        NodeType::Leaf(pairs) => pairs.into_iter().map(|p| p.key).collect(),
        _ => panic!("a leaf"),
    };
    let second: Vec<String> = match load(&tree, leaves[1].0).node_type {
        NodeType::Leaf(pairs) => pairs.into_iter().map(|p| p.key).collect(),
        _ => panic!("a leaf"),
    };
    assert_eq!(first, vec!["00", "01", "02"]);
    assert_eq!(second, vec!["03", "04", "05"]);
    assert_eq!(check_tree(&tree, 2), vec!["00", "01", "02", "03", "04", "05"]);
    for key in ["00", "01", "02", "03", "04", "05"] {
        assert_eq!(tree.search(key.to_string()).unwrap().value, format!("v{}", key));
    }
    for leaf in &leaves {
        assert_eq!(load(&tree, leaf.0).parent_offset, Some(Offset(root_offset)));
    }
}

#[test]
fn deletes_keep_a_tall_tree_balanced() {
    let mut tree = BTreeBuilder::new().path("db").b_parameter(2).build().unwrap();
    let keys = scrambled(400);
    for key in &keys {
        tree.insert(KeyValuePair::new(key.clone(), "v".to_string()))
            .unwrap();
    }
    let mut left: Vec<String> = keys.clone();
    left.sort();
    // from the last to the first, then the rest in scrambled order
    for key in keys.iter().rev().take(150) {
        tree.delete(Key(key.clone())).unwrap();
        left.retain(|k| k != key);
        assert_eq!(check_tree(&tree, 1), left);
    }
    let mut sorted = left.clone();
    sorted.reverse();
    for key in &sorted {
        tree.delete(Key(key.clone())).unwrap();
        left.retain(|k| k != key);
        assert_eq!(check_tree(&tree, 1), left);
    }
    let root = tree.get_wal().get_root().unwrap().0;
    assert_eq!(load(&tree, root).node_type, NodeType::Leaf(vec![]));
}

fn height(tree: &BTree) -> usize {
    let mut offset = tree.get_wal().get_root().unwrap().0;
    let mut levels = 0;
    loop {
        match load(tree, offset).node_type {
            NodeType::Internal(children, _) => {
                offset = children[0].0;
                levels += 1;
            }
            _ => return levels,
        }
    }
}

#[test]
fn every_child_names_its_parent_in_a_tall_tree() {
    let mut tree = BTreeBuilder::new().path("db").b_parameter(2).build().unwrap();
    // keys in order divide the rightmost nodes at every level
    for i in 0..120 {
        tree.insert(KeyValuePair::new(format!("{:04}", i), "v".to_string()))
            .unwrap();
        check_tree(&tree, 1);
    }
    assert!(height(&tree) >= 4);
    // taking them out in order merges the leftmost nodes at every level
    for i in 0..119 {
        tree.delete(Key(format!("{:04}", i))).unwrap();
        check_tree(&tree, 1);
    }
    assert_eq!(height(&tree), 0);
    assert_eq!(check_tree(&tree, 1), vec!["0119".to_string()]);
}

#[test]
fn children_that_go_to_a_sibling_name_the_sibling() {
    let mut tree = BTreeBuilder::new().path("db").b_parameter(2).build().unwrap();
    for i in 0..10 {
        tree.insert(KeyValuePair::new(format!("{:02}", i), "v".to_string()))
            .unwrap();
    }
    assert_eq!(height(&tree), 2);
    let root_offset = tree.get_wal().get_root().unwrap().0;
    let middle = match load(&tree, root_offset).node_type {
        NodeType::Internal(children, _) => children,
        _ => panic!("the root is an internal node"),
    };
    assert!(middle.len() >= 2);
    for node_offset in middle {
        let node = load(&tree, node_offset.0);
        assert_eq!(node.parent_offset, Some(Offset(root_offset)));
        match node.node_type {
            NodeType::Internal(leaves, _) => {
                for leaf in leaves {
                    assert_eq!(
                        load(&tree, leaf.0).parent_offset,
                        Some(Offset(node_offset.0))
                    );
                }
            }
            _ => panic!("the tree has three levels"),
        }
    }
}

#[test]
fn the_first_insert_keeps_the_one_page_and_the_root() {
    let mut tree = BTreeBuilder::new().path("db").b_parameter(2).build().unwrap();
    assert_eq!(tree.get_pager().get_image().len(), PAGE_SIZE);
    tree.insert(KeyValuePair::new("k".to_string(), "v".to_string()))
        .unwrap();
    assert_eq!(tree.get_pager().get_image().len(), PAGE_SIZE);
    assert_eq!(tree.get_wal().get_root().unwrap(), Offset(0));
    assert_eq!(tree.get_wal().get_log().len(), 16);
    let root = load(&tree, 0);
    assert!(root.is_root);
    assert_eq!(root.parent_offset, None);
    assert_eq!(
        root.node_type,
        NodeType::Leaf(vec![KeyValuePair::new("k".to_string(), "v".to_string())])
    );
}

#[test]
fn an_insert_that_fills_the_root_leaf_divides_nothing() {
    for b in [2usize, 3, 4] {
        let mut tree = BTreeBuilder::new().path("db").b_parameter(b).build().unwrap();
        for i in 0..2 * b - 2 {
            tree.insert(KeyValuePair::new(format!("{:02}", i), "v".to_string()))
                .unwrap();
        }
        tree.insert(KeyValuePair::new("zz".to_string(), "v".to_string()))
            .unwrap();
        assert_eq!(tree.get_pager().get_image().len(), PAGE_SIZE);
        assert_eq!(tree.get_wal().get_root().unwrap(), Offset(0));
        let root = load(&tree, 0);
        assert!(root.is_root);
        match root.node_type {
            NodeType::Leaf(pairs) => {
                assert_eq!(pairs.len(), 2 * b - 1);
                for pair in pairs.windows(2) {
                    assert!(pair[0].key < pair[1].key);
                }
            }
            _ => panic!("the root is a leaf"),
        }
    }
}

#[test]
fn dividing_the_root_puts_the_new_root_on_the_next_page() {
    for b in [2usize, 3] {
        let mut tree = BTreeBuilder::new().path("db").b_parameter(b).build().unwrap();
        for i in 0..2 * b - 1 {
            tree.insert(KeyValuePair::new(format!("{:02}", i), "v".to_string()))
                .unwrap();
        }
        let pages = tree.get_pager().get_image().len() / PAGE_SIZE;
        assert_eq!(pages, 1);
        let records = tree.get_wal().get_log().len() / 8;
        tree.insert(KeyValuePair::new("zz".to_string(), "v".to_string()))
            .unwrap();
        // the new root on the first new page, the sibling on the second
        assert_eq!(tree.get_pager().get_image().len(), 3 * PAGE_SIZE);
        assert_eq!(tree.get_wal().get_root().unwrap(), Offset(PAGE_SIZE));
        assert_eq!(tree.get_wal().get_log().len(), 8 * (records + 1));
        let root = load(&tree, PAGE_SIZE);
        assert!(root.is_root);
        assert_eq!(root.parent_offset, None);
        assert_eq!(
            root.node_type,
            NodeType::Internal(
                vec![Offset(0), Offset(2 * PAGE_SIZE)],
                vec![Key(format!("{:02}", b - 1))]
            )
        );
        let mut stored = 0;
        for offset in [0, 2 * PAGE_SIZE] {
            let half = load(&tree, offset);
            assert!(!half.is_root);
            assert_eq!(half.parent_offset, Some(Offset(PAGE_SIZE)));
            match half.node_type {
                NodeType::Leaf(pairs) => stored += pairs.len(),
                _ => panic!("the halves of a leaf are leaves"),
            }
        }
        assert_eq!(stored, 2 * b);
    }
}

#[test]
fn merged_leaves_stand_on_a_new_page_in_place_of_the_two() {
    let mut tree = BTreeBuilder::new().path("db").b_parameter(2).build().unwrap();
    for key in ["a", "b", "c", "d", "e", "f"] {
        tree.insert(KeyValuePair::new(key.to_string(), key.to_uppercase()))
            .unwrap();
    }
    let root_offset = tree.get_wal().get_root().unwrap().0;
    let (before, keys) = match load(&tree, root_offset).node_type {
        NodeType::Internal(children, keys) => (children, keys),
        _ => panic!("the root is an internal node"),
    };
    assert_eq!(before.len(), 3);
    assert_eq!(keys, vec![Key("b".to_string()), Key("d".to_string())]);
    tree.delete(Key("e".to_string())).unwrap();
    let end = tree.get_pager().get_image().len();
    // the last leaf is left without a pair and goes together with the leaf
    // before it
    tree.delete(Key("f".to_string())).unwrap();
    assert_eq!(tree.get_pager().get_image().len(), end + PAGE_SIZE);
    assert_eq!(tree.get_wal().get_root().unwrap().0, root_offset);
    let root = load(&tree, root_offset);
    assert_eq!(
        root.node_type,
        NodeType::Internal(
            vec![Offset(before[0].0), Offset(end)],
            vec![Key("b".to_string())]
        )
    );
    let merged = load(&tree, end);
    assert!(!merged.is_root);
    assert_eq!(merged.parent_offset, Some(Offset(root_offset)));
    assert_eq!(
        merged.node_type,
        NodeType::Leaf(vec![
            KeyValuePair::new("c".to_string(), "C".to_string()),
            KeyValuePair::new("d".to_string(), "D".to_string()),
        ])
    );
    // the first leaf with the one behind it
    tree.delete(Key("b".to_string())).unwrap();
    let end = tree.get_pager().get_image().len();
    tree.delete(Key("a".to_string())).unwrap();
    // the root is left with one child, which becomes the root
    assert_eq!(tree.get_pager().get_image().len(), end + PAGE_SIZE);
    assert_eq!(tree.get_wal().get_root().unwrap().0, end);
    let root = load(&tree, end);
    assert!(root.is_root);
    assert_eq!(
        root.node_type,
        NodeType::Leaf(vec![
            KeyValuePair::new("c".to_string(), "C".to_string()),
            KeyValuePair::new("d".to_string(), "D".to_string()),
        ])
    );
}
