use btree::btree::{BTree, BTreeBuilder};
use btree::error::Error;
use btree::node::Node;
use btree::node_type::{Key, KeyValuePair, NodeType, Offset};
use btree::page_layout::PAGE_SIZE;

fn node_at(tree: &BTree, offset: usize) -> Node {
    let page = tree.get_pager().get_page(&Offset(offset)).unwrap();
    Node::try_from(page).unwrap()
}

fn root_of(tree: &BTree) -> usize {
    tree.get_wal().get_root().unwrap().0
}

#[test]
fn search_works() -> Result<(), Error> {
    let mut btree = BTreeBuilder::new().path("/tmp/db").b_parameter(2).build()?;
    btree.insert(KeyValuePair::new("a".to_string(), "shalom".to_string()))?;
    btree.insert(KeyValuePair::new("b".to_string(), "hello".to_string()))?;
    btree.insert(KeyValuePair::new("c".to_string(), "marhaba".to_string()))?;

    let mut kv = btree.search("b".to_string())?;
    assert_eq!(kv.key, "b");
    assert_eq!(kv.value, "hello");

    kv = btree.search("c".to_string())?;
    assert_eq!(kv.key, "c");
    assert_eq!(kv.value, "marhaba");

    Ok(())
}

#[test]
fn insert_works() -> Result<(), Error> {
    let mut btree = BTreeBuilder::new().path("/tmp/db").b_parameter(2).build()?;
    btree.insert(KeyValuePair::new("a".to_string(), "shalom".to_string()))?;
    btree.insert(KeyValuePair::new("b".to_string(), "hello".to_string()))?;
    btree.insert(KeyValuePair::new("c".to_string(), "marhaba".to_string()))?;
    btree.insert(KeyValuePair::new("d".to_string(), "olah".to_string()))?;
    btree.insert(KeyValuePair::new("e".to_string(), "salam".to_string()))?;
    btree.insert(KeyValuePair::new("f".to_string(), "hallo".to_string()))?;
    btree.insert(KeyValuePair::new("g".to_string(), "Konnichiwa".to_string()))?;
    btree.insert(KeyValuePair::new("h".to_string(), "Ni hao".to_string()))?;
    btree.insert(KeyValuePair::new("i".to_string(), "Ciao".to_string()))?;

    let mut kv = btree.search("a".to_string())?;
    assert_eq!(kv.key, "a");
    assert_eq!(kv.value, "shalom");

    kv = btree.search("b".to_string())?;
    assert_eq!(kv.key, "b");
    assert_eq!(kv.value, "hello");

    kv = btree.search("c".to_string())?;
    assert_eq!(kv.key, "c");
    assert_eq!(kv.value, "marhaba");

    kv = btree.search("d".to_string())?;
    assert_eq!(kv.key, "d");
    assert_eq!(kv.value, "olah");

    kv = btree.search("e".to_string())?;
    assert_eq!(kv.key, "e");
    assert_eq!(kv.value, "salam");

    kv = btree.search("f".to_string())?;
    assert_eq!(kv.key, "f");
    assert_eq!(kv.value, "hallo");

    kv = btree.search("g".to_string())?;
    assert_eq!(kv.key, "g");
    assert_eq!(kv.value, "Konnichiwa");

    kv = btree.search("h".to_string())?;
    assert_eq!(kv.key, "h");
    assert_eq!(kv.value, "Ni hao");

    kv = btree.search("i".to_string())?;
    assert_eq!(kv.key, "i");
    assert_eq!(kv.value, "Ciao");

    Ok(())
}

#[test]
fn split_cascade_builds_a_tree_of_several_leaves() {
    let mut btree = BTreeBuilder::new().path("/tmp/db").b_parameter(2).build().unwrap();
    for (i, key) in ["a", "b", "c", "d", "e", "f", "g", "h", "i"].iter().enumerate() {
        btree
            .insert(KeyValuePair::new(key.to_string(), format!("v{}", i)))
            .unwrap();
    }
    for (i, key) in ["a", "b", "c", "d", "e", "f", "g", "h", "i"].iter().enumerate() {
        assert_eq!(btree.search(key.to_string()).unwrap().value, format!("v{}", i));
    }
    let root = node_at(&btree, root_of(&btree));
    assert!(root.is_root);
    let children = match root.node_type {
        NodeType::Internal(children, _) => children,
        _ => panic!("the root is an internal node"),
    };
    // count the leaves, level by level
    let mut level: Vec<usize> = children.iter().map(|c| c.0).collect();
    let mut depth = 2;
    loop {
        let mut next = Vec::new();
        let mut leaves = 0;
        for offset in &level {
            match node_at(&btree, *offset).node_type {
                NodeType::Internal(children, keys) => {
                    assert_eq!(children.len(), keys.len() + 1);
                    next.extend(children.iter().map(|c| c.0));
                }
                NodeType::Leaf(_) => leaves += 1,
                NodeType::Unexpected => panic!("unknown node"),
            }
        }
        if next.is_empty() {
            assert_eq!(leaves, level.len());
            assert!(leaves >= 3);
            break;
        }
        assert_eq!(leaves, 0);
        level = next;
        depth += 1;
    }
    assert!(depth >= 2);
}

#[test]
fn key_too_long_is_refused_and_changes_nothing() {
    let mut btree = BTreeBuilder::new().path("/tmp/db").b_parameter(2).build().unwrap();
    btree
        .insert(KeyValuePair::new("a".to_string(), "1".to_string()))
        .unwrap();
    let image = btree.get_pager().get_image().clone();
    let log = btree.get_wal().get_log().clone();
    assert!(matches!(
        btree.insert(KeyValuePair::new("abcdefghijk".to_string(), "x".to_string())),
        Err(Error::KeyOverflowError)
    ));
    assert!(matches!(
        btree.insert(KeyValuePair::new("k".to_string(), "abcdefghijk".to_string())),
        Err(Error::ValueOverflowError)
    ));
    assert!(matches!(
        btree.insert(KeyValuePair::new("k\0".to_string(), "x".to_string())),
        Err(Error::UnexpectedError)
    ));
    assert!(matches!(
        btree.insert(KeyValuePair::new("k".to_string(), "\0x".to_string())),
        Err(Error::UnexpectedError)
    ));
    assert!(matches!(
        btree.insert(KeyValuePair::new("a".to_string(), "2".to_string())),
        Err(Error::KeyAlreadyExists)
    ));
    assert_eq!(btree.get_pager().get_image(), &image);
    assert_eq!(btree.get_wal().get_log(), &log);
    assert_eq!(btree.search("a".to_string()).unwrap().value, "1");
    assert!(matches!(
        btree.search("abcdefghijk".to_string()),
        Err(Error::KeyNotFound)
    ));
}

#[test]
fn insert_into_an_empty_tree_keeps_a_single_leaf() {
    let mut btree = BTreeBuilder::new().path("/tmp/db").b_parameter(2).build().unwrap();
    assert_eq!(btree.get_pager().len(), PAGE_SIZE);
    assert_eq!(btree.get_wal().get_log(), &vec![0u8; 8]);
    assert!(matches!(
        btree.search("a".to_string()),
        Err(Error::KeyNotFound)
    ));
    btree
        .insert(KeyValuePair::new("a".to_string(), "1".to_string()))
        .unwrap();
    assert_eq!(btree.get_pager().len(), PAGE_SIZE);
    assert_eq!(root_of(&btree), 0);
    assert_eq!(btree.get_wal().get_log(), &vec![0u8; 16]);
    let root = node_at(&btree, 0);
    assert!(root.is_root);
    assert_eq!(root.parent_offset, None);
    assert_eq!(
        root.node_type,
        NodeType::Leaf(vec![KeyValuePair::new("a".to_string(), "1".to_string())])
    );
}

#[test]
fn root_is_divided_by_the_insert_after_it_became_full() {
    let mut btree = BTreeBuilder::new().path("/tmp/db").b_parameter(2).build().unwrap();
    for key in ["b", "c", "a"] {
        btree
            .insert(KeyValuePair::new(key.to_string(), key.to_uppercase()))
            .unwrap();
    }
    // three pairs fill the root of a tree with b = 2; there is no split yet
    assert_eq!(btree.get_pager().len(), PAGE_SIZE);
    assert_eq!(
        node_at(&btree, 0).node_type,
        NodeType::Leaf(vec![
            KeyValuePair::new("a".to_string(), "A".to_string()),
            KeyValuePair::new("b".to_string(), "B".to_string()),
            KeyValuePair::new("c".to_string(), "C".to_string()),
        ])
    );
    let records = btree.get_wal().get_log().len() / 8;
    btree
        .insert(KeyValuePair::new("d".to_string(), "D".to_string()))
        .unwrap();
    assert_eq!(btree.get_wal().get_log().len() / 8, records + 1);
    assert_eq!(btree.get_pager().len(), 3 * PAGE_SIZE);
    assert_eq!(root_of(&btree), PAGE_SIZE);
    let root = node_at(&btree, PAGE_SIZE);
    assert!(root.is_root);
    assert_eq!(
        root.node_type,
        NodeType::Internal(
            vec![Offset(0), Offset(2 * PAGE_SIZE)],
            vec![Key("b".to_string())]
        )
    );
    let left = node_at(&btree, 0);
    assert!(!left.is_root);
    assert_eq!(left.parent_offset, Some(Offset(PAGE_SIZE)));
    assert_eq!(
        left.node_type,
        NodeType::Leaf(vec![
            KeyValuePair::new("a".to_string(), "A".to_string()),
            KeyValuePair::new("b".to_string(), "B".to_string()),
        ])
    );
    let right = node_at(&btree, 2 * PAGE_SIZE);
    assert!(!right.is_root);
    assert_eq!(right.parent_offset, Some(Offset(PAGE_SIZE)));
    assert_eq!(
        right.node_type,
        NodeType::Leaf(vec![
            KeyValuePair::new("c".to_string(), "C".to_string()),
            KeyValuePair::new("d".to_string(), "D".to_string()),
        ])
    );
}

#[test]
fn many_keys_in_scrambled_order_are_all_found() {
    let mut btree = BTreeBuilder::new().path("/tmp/db").b_parameter(3).build().unwrap();
    let n = 500u32;
    let mut i = 7u32;
    let mut keys = Vec::new();
    for _ in 0..n {
        i = (i * 37 + 11) % 1009;
        keys.push(i);
    }
    keys.sort();
    keys.dedup();
    // a fixed scramble
    let mut order: Vec<u32> = Vec::new();
    let step = 211usize;
    let mut at = 0usize;
    for _ in 0..keys.len() {
        while order.contains(&keys[at % keys.len()]) {
            at += 1;
        }
        order.push(keys[at % keys.len()]);
        at += step;
    }
    for key in &order {
        btree
            .insert(KeyValuePair::new(format!("k{:04}", key), format!("v{}", key)))
            .unwrap();
    }
    for key in &keys {
        let pair = btree.search(format!("k{:04}", key)).unwrap();
        assert_eq!(pair.value, format!("v{}", key));
    }
    assert!(matches!(
        btree.search("k9999".to_string()),
        Err(Error::KeyNotFound)
    ));
}

#[test]
fn reopened_tree_stores_the_same() {
    let mut btree = BTreeBuilder::new().path("/tmp/db").b_parameter(2).build().unwrap();
    for i in 0..40 {
        btree
            .insert(KeyValuePair::new(format!("key{:02}", i), format!("val{}", i)))
            .unwrap();
    }
    let image = btree.get_pager().get_image().clone();
    let log = btree.get_wal().get_log().clone();
    let mut again = BTree::open(image, log, 2).unwrap();
    for i in 0..40 {
        assert_eq!(
            again.search(format!("key{:02}", i)).unwrap().value,
            format!("val{}", i)
        );
    }
    again
        .insert(KeyValuePair::new("zz".to_string(), "last".to_string()))
        .unwrap();
    assert_eq!(again.search("zz".to_string()).unwrap().value, "last");
    assert!(matches!(BTree::open(vec![], vec![], 1), Err(Error::UnexpectedError)));
}

#[test]
fn builder_checks_its_parts() {
    assert!(matches!(
        BTreeBuilder::new().b_parameter(2).build(),
        Err(Error::UnexpectedError)
    ));
    assert!(matches!(
        BTreeBuilder::new().path("/tmp/db").build(),
        Err(Error::UnexpectedError)
    ));
    assert!(matches!(
        BTreeBuilder::new().path("/tmp/db").b_parameter(1).build(),
        Err(Error::UnexpectedError)
    ));
    let tree = BTreeBuilder::default().build().unwrap();
    assert_eq!(tree.get_b(), 102);
    assert_eq!(BTreeBuilder::default().get_path(), "/tmp/db");
    let small = BTreeBuilder::new().path("x").b_parameter(7).build().unwrap();
    assert_eq!(small.get_b(), 7);
}

#[test]
fn delete_works() -> Result<(), Error> {
    let mut btree = BTreeBuilder::new().path("/tmp/db").b_parameter(2).build()?;
    btree.insert(KeyValuePair::new("d".to_string(), "olah".to_string()))?;
    btree.insert(KeyValuePair::new("e".to_string(), "salam".to_string()))?;
    btree.insert(KeyValuePair::new("f".to_string(), "hallo".to_string()))?;
    btree.insert(KeyValuePair::new("a".to_string(), "shalom".to_string()))?;
    btree.insert(KeyValuePair::new("b".to_string(), "hello".to_string()))?;
    btree.insert(KeyValuePair::new("c".to_string(), "marhaba".to_string()))?;

    let kv = btree.search("c".to_string())?;
    assert_eq!(kv.key, "c");
    assert_eq!(kv.value, "marhaba");

    btree.delete(Key("c".to_string()))?;

    let res = btree.search("c".to_string());
    assert!(matches!(res, Err(Error::KeyNotFound)));

    Ok(())
}

#[test]
fn delete_leaves_the_other_keys() {
    let mut btree = BTreeBuilder::new().path("/tmp/db").b_parameter(2).build().unwrap();
    let pairs = [
        ("d", "olah"),
        ("e", "salam"),
        ("f", "hallo"),
        ("a", "shalom"),
        ("b", "hello"),
        ("c", "marhaba"),
    ];
    for (k, v) in pairs {
        btree
            .insert(KeyValuePair::new(k.to_string(), v.to_string()))
            .unwrap();
    }
    btree.delete(Key("c".to_string())).unwrap();
    for (k, v) in pairs {
        if k == "c" {
            assert!(matches!(
                btree.search(k.to_string()),
                Err(Error::KeyNotFound)
            ));
        } else {
            assert_eq!(btree.search(k.to_string()).unwrap().value, v);
        }
    }
}

#[test]
fn delete_of_a_missing_key_changes_nothing() {
    let mut btree = BTreeBuilder::new().path("/tmp/db").b_parameter(2).build().unwrap();
    for key in ["a", "b", "c", "d", "e"] {
        btree
            .insert(KeyValuePair::new(key.to_string(), "v".to_string()))
            .unwrap();
    }
    let image = btree.get_pager().get_image().clone();
    let log = btree.get_wal().get_log().clone();
    assert!(matches!(
        btree.delete(Key("x".to_string())),
        Err(Error::KeyNotFound)
    ));
    assert_eq!(btree.get_pager().get_image(), &image);
    assert_eq!(btree.get_wal().get_log(), &log);
}

#[test]
fn underflow_merges_with_a_neighbour() {
    let mut btree = BTreeBuilder::new().path("/tmp/db").b_parameter(2).build().unwrap();
    for key in ["a", "b", "c", "d"] {
        btree
            .insert(KeyValuePair::new(key.to_string(), key.to_uppercase()))
            .unwrap();
    }
    btree
        .insert(KeyValuePair::new("e".to_string(), "E".to_string()))
        .unwrap();
    btree
        .insert(KeyValuePair::new("f".to_string(), "F".to_string()))
        .unwrap();
    // root [0 | 2P | 3P] over the leaves [a b] [c d] [e f]
    let root = node_at(&btree, root_of(&btree));
    assert_eq!(
        root.node_type,
        NodeType::Internal(
            vec![Offset(0), Offset(2 * PAGE_SIZE), Offset(3 * PAGE_SIZE)],
            vec![Key("b".to_string()), Key("d".to_string())]
        )
    );
    // the last leaf loses both keys: it is merged with the leaf before it
    btree.delete(Key("e".to_string())).unwrap();
    assert_eq!(btree.get_pager().len(), 4 * PAGE_SIZE);
    let records = btree.get_wal().get_log().len() / 8;
    btree.delete(Key("f".to_string())).unwrap();
    assert_eq!(btree.get_wal().get_log().len() / 8, records + 1);
    assert_eq!(btree.get_pager().len(), 5 * PAGE_SIZE);
    let root = node_at(&btree, root_of(&btree));
    assert_eq!(
        root.node_type,
        NodeType::Internal(
            vec![Offset(0), Offset(4 * PAGE_SIZE)],
            vec![Key("b".to_string())]
        )
    );
    let merged = node_at(&btree, 4 * PAGE_SIZE);
    assert!(!merged.is_root);
    assert_eq!(merged.parent_offset, Some(Offset(PAGE_SIZE)));
    assert_eq!(
        merged.node_type,
        NodeType::Leaf(vec![
            KeyValuePair::new("c".to_string(), "C".to_string()),
            KeyValuePair::new("d".to_string(), "D".to_string()),
        ])
    );
    // the first leaf loses both keys: it is merged with the leaf behind it,
    // and the root, left with one child, gives way to that child
    btree.delete(Key("a".to_string())).unwrap();
    btree.delete(Key("b".to_string())).unwrap();
    let root_offset = root_of(&btree);
    assert_eq!(root_offset, 5 * PAGE_SIZE);
    let root = node_at(&btree, root_offset);
    assert!(root.is_root);
    assert_eq!(root.parent_offset, None);
    assert_eq!(
        root.node_type,
        NodeType::Leaf(vec![
            KeyValuePair::new("c".to_string(), "C".to_string()),
            KeyValuePair::new("d".to_string(), "D".to_string()),
        ])
    );
    assert_eq!(btree.search("d".to_string()).unwrap().value, "D");
}

#[test]
fn deleting_every_key_leaves_an_empty_leaf_as_root() {
    let mut btree = BTreeBuilder::new().path("/tmp/db").b_parameter(2).build().unwrap();
    let keys: Vec<String> = (0..60).map(|i| format!("k{:02}", (i * 17) % 60)).collect();
    for key in &keys {
        btree
            .insert(KeyValuePair::new(key.clone(), format!("v{}", key)))
            .unwrap();
    }
    for (n, key) in keys.iter().enumerate() {
        btree.delete(Key(key.clone())).unwrap();
        assert!(matches!(
            btree.search(key.clone()),
            Err(Error::KeyNotFound)
        ));
        for other in &keys[n + 1..] {
            assert_eq!(
                btree.search(other.clone()).unwrap().value,
                format!("v{}", other)
            );
        }
    }
    let root = node_at(&btree, root_of(&btree));
    assert!(root.is_root);
    assert_eq!(root.parent_offset, None);
    assert_eq!(root.node_type, NodeType::Leaf(vec![]));
    // the tree takes keys again
    for key in &keys {
        btree
            .insert(KeyValuePair::new(key.clone(), "again".to_string()))
            .unwrap();
    }
    for key in &keys {
        assert_eq!(btree.search(key.clone()).unwrap().value, "again");
    }
}

#[test]
fn delete_the_last_key_returns_to_a_single_leaf() {
    let mut btree = BTreeBuilder::new().path("/tmp/db").b_parameter(2).build().unwrap();
    for key in ["a", "b", "c", "d"] {
        btree
            .insert(KeyValuePair::new(key.to_string(), key.to_uppercase()))
            .unwrap();
    }
    assert!(matches!(
        node_at(&btree, root_of(&btree)).node_type,
        NodeType::Internal(_, _)
    ));
    for key in ["d", "c", "b", "a"] {
        btree.delete(Key(key.to_string())).unwrap();
    }
    let root = node_at(&btree, root_of(&btree));
    assert!(root.is_root);
    assert_eq!(root.parent_offset, None);
    assert_eq!(root.node_type, NodeType::Leaf(vec![]));
}

#[test]
fn delete_the_only_key() {
    let mut btree = BTreeBuilder::new().path("/tmp/db").b_parameter(2).build().unwrap();
    btree
        .insert(KeyValuePair::new("a".to_string(), "1".to_string()))
        .unwrap();
    btree.delete(Key("a".to_string())).unwrap();
    assert_eq!(root_of(&btree), 0);
    assert_eq!(node_at(&btree, 0).node_type, NodeType::Leaf(vec![]));
    assert!(matches!(
        btree.search("a".to_string()),
        Err(Error::KeyNotFound)
    ));
    assert!(matches!(
        btree.delete(Key("a".to_string())),
        Err(Error::KeyNotFound)
    ));
}

#[test]
fn inserts_and_deletes_in_turn_with_a_wide_node() {
    let mut btree = BTreeBuilder::new().path("/tmp/db").b_parameter(200).build().unwrap();
    assert_eq!(btree.get_b(), 102);
    let n = 1500u32;
    for i in 0..n {
        let key = (i * 7919) % 10007;
        btree
            .insert(KeyValuePair::new(format!("{:05}", key), format!("{}", i)))
            .unwrap();
    }
    for i in 0..n {
        let key = (i * 7919) % 10007;
        if i % 3 == 0 {
            btree.delete(Key(format!("{:05}", key))).unwrap();
        }
    }
    for i in 0..n {
        let key = (i * 7919) % 10007;
        let found = btree.search(format!("{:05}", key));
        if i % 3 == 0 {
            assert!(matches!(found, Err(Error::KeyNotFound)));
        } else {
            assert_eq!(found.unwrap().value, format!("{}", i));
        }
    }
}
