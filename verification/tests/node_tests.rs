use btree::error::{Error, COUNT_TOO_LARGE, UNKNOWN_TYPE};
use btree::node::Node;
use btree::node_type::{Key, KeyValuePair, NodeType, Offset};
use btree::page::Page;
use btree::page_layout::{
    INTERNAL_NODE_HEADER_SIZE, KEY_SIZE, LEAF_NODE_HEADER_SIZE, PAGE_SIZE, PTR_SIZE, VALUE_SIZE,
};

#[test]
fn page_to_node_works_for_leaf_node() -> Result<(), Error> {
    const DATA_LEN: usize = LEAF_NODE_HEADER_SIZE + KEY_SIZE + VALUE_SIZE;
    let page_data: [u8; DATA_LEN] = [
        0x01, // Is-Root byte.
        0x02, // Leaf Node type byte.
        0x00, 0x00, 0x00, 0x00, 0x00, 0x00, 0x00, 0x00, // Parent offset.
        0x00, 0x00, 0x00, 0x00, 0x00, 0x00, 0x00, 0x01, // Number of Key-Value pairs.
        0x68, 0x65, 0x6c, 0x6c, 0x6f, 0x00, 0x00, 0x00, 0x00, 0x00, // "hello"
        0x77, 0x6f, 0x72, 0x6c, 0x64, 0x00, 0x00, 0x00, 0x00, 0x00, // "world"
    ];
    let junk: [u8; PAGE_SIZE - DATA_LEN] = [0x00; PAGE_SIZE - DATA_LEN];
    let mut page = [0x00; PAGE_SIZE];
    for (to, from) in page.iter_mut().zip(page_data.iter().chain(junk.iter())) {
        *to = *from
    }

    let node = Node::try_from(Page::new(page))?;

    assert_eq!(node.is_root, true);
    Ok(())
}

#[test]
fn page_to_node_works_for_internal_node() -> Result<(), Error> {
    const DATA_LEN: usize = INTERNAL_NODE_HEADER_SIZE + 3 * PTR_SIZE + 2 * KEY_SIZE;
    let page_data: [u8; DATA_LEN] = [
        0x01, // Is-Root byte.
        0x01, // Internal Node type byte.
        0x00, 0x00, 0x00, 0x00, 0x00, 0x00, 0x00, 0x00, // Parent offset.
        0x00, 0x00, 0x00, 0x00, 0x00, 0x00, 0x00, 0x03, // Number of children.
        0x00, 0x00, 0x00, 0x00, 0x00, 0x00, 0x10, 0x00, // 4096  (2nd Page)
        0x00, 0x00, 0x00, 0x00, 0x00, 0x00, 0x20, 0x00, // 8192  (3rd Page)
        0x00, 0x00, 0x00, 0x00, 0x00, 0x00, 0x30, 0x00, // 12288 (4th Page)
        0x68, 0x65, 0x6c, 0x6c, 0x6f, 0x00, 0x00, 0x00, 0x00, 0x00, // "hello"
        0x77, 0x6f, 0x72, 0x6c, 0x64, 0x00, 0x00, 0x00, 0x00, 0x00, // "world"
    ];
    let junk: [u8; PAGE_SIZE - DATA_LEN] = [0x00; PAGE_SIZE - DATA_LEN];

    // Concatenate the two arrays; page_data and junk.
    let mut page = [0x00; PAGE_SIZE];
    for (to, from) in page.iter_mut().zip(page_data.iter().chain(junk.iter())) {
        *to = *from
    }

    let node = Node::try_from(Page::new(page))?;

    if let NodeType::Internal(_, keys) = node.node_type {
        assert_eq!(keys.len(), 2);

        let Key(first_key) = match keys.get(0) {
            Some(key) => key,
            None => return Err(Error::UnexpectedError),
        };
        assert_eq!(first_key, "hello");

        let Key(second_key) = match keys.get(1) {
            Some(key) => key,
            None => return Err(Error::UnexpectedError),
        };
        assert_eq!(second_key, "world");
        return Ok(());
    }

    Err(Error::UnexpectedError)
}

#[test]
fn split_leaf_works() -> Result<(), Error> {
    let mut node = Node::new(
        NodeType::Leaf(vec![
            KeyValuePair::new("foo".to_string(), "bar".to_string()),
            KeyValuePair::new("lebron".to_string(), "james".to_string()),
            KeyValuePair::new("ariana".to_string(), "grande".to_string()),
        ]),
        true,
        None,
    );

    let (median, sibling) = node.split(2)?;
    assert_eq!(median, Key("lebron".to_string()));
    assert_eq!(
        node.node_type,
        NodeType::Leaf(vec![
            KeyValuePair {
                key: "foo".to_string(),
                value: "bar".to_string()
            },
            KeyValuePair {
                key: "lebron".to_string(),
                value: "james".to_string()
            }
        ])
    );
    assert_eq!(
        sibling.node_type,
        NodeType::Leaf(vec![KeyValuePair::new(
            "ariana".to_string(),
            "grande".to_string()
        )])
    );
    Ok(())
}

#[test]
fn split_internal_works() -> Result<(), Error> {
    let mut node = Node::new(
        NodeType::Internal(
            vec![
                Offset(PAGE_SIZE),
                Offset(PAGE_SIZE * 2),
                Offset(PAGE_SIZE * 3),
                Offset(PAGE_SIZE * 4),
            ],
            vec![
                Key("foo bar".to_string()),
                Key("lebron".to_string()),
                Key("ariana".to_string()),
            ],
        ),
        true,
        None,
    );

    let (median, sibling) = node.split(2)?;
    assert_eq!(median, Key("lebron".to_string()));
    assert_eq!(
        node.node_type,
        NodeType::Internal(
            vec![Offset(PAGE_SIZE), Offset(PAGE_SIZE * 2)],
            vec![Key("foo bar".to_string())]
        )
    );
    assert_eq!(
        sibling.node_type,
        NodeType::Internal(
            vec![Offset(PAGE_SIZE * 3), Offset(PAGE_SIZE * 4)],
            vec![Key("ariana".to_string())]
        )
    );
    Ok(())
}

#[test]
fn split_makes_both_halves_non_root_with_the_same_parent() {
    let mut node = Node::new(
        NodeType::Leaf(vec![
            KeyValuePair::new("a".to_string(), "1".to_string()),
            KeyValuePair::new("b".to_string(), "2".to_string()),
            KeyValuePair::new("c".to_string(), "3".to_string()),
        ]),
        false,
        Some(Offset(PAGE_SIZE * 7)),
    );
    let (_, sibling) = node.split(2).unwrap();
    assert!(!node.is_root);
    assert!(!sibling.is_root);
    assert_eq!(node.parent_offset, Some(Offset(PAGE_SIZE * 7)));
    assert_eq!(sibling.parent_offset, Some(Offset(PAGE_SIZE * 7)));
}

#[test]
fn split_refuses_a_node_that_is_too_small() {
    let mut leaf = Node::new(
        NodeType::Leaf(vec![KeyValuePair::new("a".to_string(), "1".to_string())]),
        false,
        Some(Offset(0)),
    );
    assert!(matches!(leaf.split(2), Err(Error::UnexpectedError)));
    assert_eq!(
        leaf.node_type,
        NodeType::Leaf(vec![KeyValuePair::new("a".to_string(), "1".to_string())])
    );
    assert!(matches!(leaf.split(0), Err(Error::UnexpectedError)));

    let mut internal = Node::new(
        NodeType::Internal(vec![Offset(0), Offset(PAGE_SIZE)], vec![Key("k".to_string())]),
        false,
        Some(Offset(0)),
    );
    assert!(matches!(internal.split(2), Err(Error::UnexpectedError)));

    let mut unknown = Node::new(NodeType::Unexpected, false, None);
    assert!(matches!(unknown.split(1), Err(Error::UnexpectedError)));
}

#[test]
fn unknown_type_byte_is_refused() {
    let mut raw = [0u8; PAGE_SIZE];
    raw[0] = 1;
    raw[1] = 7;
    match Node::try_from(Page::new(raw)) {
        Err(Error::TryFromSliceError(message)) => assert_eq!(message, UNKNOWN_TYPE),
        other => panic!("a type byte of 7 names no node: {:?}", other.map(|node| node.is_root)),
    }
    // the byte 0 names none either
    raw[1] = 0;
    assert!(matches!(
        Node::try_from(Page::new(raw)),
        Err(Error::TryFromSliceError(UNKNOWN_TYPE))
    ));
}

#[test]
fn broken_text_is_refused() {
    let mut raw = [0u8; PAGE_SIZE];
    raw[0] = 1;
    raw[1] = 2;
    raw[17] = 1;
    raw[18] = 0xff;
    assert!(matches!(
        Node::try_from(Page::new(raw)),
        Err(Error::UTF8Error)
    ));
    // the same byte in the value field
    raw[18] = b'k';
    raw[28] = 0xc3;
    assert!(matches!(
        Node::try_from(Page::new(raw)),
        Err(Error::UTF8Error)
    ));
}

#[test]
fn count_behind_the_page_is_refused() {
    let mut raw = [0u8; PAGE_SIZE];
    raw[0] = 1;
    raw[1] = 2;
    raw[16] = 0x01; // 256 pairs need 5138 bytes
    match Node::try_from(Page::new(raw)) {
        Err(Error::TryFromSliceError(message)) => assert_eq!(message, COUNT_TOO_LARGE),
        other => panic!("256 pairs fit no page: {:?}", other.map(|node| node.is_root)),
    }
    raw[16] = 0;
    raw[17] = 203; // 203 pairs end at byte 4078
    let node = Node::try_from(Page::new(raw)).unwrap();
    match node.node_type {
        NodeType::Leaf(pairs) => assert_eq!(pairs.len(), 203),
        _ => panic!("a leaf was stored"),
    }
    raw[17] = 204;
    assert!(matches!(
        Node::try_from(Page::new(raw)),
        Err(Error::TryFromSliceError(COUNT_TOO_LARGE))
    ));
}

#[test]
fn parent_is_read_only_for_a_node_that_is_no_root() {
    let mut raw = [0u8; PAGE_SIZE];
    raw[0] = 1;
    raw[1] = 2;
    raw[8] = 0x10; // parent field says 4096
    let root = Node::try_from(Page::new(raw)).unwrap();
    assert_eq!(root.parent_offset, None);
    raw[0] = 0;
    let inner = Node::try_from(Page::new(raw)).unwrap();
    assert_eq!(inner.parent_offset, Some(Offset(4096)));
    assert!(!inner.is_root);
}

#[test]
fn only_trailing_zero_bytes_are_trimmed() {
    let mut raw = [0u8; PAGE_SIZE];
    raw[0] = 1;
    raw[1] = 2;
    raw[17] = 1;
    raw[18] = b'a';
    raw[19] = 0;
    raw[20] = b'b';
    let node = Node::try_from(Page::new(raw)).unwrap();
    assert_eq!(
        node.node_type,
        NodeType::Leaf(vec![KeyValuePair::new("a\0b".to_string(), "".to_string())])
    );
}

#[test]
fn internal_node_without_children_has_no_keys() {
    let mut raw = [0u8; PAGE_SIZE];
    raw[0] = 1;
    raw[1] = 1;
    let node = Node::try_from(Page::new(raw)).unwrap();
    assert_eq!(node.node_type, NodeType::Internal(vec![], vec![]));
}
