use btree::error::Error;
use btree::node::Node;
use btree::node_type::{Key, KeyValuePair, NodeType, Offset};
use btree::page::{Page, Value};
use btree::page_layout::{FromByte, ToByte, PAGE_SIZE};

#[test]
fn node_to_page_works_for_leaf_node() -> Result<(), Error> {
    let some_leaf = Node::new(
        NodeType::Leaf(vec![
            KeyValuePair::new("foo".to_string(), "bar".to_string()),
            KeyValuePair::new("lebron".to_string(), "james".to_string()),
            KeyValuePair::new("ariana".to_string(), "grande".to_string()),
        ]),
        true,
        None,
    );

    // Serialize data.
    let page = Page::try_from(&some_leaf)?;
    // Deserialize back the page.
    let res = Node::try_from(page)?;

    assert_eq!(res.is_root, some_leaf.is_root);
    assert_eq!(res.node_type, some_leaf.node_type);
    assert_eq!(res.parent_offset, some_leaf.parent_offset);
    Ok(())
}

#[test]
fn node_to_page_works_for_internal_node() -> Result<(), Error> {
    let internal_node = Node::new(
        NodeType::Internal(
            vec![
                Offset(PAGE_SIZE),
                Offset(PAGE_SIZE * 2),
                Offset(PAGE_SIZE * 3),
                Offset(PAGE_SIZE * 4),
            ],
            vec![
                Key("foo bar".to_string()),
                Key("lebron".to_string()),
                Key("ariana".to_string()),
            ],
        ),
        true,
        None,
    );

    // Serialize data.
    let page = Page::try_from(&internal_node)?;
    // Deserialize back the page.
    let res = Node::try_from(page)?;

    assert_eq!(res.is_root, internal_node.is_root);
    assert_eq!(res.node_type, internal_node.node_type);
    assert_eq!(res.parent_offset, internal_node.parent_offset);
    Ok(())
}

#[test]
fn leaf_page_has_the_documented_bytes() {
    let leaf = Node::new(
        NodeType::Leaf(vec![KeyValuePair::new(
            "hello".to_string(),
            "world".to_string(),
        )]),
        false,
        Some(Offset(PAGE_SIZE * 3)),
    );
    let data = Page::try_from(&leaf).unwrap().get_data();
    let head: [u8; 38] = [
        0x00, 0x02, //
        0x00, 0x00, 0x00, 0x00, 0x00, 0x00, 0x30, 0x00, //
        0x00, 0x00, 0x00, 0x00, 0x00, 0x00, 0x00, 0x01, //
        0x68, 0x65, 0x6c, 0x6c, 0x6f, 0x00, 0x00, 0x00, 0x00, 0x00, //
        0x77, 0x6f, 0x72, 0x6c, 0x64, 0x00, 0x00, 0x00, 0x00, 0x00,
    ];
    assert_eq!(&data[..38], &head[..]);
    assert!(data[38..].iter().all(|b| *b == 0));
}

#[test]
fn internal_page_has_the_documented_bytes() {
    let node = Node::new(
        NodeType::Internal(
            vec![Offset(4096), Offset(8192), Offset(12288)],
            vec![Key("hello".to_string()), Key("world".to_string())],
        ),
        true,
        None,
    );
    let data = Page::try_from(&node).unwrap().get_data();
    let head: [u8; 62] = [
        0x01, 0x01, //
        0x00, 0x00, 0x00, 0x00, 0x00, 0x00, 0x00, 0x00, //
        0x00, 0x00, 0x00, 0x00, 0x00, 0x00, 0x00, 0x03, //
        0x00, 0x00, 0x00, 0x00, 0x00, 0x00, 0x10, 0x00, //
        0x00, 0x00, 0x00, 0x00, 0x00, 0x00, 0x20, 0x00, //
        0x00, 0x00, 0x00, 0x00, 0x00, 0x00, 0x30, 0x00, //
        0x68, 0x65, 0x6c, 0x6c, 0x6f, 0x00, 0x00, 0x00, 0x00, 0x00, //
        0x77, 0x6f, 0x72, 0x6c, 0x64, 0x00, 0x00, 0x00, 0x00, 0x00,
    ];
    assert_eq!(&data[..62], &head[..]);
    assert!(data[62..].iter().all(|b| *b == 0));
}

#[test]
fn root_page_has_a_zero_parent_field() {
    let node = Node::new(NodeType::Leaf(vec![]), true, Some(Offset(4096)));
    let data = Page::try_from(&node).unwrap().get_data();
    assert_eq!(&data[..18], &[1u8, 2, 0, 0, 0, 0, 0, 0, 0, 0, 0, 0, 0, 0, 0, 0, 0, 0][..]);
}

#[test]
fn node_without_a_page_is_refused() {
    let orphan = Node::new(NodeType::Leaf(vec![]), false, None);
    assert!(matches!(
        Page::try_from(&orphan),
        Err(Error::UnexpectedError)
    ));
    let unknown = Node::new(NodeType::Unexpected, true, None);
    assert!(matches!(
        Page::try_from(&unknown),
        Err(Error::UnexpectedError)
    ));
    let long_key = Node::new(
        NodeType::Leaf(vec![KeyValuePair::new(
            "abcdefghijk".to_string(),
            "x".to_string(),
        )]),
        true,
        None,
    );
    assert!(matches!(
        Page::try_from(&long_key),
        Err(Error::KeyOverflowError)
    ));
    let long_value = Node::new(
        NodeType::Leaf(vec![
            KeyValuePair::new("abcdefghij".to_string(), "x".to_string()),
            KeyValuePair::new("k".to_string(), "abcdefghijk".to_string()),
        ]),
        true,
        None,
    );
    assert!(matches!(
        Page::try_from(&long_value),
        Err(Error::ValueOverflowError)
    ));
    let long_separator = Node::new(
        NodeType::Internal(
            vec![Offset(0), Offset(4096)],
            vec![Key("abcdefghijk".to_string())],
        ),
        true,
        None,
    );
    assert!(matches!(
        Page::try_from(&long_separator),
        Err(Error::KeyOverflowError)
    ));
    let mut pairs = Vec::new();
    for i in 0..204 {
        pairs.push(KeyValuePair::new(format!("k{}", i), "v".to_string()));
    }
    let crowded = Node::new(NodeType::Leaf(pairs), true, None);
    assert!(matches!(
        Page::try_from(&crowded),
        Err(Error::UnexpectedError)
    ));
}

#[test]
fn multi_byte_text_round_trips() {
    let leaf = Node::new(
        NodeType::Leaf(vec![KeyValuePair::new(
            "héllo".to_string(),
            "wörld€".to_string(),
        )]),
        true,
        None,
    );
    let page = Page::try_from(&leaf).unwrap();
    let back = Node::try_from(page).unwrap();
    assert_eq!(back.node_type, leaf.node_type);
}

#[test]
fn values_are_big_endian() {
    let mut page = Page::new([0u8; PAGE_SIZE]);
    page.write_value_at_offset(100, 0x0102_0304_0506_0708).unwrap();
    assert_eq!(
        page.get_ptr_from_offset(100, 8),
        &[1u8, 2, 3, 4, 5, 6, 7, 8][..]
    );
    assert_eq!(page.get_value_from_offset(100).unwrap(), 0x0102_0304_0506_0708);
    assert_eq!(page.get_value_from_offset(101).unwrap(), 0x0203_0405_0607_0800);
    assert_eq!(page.get_ptr_from_offset(99, 1), &[0u8][..]);
    assert_eq!(page.get_ptr_from_offset(108, 1), &[0u8][..]);
}

#[test]
fn value_write_behind_the_page_fails() {
    let mut page = Page::new([7u8; PAGE_SIZE]);
    assert!(page.write_value_at_offset(PAGE_SIZE - 8, 1).is_ok());
    assert!(matches!(
        page.write_value_at_offset(PAGE_SIZE - 7, 1),
        Err(Error::UnexpectedError)
    ));
    assert!(matches!(
        page.get_value_from_offset(PAGE_SIZE - 7),
        Err(Error::UnexpectedError)
    ));
    let data = page.get_data();
    assert_eq!(&data[PAGE_SIZE - 9..], &[7u8, 0, 0, 0, 0, 0, 0, 0, 1][..]);
}

#[test]
fn bytes_are_written_in_place() {
    let mut page = Page::new([0u8; PAGE_SIZE]);
    page.write_bytes_at_offset(b"abc", 10, 3).unwrap();
    assert_eq!(page.get_ptr_from_offset(9, 5), &[0u8, b'a', b'b', b'c', 0][..]);
    assert!(matches!(
        page.write_bytes_at_offset(b"abc", 10, 2),
        Err(Error::UnexpectedError)
    ));
    assert!(matches!(
        page.write_bytes_at_offset(b"abc", PAGE_SIZE - 2, 3),
        Err(Error::UnexpectedError)
    ));
    assert!(page.write_bytes_at_offset(b"abc", PAGE_SIZE - 3, 3).is_ok());
}

#[test]
fn inserted_bytes_shift_what_was_there() {
    let mut page = Page::new([0u8; PAGE_SIZE]);
    page.write_bytes_at_offset(b"abcdef", 20, 6).unwrap();
    page.insert_bytes_at_offset(b"XY", 22, 25, 2).unwrap();
    assert_eq!(page.get_ptr_from_offset(20, 9), b"abXYcdef\0");
    let before = page.get_data();
    assert!(matches!(
        page.insert_bytes_at_offset(b"XY", 22, PAGE_SIZE - 2, 2),
        Err(Error::UnexpectedError)
    ));
    assert!(matches!(
        page.insert_bytes_at_offset(b"XY", 22, 25, 3),
        Err(Error::UnexpectedError)
    ));
    assert_eq!(page.get_data(), before);
    page.insert_bytes_at_offset(b"Z", 4000, PAGE_SIZE - 2, 1).unwrap();
    assert_eq!(page.get_ptr_from_offset(4000, 1), b"Z");
}

#[test]
fn value_reads_leading_bytes() {
    assert_eq!(Value::try_from(&[0, 0, 0, 0, 0, 0, 0x10, 0][..]).unwrap().0, 4096);
    assert_eq!(Value::try_from(&[][..]).unwrap().0, 0);
    assert_eq!(
        Value::try_from(&[0, 0, 0, 0, 0, 0, 1][..]).unwrap().0,
        256
    );
    assert!(matches!(
        Value::try_from(&[0u8; 9][..]),
        Err(Error::TryFromSliceError(_))
    ));
}

#[test]
fn offset_reads_eight_bytes() {
    assert_eq!(
        Offset::try_from([0, 0, 0, 0, 0, 0, 0x20, 0]).unwrap(),
        Offset(8192)
    );
}

#[test]
fn one_is_true_and_everything_else_false() {
    assert!(1u8.from_byte());
    assert!(!0u8.from_byte());
    assert!(!2u8.from_byte());
    assert_eq!(true.to_byte(), 1);
    assert_eq!(false.to_byte(), 0);
}
