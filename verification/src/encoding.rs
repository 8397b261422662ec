//! The page format: which bytes store a node, and which node a page holds.

use crate::bytes::{
    be_bytes, be_value, fits_field, lemma_be_bytes_len, lemma_be_value_of_bytes, lemma_pad_of_trim,
    lemma_pow256_values, lemma_trim_of_pad, pad, trim,
};
use crate::error::{count_too_large, too_wide, unknown_type, Error};
use crate::node::NodeView;
use crate::node_type::{tag_of, NodeTypeView, INTERNAL_TAG, LEAF_TAG};
use crate::page_layout::{FromByte, ToByte};
use vstd::prelude::*;
use vstd::utf8::*;

verus! {

/// A text whose UTF-8 bytes fit a field of `width` bytes and do not end in a
/// zero byte, so that the field gives the text back.
pub open spec fn storable(text: Seq<char>, width: nat) -> bool {
    fits_field(encode_utf8(text), width)
}

/// The field of `width` bytes that stores `text`.
pub open spec fn text_field(text: Seq<char>, width: nat) -> Seq<u8> {
    pad(encode_utf8(text), width)
}

/// How many entries the count field of a node's page announces.
pub open spec fn entry_count(node: NodeView) -> nat {
    match node.node_type {
        NodeTypeView::Internal(children, _) => children.len(),
        NodeTypeView::Leaf(pairs) => pairs.len(),
        NodeTypeView::Unexpected => 0,
    }
}

/// The number in the parent field of a node's page: zero for a root.
pub open spec fn parent_number(node: NodeView) -> nat {
    match node.parent_offset {
        Some(parent) => if node.is_root {
            0
        } else {
            parent as nat
        },
        None => 0,
    }
}

/// Byte `i` of the eighteen header bytes of a node's page.
pub open spec fn header_byte(node: NodeView, i: int) -> u8 {
    if i == 0 {
        node.is_root.bool_as_byte()
    } else if i == 1 {
        tag_of(node.node_type)
    } else if i < 10 {
        be_bytes(parent_number(node), 8)[i - 2]
    } else {
        be_bytes(entry_count(node), 8)[i - 10]
    }
}

/// Byte `j` behind the header of an internal node's page: the children's
/// offsets, eight bytes each, then the keys, ten bytes each, then zeros.
pub open spec fn internal_body_byte(children: Seq<usize>, keys: Seq<Seq<char>>, j: int) -> u8 {
    let keys_start = 8 * children.len();
    if j < keys_start {
        be_bytes(children[j / 8] as nat, 8)[j % 8]
    } else if j < keys_start + 10 * keys.len() {
        text_field(keys[(j - keys_start) / 10], 10)[(j - keys_start) % 10]
    } else {
        0u8
    }
}

/// Byte `j` behind the header of a leaf's page: the pairs, ten bytes of key
/// and ten bytes of value each, then zeros.
pub open spec fn leaf_body_byte(pairs: Seq<(Seq<char>, Seq<char>)>, j: int) -> u8 {
    if j < 20 * pairs.len() {
        if j % 20 < 10 {
            text_field(pairs[j / 20].0, 10)[j % 20]
        } else {
            text_field(pairs[j / 20].1, 10)[j % 20 - 10]
        }
    } else {
        0u8
    }
}

/// The page that stores `node`.
pub open spec fn node_bytes(node: NodeView) -> Seq<u8> {
    Seq::new(
        4096,
        |i: int|
            if i < 18 {
                header_byte(node, i)
            } else {
                match node.node_type {
                    NodeTypeView::Internal(children, keys) => internal_body_byte(
                        children,
                        keys,
                        i - 18,
                    ),
                    NodeTypeView::Leaf(pairs) => leaf_body_byte(pairs, i - 18),
                    NodeTypeView::Unexpected => 0u8,
                }
            },
    )
}

/// The first pair, if any, whose key or value is too long for its field,
/// as the error that it causes.
pub open spec fn pairs_overflow(pairs: Seq<(Seq<char>, Seq<char>)>) -> Option<Error>
    decreases pairs.len(),
{
    if pairs.len() == 0 {
        None
    } else if encode_utf8(pairs[0].0).len() > 10 {
        Some(Error::KeyOverflowError)
    } else if encode_utf8(pairs[0].1).len() > 10 {
        Some(Error::ValueOverflowError)
    } else {
        pairs_overflow(pairs.drop_first())
    }
}

/// Whether some key of `keys` is too long for its field.
pub open spec fn keys_overflow(keys: Seq<Seq<char>>) -> bool {
    exists|j: int| 0 <= j < keys.len() && encode_utf8(#[trigger] keys[j]).len() > 10
}

/// Why `node` has no page, if it has none: a node that is no root needs a
/// parent; the kind must be known; the entries must fit the page; no key or
/// value may be longer than its field.
pub open spec fn encode_error(node: NodeView) -> Option<Error> {
    if !node.is_root && node.parent_offset is None {
        Some(Error::UnexpectedError)
    } else {
        match node.node_type {
            NodeTypeView::Internal(children, keys) => if 18 + 8 * children.len() + 10
                * keys.len() > 4096 {
                Some(Error::UnexpectedError)
            } else if keys_overflow(keys) {
                Some(Error::KeyOverflowError)
            } else {
                None
            },
            NodeTypeView::Leaf(pairs) => if 18 + 20 * pairs.len() > 4096 {
                Some(Error::UnexpectedError)
            } else {
                pairs_overflow(pairs)
            },
            NodeTypeView::Unexpected => Some(Error::UnexpectedError),
        }
    }
}

/// What writing `node` to a page gives: the page, or the reason why there is
/// none.
pub open spec fn encode_node(node: NodeView) -> Result<Seq<u8>, Error> {
    match encode_error(node) {
        Some(error) => Err(error),
        None => Ok(node_bytes(node)),
    }
}

/// The number in the eight bytes of `page` from `at` on.
pub open spec fn number_at(page: Seq<u8>, at: int) -> nat {
    be_value(page.subrange(at, at + 8))
}

/// The bytes of the text in the ten bytes of `page` from `at` on: the field
/// without its trailing zero bytes.
pub open spec fn text_bytes_at(page: Seq<u8>, at: int) -> Seq<u8> {
    trim(page.subrange(at, at + 10))
}

/// The text in the ten bytes of `page` from `at` on.
pub open spec fn text_at(page: Seq<u8>, at: int) -> Seq<char> {
    decode_utf8(text_bytes_at(page, at))
}

/// The children that the page of an internal node with `count` children
/// holds.
pub open spec fn children_at(page: Seq<u8>, count: nat) -> Seq<usize> {
    Seq::new(count, |i: int| number_at(page, 18 + 8 * i) as usize)
}

/// The keys that the page of an internal node with `count` children holds:
/// one less than it has children.
pub open spec fn keys_at(page: Seq<u8>, count: nat) -> Seq<Seq<char>> {
    Seq::new(
        if count == 0 {
            0
        } else {
            (count - 1) as nat
        },
        |j: int| text_at(page, 18 + 8 * count + 10 * j),
    )
}

/// The pairs that the page of a leaf with `count` pairs holds.
pub open spec fn pairs_at(page: Seq<u8>, count: nat) -> Seq<(Seq<char>, Seq<char>)> {
    Seq::new(count, |j: int| (text_at(page, 18 + 20 * j), text_at(page, 28 + 20 * j)))
}

/// Whether the entries that the count field announces end within the page.
pub open spec fn count_fits(page: Seq<u8>) -> bool {
    let count = number_at(page, 10);
    if page[1] == INTERNAL_TAG {
        count == 0 || 18 + 8 * count + 10 * (count - 1) <= 4096
    } else {
        18 + 20 * count <= 4096
    }
}

/// Whether some child offset of an internal node's page is wider than a
/// machine word.
pub open spec fn child_too_wide(page: Seq<u8>) -> bool {
    exists|i: int|
        0 <= i < number_at(page, 10) && #[trigger] number_at(page, 18 + 8 * i) > usize::MAX
}

/// Whether some key or value of the page is not UTF-8.
pub open spec fn text_broken(page: Seq<u8>) -> bool {
    let count = number_at(page, 10);
    if page[1] == INTERNAL_TAG {
        exists|j: int|
            0 <= j < count - 1 && !valid_utf8(
                #[trigger] text_bytes_at(page, 18 + 8 * count + 10 * j),
            )
    } else {
        exists|j: int|
            0 <= j < 2 * count && !valid_utf8(#[trigger] text_bytes_at(page, 18 + 10 * j))
    }
}

/// Why `page` holds no node, if it holds none. In this order: the parent
/// offset of a node that is no root is wider than a machine word; the type
/// byte is unknown; the count is wider than a machine word; the entries do
/// not end within the page; a child offset is wider than a machine word; a
/// key or value is not UTF-8. Each is an error of the bytes: a
/// `TryFromSliceError` with its message, or a `UTF8Error`.
pub open spec fn decode_error(page: Seq<u8>) -> Option<Error> {
    if !page[0].byte_as_bool() && number_at(page, 2) > usize::MAX {
        Some(too_wide())
    } else if page[1] != INTERNAL_TAG && page[1] != LEAF_TAG {
        Some(unknown_type())
    } else if number_at(page, 10) > usize::MAX {
        Some(too_wide())
    } else if !count_fits(page) {
        Some(count_too_large())
    } else if page[1] == INTERNAL_TAG && child_too_wide(page) {
        Some(too_wide())
    } else if text_broken(page) {
        Some(Error::UTF8Error)
    } else {
        None
    }
}

/// The node that `page` holds, where it holds one.
pub open spec fn decoded_node(page: Seq<u8>) -> NodeView {
    let count = number_at(page, 10);
    NodeView {
        node_type: if page[1] == INTERNAL_TAG {
            NodeTypeView::Internal(children_at(page, count), keys_at(page, count))
        } else if page[1] == LEAF_TAG {
            NodeTypeView::Leaf(pairs_at(page, count))
        } else {
            NodeTypeView::Unexpected
        },
        is_root: page[0].byte_as_bool(),
        parent_offset: if page[0].byte_as_bool() {
            None
        } else {
            Some(number_at(page, 2) as usize)
        },
    }
}

/// What reading a node from a page of 4096 bytes gives: the node, or the
/// reason why there is none.
pub open spec fn decode_page(page: Seq<u8>) -> Result<NodeView, Error> {
    match decode_error(page) {
        Some(error) => Err(error),
        None => Ok(decoded_node(page)),
    }
}

/// What a node must satisfy for its page to give it back: a root has no
/// parent and every other node has one; an internal node has one key less
/// than it has children, or neither; the entries fit the page; every key and
/// value fits its field and does not end in a zero byte.
pub open spec fn round_trips(node: NodeView) -> bool {
    &&& node.is_root <==> node.parent_offset is None
    &&& match node.node_type {
        NodeTypeView::Internal(children, keys) => {
            &&& children.len() == 0 ==> keys.len() == 0
            &&& children.len() > 0 ==> children.len() == keys.len() + 1
            &&& 18 + 8 * children.len() + 10 * keys.len() <= 4096
            &&& forall|j: int| 0 <= j < keys.len() ==> storable(#[trigger] keys[j], 10)
        },
        NodeTypeView::Leaf(pairs) => {
            &&& 18 + 20 * pairs.len() <= 4096
            &&& forall|j: int|
                0 <= j < pairs.len() ==> storable((#[trigger] pairs[j]).0, 10) && storable(
                    pairs[j].1,
                    10,
                )
        },
        NodeTypeView::Unexpected => false,
    }
}

/// A number below `2^64` is read back from the eight bytes that spell it.
pub proof fn lemma_number_field(page: Seq<u8>, at: int, v: nat)
    requires
        page.subrange(at, at + 8) == be_bytes(v, 8),
        v <= u64::MAX,
    ensures
        number_at(page, at) == v,
{
    lemma_pow256_values();
    lemma_be_value_of_bytes(v, 8);
}

/// A storable text is read back from the field that stores it.
pub proof fn lemma_text_field(page: Seq<u8>, at: int, text: Seq<char>)
    requires
        page.subrange(at, at + 10) == text_field(text, 10),
        storable(text, 10),
    ensures
        text_bytes_at(page, at) == encode_utf8(text),
        valid_utf8(text_bytes_at(page, at)),
        text_at(page, at) == text,
{
    lemma_trim_of_pad(encode_utf8(text), 10);
    encode_utf8_valid_utf8(text);
    encode_utf8_decode_utf8(text);
}

/// A text read from a field is storable, and the field is what stores it.
pub proof fn lemma_text_read(page: Seq<u8>, at: int)
    requires
        0 <= at,
        at + 10 <= page.len(),
        valid_utf8(text_bytes_at(page, at)),
    ensures
        storable(text_at(page, at), 10),
        text_field(text_at(page, at), 10) == page.subrange(at, at + 10),
{
    lemma_pad_of_trim(page.subrange(at, at + 10));
    decode_utf8_encode_utf8(text_bytes_at(page, at));
}

/// Every node that a page holds round-trips.
pub proof fn lemma_decoded_round_trips(page: Seq<u8>)
    requires
        page.len() == 4096,
        decode_page(page) is Ok,
    ensures
        round_trips(decode_page(page)->Ok_0),
{
    let node = decoded_node(page);
    let count = number_at(page, 10);
    match node.node_type {
        NodeTypeView::Internal(children, keys) => {
            assert forall|j: int| 0 <= j < keys.len() implies storable(#[trigger] keys[j], 10) by {
                assert(valid_utf8(text_bytes_at(page, 18 + 8 * count + 10 * j)));
                lemma_text_read(page, 18 + 8 * count + 10 * j);
            }
        },
        NodeTypeView::Leaf(pairs) => {
            assert forall|j: int| 0 <= j < pairs.len() implies storable(
                (#[trigger] pairs[j]).0,
                10,
            ) && storable(pairs[j].1, 10) by {
                assert(valid_utf8(text_bytes_at(page, 18 + 10 * (2 * j))));
                assert(valid_utf8(text_bytes_at(page, 18 + 10 * (2 * j + 1))));
                lemma_text_read(page, 18 + 20 * j);
                lemma_text_read(page, 28 + 20 * j);
            }
        },
        NodeTypeView::Unexpected => {},
    }
}

pub proof fn lemma_pairs_do_not_overflow(pairs: Seq<(Seq<char>, Seq<char>)>)
    requires
        forall|j: int|
            0 <= j < pairs.len() ==> storable((#[trigger] pairs[j]).0, 10) && storable(
                pairs[j].1,
                10,
            ),
    ensures
        pairs_overflow(pairs) is None,
    decreases pairs.len(),
{
    if pairs.len() > 0 {
        assert(storable(pairs[0].0, 10));
        let rest = pairs.drop_first();
        assert forall|j: int| 0 <= j < rest.len() implies storable((#[trigger] rest[j]).0, 10)
            && storable(rest[j].1, 10) by {
            assert(rest[j] == pairs[j + 1]);
        }
        lemma_pairs_do_not_overflow(rest);
    }
}

/// The header of the page of a node that has a page gives back whether it is
/// a root, its kind, its parent and the number of its entries.
pub proof fn lemma_header_round_trip(node: NodeView)
    requires
        entry_count(node) <= 4096,
    ensures
        node_bytes(node)[0].byte_as_bool() == node.is_root,
        node_bytes(node)[1] == tag_of(node.node_type),
        number_at(node_bytes(node), 2) == parent_number(node),
        number_at(node_bytes(node), 10) == entry_count(node),
{
    let page = node_bytes(node);
    lemma_be_bytes_len(parent_number(node), 8);
    lemma_be_bytes_len(entry_count(node), 8);
    assert(page.subrange(2, 10) =~= be_bytes(parent_number(node), 8));
    assert(page.subrange(10, 18) =~= be_bytes(entry_count(node), 8));
    lemma_number_field(page, 2, parent_number(node));
    lemma_number_field(page, 10, entry_count(node));
}

/// Every node that round-trips has a page, and the page holds that node.
pub proof fn lemma_round_trip(node: NodeView)
    requires
        round_trips(node),
    ensures
        encode_node(node) == Ok::<Seq<u8>, Error>(node_bytes(node)),
        decode_page(node_bytes(node)) == Ok::<NodeView, Error>(node),
{
    let page = node_bytes(node);
    lemma_header_round_trip(node);
    match node.node_type {
        NodeTypeView::Internal(children, keys) => {
            let count = children.len();
            assert forall|i: int| 0 <= i < count implies #[trigger] number_at(page, 18 + 8 * i)
                == children[i] by {
                lemma_be_bytes_len(children[i] as nat, 8);
                assert(page.subrange(18 + 8 * i, 18 + 8 * i + 8) =~= be_bytes(
                    children[i] as nat,
                    8,
                )) by {
                    assert forall|r: int| 0 <= r < 8 implies page[18 + 8 * i + r] == be_bytes(
                        children[i] as nat,
                        8,
                    )[r] by {
                        assert((8 * i + r) / 8 == i);
                        assert((8 * i + r) % 8 == r);
                    }
                }
                lemma_number_field(page, 18 + 8 * i, children[i] as nat);
            }
            assert forall|j: int| 0 <= j < keys.len() implies valid_utf8(
                #[trigger] text_bytes_at(page, 18 + 8 * count + 10 * j),
            ) && text_at(page, 18 + 8 * count + 10 * j) == keys[j] by {
                assert(storable(keys[j], 10));
                assert(page.subrange(18 + 8 * count + 10 * j, 18 + 8 * count + 10 * j + 10)
                    =~= text_field(keys[j], 10)) by {
                    assert forall|r: int| 0 <= r < 10 implies page[18 + 8 * count + 10 * j + r]
                        == text_field(keys[j], 10)[r] by {
                        assert((10 * j + r) / 10 == j);
                        assert((10 * j + r) % 10 == r);
                    }
                }
                lemma_text_field(page, 18 + 8 * count + 10 * j, keys[j]);
            }
            assert(children_at(page, count) =~= children);
            assert(keys_at(page, count) =~= keys);
            assert(!keys_overflow(keys)) by {
                if keys_overflow(keys) {
                    let j = choose|j: int|
                        0 <= j < keys.len() && encode_utf8(#[trigger] keys[j]).len() > 10;
                    assert(storable(keys[j], 10));
                }
            }
        },
        NodeTypeView::Leaf(pairs) => {
            let count = pairs.len();
            lemma_pairs_do_not_overflow(pairs);
            assert forall|j: int| 0 <= j < 2 * count implies valid_utf8(
                #[trigger] text_bytes_at(page, 18 + 10 * j),
            ) && text_at(page, 18 + 10 * j) == (if j % 2 == 0 {
                pairs[j / 2].0
            } else {
                pairs[j / 2].1
            }) by {
                let pair = pairs[j / 2];
                assert(storable(pair.0, 10) && storable(pair.1, 10));
                let text = if j % 2 == 0 {
                    pair.0
                } else {
                    pair.1
                };
                assert(page.subrange(18 + 10 * j, 18 + 10 * j + 10) =~= text_field(text, 10)) by {
                    assert forall|r: int| 0 <= r < 10 implies page[18 + 10 * j + r] == text_field(
                        text,
                        10,
                    )[r] by {
                        assert((10 * j + r) / 20 == j / 2);
                        if j % 2 == 0 {
                            assert((10 * j + r) % 20 == r);
                        } else {
                            assert((10 * j + r) % 20 == 10 + r);
                        }
                    }
                }
                lemma_text_field(page, 18 + 10 * j, text);
            }
            assert forall|j: int| 0 <= j < count implies #[trigger] pairs_at(page, count)[j]
                == pairs[j] by {
                assert(text_at(page, 18 + 10 * (2 * j)) == pairs[j].0);
                assert(text_at(page, 18 + 10 * (2 * j + 1)) == pairs[j].1);
            }
            assert(pairs_at(page, count) =~= pairs);
        },
        NodeTypeView::Unexpected => {},
    }
    assert(decode_error(page) is None);
    assert(decoded_node(page) == node);
}

} // verus!
