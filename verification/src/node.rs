//! Nodes in memory, how a node is divided, and how a page is read as a
//! node.

use crate::encoding::{
    child_too_wide, children_at, decode_page, keys_at, number_at, pairs_at, text_at,
    text_bytes_at,
};
use crate::error::{Error, COUNT_TOO_LARGE, UNKNOWN_TYPE};
use crate::node_type::{
    keys_view, offsets_view, pairs_view, Key, KeyValuePair, NodeType, NodeTypeView, Offset,
    INTERNAL_TAG, LEAF_TAG,
};
use crate::page::Page;
use crate::page_layout::{
    INTERNAL_NODE_HEADER_SIZE, INTERNAL_NODE_NUM_CHILDREN_OFFSET, IS_ROOT_OFFSET, KEY_SIZE,
    LEAF_NODE_HEADER_SIZE, NODE_TYPE_OFFSET, PAGE_SIZE, PAIR_SIZE, PARENT_POINTER_OFFSET, PTR_SIZE,
};
use crate::page_layout::FromByte;
use crate::text::read_text;
use vstd::prelude::*;
use vstd::utf8::*;

verus! {

/// A node of the tree as it lives in memory; on disk it occupies one page.
#[derive(Debug)]
pub struct Node {
    pub node_type: NodeType,
    pub is_root: bool,
    pub parent_offset: Option<Offset>,
}

/// A node as a mathematical value.
pub struct NodeView {
    pub node_type: NodeTypeView,
    pub is_root: bool,
    pub parent_offset: Option<usize>,
}

/// An optional offset as an optional number.
pub open spec fn parent_view(parent_offset: Option<Offset>) -> Option<usize> {
    match parent_offset {
        Some(offset) => Some(offset.0),
        None => None,
    }
}

impl View for Node {
    type V = NodeView;

    open spec fn view(&self) -> NodeView {
        NodeView {
            node_type: self.node_type@,
            is_root: self.is_root,
            parent_offset: parent_view(self.parent_offset),
        }
    }
}

impl Clone for Node {
    fn clone(&self) -> (res: Self)
        ensures
            res@ == self@,
    {
        let parent_offset = match &self.parent_offset {
            Some(offset) => Some(Offset(offset.0)),
            None => None,
        };
        Node { node_type: self.node_type.clone(), is_root: self.is_root, parent_offset }
    }
}

impl NodeView {
    /// Whether `split` can divide this node behind its first `b` entries: a
    /// leaf needs `b` pairs, an internal node `b` children and `b` keys.
    pub open spec fn can_split(self, b: int) -> bool {
        match self.node_type {
            NodeTypeView::Leaf(pairs) => 1 <= b <= pairs.len(),
            NodeTypeView::Internal(children, keys) => 1 <= b <= keys.len() && b <= children.len(),
            NodeTypeView::Unexpected => false,
        }
    }

    /// The half that stays in place: the first `b` pairs of a leaf; the
    /// first `b` children of an internal node with the `b - 1` keys between
    /// them.
    pub open spec fn split_left(self, b: int) -> NodeView {
        NodeView {
            node_type: match self.node_type {
                NodeTypeView::Leaf(pairs) => NodeTypeView::Leaf(pairs.subrange(0, b)),
                NodeTypeView::Internal(children, keys) => NodeTypeView::Internal(
                    children.subrange(0, b),
                    keys.subrange(0, b - 1),
                ),
                NodeTypeView::Unexpected => NodeTypeView::Unexpected,
            },
            is_root: false,
            parent_offset: self.parent_offset,
        }
    }

    /// The half that moves to a new sibling: the pairs of a leaf from `b`
    /// on; the children of an internal node from `b` on with the keys
    /// between them.
    pub open spec fn split_right(self, b: int) -> NodeView {
        NodeView {
            node_type: match self.node_type {
                NodeTypeView::Leaf(pairs) => NodeTypeView::Leaf(
                    pairs.subrange(b, pairs.len() as int),
                ),
                NodeTypeView::Internal(children, keys) => NodeTypeView::Internal(
                    children.subrange(b, children.len() as int),
                    keys.subrange(b, keys.len() as int),
                ),
                NodeTypeView::Unexpected => NodeTypeView::Unexpected,
            },
            is_root: false,
            parent_offset: self.parent_offset,
        }
    }

    /// The key that goes up to the parent: a copy of the last key that stays
    /// in a leaf; the key of an internal node that stood between the two
    /// halves, which neither keeps.
    pub open spec fn split_median(self, b: int) -> Seq<char> {
        match self.node_type {
            NodeTypeView::Leaf(pairs) => pairs[b - 1].0,
            NodeTypeView::Internal(_, keys) => keys[b - 1],
            NodeTypeView::Unexpected => Seq::empty(),
        }
    }
}

impl Node {
    pub fn new(node_type: NodeType, is_root: bool, parent_offset: Option<Offset>) -> (res: Node)
        ensures
            res.node_type == node_type,
            res.is_root == is_root,
            res.parent_offset == parent_offset,
    {
        Node { node_type, is_root, parent_offset }
    }

    /// Divides the node behind its first `b` entries and hands out the key
    /// for the parent together with the new sibling. Neither half is a root,
    /// and both have the parent that the node had. Where the node cannot be
    /// divided there, it stays as it is.
    pub fn split(&mut self, b: usize) -> (res: Result<(Key, Node), Error>)
        ensures
            res is Ok <==> old(self)@.can_split(b as int),
            res is Ok ==> {
                &&& final(self)@ == old(self)@.split_left(b as int)
                &&& res->Ok_0.0@ == old(self)@.split_median(b as int)
                &&& res->Ok_0.1@ == old(self)@.split_right(b as int)
            },
            res is Err ==> res->Err_0 is UnexpectedError && final(self)@ == old(self)@,
    {
        let ghost before = self@;
        let parent_offset = match &self.parent_offset {
            Some(offset) => Some(Offset(offset.0)),
            None => None,
        };
        match &mut self.node_type {
            NodeType::Internal(children, keys) => {
                if b < 1 || b > keys.len() || b > children.len() {
                    return Err(Error::UnexpectedError);
                }
                let ghost old_children = children@;
                let ghost old_keys = keys@;
                let mut sibling_keys = keys.split_off(b - 1);
                let median_key = sibling_keys.remove(0);
                let sibling_children = children.split_off(b);
                proof {
                    assert(offsets_view(children@) =~= offsets_view(old_children).subrange(
                        0,
                        b as int,
                    ));
                    assert(keys_view(keys@) =~= keys_view(old_keys).subrange(0, b - 1));
                    assert(offsets_view(sibling_children@) =~= offsets_view(old_children).subrange(
                        b as int,
                        old_children.len() as int,
                    ));
                    assert(keys_view(sibling_keys@) =~= keys_view(old_keys).subrange(
                        b as int,
                        old_keys.len() as int,
                    ));
                }
                self.is_root = false;
                Ok(
                    (
                        median_key,
                        Node {
                            node_type: NodeType::Internal(sibling_children, sibling_keys),
                            is_root: false,
                            parent_offset,
                        },
                    ),
                )
            },
            NodeType::Leaf(pairs) => {
                if b < 1 || b > pairs.len() {
                    return Err(Error::UnexpectedError);
                }
                let ghost old_pairs = pairs@;
                let sibling_pairs = pairs.split_off(b);
                let median_key = Key(pairs[b - 1].key.clone());
                proof {
                    assert(pairs_view(pairs@) =~= pairs_view(old_pairs).subrange(0, b as int));
                    assert(pairs_view(sibling_pairs@) =~= pairs_view(old_pairs).subrange(
                        b as int,
                        old_pairs.len() as int,
                    ));
                }
                self.is_root = false;
                Ok(
                    (
                        median_key,
                        Node {
                            node_type: NodeType::Leaf(sibling_pairs),
                            is_root: false,
                            parent_offset,
                        },
                    ),
                )
            },
            NodeType::Unexpected => Err(Error::UnexpectedError),
        }
    }

    /// Reads the node that `page` holds: the header, then as many children
    /// and keys, or pairs, as the count field announces. Fails where `page`
    /// holds no node.
    pub fn try_from(page: Page) -> (res: Result<Node, Error>)
        ensures
            match res {
                Ok(node) => decode_page(page@) == Ok::<NodeView, Error>(node@),
                Err(error) => decode_page(page@) == Err::<NodeView, Error>(error),
            },
    {
        broadcast use Page::lemma_page_len;

        let raw: [u8; PAGE_SIZE] = page.get_data();
        let is_root: bool = raw[IS_ROOT_OFFSET].from_byte();
        let tag: u8 = raw[NODE_TYPE_OFFSET];
        let parent_offset: Option<Offset> = if is_root {
            None
        } else {
            match page.get_value_from_offset(PARENT_POINTER_OFFSET) {
                Ok(parent) => Some(Offset(parent)),
                Err(error) => {
                    return Err(error);
                },
            }
        };
        if tag != INTERNAL_TAG && tag != LEAF_TAG {
            return Err(Error::TryFromSliceError(UNKNOWN_TYPE));
        }
        let count: usize = match page.get_value_from_offset(INTERNAL_NODE_NUM_CHILDREN_OFFSET) {
            Ok(count) => count,
            Err(error) => {
                return Err(error);
            },
        };
        if tag == INTERNAL_TAG {
            if count > 0 && (count > PAGE_SIZE || INTERNAL_NODE_HEADER_SIZE + PTR_SIZE * count
                + KEY_SIZE * (count - 1) > PAGE_SIZE) {
                return Err(Error::TryFromSliceError(COUNT_TOO_LARGE));
            }
            let mut children: Vec<Offset> = Vec::new();
            let mut i: usize = 0;
            while i < count
                invariant
                    i <= count,
                    count == number_at(page@, 10),
                    page@[0].byte_as_bool() || number_at(page@, 2) <= usize::MAX,
                    page@[1] == INTERNAL_TAG,
                    count == 0 || 18 + 8 * count + 10 * (count - 1) <= PAGE_SIZE,
                    page@.len() == PAGE_SIZE,
                    children@.len() == i,
                    forall|m: int|
                        0 <= m < i ==> #[trigger] number_at(page@, 18 + 8 * m) <= usize::MAX,
                    forall|m: int| 0 <= m < i ==> children@[m].0 == number_at(page@, 18 + 8 * m),
                decreases count - i,
            {
                match page.get_value_from_offset(INTERNAL_NODE_HEADER_SIZE + PTR_SIZE * i) {
                    Ok(child) => {
                        children.push(Offset(child));
                    },
                    Err(error) => {
                        assert(number_at(page@, 18 + 8 * i) > usize::MAX);
                        return Err(error);
                    },
                }
                i += 1;
            }
            assert(!child_too_wide(page@));
            let start: usize = INTERNAL_NODE_HEADER_SIZE + PTR_SIZE * count;
            let mut keys: Vec<Key> = Vec::new();
            let key_count: usize = if count == 0 {
                0
            } else {
                count - 1
            };
            let mut j: usize = 0;
            while j < key_count
                invariant
                    j <= key_count,
                    key_count == (if count == 0 {
                        0
                    } else {
                        count - 1
                    }),
                    count == number_at(page@, 10),
                    page@[0].byte_as_bool() || number_at(page@, 2) <= usize::MAX,
                    page@[1] == INTERNAL_TAG,
                    !child_too_wide(page@),
                    start == 18 + 8 * count,
                    count == 0 || start + 10 * (count - 1) <= PAGE_SIZE,
                    page@.len() == PAGE_SIZE,
                    keys@.len() == j,
                    forall|m: int|
                        0 <= m < j ==> valid_utf8(#[trigger] text_bytes_at(page@, start + 10 * m)),
                    forall|m: int| 0 <= m < j ==> keys@[m]@ == text_at(page@, start + 10 * m),
                decreases key_count - j,
            {
                match read_text(&page, start + KEY_SIZE * j) {
                    Some(key) => {
                        keys.push(Key(key));
                    },
                    None => {
                        assert(!valid_utf8(text_bytes_at(page@, 18 + 8 * count + 10 * j)));
                        return Err(Error::UTF8Error);
                    },
                }
                j += 1;
            }
            proof {
                assert(offsets_view(children@) =~= children_at(page@, count as nat));
                assert(keys_view(keys@) =~= keys_at(page@, count as nat));
            }
            Ok(Node { node_type: NodeType::Internal(children, keys), is_root, parent_offset })
        } else {
            if count > PAGE_SIZE || LEAF_NODE_HEADER_SIZE + PAIR_SIZE * count > PAGE_SIZE {
                return Err(Error::TryFromSliceError(COUNT_TOO_LARGE));
            }
            let mut pairs: Vec<KeyValuePair> = Vec::new();
            let mut j: usize = 0;
            while j < count
                invariant
                    j <= count,
                    count == number_at(page@, 10),
                    page@[0].byte_as_bool() || number_at(page@, 2) <= usize::MAX,
                    page@[1] == LEAF_TAG,
                    18 + 20 * count <= PAGE_SIZE,
                    page@.len() == PAGE_SIZE,
                    pairs@.len() == j,
                    forall|m: int|
                        0 <= m < 2 * j ==> valid_utf8(#[trigger] text_bytes_at(page@, 18 + 10 * m)),
                    forall|m: int|
                        0 <= m < j ==> pairs@[m]@ == (
                            text_at(page@, 18 + 20 * m),
                            text_at(page@, 28 + 20 * m),
                        ),
                decreases count - j,
            {
                let key = match read_text(&page, LEAF_NODE_HEADER_SIZE + PAIR_SIZE * j) {
                    Some(key) => key,
                    None => {
                        assert(!valid_utf8(text_bytes_at(page@, 18 + 10 * (2 * j))));
                        return Err(Error::UTF8Error);
                    },
                };
                let value = match read_text(
                    &page,
                    LEAF_NODE_HEADER_SIZE + PAIR_SIZE * j + KEY_SIZE,
                ) {
                    Some(value) => value,
                    None => {
                        assert(!valid_utf8(text_bytes_at(page@, 18 + 10 * (2 * j + 1))));
                        return Err(Error::UTF8Error);
                    },
                };
                pairs.push(KeyValuePair { key, value });
                assert forall|m: int| 0 <= m < 2 * (j + 1) implies valid_utf8(
                    #[trigger] text_bytes_at(page@, 18 + 10 * m),
                ) by {
                    if m == 2 * j {
                        assert(18 + 10 * m == 18 + 20 * j);
                    } else if m == 2 * j + 1 {
                        assert(18 + 10 * m == 28 + 20 * j);
                    }
                }
                j += 1;
            }
            proof {
                assert(pairs_view(pairs@) =~= pairs_at(page@, count as nat));
            }
            Ok(Node { node_type: NodeType::Leaf(pairs), is_root, parent_offset })
        }
    }
}

} // verus!
