//! Offsets, keys, pairs and the two kinds of node.

use crate::bytes::{be_value, read_be};
use crate::error::{too_wide, Error, TOO_WIDE};
use crate::page_layout::PTR_SIZE;
use vstd::prelude::*;

verus! {

/// A byte position in the index image.
#[derive(Eq, PartialEq, Debug)]
pub struct Offset(pub usize);

impl Clone for Offset {
    fn clone(&self) -> (res: Self)
        ensures
            res == *self,
    {
        Offset(self.0)
    }
}

impl Offset {
    /// Reads an offset from its eight big-endian bytes. Fails only where the
    /// number does not fit a machine word.
    pub fn try_from(arr: [u8; PTR_SIZE]) -> (res: Result<Offset, Error>)
        ensures
            res is Ok <==> be_value(arr@) <= usize::MAX,
            res is Ok ==> res->Ok_0.0 == be_value(arr@),
            res is Err ==> res->Err_0 == too_wide(),
    {
        assert(arr@.subrange(0, 8) =~= arr@);
        let v: u64 = read_be(arr.as_slice(), 0);
        if v > usize::MAX as u64 {
            return Err(Error::TryFromSliceError(TOO_WIDE));
        }
        Ok(Offset(v as usize))
    }
}

/// A key as it stands between the children of an internal node.
#[derive(Eq, PartialEq, PartialOrd, Ord, Debug)]
pub struct Key(pub String);

impl View for Key {
    type V = Seq<char>;

    open spec fn view(&self) -> Seq<char> {
        self.0@
    }
}

impl Clone for Key {
    fn clone(&self) -> (res: Self)
        ensures
            res == *self,
    {
        Key(self.0.clone())
    }
}

/// A key with the value stored under it.
#[derive(Eq, PartialEq, Debug)]
pub struct KeyValuePair {
    pub key: String,
    pub value: String,
}

impl View for KeyValuePair {
    type V = (Seq<char>, Seq<char>);

    open spec fn view(&self) -> (Seq<char>, Seq<char>) {
        (self.key@, self.value@)
    }
}

impl Clone for KeyValuePair {
    fn clone(&self) -> (res: Self)
        ensures
            res == *self,
    {
        KeyValuePair { key: self.key.clone(), value: self.value.clone() }
    }
}

impl KeyValuePair {
    pub fn new(key: String, value: String) -> (res: KeyValuePair)
        ensures
            res.key == key,
            res.value == value,
    {
        KeyValuePair { key, value }
    }
}

/// The two kinds of node, with what each holds.
#[derive(PartialEq, Eq, Debug)]
pub enum NodeType {
    /// Offsets of the children, and the keys that stand between them.
    Internal(Vec<Offset>, Vec<Key>),
    /// Key/value pairs.
    Leaf(Vec<KeyValuePair>),
    /// What an unknown type byte decodes to.
    Unexpected,
}

/// A node's kind and contents as mathematical values.
pub enum NodeTypeView {
    Internal(Seq<usize>, Seq<Seq<char>>),
    Leaf(Seq<(Seq<char>, Seq<char>)>),
    Unexpected,
}

/// The offsets of `children` as plain numbers.
pub open spec fn offsets_view(children: Seq<Offset>) -> Seq<usize> {
    Seq::new(children.len(), |i: int| children[i].0)
}

/// The keys of `keys` as character sequences.
pub open spec fn keys_view(keys: Seq<Key>) -> Seq<Seq<char>> {
    Seq::new(keys.len(), |i: int| keys[i]@)
}

/// The pairs of `pairs` as pairs of character sequences.
pub open spec fn pairs_view(pairs: Seq<KeyValuePair>) -> Seq<(Seq<char>, Seq<char>)> {
    Seq::new(pairs.len(), |i: int| pairs[i]@)
}

impl View for NodeType {
    type V = NodeTypeView;

    open spec fn view(&self) -> NodeTypeView {
        match *self {
            NodeType::Internal(children, keys) => NodeTypeView::Internal(
                offsets_view(children@),
                keys_view(keys@),
            ),
            NodeType::Leaf(pairs) => NodeTypeView::Leaf(pairs_view(pairs@)),
            NodeType::Unexpected => NodeTypeView::Unexpected,
        }
    }
}

/// The type byte of an internal node.
pub const INTERNAL_TAG: u8 = 1;

/// The type byte of a leaf.
pub const LEAF_TAG: u8 = 2;

/// The type byte that no stored node has.
pub const UNEXPECTED_TAG: u8 = 3;

/// The type byte that stands for a node kind.
pub open spec fn tag_of(node_type: NodeTypeView) -> u8 {
    match node_type {
        NodeTypeView::Internal(_, _) => INTERNAL_TAG,
        NodeTypeView::Leaf(_) => LEAF_TAG,
        NodeTypeView::Unexpected => UNEXPECTED_TAG,
    }
}

impl NodeType {
    /// The empty node of the kind that the type byte `orig` stands for.
    pub fn from(orig: u8) -> (res: NodeType)
        ensures
            orig == INTERNAL_TAG ==> res@ == NodeTypeView::Internal(Seq::empty(), Seq::empty()),
            orig == LEAF_TAG ==> res@ == NodeTypeView::Leaf(Seq::empty()),
            orig != INTERNAL_TAG && orig != LEAF_TAG ==> res@ == NodeTypeView::Unexpected,
    {
        if orig == INTERNAL_TAG {
            let children: Vec<Offset> = Vec::new();
            let keys: Vec<Key> = Vec::new();
            assert(offsets_view(children@) =~= Seq::empty());
            assert(keys_view(keys@) =~= Seq::empty());
            NodeType::Internal(children, keys)
        } else if orig == LEAF_TAG {
            let pairs: Vec<KeyValuePair> = Vec::new();
            assert(pairs_view(pairs@) =~= Seq::empty());
            NodeType::Leaf(pairs)
        } else {
            NodeType::Unexpected
        }
    }

    /// The type byte that stands for this kind of node.
    pub fn tag(&self) -> (res: u8)
        ensures
            res == tag_of(self@),
    {
        match self {
            NodeType::Internal(_, _) => INTERNAL_TAG,
            NodeType::Leaf(_) => LEAF_TAG,
            NodeType::Unexpected => UNEXPECTED_TAG,
        }
    }
}

/// Copies a list of offsets.
pub fn clone_offsets(children: &Vec<Offset>) -> (res: Vec<Offset>)
    ensures
        res@ == children@,
{
    let mut out: Vec<Offset> = Vec::new();
    let mut i: usize = 0;
    while i < children.len()
        invariant
            i <= children@.len(),
            out@ == children@.subrange(0, i as int),
        decreases children@.len() - i,
    {
        out.push(Offset(children[i].0));
        assert(out@ =~= children@.subrange(0, i + 1));
        i += 1;
    }
    assert(out@ =~= children@);
    out
}

/// Copies a list of keys.
pub fn clone_keys(keys: &Vec<Key>) -> (res: Vec<Key>)
    ensures
        res@ == keys@,
{
    let mut out: Vec<Key> = Vec::new();
    let mut i: usize = 0;
    while i < keys.len()
        invariant
            i <= keys@.len(),
            out@ == keys@.subrange(0, i as int),
        decreases keys@.len() - i,
    {
        out.push(keys[i].clone());
        assert(out@ =~= keys@.subrange(0, i + 1));
        i += 1;
    }
    assert(out@ =~= keys@);
    out
}

/// Copies a list of pairs.
pub fn clone_pairs(pairs: &Vec<KeyValuePair>) -> (res: Vec<KeyValuePair>)
    ensures
        res@ == pairs@,
{
    let mut out: Vec<KeyValuePair> = Vec::new();
    let mut i: usize = 0;
    while i < pairs.len()
        invariant
            i <= pairs@.len(),
            out@ == pairs@.subrange(0, i as int),
        decreases pairs@.len() - i,
    {
        out.push(pairs[i].clone());
        assert(out@ =~= pairs@.subrange(0, i + 1));
        i += 1;
    }
    assert(out@ =~= pairs@);
    out
}

impl Clone for NodeType {
    fn clone(&self) -> (res: Self)
        ensures
            res@ == self@,
    {
        match self {
            NodeType::Internal(children, keys) => NodeType::Internal(
                clone_offsets(children),
                clone_keys(keys),
            ),
            NodeType::Leaf(pairs) => NodeType::Leaf(clone_pairs(pairs)),
            NodeType::Unexpected => NodeType::Unexpected,
        }
    }
}

} // verus!
