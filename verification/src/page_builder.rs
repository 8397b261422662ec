//! A builder that writes the parts of a node to a page.

use crate::encoding::{encode_node, node_bytes};
use crate::error::Error;
use crate::node::{Node, NodeView};
use crate::node_type::{NodeType, NodeTypeView, Offset};
use crate::page::Page;
use crate::page_layout::IS_ROOT_OFFSET;
use crate::page_layout::ToByte;
use vstd::prelude::*;

verus! {

/// Collects the parts of a node and writes them to a page.
pub struct PageBuilder {
    is_root: bool,
    node_type: NodeType,
    parent_offset: usize,
}

impl PageBuilder {
    /// A builder for a node of unknown kind that is no root and has the
    /// parent offset zero.
    pub fn new() -> (res: PageBuilder)
        ensures
            !res.get_is_root(),
            res.get_node_type() == NodeTypeView::Unexpected,
            res.get_parent_offset() == 0,
    {
        PageBuilder { is_root: false, node_type: NodeType::Unexpected, parent_offset: 0 }
    }

    /// Whether the node is the root.
    pub closed spec fn get_is_root(&self) -> bool {
        self.is_root
    }

    /// The kind of the node, with what it holds.
    pub closed spec fn get_node_type(&self) -> NodeTypeView {
        self.node_type@
    }

    /// The offset of the parent.
    pub closed spec fn get_parent_offset(&self) -> usize {
        self.parent_offset
    }

    pub fn is_root(&mut self, is_root: bool) -> (res: &mut Self)
        ensures
            res.get_is_root() == is_root,
            res.get_node_type() == old(self).get_node_type(),
            res.get_parent_offset() == old(self).get_parent_offset(),
            *final(self) == *final(res),
    {
        self.is_root = is_root;
        self
    }

    pub fn node_type(&mut self, node_type: NodeType) -> (res: &mut Self)
        ensures
            res.get_is_root() == old(self).get_is_root(),
            res.get_node_type() == node_type@,
            res.get_parent_offset() == old(self).get_parent_offset(),
            *final(self) == *final(res),
    {
        self.node_type = node_type;
        self
    }

    pub fn parent_offset(&mut self, parent_offset: usize) -> (res: &mut Self)
        ensures
            res.get_is_root() == old(self).get_is_root(),
            res.get_node_type() == old(self).get_node_type(),
            res.get_parent_offset() == parent_offset,
            *final(self) == *final(res),
    {
        self.parent_offset = parent_offset;
        self
    }

    /// The node that the builder describes, taken as a node that is no
    /// root: the parent offset of such a node goes to its page.
    pub open spec fn as_inner_node(&self) -> NodeView {
        NodeView {
            node_type: self.get_node_type(),
            is_root: false,
            parent_offset: Some(self.get_parent_offset()),
        }
    }

    /// Writes the node to a page. The page is that of the node taken as a
    /// node that is no root, which holds the parent offset, with the first
    /// byte saying whether the node is the root. Fails where such a node has
    /// no page.
    pub fn build(self) -> (res: Result<Page, Error>)
        ensures
            match res {
                Ok(page) => encode_node(self.as_inner_node()) is Ok && page@ == node_bytes(
                    self.as_inner_node(),
                ).update(0, self.get_is_root().bool_as_byte()),
                Err(error) => encode_node(self.as_inner_node()) == Err::<Seq<u8>, Error>(error),
            },
    {
        broadcast use Page::lemma_page_len;

        let is_root = self.is_root;
        let node = Node::new(self.node_type, false, Some(Offset(self.parent_offset)));
        let mut page = match Page::try_from(&node) {
            Ok(page) => page,
            Err(error) => {
                return Err(error);
            },
        };
        let ghost written = page@;
        let flag: [u8; 1] = [is_root.to_byte()];
        let _ = page.write_bytes_at_offset(flag.as_slice(), IS_ROOT_OFFSET, 1);
        assert(page@ =~= written.update(0, is_root.bool_as_byte()));
        Ok(page)
    }
}

} // verus!
