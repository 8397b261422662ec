//! Where the fields of a node lie within its page.

use vstd::prelude::*;

verus! {

/// Size of one page; every node of the tree occupies exactly one page.
pub const PAGE_SIZE: usize = 4096;

/// Width of every integer field of a page. The on-disk format fixes it at
/// eight bytes, whatever the width of a machine pointer.
pub const PTR_SIZE: usize = 8;

/// Common node header (ten bytes in total).
pub const IS_ROOT_SIZE: usize = 1;

pub const IS_ROOT_OFFSET: usize = 0;

pub const NODE_TYPE_SIZE: usize = 1;

pub const NODE_TYPE_OFFSET: usize = 1;

pub const PARENT_POINTER_OFFSET: usize = 2;

pub const PARENT_POINTER_SIZE: usize = 8;

pub const COMMON_NODE_HEADER_SIZE: usize = 10;

/// Leaf node header (eighteen bytes in total).
pub const LEAF_NODE_NUM_PAIRS_OFFSET: usize = 10;

pub const LEAF_NODE_NUM_PAIRS_SIZE: usize = 8;

pub const LEAF_NODE_HEADER_SIZE: usize = 18;

/// Internal node header (eighteen bytes in total).
pub const INTERNAL_NODE_NUM_CHILDREN_OFFSET: usize = 10;

pub const INTERNAL_NODE_NUM_CHILDREN_SIZE: usize = 8;

pub const INTERNAL_NODE_HEADER_SIZE: usize = 18;

/// Width of a stored key and of a stored value.
pub const KEY_SIZE: usize = 10;

pub const VALUE_SIZE: usize = 10;

/// Width of one stored key/value pair.
pub const PAIR_SIZE: usize = 20;

/// The byte that stands for a boolean: one is true, everything else false.
pub trait FromByte {
    spec fn byte_as_bool(&self) -> bool;

    fn from_byte(&self) -> (res: bool)
        ensures
            res == self.byte_as_bool(),
    ;
}

/// The boolean as the byte that stands for it.
pub trait ToByte {
    spec fn bool_as_byte(&self) -> u8;

    fn to_byte(&self) -> (res: u8)
        ensures
            res == self.bool_as_byte(),
    ;
}

impl FromByte for u8 {
    open spec fn byte_as_bool(&self) -> bool {
        *self == 1u8
    }

    fn from_byte(&self) -> (res: bool) {
        *self == 1u8
    }
}

impl ToByte for bool {
    open spec fn bool_as_byte(&self) -> u8 {
        if *self {
            1u8
        } else {
            0u8
        }
    }

    fn to_byte(&self) -> (res: u8) {
        if *self {
            1u8
        } else {
            0u8
        }
    }
}

} // verus!
