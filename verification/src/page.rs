//! Pages: buffers of `PAGE_SIZE` bytes, and how a node is written to one.

use crate::bytes::{
    be_bytes, be_value, lemma_be_bytes_len, lemma_be_bytes_of_zero, pad, read_be, splice,
    write_be,
};
use crate::encoding::{
    encode_node, entry_count, keys_overflow, node_bytes, pairs_overflow, parent_number,
};
use crate::error::{too_long, too_wide, Error, TOO_LONG, TOO_WIDE};
use crate::node::Node;
use crate::node_type::NodeType;
use crate::page_layout::{
    INTERNAL_NODE_HEADER_SIZE, INTERNAL_NODE_NUM_CHILDREN_OFFSET, IS_ROOT_OFFSET, KEY_SIZE,
    LEAF_NODE_HEADER_SIZE, LEAF_NODE_NUM_PAIRS_OFFSET, NODE_TYPE_OFFSET, PAGE_SIZE, PAIR_SIZE,
    PARENT_POINTER_OFFSET, PTR_SIZE, VALUE_SIZE,
};
use crate::page_layout::ToByte;
use vstd::prelude::*;
use vstd::slice::slice_subrange;
use vstd::utf8::*;

verus! {

/// An integer field read from a page.
pub struct Value(pub usize);

impl Value {
    /// Reads at most eight bytes as the leading bytes of a big-endian
    /// number; the bytes that are missing count as zero.
    pub fn try_from(arr: &[u8]) -> (res: Result<Value, Error>)
        ensures
            res is Ok <==> arr@.len() <= PTR_SIZE && be_value(pad(arr@, 8)) <= usize::MAX,
            res is Ok ==> res->Ok_0.0 == be_value(pad(arr@, 8)),
            res is Err ==> res->Err_0 == (if arr@.len() > PTR_SIZE {
                too_long()
            } else {
                too_wide()
            }),
    {
        if arr.len() > PTR_SIZE {
            return Err(Error::TryFromSliceError(TOO_LONG));
        }
        let mut truncated_arr: [u8; 8] = [0u8;8];
        let mut i: usize = 0;
        while i < arr.len()
            invariant
                i <= arr@.len() <= 8,
                forall|k: int| 0 <= k < i ==> truncated_arr@[k] == arr@[k],
                forall|k: int| i <= k < 8 ==> truncated_arr@[k] == 0u8,
            decreases arr@.len() - i,
        {
            truncated_arr[i] = arr[i];
            i += 1;
        }
        assert(truncated_arr@ =~= pad(arr@, 8));
        assert(truncated_arr@.subrange(0, 8) =~= truncated_arr@);
        let v: u64 = read_be(truncated_arr.as_slice(), 0);
        if v > usize::MAX as u64 {
            return Err(Error::TryFromSliceError(TOO_WIDE));
        }
        Ok(Value(v as usize))
    }
}

/// One page of the index image: a buffer of exactly `PAGE_SIZE` bytes.
pub struct Page {
    data: [u8; PAGE_SIZE],
}

impl View for Page {
    type V = Seq<u8>;

    closed spec fn view(&self) -> Seq<u8> {
        self.data@
    }
}

/// What `insert_bytes_at_offset` leaves in a page that held `s`: the bytes
/// from `offset` up to and including `end_offset` move right by the length of
/// `bytes`, and `bytes` takes their place.
pub open spec fn shifted_insert(s: Seq<u8>, bytes: Seq<u8>, offset: int, end_offset: int) -> Seq<
    u8,
> {
    let stop = if end_offset + 1 > offset {
        end_offset + 1
    } else {
        offset
    };
    s.subrange(0, offset) + bytes + s.subrange(offset, stop) + s.subrange(
        stop + bytes.len(),
        s.len() as int,
    )
}

/// Copies `bytes` over `data` from `at` on.
fn copy_into(data: &mut [u8; PAGE_SIZE], at: usize, bytes: &[u8])
    requires
        at + bytes@.len() <= PAGE_SIZE,
    ensures
        final(data)@ == splice(old(data)@, at as int, bytes@),
{
    let ghost before = data@;
    let mut i: usize = 0;
    while i < bytes.len()
        invariant
            i <= bytes@.len(),
            at + bytes@.len() <= PAGE_SIZE,
            before.len() == PAGE_SIZE,
            data@.len() == PAGE_SIZE,
            forall|k: int| 0 <= k < at || at + i <= k < PAGE_SIZE ==> data@[k] == before[k],
            forall|k: int| at <= k < at + i ==> data@[k] == bytes@[k - at],
        decreases bytes@.len() - i,
    {
        data[at + i] = bytes[i];
        i += 1;
    }
    assert(data@ =~= splice(before, at as int, bytes@));
}

impl Page {
    pub fn new(data: [u8; PAGE_SIZE]) -> (res: Page)
        ensures
            res@ == data@,
    {
        Page { data }
    }

    /// Every page holds exactly `PAGE_SIZE` bytes.
    pub broadcast proof fn lemma_page_len(&self)
        ensures
            #[trigger] self@.len() == PAGE_SIZE,
    {
    }

    /// Writes `value` as eight big-endian bytes at `offset`, over what was
    /// there. Fails, and leaves the page as it is, where the field would end
    /// behind the page.
    pub fn write_value_at_offset(&mut self, offset: usize, value: usize) -> (res: Result<
        (),
        Error,
    >)
        ensures
            res is Ok <==> offset + PTR_SIZE <= PAGE_SIZE,
            res is Ok ==> final(self)@ == splice(
                old(self)@,
                offset as int,
                be_bytes(value as nat, 8),
            ),
            res is Err ==> res->Err_0 is UnexpectedError && final(self)@ == old(self)@,
    {
        if offset > PAGE_SIZE - PTR_SIZE {
            return Err(Error::UnexpectedError);
        }
        let bytes: [u8; 8] = write_be(value as u64);
        proof {
            lemma_be_bytes_len(value as nat, 8);
        }
        copy_into(&mut self.data, offset, bytes.as_slice());
        Ok(())
    }

    /// Reads the eight bytes at `offset` as a big-endian number. Fails where
    /// the field would end behind the page, or where the number does not fit
    /// a machine word.
    pub fn get_value_from_offset(&self, offset: usize) -> (res: Result<usize, Error>)
        ensures
            res is Ok <==> offset + PTR_SIZE <= PAGE_SIZE && be_value(
                self@.subrange(offset as int, offset + 8),
            ) <= usize::MAX,
            res is Ok ==> res->Ok_0 == be_value(self@.subrange(offset as int, offset + 8)),
            res is Err ==> res->Err_0 == (if offset + PTR_SIZE <= PAGE_SIZE {
                too_wide()
            } else {
                Error::UnexpectedError
            }),
    {
        if offset > PAGE_SIZE - PTR_SIZE {
            return Err(Error::UnexpectedError);
        }
        let v: u64 = read_be(self.data.as_slice(), offset);
        if v > usize::MAX as u64 {
            return Err(Error::TryFromSliceError(TOO_WIDE));
        }
        Ok(v as usize)
    }

    /// Moves the bytes from `offset` up to and including `end_offset` right
    /// by `size`, and writes the `size` bytes of `bytes` at `offset`. Fails,
    /// and leaves the page as it is, where `bytes` is not `size` long or a
    /// byte would land behind the page.
    pub fn insert_bytes_at_offset(
        &mut self,
        bytes: &[u8],
        offset: usize,
        end_offset: usize,
        size: usize,
    ) -> (res: Result<(), Error>)
        ensures
            res is Ok <==> bytes@.len() == size && offset + size <= PAGE_SIZE && end_offset + 1
                + size <= PAGE_SIZE,
            res is Ok ==> final(self)@ == shifted_insert(
                old(self)@,
                bytes@,
                offset as int,
                end_offset as int,
            ),
            res is Err ==> res->Err_0 is UnexpectedError && final(self)@ == old(self)@,
    {
        if bytes.len() != size || size > PAGE_SIZE || offset > PAGE_SIZE - size || end_offset
            >= PAGE_SIZE - size {
            return Err(Error::UnexpectedError);
        }
        let ghost before = self.data@;
        if offset <= end_offset {
            let mut idx: usize = end_offset + 1;
            while idx > offset
                invariant
                    offset <= idx <= end_offset + 1,
                    end_offset + 1 + size <= PAGE_SIZE,
                    before.len() == PAGE_SIZE,
                    self.data@.len() == PAGE_SIZE,
                    forall|k: int| 0 <= k < idx + size ==> self.data@[k] == before[k],
                    forall|k: int|
                        idx + size <= k < end_offset + 1 + size ==> self.data@[k] == before[k
                            - size],
                    forall|k: int|
                        end_offset + 1 + size <= k < PAGE_SIZE ==> self.data@[k] == before[k],
                decreases idx,
            {
                idx -= 1;
                let byte: u8 = self.data[idx];
                self.data[idx + size] = byte;
            }
        }
        let ghost moved = self.data@;
        copy_into(&mut self.data, offset, bytes);
        assert(self.data@ =~= shifted_insert(before, bytes@, offset as int, end_offset as int));
        Ok(())
    }

    /// Writes the `size` bytes of `bytes` at `offset`, over what was there.
    /// Fails, and leaves the page as it is, where `bytes` is not `size` long
    /// or would end behind the page.
    pub fn write_bytes_at_offset(&mut self, bytes: &[u8], offset: usize, size: usize) -> (res:
        Result<(), Error>)
        ensures
            res is Ok <==> bytes@.len() == size && offset + size <= PAGE_SIZE,
            res is Ok ==> final(self)@ == splice(old(self)@, offset as int, bytes@),
            res is Err ==> res->Err_0 is UnexpectedError && final(self)@ == old(self)@,
    {
        if bytes.len() != size || size > PAGE_SIZE || offset > PAGE_SIZE - size {
            return Err(Error::UnexpectedError);
        }
        copy_into(&mut self.data, offset, bytes);
        Ok(())
    }

    /// The `size` bytes at `offset`.
    pub fn get_ptr_from_offset(&self, offset: usize, size: usize) -> (res: &[u8])
        requires
            offset + size <= PAGE_SIZE,
        ensures
            res@ == self@.subrange(offset as int, offset + size),
    {
        slice_subrange(self.data.as_slice(), offset, offset + size)
    }

    /// A copy of the whole buffer.
    pub fn get_data(&self) -> (res: [u8; PAGE_SIZE])
        ensures
            res@ == self@,
    {
        self.data
    }

    /// Writes `node` to a page: the header, then the children's offsets and
    /// the keys of an internal node, or the pairs of a leaf, and zeros behind
    /// them. Fails where `node` has no page.
    pub fn try_from(node: &Node) -> (res: Result<Page, Error>)
        ensures
            match res {
                Ok(page) => encode_node(node@) == Ok::<Seq<u8>, Error>(page@),
                Err(error) => encode_node(node@) == Err::<Seq<u8>, Error>(error),
            },
    {
        let ghost target = node_bytes(node@);
        let mut data: [u8; PAGE_SIZE] = [0u8;PAGE_SIZE];
        data[IS_ROOT_OFFSET] = node.is_root.to_byte();
        data[NODE_TYPE_OFFSET] = node.node_type.tag();
        proof {
            lemma_be_bytes_of_zero(8);
            lemma_be_bytes_len(parent_number(node@), 8);
            lemma_be_bytes_len(entry_count(node@), 8);
        }
        if !node.is_root {
            match &node.parent_offset {
                Some(parent) => {
                    let bytes: [u8; 8] = write_be(parent.0 as u64);
                    copy_into(&mut data, PARENT_POINTER_OFFSET, bytes.as_slice());
                },
                None => {
                    return Err(Error::UnexpectedError);
                },
            }
        }
        assert(forall|k: int| 0 <= k < 10 ==> data@[k] == target[k]);
        assert(forall|k: int| 10 <= k < PAGE_SIZE ==> data@[k] == 0u8);
        match &node.node_type {
            NodeType::Internal(children, keys) => {
                let count: usize = children.len();
                if count > PAGE_SIZE || keys.len() > PAGE_SIZE || INTERNAL_NODE_HEADER_SIZE
                    + PTR_SIZE * count + KEY_SIZE * keys.len() > PAGE_SIZE {
                    return Err(Error::UnexpectedError);
                }
                let count_bytes: [u8; 8] = write_be(count as u64);
                copy_into(&mut data, INTERNAL_NODE_NUM_CHILDREN_OFFSET, count_bytes.as_slice());
                let mut i: usize = 0;
                while i < count
                    invariant
                        i <= count == children@.len(),
                        18 + 8 * count + 10 * keys@.len() <= PAGE_SIZE,
                        target == node_bytes(node@),
                        node.node_type == NodeType::Internal(*children, *keys),
                        forall|k: int| 0 <= k < 18 + 8 * i ==> data@[k] == target[k],
                        forall|k: int| 18 + 8 * i <= k < PAGE_SIZE ==> data@[k] == 0u8,
                    decreases count - i,
                {
                    let bytes: [u8; 8] = write_be(children[i].0 as u64);
                    let ghost before = data@;
                    proof {
                        lemma_be_bytes_len(children[i as int].0 as nat, 8);
                    }
                    copy_into(&mut data, INTERNAL_NODE_HEADER_SIZE + PTR_SIZE * i, bytes.as_slice());
                    assert forall|k: int| 0 <= k < 18 + 8 * (i + 1) implies data@[k]
                        == target[k] by {
                        if k >= 18 + 8 * i {
                            assert((k - 18) / 8 == i as int);
                            assert((k - 18) % 8 == k - 18 - 8 * i);
                        } else {
                            assert(data@[k] == before[k]);
                        }
                    }
                    i += 1;
                }
                let start: usize = INTERNAL_NODE_HEADER_SIZE + PTR_SIZE * count;
                let mut j: usize = 0;
                while j < keys.len()
                    invariant
                        j <= keys@.len(),
                        count == children@.len(),
                        start == 18 + 8 * count,
                        start + 10 * keys@.len() <= PAGE_SIZE,
                        target == node_bytes(node@),
                        node.node_type == NodeType::Internal(*children, *keys),
                        node.is_root || node.parent_offset is Some,
                        forall|m: int| 0 <= m < j ==> encode_utf8(keys@[m]@).len() <= 10,
                        forall|k: int| 0 <= k < start + 10 * j ==> data@[k] == target[k],
                        forall|k: int| start + 10 * j <= k < PAGE_SIZE ==> data@[k] == 0u8,
                    decreases keys@.len() - j,
                {
                    let key_bytes = keys[j].0.as_str().as_bytes();
                    if key_bytes.len() > KEY_SIZE {
                        proof {
                            let shown = crate::node_type::keys_view(keys@);
                            assert(encode_utf8(shown[j as int]).len() > 10);
                        }
                        return Err(Error::KeyOverflowError);
                    }
                    let ghost before = data@;
                    copy_into(&mut data, start + KEY_SIZE * j, key_bytes);
                    assert forall|k: int| 0 <= k < start + 10 * (j + 1) implies data@[k]
                        == target[k] by {
                        if k >= start + 10 * j {
                            assert((k - start) / 10 == j as int);
                            assert((k - start) % 10 == k - start - 10 * j);
                        } else {
                            assert(data@[k] == before[k]);
                        }
                    }
                    j += 1;
                }
                proof {
                    let shown = crate::node_type::keys_view(keys@);
                    assert(!keys_overflow(shown)) by {
                        if keys_overflow(shown) {
                            let m = choose|m: int|
                                0 <= m < shown.len() && encode_utf8(#[trigger] shown[m]).len()
                                    > 10;
                            assert(encode_utf8(keys@[m]@).len() <= 10);
                        }
                    }
                    assert(data@ =~= target);
                }
                Ok(Page { data })
            },
            NodeType::Leaf(pairs) => {
                let count: usize = pairs.len();
                if count > PAGE_SIZE || LEAF_NODE_HEADER_SIZE + PAIR_SIZE * count > PAGE_SIZE {
                    return Err(Error::UnexpectedError);
                }
                let count_bytes: [u8; 8] = write_be(count as u64);
                copy_into(&mut data, LEAF_NODE_NUM_PAIRS_OFFSET, count_bytes.as_slice());
                let ghost shown = crate::node_type::pairs_view(pairs@);
                let mut j: usize = 0;
                assert(shown.skip(0) =~= shown);
                while j < count
                    invariant
                        j <= count == pairs@.len(),
                        18 + 20 * count <= PAGE_SIZE,
                        target == node_bytes(node@),
                        node.node_type == NodeType::Leaf(*pairs),
                        node.is_root || node.parent_offset is Some,
                        shown == crate::node_type::pairs_view(pairs@),
                        pairs_overflow(shown) == pairs_overflow(shown.skip(j as int)),
                        forall|k: int| 0 <= k < 18 + 20 * j ==> data@[k] == target[k],
                        forall|k: int| 18 + 20 * j <= k < PAGE_SIZE ==> data@[k] == 0u8,
                    decreases count - j,
                {
                    assert(shown.skip(j as int)[0] == shown[j as int]);
                    assert(shown.skip(j as int).drop_first() =~= shown.skip(j + 1));
                    let key_bytes = pairs[j].key.as_str().as_bytes();
                    if key_bytes.len() > KEY_SIZE {
                        return Err(Error::KeyOverflowError);
                    }
                    let value_bytes = pairs[j].value.as_str().as_bytes();
                    if value_bytes.len() > VALUE_SIZE {
                        return Err(Error::ValueOverflowError);
                    }
                    let ghost before = data@;
                    copy_into(&mut data, LEAF_NODE_HEADER_SIZE + PAIR_SIZE * j, key_bytes);
                    let ghost between = data@;
                    copy_into(
                        &mut data,
                        LEAF_NODE_HEADER_SIZE + PAIR_SIZE * j + KEY_SIZE,
                        value_bytes,
                    );
                    assert forall|k: int| 0 <= k < 18 + 20 * (j + 1) implies data@[k]
                        == target[k] by {
                        if k >= 18 + 20 * j {
                            assert((k - 18) / 20 == j as int);
                            assert((k - 18) % 20 == k - 18 - 20 * j);
                            if k < 18 + 20 * j + 10 {
                                assert(data@[k] == between[k]);
                            }
                        } else {
                            assert(data@[k] == before[k]);
                        }
                    }
                    j += 1;
                }
                assert(data@ =~= target);
                Ok(Page { data })
            },
            NodeType::Unexpected => Err(Error::UnexpectedError),
        }
    }
}

} // verus!
