//! What each step of an insertion leaves behind: the conditions that the
//! tree code hands from one write to the next.

use crate::encoding::{round_trips, storable};
use crate::key_order::key_le;
use crate::node::NodeView;
use crate::node_type::NodeTypeView;
use crate::tree::{branches, lemma_tree_map_inserted, tree_map, tree_ok};
use crate::tree::{
    child_hi, child_lo, child_slot, in_subtree, lemma_in_subtree_valid, lemma_node_at_round_trips,
    node_at, pairs_ascend, subtree_has, subtree_ok, MAX_BRANCHING_FACTOR,
};
use crate::tree_insert::{
    child_split_done, insert_ready, inserted_below, is_full, kids_at, lemma_in_child_in_parent,
    lemma_insert_descend, lemma_insert_split_ascend, lemma_insert_split_descend,
    lemma_leaf_grown_round_trips, lemma_root_split, lemma_split_round_trips, seps_at, split_done,
    split_target, unchanged_but,
};
use crate::wal::last_record;
use vstd::prelude::*;

verus! {

/// What a leaf that is ready for a pair is like: its page lies within the
/// image; it round-trips and has room for a pair; its keys ascend and the key
/// of the pair is not among them.
pub proof fn lemma_ready_leaf(
    image: Seq<u8>,
    b: int,
    min: int,
    off: int,
    h: nat,
    lo: Option<Seq<char>>,
    hi: Option<Seq<char>>,
    root: bool,
    node: NodeView,
    k: Seq<char>,
    v: Seq<char>,
)
    requires
        insert_ready(image, b, min, off, h, lo, hi, root, node, k, v),
        node.node_type is Leaf,
    ensures
        h == 0,
        node_at(image, off) == Some(node),
        off % 4096 == 0,
        0 <= off,
        off + 4096 <= image.len(),
        round_trips(node),
        node.is_root == root,
        node.node_type->Leaf_0.len() < 203,
        pairs_ascend(node.node_type->Leaf_0),
        forall|j: int|
            0 <= j < node.node_type->Leaf_0.len() ==> (#[trigger] node.node_type->Leaf_0[j]).0 != k,
        storable(k, 10),
        storable(v, 10),
{
    reveal(insert_ready);
    reveal(subtree_ok);
    reveal(subtree_has);
    lemma_node_at_round_trips(image, off);
    crate::tree::lemma_node_at_within(image, off);
    let pairs = node.node_type->Leaf_0;
    assert forall|j: int| 0 <= j < pairs.len() implies (#[trigger] pairs[j]).0 != k by {
        if pairs[j].0 == k {
            assert(pairs[j] == (k, pairs[j].1));
            assert(subtree_has(image, off, h, k, pairs[j].1));
        }
    }
}

/// What an internal node that is ready for a pair is like, and the child
/// into which the pair goes: the page of the node and the page of the child
/// lie within the image; the node round-trips and has room for a child; the
/// child is a node of known kind, and ready for the pair unless it is full;
/// where it is full it can be divided, its halves round-trip and the key
/// that goes up is storable.
pub proof fn lemma_ready_internal(
    image: Seq<u8>,
    b: int,
    min: int,
    off: int,
    h: nat,
    lo: Option<Seq<char>>,
    hi: Option<Seq<char>>,
    root: bool,
    node: NodeView,
    k: Seq<char>,
    v: Seq<char>,
)
    requires
        insert_ready(image, b, min, off, h, lo, hi, root, node, k, v),
        node.node_type is Internal,
    ensures
        node_at(image, off) == Some(node),
        h > 0,
        2 <= b <= MAX_BRANCHING_FACTOR,
        image.len() % 4096 == 0,
        off % 4096 == 0,
        0 <= off,
        off + 4096 <= image.len(),
        round_trips(node),
        node.is_root == root,
        0 < node.node_type->Internal_0.len() < 204,
        kids_at(image, off) == node.node_type->Internal_0,
        seps_at(image, off) == node.node_type->Internal_1,
        0 <= child_slot(node.node_type->Internal_1, k) < node.node_type->Internal_0.len(),
        ({
            let idx = child_slot(node.node_type->Internal_1, k);
            let c = node.node_type->Internal_0[idx] as int;
            let clo = child_lo(node.node_type->Internal_1, lo, idx);
            let chi = child_hi(node.node_type->Internal_1, hi, idx);
            &&& c % 4096 == 0
            &&& c + 4096 <= image.len()
            &&& c != off
            &&& node_at(image, c) is Some
            &&& !(node_at(image, c)->Some_0.node_type is Unexpected)
            &&& !is_full(node_at(image, c)->Some_0, b) ==> insert_ready(
                image,
                b,
                min,
                c,
                (h - 1) as nat,
                clo,
                chi,
                false,
                node_at(image, c)->Some_0,
                k,
                v,
            )
            &&& is_full(node_at(image, c)->Some_0, b) ==> {
                &&& node_at(image, c)->Some_0.can_split(b)
                &&& round_trips(node_at(image, c)->Some_0.split_left(b))
                &&& round_trips(node_at(image, c)->Some_0.split_right(b))
                &&& storable(node_at(image, c)->Some_0.split_median(b), 10)
            }
        }),
{
    lemma_insert_descend(image, b, min, off, h, lo, hi, root, node, k, v);
    reveal(insert_ready);
    reveal(subtree_ok);
    lemma_node_at_round_trips(image, off);
    crate::tree::lemma_node_at_within(image, off);
    let idx = child_slot(node.node_type->Internal_1, k);
    let c = node.node_type->Internal_0[idx] as int;
    lemma_node_at_round_trips(image, c);
    let cn = node_at(image, c)->Some_0;
    if is_full(cn, b) {
        lemma_split_round_trips(cn, b);
    }
}

/// A leaf that is ready for a pair round-trips with the pair put in.
pub proof fn lemma_ready_leaf_grown(
    image: Seq<u8>,
    b: int,
    min: int,
    off: int,
    h: nat,
    lo: Option<Seq<char>>,
    hi: Option<Seq<char>>,
    root: bool,
    node: NodeView,
    k: Seq<char>,
    v: Seq<char>,
    at: int,
    grown: NodeView,
)
    requires
        insert_ready(image, b, min, off, h, lo, hi, root, node, k, v),
        node.node_type is Leaf,
        0 <= at <= node.node_type->Leaf_0.len(),
        grown.is_root == node.is_root,
        grown.parent_offset == node.parent_offset,
        grown.node_type == NodeTypeView::Leaf(node.node_type->Leaf_0.insert(at, (k, v))),
    ensures
        round_trips(grown),
{
    lemma_ready_leaf(image, b, min, off, h, lo, hi, root, node, k, v);
    lemma_leaf_grown_round_trips(node, grown, at, k, v);
}

/// The three writes that divide the full child into which a pair would go:
/// from `image0` to `image1` the half that stays has been written over the
/// child, from there to `image2` the sibling to a new page at the end, and
/// from there to `image3` the node over its own page, with the sibling behind
/// the child and the key that went up between them.
pub open spec fn split_written(
    image0: Seq<u8>,
    image1: Seq<u8>,
    image2: Seq<u8>,
    image3: Seq<u8>,
    b: int,
    off: int,
    node: NodeView,
    k: Seq<char>,
    sib: usize,
    left: NodeView,
    right: NodeView,
    grown: NodeView,
) -> bool {
    let kids = node.node_type->Internal_0;
    let seps = node.node_type->Internal_1;
    let idx = child_slot(seps, k);
    let c = kids[idx] as int;
    let whole = node_at(image0, c)->Some_0;
    &&& is_full(whole, b)
    &&& left == whole.split_left(b)
    &&& right == whole.split_right(b)
    &&& image1.len() == image0.len()
    &&& node_at(image1, c) == Some(left)
    &&& unchanged_but(image0, image1, c)
    &&& sib == image0.len()
    &&& image2.len() == image1.len() + 4096
    &&& node_at(image2, sib as int) == Some(right)
    &&& unchanged_but(image1, image2, sib as int)
    &&& image3.len() == image2.len()
    &&& node_at(image3, off) == Some(grown)
    &&& unchanged_but(image2, image3, off)
    &&& grown.is_root == node.is_root
    &&& grown.parent_offset == node.parent_offset
    &&& grown.node_type == NodeTypeView::Internal(
        kids.insert(idx + 1, sib),
        seps.insert(idx, whole.split_median(b)),
    )
}

/// The three writes of `split_written` divide the child as
/// `child_split_done` says.
pub proof fn lemma_split_written(
    image0: Seq<u8>,
    image1: Seq<u8>,
    image2: Seq<u8>,
    image3: Seq<u8>,
    b: int,
    min: int,
    off: int,
    h: nat,
    lo: Option<Seq<char>>,
    hi: Option<Seq<char>>,
    root: bool,
    node: NodeView,
    k: Seq<char>,
    v: Seq<char>,
    sib: usize,
    left: NodeView,
    right: NodeView,
    grown: NodeView,
)
    requires
        insert_ready(image0, b, min, off, h, lo, hi, root, node, k, v),
        node.node_type is Internal,
        split_written(image0, image1, image2, image3, b, off, node, k, sib, left, right, grown),
    ensures
        child_split_done(
            image0,
            image3,
            b,
            min,
            off,
            h,
            lo,
            hi,
            root,
            child_slot(seps_at(image0, off), k),
            sib,
        ),
{
    lemma_ready_internal(image0, b, min, off, h, lo, hi, root, node, k, v);
    lemma_insert_descend(image0, b, min, off, h, lo, hi, root, node, k, v);
    reveal(insert_ready);
    let kids = kids_at(image0, off);
    let seps = seps_at(image0, off);
    let idx = child_slot(seps, k);
    let c = kids[idx] as int;
    let g = (h - 1) as nat;
    let clo = child_lo(seps, lo, idx);
    let chi = child_hi(seps, hi, idx);
    assert forall|p: int| p % 4096 == 0 && p != off && p != c && p != sib implies #[trigger] node_at(
        image3,
        p,
    ) == node_at(image0, p) by {
        assert(node_at(image3, p) == node_at(image2, p));
        assert(node_at(image2, p) == node_at(image1, p));
        assert(node_at(image1, p) == node_at(image0, p));
    }
    assert forall|p: int| #[trigger] in_subtree(image0, c, g, p) && p != c implies node_at(
        image0,
        p,
    ) == node_at(image3, p) by {
        lemma_in_subtree_valid(image0, b, min, c, g, clo, chi, false, p);
        lemma_in_child_in_parent(image0, off, h, idx, p);
        reveal(subtree_ok);
        assert(!in_subtree(image0, kids[idx] as int, g, off));
        assert(node_at(image3, p) == node_at(image0, p));
    }
    assert(node_at(image3, c) == node_at(image2, c));
    assert(node_at(image2, c) == node_at(image1, c));
    assert(node_at(image3, sib as int) == node_at(image2, sib as int));
    assert(node_at(image0, off) == Some(node));
    assert(c != off);
    assert(c != sib);
    assert(off != sib);
    assert(node_at(image3, c) == Some(left));
    assert(node_at(image3, sib as int) == Some(right));
    assert(split_done(image0, image3, b, min, c, sib as int, g, clo, chi, false));
    assert(kids.len() < 2 * b) by {
        reveal(subtree_ok);
    }
}

/// After the three writes of `split_written` the half into which the pair
/// goes is ready for it.
pub proof fn lemma_split_target_ready(
    image0: Seq<u8>,
    image1: Seq<u8>,
    image2: Seq<u8>,
    image3: Seq<u8>,
    b: int,
    min: int,
    off: int,
    h: nat,
    lo: Option<Seq<char>>,
    hi: Option<Seq<char>>,
    root: bool,
    node: NodeView,
    k: Seq<char>,
    v: Seq<char>,
    sib: usize,
    left: NodeView,
    right: NodeView,
    grown: NodeView,
)
    requires
        insert_ready(image0, b, min, off, h, lo, hi, root, node, k, v),
        node.node_type is Internal,
        split_written(image0, image1, image2, image3, b, off, node, k, sib, left, right, grown),
    ensures
        ({
            let idx = child_slot(node.node_type->Internal_1, k);
            let c = node.node_type->Internal_0[idx];
            let median = node_at(image0, c as int)->Some_0.split_median(b);
            let seps3 = grown.node_type->Internal_1;
            if key_le(k, median) {
                insert_ready(
                    image3,
                    b,
                    min,
                    c as int,
                    (h - 1) as nat,
                    child_lo(seps3, lo, idx),
                    child_hi(seps3, hi, idx),
                    false,
                    left,
                    k,
                    v,
                )
            } else {
                insert_ready(
                    image3,
                    b,
                    min,
                    sib as int,
                    (h - 1) as nat,
                    child_lo(seps3, lo, idx + 1),
                    child_hi(seps3, hi, idx + 1),
                    false,
                    right,
                    k,
                    v,
                )
            }
        }),
{
    lemma_split_written(
        image0,
        image1,
        image2,
        image3,
        b,
        min,
        off,
        h,
        lo,
        hi,
        root,
        node,
        k,
        v,
        sib,
        left,
        right,
        grown,
    );
    lemma_ready_internal(image0, b, min, off, h, lo, hi, root, node, k, v);
    lemma_insert_split_descend(image0, image3, b, min, off, h, lo, hi, root, node, sib, k, v);
    reveal(insert_ready);
    let idx = child_slot(node.node_type->Internal_1, k);
    let c = node.node_type->Internal_0[idx];
    assert(node_at(image3, c as int) == node_at(image2, c as int));
    assert(node_at(image2, c as int) == node_at(image1, c as int));
    assert(node_at(image3, sib as int) == node_at(image2, sib as int));
}

/// Once the pair has gone into the half that was ready for it, it has gone
/// into the subtree of the node.
pub proof fn lemma_split_target_done(
    image0: Seq<u8>,
    image1: Seq<u8>,
    image2: Seq<u8>,
    image3: Seq<u8>,
    image4: Seq<u8>,
    b: int,
    min: int,
    off: int,
    h: nat,
    lo: Option<Seq<char>>,
    hi: Option<Seq<char>>,
    root: bool,
    node: NodeView,
    k: Seq<char>,
    v: Seq<char>,
    sib: usize,
    left: NodeView,
    right: NodeView,
    grown: NodeView,
)
    requires
        insert_ready(image0, b, min, off, h, lo, hi, root, node, k, v),
        node.node_type is Internal,
        split_written(image0, image1, image2, image3, b, off, node, k, sib, left, right, grown),
        ({
            let idx = child_slot(node.node_type->Internal_1, k);
            let c = node.node_type->Internal_0[idx];
            let median = node_at(image0, c as int)->Some_0.split_median(b);
            let seps3 = grown.node_type->Internal_1;
            if key_le(k, median) {
                inserted_below(
                    image3,
                    image4,
                    b,
                    min,
                    c as int,
                    (h - 1) as nat,
                    child_lo(seps3, lo, idx),
                    child_hi(seps3, hi, idx),
                    false,
                    k,
                    v,
                )
            } else {
                inserted_below(
                    image3,
                    image4,
                    b,
                    min,
                    sib as int,
                    (h - 1) as nat,
                    child_lo(seps3, lo, idx + 1),
                    child_hi(seps3, hi, idx + 1),
                    false,
                    k,
                    v,
                )
            }
        }),
    ensures
        inserted_below(image0, image4, b, min, off, h, lo, hi, root, k, v),
{
    lemma_split_written(
        image0,
        image1,
        image2,
        image3,
        b,
        min,
        off,
        h,
        lo,
        hi,
        root,
        node,
        k,
        v,
        sib,
        left,
        right,
        grown,
    );
    lemma_ready_internal(image0, b, min, off, h, lo, hi, root, node, k, v);
    lemma_insert_split_descend(image0, image3, b, min, off, h, lo, hi, root, node, sib, k, v);
    let idx = child_slot(node.node_type->Internal_1, k);
    let c = node.node_type->Internal_0[idx];
    let median = node_at(image0, c as int)->Some_0.split_median(b);
    let j = split_target(idx, k, median);
    lemma_insert_split_ascend(
        image0,
        image3,
        image4,
        b,
        min,
        off,
        h,
        lo,
        hi,
        root,
        node,
        sib,
        j,
        k,
        v,
    );
}

/// What the root of a sound tree is like before a pair goes in: its page
/// lies within the image and it round-trips; where it is full it can be
/// divided once it has a parent, its halves round-trip and the key that goes
/// up is storable; where it is not full it is ready for every storable pair
/// whose key the tree does not store.
pub proof fn lemma_ready_root(
    image: Seq<u8>,
    log: Seq<u8>,
    b: int,
    min: int,
    h: nat,
    k: Seq<char>,
    v: Seq<char>,
)
    requires
        tree_ok(image, log, b, min, h),
        storable(k, 10),
        storable(v, 10),
        !tree_map(image, last_record(log) as int, h).contains_key(k),
    ensures
        last_record(log) % 4096 == 0,
        last_record(log) + 4096 <= image.len(),
        node_at(image, last_record(log) as int) is Some,
        round_trips(node_at(image, last_record(log) as int)->Some_0),
        node_at(image, last_record(log) as int)->Some_0.is_root,
        !(node_at(image, last_record(log) as int)->Some_0.node_type is Unexpected),
        is_full(node_at(image, last_record(log) as int)->Some_0, b) ==> node_at(
            image,
            last_record(log) as int,
        )->Some_0.can_split(b),
        !is_full(node_at(image, last_record(log) as int)->Some_0, b) ==> insert_ready(
            image,
            b,
            min,
            last_record(log) as int,
            h,
            None,
            None,
            true,
            node_at(image, last_record(log) as int)->Some_0,
            k,
            v,
        ),
{
    reveal(subtree_ok);
    reveal(insert_ready);
    let root = last_record(log) as int;
    lemma_node_at_round_trips(image, root);
    crate::tree::lemma_node_at_within(image, root);
    assert forall|v2: Seq<char>| !subtree_has(image, root, h, k, v2) by {
        crate::tree::lemma_tree_map(image, b, min, root, h, k, v2);
    }
}

/// The five writes that divide a full root: from `image0` to `image1` a
/// page for the new root has been added at the end; from there to `image2`
/// the half that stays has been written over the old root, as a node that is
/// no root; from there to `image3` the sibling to a new page at the end; and
/// from there to `image4` the new root over its page, with the old root and
/// the sibling as its children and the key that went up between them.
pub open spec fn root_split_written(
    image0: Seq<u8>,
    image1: Seq<u8>,
    image2: Seq<u8>,
    image3: Seq<u8>,
    image4: Seq<u8>,
    b: int,
    old_root: usize,
    new_root: usize,
    sib: usize,
    left: NodeView,
    right: NodeView,
    top: NodeView,
) -> bool {
    let whole = node_at(image0, old_root as int)->Some_0;
    &&& is_full(whole, b)
    &&& new_root == image0.len()
    &&& image1.len() == image0.len() + 4096
    &&& unchanged_but(image0, image1, new_root as int)
    &&& image2.len() == image1.len()
    &&& node_at(image2, old_root as int) == Some(left)
    &&& left.node_type == whole.split_left(b).node_type
    &&& !left.is_root
    &&& unchanged_but(image1, image2, old_root as int)
    &&& sib == image1.len()
    &&& image3.len() == image2.len() + 4096
    &&& node_at(image3, sib as int) == Some(right)
    &&& right.node_type == whole.split_right(b).node_type
    &&& !right.is_root
    &&& unchanged_but(image2, image3, sib as int)
    &&& image4.len() == image3.len()
    &&& node_at(image4, new_root as int) == Some(top)
    &&& top.is_root
    &&& top.node_type == NodeTypeView::Internal(
        seq![old_root, sib],
        seq![whole.split_median(b)],
    )
    &&& unchanged_but(image3, image4, new_root as int)
}

/// Whether a pair with the key `k` goes below the node at `off` without
/// dividing anything there: the node is internal, and the child that
/// `child_slot` picks for `k` is not full.
pub open spec fn descends_whole(image: Seq<u8>, b: int, off: int, k: Seq<char>) -> bool {
    match node_at(image, off) {
        Some(node) => match node.node_type {
            NodeTypeView::Internal(kids, seps) => {
                let idx = child_slot(seps, k);
                &&& 0 <= idx < kids.len()
                &&& match node_at(image, kids[idx] as int) {
                    Some(child) => !is_full(child, b),
                    None => false,
                }
            },
            _ => false,
        },
        None => false,
    }
}

/// Where the pair goes below the node at `off` without dividing its child,
/// the node is what it was, and the image has grown by one page at most for
/// each level below the child.
pub open spec fn top_kept(
    image: Seq<u8>,
    image2: Seq<u8>,
    b: int,
    off: int,
    h: nat,
    k: Seq<char>,
) -> bool {
    descends_whole(image, b, off, k) ==> node_at(image2, off) == node_at(image, off)
        && image2.len() + 4096 <= image.len() + h * 4096
}

/// The node above a child that was not divided is what it was.
pub proof fn lemma_top_kept(
    image: Seq<u8>,
    image2: Seq<u8>,
    b: int,
    min: int,
    off: int,
    h: nat,
    lo: Option<Seq<char>>,
    hi: Option<Seq<char>>,
    root: bool,
    node: NodeView,
    k: Seq<char>,
    v: Seq<char>,
)
    requires
        insert_ready(image, b, min, off, h, lo, hi, root, node, k, v),
        node.node_type is Internal,
        h > 0,
        0 <= child_slot(seps_at(image, off), k) < kids_at(image, off).len(),
        inserted_below(
            image,
            image2,
            b,
            min,
            kids_at(image, off)[child_slot(seps_at(image, off), k)] as int,
            (h - 1) as nat,
            child_lo(seps_at(image, off), lo, child_slot(seps_at(image, off), k)),
            child_hi(seps_at(image, off), hi, child_slot(seps_at(image, off), k)),
            false,
            k,
            v,
        ),
    ensures
        node_at(image2, off) == node_at(image, off),
        image2.len() + 4096 <= image.len() + h * 4096,
        top_kept(image, image2, b, off, h, k),
{
    lemma_insert_descend(image, b, min, off, h, lo, hi, root, node, k, v);
    reveal(insert_ready);
    reveal(inserted_below);
    reveal(subtree_ok);
    reveal(in_subtree);
    let idx = child_slot(seps_at(image, off), k);
    let c = kids_at(image, off)[idx] as int;
    let g = (h - 1) as nat;
    crate::tree::lemma_node_at_within(image, off);
    assert(!in_subtree(image, kids_at(image, off)[idx] as int, g, off));
    assert(node_at(image2, off) == node_at(image, off));
    assert(image2.len() + 4096 <= image.len() + h * 4096) by (nonlinear_arith)
        requires
            image2.len() <= image.len() + (h - 1) * 4096,
            h > 0,
    ;
}

/// After the writes that divide a full root, a pair goes below the new root
/// without dividing anything there: neither half of the old root is full.
pub proof fn lemma_root_split_descends(
    image0: Seq<u8>,
    image1: Seq<u8>,
    image2: Seq<u8>,
    image3: Seq<u8>,
    image4: Seq<u8>,
    b: int,
    old_root: usize,
    new_root: usize,
    sib: usize,
    left: NodeView,
    right: NodeView,
    top: NodeView,
    k: Seq<char>,
)
    requires
        2 <= b,
        old_root % 4096 == 0,
        old_root + 4096 <= image0.len(),
        image0.len() % 4096 == 0,
        node_at(image0, old_root as int) is Some,
        node_at(image0, old_root as int)->Some_0.can_split(b),
        root_split_written(
            image0,
            image1,
            image2,
            image3,
            image4,
            b,
            old_root,
            new_root,
            sib,
            left,
            right,
            top,
        ),
    ensures
        descends_whole(image4, b, new_root as int, k),
{
    let whole = node_at(image0, old_root as int)->Some_0;
    let seps = seq![whole.split_median(b)];
    let kids = seq![old_root, sib];
    crate::tree::lemma_child_slot(seps, k);
    let idx = child_slot(seps, k);
    assert(node_at(image4, old_root as int) == node_at(image3, old_root as int));
    assert(node_at(image3, old_root as int) == node_at(image2, old_root as int));
    assert(node_at(image4, sib as int) == node_at(image3, sib as int));
    assert(kids[0] == old_root && kids[1] == sib);
    if idx == 0 {
        assert(node_at(image4, kids[idx] as int) == Some(left));
    } else {
        assert(node_at(image4, kids[idx] as int) == Some(right));
    }
}

/// After the five writes of `root_split_written` the new root is the root
/// of a sound tree that is one level higher and stores what the tree stored;
/// it is ready for every storable pair whose key the tree does not store.
pub proof fn lemma_root_split_ready(
    image0: Seq<u8>,
    image1: Seq<u8>,
    image2: Seq<u8>,
    image3: Seq<u8>,
    image4: Seq<u8>,
    log: Seq<u8>,
    b: int,
    min: int,
    h: nat,
    new_root: usize,
    sib: usize,
    left: NodeView,
    right: NodeView,
    top: NodeView,
    k: Seq<char>,
    v: Seq<char>,
)
    requires
        tree_ok(image0, log, b, min, h),
        storable(k, 10),
        storable(v, 10),
        !tree_map(image0, last_record(log) as int, h).contains_key(k),
        root_split_written(
            image0,
            image1,
            image2,
            image3,
            image4,
            b,
            last_record(log) as usize,
            new_root,
            sib,
            left,
            right,
            top,
        ),
    ensures
        insert_ready(image4, b, min, new_root as int, h + 1, None, None, true, top, k, v),
        crate::tree::branches(node_at(image4, new_root as int)),
        forall|k2: Seq<char>, v2: Seq<char>|
            #[trigger] subtree_has(image4, new_root as int, h + 1, k2, v2) <==> subtree_has(
                image0,
                last_record(log) as int,
                h,
                k2,
                v2,
            ),
{
    let old_root = last_record(log) as usize;
    lemma_ready_root(image0, log, b, min, h, k, v);
    assert(old_root != new_root && old_root != sib && new_root != sib);
    assert forall|p: int| #[trigger] in_subtree(image0, old_root as int, h, p) && p
        != old_root implies node_at(image0, p) == node_at(image4, p) by {
        lemma_in_subtree_valid(image0, b, min, old_root as int, h, None, None, true, p);
        assert(node_at(image4, p) == node_at(image3, p));
        assert(node_at(image3, p) == node_at(image2, p));
        assert(node_at(image2, p) == node_at(image1, p));
        assert(node_at(image1, p) == node_at(image0, p));
    }
    assert(node_at(image4, old_root as int) == node_at(image3, old_root as int));
    assert(node_at(image3, old_root as int) == node_at(image2, old_root as int));
    assert(node_at(image4, sib as int) == node_at(image3, sib as int));
    assert(split_done(image0, image4, b, min, old_root as int, sib as int, h, None, None, true));
    lemma_root_split(image0, image4, b, min, old_root, new_root, sib, h);
    reveal(insert_ready);
    let top_h = (h + 1) as nat;
    assert forall|v2: Seq<char>| !#[trigger] subtree_has(image4, new_root as int, top_h, k, v2) by {
        crate::tree::lemma_tree_map(image0, b, min, old_root as int, h, k, v2);
    }
    assert(top.node_type->Internal_0.len() == 2);
}

/// Once the pair has gone in below the root, the image and the log with
/// the root as its last record hold a sound tree, whose map is the map of the
/// tree before with the value put under the key.
pub proof fn lemma_insert_done(
    image0: Seq<u8>,
    log0: Seq<u8>,
    h0: nat,
    image1: Seq<u8>,
    image2: Seq<u8>,
    log2: Seq<u8>,
    h: nat,
    b: int,
    min: int,
    k: Seq<char>,
    v: Seq<char>,
)
    requires
        tree_ok(image0, log0, b, min, h0),
        inserted_below(image1, image2, b, min, last_record(log2) as int, h, None, None, true, k, v),
        subtree_ok(image1, b, min, last_record(log2) as int, h, None, None, true),
        forall|k2: Seq<char>, v2: Seq<char>|
            #[trigger] subtree_has(image1, last_record(log2) as int, h, k2, v2) <==> subtree_has(
                image0,
                last_record(log0) as int,
                h0,
                k2,
                v2,
            ),
        log2.len() >= 8,
        image2.len() <= usize::MAX,
        (h + 1) * 4096 <= image1.len(),
        branches(node_at(image1, last_record(log2) as int)),
    ensures
        tree_ok(image2, log2, b, min, h),
        tree_map(image2, last_record(log2) as int, h) == tree_map(
            image0,
            last_record(log0) as int,
            h0,
        ).insert(k, v),
        image1.len() <= image2.len() <= image1.len() + h * 4096,
{
    reveal(inserted_below);
    lemma_tree_map_inserted(
        image0,
        last_record(log0) as int,
        h0,
        image2,
        last_record(log2) as int,
        h,
        b,
        min,
        k,
        v,
    );
    assert((h + 1) * 4096 <= image2.len()) by {
        assert(image1.len() <= image2.len()) by {
            reveal(inserted_below);
            assert(crate::tree_insert::grows_within(image1, image2, last_record(log2) as int, h));
        }
    }
}

} // verus!
