//! What a deletion leaves on the pages: the leaf without the key, and,
//! where the leaf was put together with its neighbour, the page that holds
//! both and the parent that lists it.

use crate::delete_steps::{lemma_mend_ready, mend_ready, merge_written, share_written};
use crate::node::NodeView;
use crate::node_type::NodeTypeView;
use crate::tree::{
    child_slot, in_subtree, lemma_child_slot, lemma_in_subtree_valid, lemma_node_at_within,
    node_at, pairs_ascend, subtree_ok,
};
use crate::tree_delete::{fit_together, merged_type, underflows};
use crate::tree_insert::{grows_within, kids_at, lemma_in_child_in_parent, seps_at};
use crate::tree_share::{entries_of, joined};
use vstd::prelude::*;

verus! {

/// The kind and the entries of the node at `off`, where there is one.
pub open spec fn type_at(image: Seq<u8>, off: int) -> Option<NodeTypeView> {
    match node_at(image, off) {
        Some(node) => Some(node.node_type),
        None => None,
    }
}

/// The pairs of the leaf at `off`.
pub open spec fn pairs_of(image: Seq<u8>, off: int) -> Seq<(Seq<char>, Seq<char>)> {
    node_at(image, off)->Some_0.node_type->Leaf_0
}

/// Whether one of `pairs` has the key `k`.
pub open spec fn has_key(pairs: Seq<(Seq<char>, Seq<char>)>, k: Seq<char>) -> bool {
    exists|i: int| 0 <= i < pairs.len() && (#[trigger] pairs[i]).0 == k
}

/// A place at which `pairs` has the key `k`.
pub open spec fn key_index(pairs: Seq<(Seq<char>, Seq<char>)>, k: Seq<char>) -> int {
    choose|i: int| 0 <= i < pairs.len() && (#[trigger] pairs[i]).0 == k
}

/// `pairs` without the pair that has the key `k`.
pub open spec fn without(pairs: Seq<(Seq<char>, Seq<char>)>, k: Seq<char>) -> Seq<
    (Seq<char>, Seq<char>),
> {
    pairs.remove(key_index(pairs, k))
}

/// Among pairs whose keys ascend a key stands at one place only.
pub proof fn lemma_without(pairs: Seq<(Seq<char>, Seq<char>)>, k: Seq<char>, at: int)
    requires
        pairs_ascend(pairs),
        0 <= at < pairs.len(),
        pairs[at].0 == k,
    ensures
        has_key(pairs, k),
        key_index(pairs, k) == at,
        without(pairs, k) == pairs.remove(at),
{
    let i = key_index(pairs, k);
    assert(0 <= i < pairs.len() && pairs[i].0 == k);
    crate::key_order::lemma_key_lt_irreflexive(k);
    if i < at {
        assert(crate::key_order::key_lt(pairs[i].0, pairs[at].0));
    } else if at < i {
        assert(crate::key_order::key_lt(pairs[at].0, pairs[i].0));
    }
}

/// The node one level above the leaves below which the key `k` is looked
/// for, from the node at `off`, which lies `h` levels above the leaves.
pub open spec fn leaf_parent(image: Seq<u8>, off: int, h: nat, k: Seq<char>) -> int
    decreases h,
{
    if h <= 1 {
        off
    } else {
        leaf_parent(
            image,
            kids_at(image, off)[child_slot(seps_at(image, off), k)] as int,
            (h - 1) as nat,
            k,
        )
    }
}

/// The neighbour with which child `idx` is put together: the child before
/// it, or the child behind it where it is the first.
pub open spec fn neighbour(idx: int) -> int {
    if idx > 0 {
        idx - 1
    } else {
        idx + 1
    }
}

/// The first of the two places of child `idx` and its neighbour.
pub open spec fn lower(idx: int) -> int {
    if idx > 0 {
        idx - 1
    } else {
        idx
    }
}

/// Whether taking the key `k` out below the node at `p`, whose children
/// are leaves, ends in a merge: the leaf for `k` holds the key and is left
/// with fewer than `b - 1` pairs, and these and the pairs of its neighbour are
/// no more than `2b - 1`.
pub open spec fn leaf_merge_due(image: Seq<u8>, b: int, p: int, k: Seq<char>) -> bool {
    let kids = kids_at(image, p);
    let idx = child_slot(seps_at(image, p), k);
    let leaf = pairs_of(image, kids[idx] as int);
    let other = pairs_of(image, kids[neighbour(idx)] as int);
    &&& kids.len() >= 2
    &&& has_key(leaf, k)
    &&& leaf.len() - 1 < b - 1
    &&& leaf.len() - 1 + other.len() <= 2 * b - 1
}

/// What the merged leaf holds once `k` is taken out below the node at `p`:
/// the pairs of the left leaf and then those of the right leaf, without the
/// pair of `k`.
pub open spec fn merged_pairs(image: Seq<u8>, p: int, k: Seq<char>) -> Seq<
    (Seq<char>, Seq<char>),
> {
    let kids = kids_at(image, p);
    let idx = child_slot(seps_at(image, p), k);
    let cut = without(pairs_of(image, kids[idx] as int), k);
    let other = pairs_of(image, kids[neighbour(idx)] as int);
    if idx > 0 {
        other + cut
    } else {
        cut + other
    }
}

/// What the node at `p` lists once the leaf for `k` and its neighbour are
/// merged: the page at the end of `image` at the first of their two places,
/// in place of both, and the keys without the key that stood between them.
pub open spec fn shrunk_type(image: Seq<u8>, p: int, k: Seq<char>) -> NodeTypeView {
    let kids = kids_at(image, p);
    let seps = seps_at(image, p);
    let low = lower(child_slot(seps, k));
    NodeTypeView::Internal(kids.remove(low + 1).update(low, image.len() as usize), seps.remove(low))
}

/// What mending child `idx` of the node at `off` changes, from `image3` to
/// `image5`. Nothing, where the child holds `b - 1` keys or has no neighbour.
/// Else no page of `image3` but those of the node, the child and its
/// neighbour; where the two fit into one node, what merging them gives
/// stands on the page behind the end of `image3`, which the node lists in
/// place of the two; and where they do not, the two hold what `shared_out`
/// says.
#[verifier::opaque]
pub open spec fn mend_trace(image3: Seq<u8>, image5: Seq<u8>, b: int, off: int, idx: int) -> bool {
    let kids = kids_at(image3, off);
    let seps = seps_at(image3, off);
    let child = node_at(image3, kids[idx] as int)->Some_0;
    let low = lower(idx);
    let first = node_at(image3, kids[low] as int)->Some_0;
    let second = node_at(image3, kids[low + 1] as int)->Some_0;
    &&& !(underflows(child, b) && kids.len() >= 2) ==> image5 == image3
    &&& underflows(child, b) && kids.len() >= 2 ==> {
        &&& forall|p: int|
            p % 4096 == 0 && p + 4096 <= image3.len() && p != off && p != kids[low] && p
                != kids[low + 1] ==> #[trigger] type_at(image5, p) == type_at(image3, p)
        &&& !fit_together(first, second, b) ==> shared_out(image3, image5, off, low)
        &&& fit_together(first, second, b) ==> {
            &&& type_at(image5, image3.len() as int) == Some(
                merged_type(first, second, seps[low]),
            )
            &&& type_at(image5, off) == Some(
                NodeTypeView::Internal(
                    kids.remove(low + 1).update(low, image3.len() as usize),
                    seps.remove(low),
                ),
            )
        }
    }
}

/// What taking the key `k` out of the subtree at `off` leaves on the pages,
/// from `image` to `image2`.
///
/// A leaf is left without the pair of `k`. Below an internal node, where the
/// leaf for `k` is merged with its neighbour, as `leaf_merge_due` says, the
/// merged leaf stands on the page behind the end of `image` and holds
/// `merged_pairs`; and their parent lists it as `shrunk_type` says, where it
/// is the node at `off` or keeps `b - 1` keys, so that it is not put together
/// with a neighbour of its own.
pub open spec fn left_by_delete(
    image: Seq<u8>,
    image2: Seq<u8>,
    b: int,
    off: int,
    h: nat,
    k: Seq<char>,
) -> bool {
    if h == 0 {
        type_at(image2, off) == Some(NodeTypeView::Leaf(without(pairs_of(image, off), k)))
    } else {
        let p = leaf_parent(image, off, h, k);
        leaf_merge_due(image, b, p, k) ==> {
            &&& type_at(image2, image.len() as int) == Some(
                NodeTypeView::Leaf(merged_pairs(image, p, k)),
            )
            &&& h == 1 || kids_at(image, p).len() > b ==> type_at(image2, p) == Some(
                shrunk_type(image, p, k),
            )
        }
    }
}

/// Where the leaf for `k` below the node at `off` is merged with its
/// neighbour, the page of the merged leaf belongs to the subtree at `off`.
pub open spec fn merged_below(
    image: Seq<u8>,
    image2: Seq<u8>,
    b: int,
    off: int,
    h: nat,
    k: Seq<char>,
) -> bool {
    h >= 1 && leaf_merge_due(image, b, leaf_parent(image, off, h, k), k) ==> in_subtree(
        image2,
        off,
        h,
        image.len() as int,
    )
}

/// `left_by_delete` and `merged_below`, as the steps of a deletion hand
/// them on.
#[verifier::opaque]
pub open spec fn delete_trace(
    image: Seq<u8>,
    image2: Seq<u8>,
    b: int,
    off: int,
    h: nat,
    k: Seq<char>,
) -> bool {
    left_by_delete(image, image2, b, off, h, k) && merged_below(image, image2, b, off, h, k)
}

/// What `delete_trace` says.
pub proof fn lemma_delete_trace(
    image: Seq<u8>,
    image2: Seq<u8>,
    b: int,
    off: int,
    h: nat,
    k: Seq<char>,
)
    requires
        delete_trace(image, image2, b, off, h, k),
    ensures
        left_by_delete(image, image2, b, off, h, k),
        merged_below(image, image2, b, off, h, k),
{
    reveal(delete_trace);
}

/// A leaf has been written without the pair of `k`.
pub proof fn lemma_trace_leaf(
    image: Seq<u8>,
    image2: Seq<u8>,
    b: int,
    off: int,
    k: Seq<char>,
    at: int,
)
    requires
        node_at(image, off) is Some,
        node_at(image, off)->Some_0.node_type is Leaf,
        pairs_ascend(pairs_of(image, off)),
        0 <= at < pairs_of(image, off).len(),
        pairs_of(image, off)[at].0 == k,
        type_at(image2, off) == Some(NodeTypeView::Leaf(pairs_of(image, off).remove(at))),
    ensures
        delete_trace(image, image2, b, off, 0, k),
{
    reveal(delete_trace);
    lemma_without(pairs_of(image, off), k, at);
}

/// A change that leaves every node its kind and entries keeps what a
/// deletion has left.
pub proof fn lemma_trace_retyped(
    image: Seq<u8>,
    image1: Seq<u8>,
    image2: Seq<u8>,
    b: int,
    min: int,
    off: int,
    h: nat,
    k: Seq<char>,
)
    requires
        image.len() % 4096 == 0,
        subtree_ok(image, b, min, off, h, None, None, true),
        left_by_delete(image, image1, b, off, h, k),
        forall|p: int| p % 4096 == 0 ==> type_at(image2, p) == #[trigger] type_at(image1, p),
    ensures
        left_by_delete(image, image2, b, off, h, k),
{
    if h == 0 {
        assert(off % 4096 == 0) by {
            reveal(subtree_ok);
        }
        assert(type_at(image2, off) == type_at(image1, off));
    } else {
        let p = leaf_parent(image, off, h, k);
        lemma_leaf_parent_within(image, b, min, off, h, None, None, true, k);
        lemma_in_subtree_valid(image, b, min, off, h, None, None, true, p);
        assert(type_at(image2, p) == type_at(image1, p));
        assert(type_at(image2, image.len() as int) == type_at(image1, image.len() as int));
    }
}

/// The node one level above the leaves below which `k` is looked for lies
/// within the subtree.
pub proof fn lemma_leaf_parent_within(
    image: Seq<u8>,
    b: int,
    min: int,
    off: int,
    h: nat,
    lo: Option<Seq<char>>,
    hi: Option<Seq<char>>,
    root: bool,
    k: Seq<char>,
)
    requires
        subtree_ok(image, b, min, off, h, lo, hi, root),
        h >= 1,
    ensures
        in_subtree(image, off, h, leaf_parent(image, off, h, k)),
        h >= 2 ==> leaf_parent(image, off, h, k) != off,
    decreases h,
{
    reveal(subtree_ok);
    if h <= 1 {
        reveal(in_subtree);
    } else {
        let kids = kids_at(image, off);
        let seps = seps_at(image, off);
        lemma_child_slot(seps, k);
        let idx = child_slot(seps, k);
        let c = kids[idx] as int;
        let g = (h - 1) as nat;
        assert(subtree_ok(
            image,
            b,
            min,
            kids[idx] as int,
            g,
            crate::tree::child_lo(seps, lo, idx),
            crate::tree::child_hi(seps, hi, idx),
            false,
        ));
        lemma_leaf_parent_within(
            image,
            b,
            min,
            c,
            g,
            crate::tree::child_lo(seps, lo, idx),
            crate::tree::child_hi(seps, hi, idx),
            false,
            k,
        );
        let p = leaf_parent(image, off, h, k);
        assert(p == leaf_parent(image, c, g, k));
        lemma_in_child_in_parent(image, off, h, idx, p);
        assert(!in_subtree(image, kids[idx] as int, g, off));
    }
}

/// What a deletion leaves below a node whose children are leaves, once
/// the leaf has been mended.
pub proof fn lemma_trace_above_leaves(
    image0: Seq<u8>,
    image3: Seq<u8>,
    image5: Seq<u8>,
    b: int,
    min: int,
    off: int,
    lo: Option<Seq<char>>,
    hi: Option<Seq<char>>,
    root: bool,
    k: Seq<char>,
    node: NodeView,
    idx: int,
    child: NodeView,
)
    requires
        mend_ready(image0, image3, b, min, off, 1, lo, hi, root, k, node, idx, child),
        idx == child_slot(node.node_type->Internal_1, k),
        grows_within(image0, image3, node.node_type->Internal_0[idx] as int, 0),
        delete_trace(image0, image3, b, node.node_type->Internal_0[idx] as int, 0, k),
        mend_trace(image3, image5, b, off, idx),
    ensures
        delete_trace(image0, image5, b, off, 1, k),
{
    lemma_mend_ready(image0, image3, b, min, off, 1, lo, hi, root, k, node, idx, child);
    reveal(delete_trace);
    reveal(mend_trace);
    reveal(mend_ready);
    reveal_with_fuel(subtree_ok, 2);
    reveal(in_subtree);
    let kids = node.node_type->Internal_0;
    let seps = node.node_type->Internal_1;
    let c = kids[idx] as int;
    assert(leaf_parent(image0, off, 1, k) == off);
    assert(kids_at(image0, off) == kids && kids_at(image3, off) == kids);
    assert(seps_at(image0, off) == seps && seps_at(image3, off) == seps);
    if leaf_merge_due(image0, b, off, k) {
        let n = neighbour(idx);
        let s = kids[n] as int;
        let low = lower(idx);
        assert(0 <= n < kids.len());
        assert(subtree_ok(
            image0,
            b,
            min,
            kids[n] as int,
            0,
            crate::tree::child_lo(seps, lo, n),
            crate::tree::child_hi(seps, hi, n),
            false,
        ));
        assert(subtree_ok(
            image0,
            b,
            min,
            kids[idx] as int,
            0,
            crate::tree::child_lo(seps, lo, idx),
            crate::tree::child_hi(seps, hi, idx),
            false,
        ));
        lemma_node_at_within(image0, s);
        assert(in_subtree(image0, kids[n] as int, 0, s));
        assert(in_subtree(image0, kids[idx] as int, 0, c));
        assert(s != c) by {
            if s == c {
                if n < idx {
                    assert(in_subtree(image0, kids[n] as int, 0, c) && in_subtree(
                        image0,
                        kids[idx] as int,
                        0,
                        c,
                    ));
                } else {
                    assert(in_subtree(image0, kids[idx] as int, 0, c) && in_subtree(
                        image0,
                        kids[n] as int,
                        0,
                        c,
                    ));
                }
            }
        }
        assert(!in_subtree(image0, c, 0, s));
        assert(node_at(image3, s) == node_at(image0, s));
        assert(image3.len() == image0.len());
        let leaf = pairs_of(image0, c);
        let at = key_index(leaf, k);
        assert(0 <= at < leaf.len() && leaf[at].0 == k);
        let cut = without(leaf, k);
        assert(cut.len() == leaf.len() - 1);
        assert(child.node_type == NodeTypeView::Leaf(cut));
        assert(underflows(child, b));
        let first = node_at(image3, kids[low] as int)->Some_0;
        let second = node_at(image3, kids[low + 1] as int)->Some_0;
        assert(fit_together(first, second, b));
        assert(merged_type(first, second, seps[low]) == NodeTypeView::Leaf(
            merged_pairs(image0, off, k),
        ));
        let kids5 = kids_at(image5, off);
        assert(kids5 == kids.remove(low + 1).update(low, image3.len() as usize));
        assert(kids5[low] == image0.len());
        assert(in_subtree(image5, kids5[low] as int, 0, image0.len() as int));
        assert(in_subtree(image5, off, 1, image0.len() as int));
    }
}

/// What a deletion leaves below a node two levels or more above the
/// leaves, once the child below which the key went has been mended.
pub proof fn lemma_trace_higher(
    image0: Seq<u8>,
    image3: Seq<u8>,
    image5: Seq<u8>,
    b: int,
    min: int,
    off: int,
    h: nat,
    lo: Option<Seq<char>>,
    hi: Option<Seq<char>>,
    root: bool,
    k: Seq<char>,
    node: NodeView,
    idx: int,
    child: NodeView,
)
    requires
        h >= 2,
        mend_ready(image0, image3, b, min, off, h, lo, hi, root, k, node, idx, child),
        idx == child_slot(node.node_type->Internal_1, k),
        grows_within(image0, image3, node.node_type->Internal_0[idx] as int, (h - 1) as nat),
        delete_trace(
            image0,
            image3,
            b,
            node.node_type->Internal_0[idx] as int,
            (h - 1) as nat,
            k,
        ),
        mend_trace(image3, image5, b, off, idx),
    ensures
        delete_trace(image0, image5, b, off, h, k),
{
    lemma_mend_ready(image0, image3, b, min, off, h, lo, hi, root, k, node, idx, child);
    reveal(delete_trace);
    reveal(mend_ready);
    reveal(subtree_ok);
    let kids = node.node_type->Internal_0;
    let seps = node.node_type->Internal_1;
    let c = kids[idx] as int;
    let g = (h - 1) as nat;
    let clo = crate::tree::child_lo(seps, lo, idx);
    let chi = crate::tree::child_hi(seps, hi, idx);
    let p = leaf_parent(image0, off, h, k);
    assert(kids_at(image0, off) == kids && kids_at(image3, off) == kids);
    assert(seps_at(image0, off) == seps && seps_at(image3, off) == seps);
    assert(p == leaf_parent(image0, c, g, k));
    assert(subtree_ok(image0, b, min, kids[idx] as int, g, clo, chi, false));
    reveal(mend_trace);
    if leaf_merge_due(image0, b, p, k) {
        let n0 = image0.len() as int;
        let child3 = node_at(image3, kids[idx] as int)->Some_0;
        let low = lower(idx);
        if h == 2 && kids_at(image0, p).len() > b {
            // the parent of the leaves is the child, which keeps `b - 1`
            // keys and is not mended
            assert(p == c);
            assert(!underflows(child3, b)) by {
                reveal_with_fuel(subtree_ok, 2);
                lemma_child_slot(seps_at(image0, p), k);
            }
        }
        if underflows(child3, b) && kids.len() >= 2 {
            // the merged leaf lies behind every page that mending writes
            assert(node_at(image3, n0) is Some);
            lemma_node_at_within(image3, n0);
            lemma_node_at_within(image0, off);
            assert(subtree_ok(
                image0,
                b,
                min,
                kids[low] as int,
                g,
                crate::tree::child_lo(seps, lo, low),
                crate::tree::child_hi(seps, hi, low),
                false,
            ));
            assert(subtree_ok(
                image0,
                b,
                min,
                kids[low + 1] as int,
                g,
                crate::tree::child_lo(seps, lo, low + 1),
                crate::tree::child_hi(seps, hi, low + 1),
                false,
            ));
            lemma_node_at_within(image0, kids[low] as int);
            lemma_node_at_within(image0, kids[low + 1] as int);
            assert(n0 % 4096 == 0);
            assert(type_at(image5, n0) == type_at(image3, n0));
            if kids_at(image0, p).len() > b {
                lemma_leaf_parent_within(image0, b, min, c, g, clo, chi, false, k);
                lemma_in_subtree_valid(image0, b, min, c, g, clo, chi, false, p);
                assert(p != c);
                assert(!in_subtree(image0, kids[idx] as int, g, off));
                assert(p != off);
                let n = neighbour(idx);
                assert(in_subtree(image0, kids[n] as int, g, kids[n] as int)) by {
                    reveal(in_subtree);
                }
                assert(p != kids[n]) by {
                    if p == kids[n] {
                        if n < idx {
                            assert(in_subtree(image0, kids[n] as int, g, p) && in_subtree(
                                image0,
                                kids[idx] as int,
                                g,
                                p,
                            ));
                        } else {
                            assert(in_subtree(image0, kids[idx] as int, g, p) && in_subtree(
                                image0,
                                kids[n] as int,
                                g,
                                p,
                            ));
                        }
                    }
                }
                assert(type_at(image5, p) == type_at(image3, p));
            }
        }
        // the merged leaf still belongs to the subtree
        assert(subtree_ok(image3, b, 0, off, h, lo, hi, root)) by {
            reveal(crate::delete_steps::deleted_below);
        }
        assert(in_subtree(image3, c, g, n0));
        lemma_node_at_within(image0, c);
        lemma_below_mended(image3, image5, b, off, h, lo, hi, root, idx, n0);
    }
}

/// What merging the children `low` and `low + 1` of the node at `off`
/// changes, from `image3` to `image5`: no page of `image3` but that of the
/// node; what merging the two gives stands on the page behind the end of
/// `image3`, which the node lists in place of the two.
#[verifier::opaque]
pub open spec fn merge_trace(image3: Seq<u8>, image5: Seq<u8>, off: int, low: int) -> bool {
    let kids = kids_at(image3, off);
    let seps = seps_at(image3, off);
    let first = node_at(image3, kids[low] as int)->Some_0;
    let second = node_at(image3, kids[low + 1] as int)->Some_0;
    &&& forall|p: int|
        p % 4096 == 0 && p + 4096 <= image3.len() && p != off ==> #[trigger] type_at(image5, p)
            == type_at(image3, p)
    &&& type_at(image5, image3.len() as int) == Some(merged_type(first, second, seps[low]))
    &&& type_at(image5, off) == Some(
        NodeTypeView::Internal(
            kids.remove(low + 1).update(low, image3.len() as usize),
            seps.remove(low),
        ),
    )
}

/// What the children `low` and `low + 1` of the node at `off` hold once
/// their entries have been shared out in halves, and that the node still
/// lists the children that it listed.
pub open spec fn shared_out(image3: Seq<u8>, image5: Seq<u8>, off: int, low: int) -> bool {
    let kids = kids_at(image3, off);
    let seps = seps_at(image3, off);
    let first = node_at(image3, kids[low] as int)->Some_0;
    let second = node_at(image3, kids[low + 1] as int)->Some_0;
    let whole = joined(first, second, seps[low]);
    let m = (entries_of(first) + entries_of(second)) / 2;
    &&& node_at(image5, off) is Some
    &&& node_at(image5, off)->Some_0.node_type is Internal
    &&& kids_at(image5, off) == kids
    &&& type_at(image5, kids[low] as int) == Some(whole.split_left(m).node_type)
    &&& type_at(image5, kids[low + 1] as int) == Some(whole.split_right(m).node_type)
}

/// What sharing out the entries of the children `low` and `low + 1` of the
/// node at `off` changes, from `image3` to `image5`: no page of `image3` but
/// those of the node and of the two, which hold what `shared_out` says.
#[verifier::opaque]
pub open spec fn share_trace(image3: Seq<u8>, image5: Seq<u8>, off: int, low: int) -> bool {
    let kids = kids_at(image3, off);
    &&& forall|p: int|
        p % 4096 == 0 && p + 4096 <= image3.len() && p != off && p != kids[low] && p != kids[low
            + 1] ==> #[trigger] type_at(image5, p) == type_at(image3, p)
    &&& shared_out(image3, image5, off, low)
}

/// The writes of a merge leave what `merge_trace` says.
pub proof fn lemma_merge_trace(
    image3: Seq<u8>,
    image4: Seq<u8>,
    image5: Seq<u8>,
    b: int,
    off: int,
    node: NodeView,
    low: int,
    m: usize,
    merged: NodeView,
    shrunk: NodeView,
)
    requires
        node_at(image3, off) == Some(node),
        image3.len() % 4096 == 0,
        merge_written(image3, image4, image5, b, off, node, low, m, merged, shrunk),
    ensures
        merge_trace(image3, image5, off, low),
{
    reveal(merge_trace);
    lemma_node_at_within(image3, off);
    assert(node_at(image5, m as int) == node_at(image4, m as int));
    assert forall|p: int|
        p % 4096 == 0 && p + 4096 <= image3.len() && p != off implies #[trigger] type_at(
        image5,
        p,
    ) == type_at(image3, p) by {
        assert(node_at(image5, p) == node_at(image4, p));
        assert(node_at(image4, p) == node_at(image3, p));
    }
}

/// The writes that share out the entries of two children leave what
/// `share_trace` says.
pub proof fn lemma_share_trace(
    image3: Seq<u8>,
    image4: Seq<u8>,
    image5: Seq<u8>,
    image6: Seq<u8>,
    b: int,
    off: int,
    node: NodeView,
    low: int,
    m: int,
    left: NodeView,
    right: NodeView,
    rekeyed: NodeView,
)
    requires
        node_at(image3, off) == Some(node),
        node.node_type is Internal,
        off % 4096 == 0,
        node.node_type->Internal_0[low] % 4096 == 0,
        node.node_type->Internal_0[low + 1] % 4096 == 0,
        node.node_type->Internal_0[low] != node.node_type->Internal_0[low + 1],
        node.node_type->Internal_0[low] != off,
        node.node_type->Internal_0[low + 1] != off,
        m == (entries_of(node_at(image3, node.node_type->Internal_0[low] as int)->Some_0)
            + entries_of(node_at(image3, node.node_type->Internal_0[low + 1] as int)->Some_0)) / 2,
        share_written(image3, image4, image5, image6, b, off, node, low, m, left, right, rekeyed),
    ensures
        share_trace(image3, image6, off, low),
{
    reveal(share_trace);
    let kids = node.node_type->Internal_0;
    assert(node_at(image6, kids[low] as int) == node_at(image5, kids[low] as int));
    assert(node_at(image5, kids[low] as int) == node_at(image4, kids[low] as int));
    assert(node_at(image6, kids[low + 1] as int) == node_at(image5, kids[low + 1] as int));
    assert forall|p: int|
        p % 4096 == 0 && p + 4096 <= image3.len() && p != off && p != kids_at(image3, off)[low]
            && p != kids_at(image3, off)[low + 1] implies #[trigger] type_at(image6, p) == type_at(
        image3,
        p,
    ) by {
        assert(node_at(image6, p) == node_at(image5, p));
        assert(node_at(image5, p) == node_at(image4, p));
        assert(node_at(image4, p) == node_at(image3, p));
    }
}

/// The node and the child that are about to be mended are those of the
/// image.
pub proof fn lemma_mend_nodes(
    image0: Seq<u8>,
    image3: Seq<u8>,
    b: int,
    min: int,
    off: int,
    h: nat,
    lo: Option<Seq<char>>,
    hi: Option<Seq<char>>,
    root: bool,
    k: Seq<char>,
    node: NodeView,
    idx: int,
    child: NodeView,
)
    requires
        mend_ready(image0, image3, b, min, off, h, lo, hi, root, k, node, idx, child),
    ensures
        node_at(image3, off) == Some(node),
        kids_at(image3, off) == node.node_type->Internal_0,
        node_at(image3, kids_at(image3, off)[idx] as int) == Some(child),
{
    reveal(mend_ready);
}

/// Where nothing was mended, nothing has changed.
pub proof fn lemma_mend_trace_same(image3: Seq<u8>, b: int, off: int, idx: int)
    requires
        !(underflows(node_at(image3, kids_at(image3, off)[idx] as int)->Some_0, b) && kids_at(
            image3,
            off,
        ).len() >= 2),
    ensures
        mend_trace(image3, image3, b, off, idx),
{
    reveal(mend_trace);
}

/// What a merge leaves is what mending leaves where the two fit together.
pub proof fn lemma_mend_trace_merged(image3: Seq<u8>, image5: Seq<u8>, b: int, off: int, idx: int)
    requires
        merge_trace(image3, image5, off, lower(idx)),
        underflows(node_at(image3, kids_at(image3, off)[idx] as int)->Some_0, b),
        kids_at(image3, off).len() >= 2,
        fit_together(
            node_at(image3, kids_at(image3, off)[lower(idx)] as int)->Some_0,
            node_at(image3, kids_at(image3, off)[lower(idx) + 1] as int)->Some_0,
            b,
        ),
    ensures
        mend_trace(image3, image5, b, off, idx),
{
    reveal(mend_trace);
    reveal(merge_trace);
}

/// What sharing leaves is what mending leaves where the two do not fit
/// together.
pub proof fn lemma_mend_trace_shared(image3: Seq<u8>, image5: Seq<u8>, b: int, off: int, idx: int)
    requires
        share_trace(image3, image5, off, lower(idx)),
        underflows(node_at(image3, kids_at(image3, off)[idx] as int)->Some_0, b),
        kids_at(image3, off).len() >= 2,
        !fit_together(
            node_at(image3, kids_at(image3, off)[lower(idx)] as int)->Some_0,
            node_at(image3, kids_at(image3, off)[lower(idx) + 1] as int)->Some_0,
            b,
        ),
    ensures
        mend_trace(image3, image5, b, off, idx),
{
    reveal(mend_trace);
    reveal(share_trace);
}

/// What a merge leaves, said of the image in which children of the two
/// had been told where the merged node stands, holds of the image before
/// that.
pub proof fn lemma_merge_trace_handed(
    image3: Seq<u8>,
    handed: Seq<u8>,
    image5: Seq<u8>,
    off: int,
    low: int,
)
    requires
        crate::relink::reparented(image3, handed),
        off % 4096 == 0,
        node_at(handed, off) == node_at(image3, off),
        node_at(handed, kids_at(image3, off)[low] as int) == node_at(
            image3,
            kids_at(image3, off)[low] as int,
        ),
        node_at(handed, kids_at(image3, off)[low + 1] as int) == node_at(
            image3,
            kids_at(image3, off)[low + 1] as int,
        ),
        merge_trace(handed, image5, off, low),
    ensures
        merge_trace(image3, image5, off, low),
{
    reveal(merge_trace);
    assert forall|p: int|
        p % 4096 == 0 && p + 4096 <= image3.len() && p != off implies #[trigger] type_at(
        image5,
        p,
    ) == type_at(image3, p) by {
        assert(type_at(image5, p) == type_at(handed, p));
        assert(crate::relink::shape_at(handed, p) == crate::relink::shape_at(image3, p));
    }
}

/// What sharing leaves, said of the image in which the children that
/// change sides had been told where their parent stands, holds of the image
/// before that.
pub proof fn lemma_share_trace_handed(
    image3: Seq<u8>,
    handed: Seq<u8>,
    image5: Seq<u8>,
    off: int,
    low: int,
)
    requires
        crate::relink::reparented(image3, handed),
        node_at(handed, off) == node_at(image3, off),
        node_at(handed, kids_at(image3, off)[low] as int) == node_at(
            image3,
            kids_at(image3, off)[low] as int,
        ),
        node_at(handed, kids_at(image3, off)[low + 1] as int) == node_at(
            image3,
            kids_at(image3, off)[low + 1] as int,
        ),
        share_trace(handed, image5, off, low),
    ensures
        share_trace(image3, image5, off, low),
{
    reveal(share_trace);
    assert forall|p: int|
        p % 4096 == 0 && p + 4096 <= image3.len() && p != off && p != kids_at(image3, off)[low]
            && p != kids_at(image3, off)[low + 1] implies #[trigger] type_at(image5, p) == type_at(
        image3,
        p,
    ) by {
        assert(type_at(image5, p) == type_at(handed, p));
        assert(crate::relink::shape_at(handed, p) == crate::relink::shape_at(image3, p));
    }
}

/// Whether a page belongs to a sound subtree depends on the kind and the
/// entries of the nodes of the subtree, and on nothing else.
pub proof fn lemma_in_frame(
    image: Seq<u8>,
    image2: Seq<u8>,
    b: int,
    min: int,
    off: int,
    h: nat,
    lo: Option<Seq<char>>,
    hi: Option<Seq<char>>,
    root: bool,
    p: int,
)
    requires
        subtree_ok(image, b, min, off, h, lo, hi, root),
        forall|q: int| #[trigger]
            in_subtree(image, off, h, q) ==> type_at(image2, q) == type_at(image, q),
    ensures
        in_subtree(image2, off, h, p) == in_subtree(image, off, h, p),
    decreases h,
{
    reveal(subtree_ok);
    reveal(in_subtree);
    assert(in_subtree(image, off, h, off));
    assert(type_at(image2, off) == type_at(image, off));
    if h > 0 && p != off {
        let kids = kids_at(image, off);
        let seps = seps_at(image, off);
        assert forall|i: int| 0 <= i < kids.len() implies in_subtree(
            image2,
            #[trigger] kids[i] as int,
            (h - 1) as nat,
            p,
        ) == in_subtree(image, kids[i] as int, (h - 1) as nat, p) by {
            assert forall|q: int| #[trigger]
                in_subtree(image, kids[i] as int, (h - 1) as nat, q) implies type_at(image2, q)
                == type_at(image, q) by {
                lemma_in_child_in_parent(image, off, h, i, q);
            }
            lemma_in_frame(
                image,
                image2,
                b,
                min,
                kids[i] as int,
                (h - 1) as nat,
                crate::tree::child_lo(seps, lo, i),
                crate::tree::child_hi(seps, hi, i),
                false,
                p,
            );
        }
    }
}

/// A page that belongs to the subtree of child `idx` of a sound node, and
/// is not the child itself, belongs to the subtree of the node once the child
/// has been mended.
pub proof fn lemma_below_mended(
    image3: Seq<u8>,
    image5: Seq<u8>,
    b: int,
    off: int,
    h: nat,
    lo: Option<Seq<char>>,
    hi: Option<Seq<char>>,
    root: bool,
    idx: int,
    n: int,
)
    requires
        2 <= b,
        subtree_ok(image3, b, 0, off, h, lo, hi, root),
        h >= 2,
        0 <= idx < kids_at(image3, off).len(),
        in_subtree(image3, kids_at(image3, off)[idx] as int, (h - 1) as nat, n),
        n != kids_at(image3, off)[idx],
        image3.len() <= usize::MAX,
        mend_trace(image3, image5, b, off, idx),
    ensures
        in_subtree(image5, off, h, n),
{
    reveal(mend_trace);
    let kids = kids_at(image3, off);
    let seps = seps_at(image3, off);
    let g = (h - 1) as nat;
    let f = (h - 2) as nat;
    let c = kids[idx] as int;
    let low = lower(idx);
    let child3 = node_at(image3, c)->Some_0;
    assert(node_at(image3, off) is Some && node_at(image3, off)->Some_0.node_type is Internal) by {
        reveal(subtree_ok);
    }
    if !(underflows(child3, b) && kids.len() >= 2) {
        lemma_in_child_in_parent(image3, off, h, idx, n);
    } else {
        let other = neighbour(idx);
        assert(subtree_ok(
            image3,
            b,
            0,
            kids[low] as int,
            g,
            crate::tree::child_lo(seps, lo, low),
            crate::tree::child_hi(seps, hi, low),
            false,
        ) && subtree_ok(
            image3,
            b,
            0,
            kids[low + 1] as int,
            g,
            crate::tree::child_lo(seps, lo, low + 1),
            crate::tree::child_hi(seps, hi, low + 1),
            false,
        )) by {
            reveal(subtree_ok);
        }
        let first = node_at(image3, kids[low] as int)->Some_0;
        let second = node_at(image3, kids[low + 1] as int)->Some_0;
        assert(first.node_type is Internal && second.node_type is Internal) by {
            reveal(subtree_ok);
        }
        let c1 = first.node_type->Internal_0;
        let c2 = second.node_type->Internal_0;
        let both = c1 + c2;
        let ck = kids_at(image3, c);
        let j = choose|j: int|
            #![trigger ck[j]]
            0 <= j < ck.len() && in_subtree(image3, ck[j] as int, f, n);
        assert(0 <= j < ck.len() && in_subtree(image3, ck[j] as int, f, n)) by {
            reveal(in_subtree);
        }
        crate::relink::lemma_grandchildren(image3, b, 0, off, h, lo, hi, root, idx, j);
        let q = ck[j] as int;
        let gs = seps_at(image3, c);
        let qlo = crate::tree::child_lo(gs, crate::tree::child_lo(seps, lo, idx), j);
        let qhi = crate::tree::child_hi(gs, crate::tree::child_hi(seps, hi, idx), j);
        assert forall|p: int| #[trigger] in_subtree(image3, q, f, p) implies type_at(image5, p)
            == type_at(image3, p) by {
            lemma_in_subtree_valid(image3, b, 0, q, f, qlo, qhi, false, p);
            reveal(subtree_ok);
            lemma_in_child_in_parent(image3, c, g, j, p);
            assert(!in_subtree(image3, kids[idx] as int, g, off));
            assert(!in_subtree(image3, ck[j] as int, f, c));
            crate::tree_share::lemma_apart_from(image3, b, off, h, lo, hi, root, idx, other, p);
        }
        lemma_in_frame(image3, image5, b, 0, q, f, qlo, qhi, false, n);
        let at = if idx == low {
            j
        } else {
            c1.len() + j
        };
        assert(both[at] == ck[j]);
        if fit_together(first, second, b) {
            let m = image3.len() as int;
            assert(kids_at(image5, m) == both);
            lemma_in_child_in_parent(image5, m, g, at, n);
            assert(kids_at(image5, off)[low] == m);
            lemma_in_child_in_parent(image5, off, h, low, n);
        } else {
            let half = (entries_of(first) + entries_of(second)) / 2;
            assert(kids_at(image5, kids[low] as int) == both.subrange(0, half));
            assert(kids_at(image5, kids[low + 1] as int) == both.subrange(
                half,
                both.len() as int,
            ));
            if at < half {
                assert(both.subrange(0, half)[at] == both[at]);
                lemma_in_child_in_parent(image5, kids[low] as int, g, at, n);
                lemma_in_child_in_parent(image5, off, h, low, n);
            } else {
                assert(both.subrange(half, both.len() as int)[at - half] == both[at]);
                lemma_in_child_in_parent(image5, kids[low + 1] as int, g, at - half, n);
                lemma_in_child_in_parent(image5, off, h, low + 1, n);
            }
        }
    }
}

/// A page below the root of a sound tree belongs to the subtree of the
/// only child of the root, also once that child has been made the root.
pub proof fn lemma_below_collapsed(
    image2: Seq<u8>,
    image3: Seq<u8>,
    b: int,
    root: int,
    h: nat,
    n: int,
)
    requires
        subtree_ok(image2, b, 0, root, h, None, None, true),
        h >= 1,
        in_subtree(image2, root, h, n),
        n != root,
        kids_at(image2, root).len() == 1,
        forall|p: int| p % 4096 == 0 ==> type_at(image3, p) == #[trigger] type_at(image2, p),
    ensures
        in_subtree(image3, kids_at(image2, root)[0] as int, (h - 1) as nat, n),
{
    let kids = kids_at(image2, root);
    let seps = seps_at(image2, root);
    let g = (h - 1) as nat;
    assert(in_subtree(image2, kids[0] as int, g, n)) by {
        reveal(in_subtree);
        reveal(subtree_ok);
    }
    assert(subtree_ok(
        image2,
        b,
        0,
        kids[0] as int,
        g,
        crate::tree::child_lo(seps, None, 0),
        crate::tree::child_hi(seps, None, 0),
        false,
    )) by {
        reveal(subtree_ok);
    }
    assert forall|q: int| #[trigger] in_subtree(image2, kids[0] as int, g, q) implies type_at(
        image3,
        q,
    ) == type_at(image2, q) by {
        lemma_in_subtree_valid(
            image2,
            b,
            0,
            kids[0] as int,
            g,
            crate::tree::child_lo(seps, None, 0),
            crate::tree::child_hi(seps, None, 0),
            false,
            q,
        );
    }
    lemma_in_frame(
        image2,
        image3,
        b,
        0,
        kids[0] as int,
        g,
        crate::tree::child_lo(seps, None, 0),
        crate::tree::child_hi(seps, None, 0),
        false,
        n,
    );
}

} // verus!
