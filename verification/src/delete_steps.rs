//! What each step of a deletion leaves behind: the conditions that the
//! tree code hands from one write to the next.

use crate::encoding::{round_trips, storable};
use crate::node::NodeView;
use crate::node_type::NodeTypeView;
use crate::tree::{
    branches, child_hi, child_lo, child_slot, in_subtree, lemma_child_slot, lemma_has_in_slot,
    lemma_node_at_round_trips, lemma_node_at_within, node_at, pairs_ascend, subtree_has,
    subtree_ok, tree_map, tree_ok, MAX_BRANCHING_FACTOR,
};
use crate::tree_delete::{
    fit_together, lemma_leaf_removed, lemma_merge_parent, lemma_relax_fill, lemma_root_collapsed,
    lemma_tree_map_removed, merge_done, merged_type, underflows,
};
use crate::tree_fill::{
    fills, fills_except, keys_of, lemma_fills_after_child, lemma_fills_merged, lemma_fills_ok,
    lemma_fills_shared, lemma_ok_fills,
};
use crate::tree_insert::{
    grows_within, kids_at, lemma_child_updated, lemma_in_child_in_parent, seps_at, unchanged_but,
};
use crate::tree_share::{entries_of, halves_fit, joined, lemma_share_parent, share_done};
use crate::wal::last_record;
use vstd::prelude::*;

verus! {

/// Whether the subtree at `off` stores a value under the key `k`.
pub open spec fn subtree_holds(image: Seq<u8>, off: int, h: nat, k: Seq<char>) -> bool {
    exists|v: Seq<char>| subtree_has(image, off, h, k, v)
}

/// A node that is fit to be a root, or whose only child is.
pub open spec fn settled(image: Seq<u8>, off: int) -> bool {
    match node_at(image, off) {
        Some(node) => match node.node_type {
            NodeTypeView::Internal(children, _) => children.len() >= 2 || (children.len() == 1
                && branches(node_at(image, children[0] as int))),
            _ => true,
        },
        None => true,
    }
}

/// What must hold for a key to be taken out of the subtree at `off`: the
/// subtree is sound.
#[verifier::opaque]
pub open spec fn delete_ready(
    image: Seq<u8>,
    b: int,
    off: int,
    h: nat,
    lo: Option<Seq<char>>,
    hi: Option<Seq<char>>,
    root: bool,
) -> bool {
    &&& 2 <= b <= MAX_BRANCHING_FACTOR
    &&& image.len() % 4096 == 0
    &&& subtree_ok(image, b, 0, off, h, lo, hi, root)
}

/// What holds once the key `k` has been taken out of the subtree at `off`:
/// the image has grown by at most one page for each level below `off` and
/// has changed within the subtree only; the subtree is sound as before and
/// stores what it stored but for `k`; its root, where it was fit to be the
/// root of a tree, still is, or its only child is.
#[verifier::opaque]
pub open spec fn deleted_below(
    image: Seq<u8>,
    image2: Seq<u8>,
    b: int,
    off: int,
    h: nat,
    lo: Option<Seq<char>>,
    hi: Option<Seq<char>>,
    root: bool,
    k: Seq<char>,
) -> bool {
    &&& image2.len() % 4096 == 0
    &&& image2.len() <= image.len() + h * 4096
    &&& grows_within(image, image2, off, h)
    &&& subtree_ok(image2, b, 0, off, h, lo, hi, root)
    &&& branches(node_at(image, off)) ==> settled(image2, off)
    &&& forall|k2: Seq<char>, v2: Seq<char>|
        #[trigger] subtree_has(image2, off, h, k2, v2) <==> subtree_has(image, off, h, k2, v2)
            && k2 != k
}

/// What a leaf from which a key is to be taken is like: its page lies
/// within the image and it round-trips; its keys ascend; it stores exactly
/// its pairs.
pub proof fn lemma_gone_leaf(
    image: Seq<u8>,
    b: int,
    off: int,
    h: nat,
    lo: Option<Seq<char>>,
    hi: Option<Seq<char>>,
    root: bool,
    node: NodeView,
    k: Seq<char>,
)
    requires
        delete_ready(image, b, off, h, lo, hi, root),
        node_at(image, off) == Some(node),
        node.node_type is Leaf,
    ensures
        h == 0,
        off % 4096 == 0,
        0 <= off,
        off + 4096 <= image.len(),
        round_trips(node),
        node.is_root == root,
        pairs_ascend(node.node_type->Leaf_0),
        (forall|j: int|
            0 <= j < node.node_type->Leaf_0.len() ==> (#[trigger] node.node_type->Leaf_0[j]).0
                != k) ==> !subtree_holds(image, off, h, k),
        forall|j: int|
            0 <= j < node.node_type->Leaf_0.len() && (#[trigger] node.node_type->Leaf_0[j]).0 == k
                ==> subtree_holds(image, off, h, k),
{
    reveal(delete_ready);
    reveal(subtree_ok);
    reveal(subtree_has);
    lemma_node_at_round_trips(image, off);
    lemma_node_at_within(image, off);
    let pairs = node.node_type->Leaf_0;
    assert forall|j: int| 0 <= j < pairs.len() && (#[trigger] pairs[j]).0 == k implies subtree_holds(
        image,
        off,
        h,
        k,
    ) by {
        assert(pairs[j] == (k, pairs[j].1));
        assert(subtree_has(image, off, h, k, pairs[j].1));
    }
}

/// A leaf that round-trips round-trips without one of its pairs.
pub proof fn lemma_leaf_shrunk_round_trips(node: NodeView, at: int, less: NodeView)
    requires
        round_trips(node),
        node.node_type is Leaf,
        0 <= at < node.node_type->Leaf_0.len(),
        less.is_root == node.is_root,
        less.parent_offset == node.parent_offset,
        less.node_type == NodeTypeView::Leaf(node.node_type->Leaf_0.remove(at)),
    ensures
        round_trips(less),
{
    let pairs = node.node_type->Leaf_0;
    let fewer = pairs.remove(at);
    assert forall|j: int| 0 <= j < fewer.len() implies storable((#[trigger] fewer[j]).0, 10)
        && storable(fewer[j].1, 10) by {
        if j < at {
            assert(fewer[j] == pairs[j]);
        } else {
            assert(fewer[j] == pairs[j + 1]);
        }
    }
}

/// The key has been taken out of a leaf.
pub proof fn lemma_delete_leaf(
    image: Seq<u8>,
    image2: Seq<u8>,
    b: int,
    off: int,
    h: nat,
    lo: Option<Seq<char>>,
    hi: Option<Seq<char>>,
    root: bool,
    node: NodeView,
    at: int,
    k: Seq<char>,
)
    requires
        delete_ready(image, b, off, h, lo, hi, root),
        node_at(image, off) == Some(node),
        node.node_type is Leaf,
        0 <= at < node.node_type->Leaf_0.len(),
        node.node_type->Leaf_0[at].0 == k,
        image2.len() == image.len(),
        unchanged_but(image, image2, off),
        node_at(image2, off) is Some,
        node_at(image2, off)->Some_0.is_root == root,
        node_at(image2, off)->Some_0.node_type == NodeTypeView::Leaf(
            node.node_type->Leaf_0.remove(at),
        ),
    ensures
        deleted_below(image, image2, b, off, h, lo, hi, root, k),
{
    reveal(delete_ready);
    reveal(deleted_below);
    lemma_gone_leaf(image, b, off, h, lo, hi, root, node, k);
    lemma_leaf_removed(image, image2, b, off, lo, hi, root, at);
    reveal(in_subtree);
    assert(in_subtree(image, off, h, off));
}

/// What an internal node below which a key is to be taken out is like, and
/// the child into which the search for the key descends: the pages of both
/// lie within the image; the node round-trips; the child is ready; the node
/// stores a value under the key exactly where the child does.
pub proof fn lemma_gone_internal(
    image: Seq<u8>,
    b: int,
    off: int,
    h: nat,
    lo: Option<Seq<char>>,
    hi: Option<Seq<char>>,
    root: bool,
    node: NodeView,
    k: Seq<char>,
)
    requires
        delete_ready(image, b, off, h, lo, hi, root),
        node_at(image, off) == Some(node),
        node.node_type is Internal,
    ensures
        h > 0,
        2 <= b <= MAX_BRANCHING_FACTOR,
        image.len() % 4096 == 0,
        off % 4096 == 0,
        0 <= off,
        off + 4096 <= image.len(),
        round_trips(node),
        node.is_root == root,
        node.node_type->Internal_0.len() == node.node_type->Internal_1.len() + 1,
        0 <= child_slot(node.node_type->Internal_1, k) < node.node_type->Internal_0.len(),
        delete_ready(
            image,
            b,
            node.node_type->Internal_0[child_slot(node.node_type->Internal_1, k)] as int,
            (h - 1) as nat,
            child_lo(node.node_type->Internal_1, lo, child_slot(node.node_type->Internal_1, k)),
            child_hi(node.node_type->Internal_1, hi, child_slot(node.node_type->Internal_1, k)),
            false,
        ),
        subtree_holds(image, off, h, k) <==> subtree_holds(
            image,
            node.node_type->Internal_0[child_slot(node.node_type->Internal_1, k)] as int,
            (h - 1) as nat,
            k,
        ),
{
    reveal(delete_ready);
    reveal(subtree_ok);
    lemma_node_at_round_trips(image, off);
    lemma_node_at_within(image, off);
    let kids = node.node_type->Internal_0;
    let seps = node.node_type->Internal_1;
    lemma_child_slot(seps, k);
    let idx = child_slot(seps, k);
    let c = kids[idx] as int;
    let g = (h - 1) as nat;
    assert(subtree_ok(
        image,
        b,
        0,
        kids[idx] as int,
        g,
        child_lo(seps, lo, idx),
        child_hi(seps, hi, idx),
        false,
    ));
    if subtree_holds(image, off, h, k) {
        let v = choose|v: Seq<char>| subtree_has(image, off, h, k, v);
        lemma_has_in_slot(image, b, 0, off, h, lo, hi, root, k, v);
        assert(subtree_has(image, c, g, k, v));
    }
    if subtree_holds(image, c, g, k) {
        let v = choose|v: Seq<char>| subtree_has(image, c, g, k, v);
        lemma_has_in_slot(image, b, 0, off, h, lo, hi, root, k, v);
        assert(subtree_has(image, off, h, k, v));
    }
}

/// Once the key has been taken out below the child into which the search
/// descends, it has been taken out below the node, whose page is what it
/// was.
pub proof fn lemma_delete_ascend(
    image: Seq<u8>,
    image2: Seq<u8>,
    b: int,
    off: int,
    h: nat,
    lo: Option<Seq<char>>,
    hi: Option<Seq<char>>,
    root: bool,
    node: NodeView,
    k: Seq<char>,
)
    requires
        delete_ready(image, b, off, h, lo, hi, root),
        node_at(image, off) == Some(node),
        node.node_type is Internal,
        h > 0,
        deleted_below(
            image,
            image2,
            b,
            node.node_type->Internal_0[child_slot(node.node_type->Internal_1, k)] as int,
            (h - 1) as nat,
            child_lo(node.node_type->Internal_1, lo, child_slot(node.node_type->Internal_1, k)),
            child_hi(node.node_type->Internal_1, hi, child_slot(node.node_type->Internal_1, k)),
            false,
            k,
        ),
    ensures
        deleted_below(image, image2, b, off, h, lo, hi, root, k),
        node_at(image2, off) == Some(node),
{
    lemma_gone_internal(image, b, off, h, lo, hi, root, node, k);
    reveal(delete_ready);
    reveal(deleted_below);
    let kids = node.node_type->Internal_0;
    let seps = node.node_type->Internal_1;
    let idx = child_slot(seps, k);
    let c = kids[idx] as int;
    let g = (h - 1) as nat;
    lemma_child_updated(image, image2, b, 0, off, h, lo, hi, root, idx);
    assert forall|k2: Seq<char>, v2: Seq<char>| #[trigger]
        subtree_has(image2, off, h, k2, v2) <==> subtree_has(image, off, h, k2, v2) && k2 != k by {
        if subtree_has(image, c, g, k2, v2) {
            reveal(subtree_has);
            assert(subtree_has(image, kids[idx] as int, g, k2, v2));
            assert(subtree_has(image, off, h, k2, v2));
        }
        if subtree_has(image, off, h, k2, v2) && k2 == k {
            lemma_has_in_slot(image, b, 0, off, h, lo, hi, root, k, v2);
        }
    }
    assert(image2.len() <= image.len() + h * 4096) by (nonlinear_arith)
        requires
            image2.len() <= image.len() + (h - 1) * 4096,
            h > 0,
    ;
}

/// The two writes that merge the children `low` and `low + 1` of `node`,
/// the node at `off`: from `image3` to `image4` what merging them gives has
/// been written to a new page at the end, and from there to `image5` the
/// node over its own page, with that page as its child `low` in place of the
/// two and without the key between them.
pub open spec fn merge_written(
    image3: Seq<u8>,
    image4: Seq<u8>,
    image5: Seq<u8>,
    b: int,
    off: int,
    node: NodeView,
    low: int,
    m: usize,
    merged: NodeView,
    shrunk: NodeView,
) -> bool {
    let kids = node.node_type->Internal_0;
    let seps = node.node_type->Internal_1;
    let left = node_at(image3, kids[low] as int)->Some_0;
    let right = node_at(image3, kids[low + 1] as int)->Some_0;
    &&& 0 <= low
    &&& low + 1 < kids.len()
    &&& fit_together(left, right, b)
    &&& merged.node_type == merged_type(left, right, seps[low])
    &&& merged.parent_offset == left.parent_offset
    &&& !merged.is_root
    &&& m == image3.len()
    &&& image4.len() == image3.len() + 4096
    &&& node_at(image4, m as int) == Some(merged)
    &&& unchanged_but(image3, image4, m as int)
    &&& image5.len() == image4.len()
    &&& node_at(image5, off) == Some(shrunk)
    &&& unchanged_but(image4, image5, off)
    &&& shrunk.is_root == node.is_root
    &&& shrunk.parent_offset == node.parent_offset
    &&& shrunk.node_type == NodeTypeView::Internal(
        kids.remove(low + 1).update(low, m),
        seps.remove(low),
    )
}

/// What two neighbouring children are like once the key has been taken out
/// below their parent: their pages lie within the image; both are leaves or
/// both internal nodes, and neither is a root; where they fit together, what
/// merging them gives round-trips, with the parent of the first as its
/// parent, and so does their parent with one child and one key less.
pub proof fn lemma_merge_ready(
    image0: Seq<u8>,
    image3: Seq<u8>,
    b: int,
    off: int,
    h: nat,
    lo: Option<Seq<char>>,
    hi: Option<Seq<char>>,
    root: bool,
    node: NodeView,
    k: Seq<char>,
    low: int,
)
    requires
        deleted_below(image0, image3, b, off, h, lo, hi, root, k),
        node_at(image3, off) == Some(node),
        node.node_type is Internal,
        0 <= low,
        low + 1 < node.node_type->Internal_0.len(),
        2 <= b <= MAX_BRANCHING_FACTOR,
    ensures
        h > 0,
        image3.len() % 4096 == 0,
        off % 4096 == 0,
        off + 4096 <= image3.len(),
        node.node_type->Internal_0.len() == node.node_type->Internal_1.len() + 1,
        node_at(image3, node.node_type->Internal_0[low] as int) is Some,
        node_at(image3, node.node_type->Internal_0[low + 1] as int) is Some,
        ({
            let left = node_at(image3, node.node_type->Internal_0[low] as int)->Some_0;
            let right = node_at(image3, node.node_type->Internal_0[low + 1] as int)->Some_0;
            let sep = node.node_type->Internal_1[low];
            &&& !left.is_root
            &&& !right.is_root
            &&& left.node_type is Leaf <==> right.node_type is Leaf
            &&& left.node_type is Internal <==> right.node_type is Internal
            &&& !(left.node_type is Unexpected)
            &&& storable(sep, 10)
            &&& round_trips(left)
            &&& round_trips(right)
            &&& left.node_type is Internal ==> left.node_type->Internal_0.len()
                == left.node_type->Internal_1.len() + 1
            &&& fit_together(left, right, b) ==> round_trips(
                NodeView {
                    node_type: merged_type(left, right, sep),
                    is_root: false,
                    parent_offset: left.parent_offset,
                },
            )
        }),
        round_trips(node),
{
    reveal(deleted_below);
    reveal(subtree_ok);
    lemma_node_at_round_trips(image3, off);
    lemma_node_at_within(image3, off);
    let kids = node.node_type->Internal_0;
    let seps = node.node_type->Internal_1;
    let g = (h - 1) as nat;
    assert(subtree_ok(
        image3,
        b,
        0,
        kids[low] as int,
        g,
        child_lo(seps, lo, low),
        child_hi(seps, hi, low),
        false,
    ));
    assert(subtree_ok(
        image3,
        b,
        0,
        kids[low + 1] as int,
        g,
        child_lo(seps, lo, low + 1),
        child_hi(seps, hi, low + 1),
        false,
    ));
    let l = kids[low] as int;
    let r = kids[low + 1] as int;
    lemma_node_at_round_trips(image3, l);
    lemma_node_at_round_trips(image3, r);
    let left = node_at(image3, l)->Some_0;
    let right = node_at(image3, r)->Some_0;
    let sep = seps[low];
    assert(storable(sep, 10));
    if fit_together(left, right, b) {
        let merged = NodeView {
            node_type: merged_type(left, right, sep),
            is_root: false,
            parent_offset: left.parent_offset,
        };
        match left.node_type {
            NodeTypeView::Leaf(first_shown) => {
                let second_shown = right.node_type->Leaf_0;
                let all = first_shown + second_shown;
                assert forall|j: int| 0 <= j < all.len() implies storable(
                    (#[trigger] all[j]).0,
                    10,
                ) && storable(all[j].1, 10) by {
                    if j < first_shown.len() {
                        assert(all[j] == first_shown[j]);
                    } else {
                        assert(all[j] == second_shown[j - first_shown.len()]);
                    }
                }
            },
            NodeTypeView::Internal(c1, s1) => {
                let s2 = right.node_type->Internal_1;
                let ms = s1.push(sep) + s2;
                assert forall|j: int| 0 <= j < ms.len() implies storable(#[trigger] ms[j], 10) by {
                    if j < s1.len() {
                        assert(ms[j] == s1[j]);
                    } else if j > s1.len() {
                        assert(ms[j] == s2[j - s1.len() - 1]);
                    }
                }
            },
            NodeTypeView::Unexpected => {},
        }
    }
}

/// An internal node that round-trips round-trips with two neighbouring
/// children replaced by one and without the key between them.
pub proof fn lemma_internal_shrunk_round_trips(
    node: NodeView,
    low: int,
    m: usize,
    shrunk: NodeView,
)
    requires
        round_trips(node),
        node.node_type is Internal,
        0 <= low,
        low + 1 < node.node_type->Internal_0.len(),
        shrunk.is_root == node.is_root,
        shrunk.parent_offset == node.parent_offset,
        shrunk.node_type == NodeTypeView::Internal(
            node.node_type->Internal_0.remove(low + 1).update(low, m),
            node.node_type->Internal_1.remove(low),
        ),
    ensures
        round_trips(shrunk),
{
    let seps = node.node_type->Internal_1;
    let fewer = seps.remove(low);
    assert forall|j: int| 0 <= j < fewer.len() implies storable(#[trigger] fewer[j], 10) by {
        if j < low {
            assert(fewer[j] == seps[j]);
        } else {
            assert(fewer[j] == seps[j + 1]);
        }
    }
}

/// Once two children of the node have been merged after the key has been
/// taken out below it, the key has still been taken out below the node as
/// `deleted_below` says.
pub proof fn lemma_merge_finish(
    image0: Seq<u8>,
    image3: Seq<u8>,
    image4: Seq<u8>,
    image5: Seq<u8>,
    b: int,
    off: int,
    h: nat,
    lo: Option<Seq<char>>,
    hi: Option<Seq<char>>,
    root: bool,
    node: NodeView,
    k: Seq<char>,
    low: int,
    m: usize,
    merged: NodeView,
    shrunk: NodeView,
)
    requires
        2 <= b <= MAX_BRANCHING_FACTOR,
        image0.len() % 4096 == 0,
        h > 0,
        deleted_below(image0, image3, b, off, h, lo, hi, root, k),
        image3.len() <= image0.len() + (h - 1) * 4096,
        node_at(image3, off) == Some(node),
        node.node_type is Internal,
        merge_written(image3, image4, image5, b, off, node, low, m, merged, shrunk),
    ensures
        deleted_below(image0, image5, b, off, h, lo, hi, root, k),
        merge_done(image3, image5, b, off, h, lo, hi, root, low, m),
{
    reveal(deleted_below);
    assert(merge_done(image3, image5, b, off, h, lo, hi, root, low, m)) by {
        let kids = node.node_type->Internal_0;
        let seps = node.node_type->Internal_1;
        assert(kids_at(image3, off) == kids);
        assert(seps_at(image3, off) == seps);
        assert(m != off) by {
            lemma_node_at_within(image3, off);
        }
        assert(node_at(image5, m as int) == node_at(image4, m as int));
        assert(node_at(image5, m as int) is Some);
        assert(!node_at(image5, m as int)->Some_0.is_root);
        assert(node_at(image5, m as int)->Some_0.node_type == merged_type(
            node_at(image3, kids[low] as int)->Some_0,
            node_at(image3, kids[low + 1] as int)->Some_0,
            seps[low],
        ));
        assert(node_at(image5, off) is Some);
        assert(node_at(image5, off)->Some_0.is_root == root) by {
            reveal(subtree_ok);
        }
        assert(subtree_ok(image3, b, 0, off, h, lo, hi, root));
        assert(m % 4096 == 0);
        assert forall|p: int| p % 4096 == 0 && p != off && p != m implies #[trigger] node_at(
            image5,
            p,
        ) == node_at(image3, p) by {
            assert(node_at(image5, p) == node_at(image4, p));
            assert(node_at(image4, p) == node_at(image3, p));
        }
    }
    lemma_merge_parent(image3, image5, b, off, h, lo, hi, root, low, m);
    assert forall|p: int|
        p % 4096 == 0 && p + 4096 <= image0.len() && !in_subtree(
            image0,
            off,
            h,
            p,
        ) implies #[trigger] node_at(image5, p) == node_at(image0, p) by {
        assert(node_at(image3, p) == node_at(image0, p));
        reveal(in_subtree);
        assert(in_subtree(image0, off, h, off));
        assert(node_at(image5, p) == node_at(image4, p));
        assert(node_at(image4, p) == node_at(image3, p));
    }
    assert forall|p: int| #[trigger] in_subtree(image5, off, h, p) implies in_subtree(
        image0,
        off,
        h,
        p,
    ) || p >= image0.len() by {
        if in_subtree(image3, off, h, p) {
        } else {
            assert(p == m);
        }
    }
    assert(kids_at(image5, off).len() == kids_at(image3, off).len() - 1);
    if branches(node_at(image0, off)) {
        assert(settled(image3, off));
        assert(settled(image5, off)) by {
            let kids5 = kids_at(image5, off);
            if kids5.len() == 1 {
                assert(low == 0);
                assert(kids5[0] == m);
            }
        }
    }
    assert(image5.len() <= image0.len() + h * 4096) by (nonlinear_arith)
        requires
            image5.len() == image3.len() + 4096,
            image3.len() <= image0.len() + (h - 1) * 4096,
            h > 0,
    ;
}

/// The root of a sound tree is ready for a key to be taken out below it,
/// and stores a value under a key exactly where the map of the tree does.
pub proof fn lemma_delete_root_ready(
    image: Seq<u8>,
    log: Seq<u8>,
    b: int,
    min: int,
    h: nat,
    k: Seq<char>,
)
    requires
        tree_ok(image, log, b, min, h),
    ensures
        delete_ready(image, b, last_record(log) as int, h, None, None, true),
        subtree_holds(image, last_record(log) as int, h, k) <==> tree_map(
            image,
            last_record(log) as int,
            h,
        ).contains_key(k),
        last_record(log) + 4096 <= image.len(),
{
    reveal(delete_ready);
    let root = last_record(log) as int;
    lemma_relax_fill(image, b, min, root, h, None, None, true);
    assert(node_at(image, root) is Some) by {
        reveal(subtree_ok);
    }
    lemma_node_at_within(image, root);
}

/// Once the key has been taken out below the root, and the root is still
/// fit to be one, the image and the log with the root as its last record hold
/// a sound tree, whose map is the map of the tree before without the key.
pub proof fn lemma_delete_done(
    image0: Seq<u8>,
    log0: Seq<u8>,
    h0: nat,
    image2: Seq<u8>,
    log2: Seq<u8>,
    b: int,
    min: int,
    k: Seq<char>,
)
    requires
        tree_ok(image0, log0, b, min, h0),
        deleted_below(image0, image2, b, last_record(log0) as int, h0, None, None, true, k),
        log2.len() >= 8,
        last_record(log2) == last_record(log0),
        image2.len() <= usize::MAX,
        branches(node_at(image2, last_record(log0) as int)),
    ensures
        tree_ok(image2, log2, b, 0, h0),
        tree_map(image2, last_record(log2) as int, h0) == tree_map(
            image0,
            last_record(log0) as int,
            h0,
        ).remove(k),
        image0.len() <= image2.len() <= image0.len() + h0 * 4096,
{
    reveal(deleted_below);
    let root = last_record(log0) as int;
    lemma_relax_fill(image0, b, min, root, h0, None, None, true);
    lemma_tree_map_removed(image0, root, h0, image2, root, h0, b, k);
}

/// Once the key has been taken out below the root, which has been left
/// with one child, and that child has been written as the root, the image and
/// the log with the child as its last record hold a sound tree, one level
/// lower, whose map is the map of the tree before without the key.
pub proof fn lemma_delete_collapsed(
    image0: Seq<u8>,
    log0: Seq<u8>,
    h0: nat,
    image2: Seq<u8>,
    image3: Seq<u8>,
    log3: Seq<u8>,
    b: int,
    min: int,
    k: Seq<char>,
    top: NodeView,
)
    requires
        tree_ok(image0, log0, b, min, h0),
        deleted_below(image0, image2, b, last_record(log0) as int, h0, None, None, true, k),
        node_at(image2, last_record(log0) as int) is Some,
        node_at(image2, last_record(log0) as int)->Some_0.node_type is Internal,
        kids_at(image2, last_record(log0) as int).len() == 1,
        last_record(log3) == kids_at(image2, last_record(log0) as int)[0],
        log3.len() >= 8,
        image3.len() == image2.len(),
        image3.len() <= usize::MAX,
        unchanged_but(image2, image3, last_record(log3) as int),
        node_at(image3, last_record(log3) as int) == Some(top),
        top.is_root,
        top.node_type == node_at(image2, last_record(log3) as int)->Some_0.node_type,
    ensures
        h0 > 0,
        tree_ok(image3, log3, b, 0, (h0 - 1) as nat),
        tree_map(image3, last_record(log3) as int, (h0 - 1) as nat) == tree_map(
            image0,
            last_record(log0) as int,
            h0,
        ).remove(k),
        image0.len() <= image3.len() <= image0.len() + h0 * 4096,
{
    reveal(deleted_below);
    let root = last_record(log0) as int;
    let c = last_record(log3) as int;
    lemma_relax_fill(image0, b, min, root, h0, None, None, true);
    assert(h0 > 0) by {
        reveal(subtree_ok);
    }
    assert(settled(image2, root));
    lemma_root_collapsed(image2, image3, b, root, h0);
    assert forall|k2: Seq<char>, v2: Seq<char>| #[trigger]
        subtree_has(image3, c, (h0 - 1) as nat, k2, v2) <==> subtree_has(
            image0,
            root,
            h0,
            k2,
            v2,
        ) && k2 != k by {
        assert(subtree_has(image2, root, h0, k2, v2) <==> subtree_has(image0, root, h0, k2, v2)
            && k2 != k);
    }
    lemma_tree_map_removed(image0, root, h0, image3, c, (h0 - 1) as nat, b, k);
    assert(h0 * 4096 <= image3.len()) by (nonlinear_arith)
        requires
            (h0 + 1) * 4096 <= image0.len(),
            image0.len() <= image3.len(),
    ;
    assert(image0.len() <= image2.len()) by {
        assert(grows_within(image0, image2, root, h0));
    }
}

/// What the only child of a root is like once a key has been taken out
/// below the root: its page lies within the image, and it round-trips as a
/// root without a parent.
pub proof fn lemma_collapse_ready(
    image0: Seq<u8>,
    image2: Seq<u8>,
    b: int,
    off: int,
    h: nat,
    k: Seq<char>,
    top: NodeView,
)
    requires
        deleted_below(image0, image2, b, off, h, None, None, true, k),
        node_at(image2, off) is Some,
        node_at(image2, off)->Some_0.node_type is Internal,
        kids_at(image2, off).len() == 1,
        node_at(image2, kids_at(image2, off)[0] as int) is Some ==> {
            &&& top.is_root
            &&& top.parent_offset is None
            &&& top.node_type == node_at(image2, kids_at(image2, off)[0] as int)->Some_0.node_type
        },
    ensures
        image2.len() % 4096 == 0,
        kids_at(image2, off)[0] % 4096 == 0,
        kids_at(image2, off)[0] + 4096 <= image2.len(),
        node_at(image2, kids_at(image2, off)[0] as int) is Some,
        round_trips(top),
{
    reveal(deleted_below);
    reveal(subtree_ok);
    let kids = kids_at(image2, off);
    let seps = seps_at(image2, off);
    let c = kids[0] as int;
    assert(subtree_ok(
        image2,
        b,
        0,
        kids[0] as int,
        (h - 1) as nat,
        child_lo(seps, None, 0),
        child_hi(seps, None, 0),
        false,
    ));
    lemma_node_at_round_trips(image2, c);
    lemma_node_at_within(image2, c);
}

/// The three writes that share out the entries of the children `low` and
/// `low + 1` of `node`, the node at `off`: from `image3` to `image4` the first
/// `m` entries of what merging the two gives have been written over the
/// first, from there to `image5` the rest over the second, and from there to
/// `image6` the node over its own page, with the key that goes up between the
/// two.
pub open spec fn share_written(
    image3: Seq<u8>,
    image4: Seq<u8>,
    image5: Seq<u8>,
    image6: Seq<u8>,
    b: int,
    off: int,
    node: NodeView,
    low: int,
    m: int,
    left: NodeView,
    right: NodeView,
    rekeyed: NodeView,
) -> bool {
    let kids = node.node_type->Internal_0;
    let seps = node.node_type->Internal_1;
    let whole = joined(
        node_at(image3, kids[low] as int)->Some_0,
        node_at(image3, kids[low + 1] as int)->Some_0,
        seps[low],
    );
    &&& 0 <= low
    &&& low + 1 < kids.len()
    &&& halves_fit(whole, b, m)
    &&& left == whole.split_left(m)
    &&& right == whole.split_right(m)
    &&& image4.len() == image3.len()
    &&& node_at(image4, kids[low] as int) == Some(left)
    &&& unchanged_but(image3, image4, kids[low] as int)
    &&& image5.len() == image4.len()
    &&& node_at(image5, kids[low + 1] as int) == Some(right)
    &&& unchanged_but(image4, image5, kids[low + 1] as int)
    &&& image6.len() == image5.len()
    &&& node_at(image6, off) == Some(rekeyed)
    &&& unchanged_but(image5, image6, off)
    &&& rekeyed.is_root == node.is_root
    &&& rekeyed.parent_offset == node.parent_offset
    &&& rekeyed.node_type == NodeTypeView::Internal(kids, seps.update(low, whole.split_median(m)))
}

/// What two neighbouring children that do not fit into one node give when
/// their entries are shared out in halves: both halves are nodes that
/// round-trip, the key that goes up is storable, and the pages of the two
/// children lie within the image, apart from each other and from the page of
/// their parent.
pub proof fn lemma_share_ready(
    image0: Seq<u8>,
    image3: Seq<u8>,
    b: int,
    off: int,
    h: nat,
    lo: Option<Seq<char>>,
    hi: Option<Seq<char>>,
    root: bool,
    node: NodeView,
    k: Seq<char>,
    low: int,
)
    requires
        deleted_below(image0, image3, b, off, h, lo, hi, root, k),
        node_at(image3, off) == Some(node),
        node.node_type is Internal,
        0 <= low,
        low + 1 < node.node_type->Internal_0.len(),
        2 <= b <= MAX_BRANCHING_FACTOR,
        !fit_together(
            node_at(image3, node.node_type->Internal_0[low] as int)->Some_0,
            node_at(image3, node.node_type->Internal_0[low + 1] as int)->Some_0,
            b,
        ),
    ensures
        ({
            let left = node_at(image3, node.node_type->Internal_0[low] as int)->Some_0;
            let right = node_at(image3, node.node_type->Internal_0[low + 1] as int)->Some_0;
            let whole = joined(left, right, node.node_type->Internal_1[low]);
            let m = (entries_of(left) + entries_of(right)) / 2;
            &&& entries_of(whole) == entries_of(left) + entries_of(right)
            &&& entries_of(left) <= 2 * b
            &&& entries_of(right) <= 2 * b
            &&& halves_fit(whole, b, m)
            &&& whole.can_split(m)
            &&& round_trips(whole.split_left(m))
            &&& round_trips(whole.split_right(m))
            &&& storable(whole.split_median(m), 10)
        }),
        node.node_type->Internal_0[low] % 4096 == 0,
        node.node_type->Internal_0[low] + 4096 <= image3.len(),
        node.node_type->Internal_0[low + 1] % 4096 == 0,
        node.node_type->Internal_0[low + 1] + 4096 <= image3.len(),
        node.node_type->Internal_0[low] != node.node_type->Internal_0[low + 1],
        node.node_type->Internal_0[low] != off,
        node.node_type->Internal_0[low + 1] != off,
{
    lemma_merge_ready(image0, image3, b, off, h, lo, hi, root, node, k, low);
    reveal(deleted_below);
    reveal(subtree_ok);
    let kids = node.node_type->Internal_0;
    let seps = node.node_type->Internal_1;
    let g = (h - 1) as nat;
    let l = kids[low] as int;
    let r = kids[low + 1] as int;
    assert(subtree_ok(
        image3,
        b,
        0,
        kids[low] as int,
        g,
        child_lo(seps, lo, low),
        child_hi(seps, hi, low),
        false,
    ));
    assert(subtree_ok(
        image3,
        b,
        0,
        kids[low + 1] as int,
        g,
        child_lo(seps, lo, low + 1),
        child_hi(seps, hi, low + 1),
        false,
    ));
    lemma_node_at_within(image3, l);
    lemma_node_at_within(image3, r);
    assert(in_subtree(image3, l, g, l) && in_subtree(image3, r, g, r)) by {
        reveal(in_subtree);
    }
    crate::tree_share::lemma_apart_from(image3, b, off, h, lo, hi, root, low, low + 1, l);
    assert(!in_subtree(image3, kids[low] as int, g, off));
    assert(!in_subtree(image3, kids[low + 1] as int, g, off));
    let left = node_at(image3, l)->Some_0;
    let right = node_at(image3, r)->Some_0;
    let sep = seps[low];
    let whole = joined(left, right, sep);
    let m = (entries_of(left) + entries_of(right)) / 2;
    match left.node_type {
        NodeTypeView::Leaf(first_pairs) => {
            let second_pairs = right.node_type->Leaf_0;
            let all = first_pairs + second_pairs;
            let lp = all.subrange(0, m);
            let rp = all.subrange(m, all.len() as int);
            assert forall|j: int| 0 <= j < all.len() implies storable((#[trigger] all[j]).0, 10)
                && storable(all[j].1, 10) by {
                if j < first_pairs.len() {
                    assert(all[j] == first_pairs[j]);
                } else {
                    assert(all[j] == second_pairs[j - first_pairs.len()]);
                }
            }
            assert(storable(all[m - 1].0, 10));
            assert forall|j: int| 0 <= j < lp.len() implies storable((#[trigger] lp[j]).0, 10)
                && storable(lp[j].1, 10) by {
                assert(lp[j] == all[j]);
            }
            assert forall|j: int| 0 <= j < rp.len() implies storable((#[trigger] rp[j]).0, 10)
                && storable(rp[j].1, 10) by {
                assert(rp[j] == all[m + j]);
            }
        },
        NodeTypeView::Internal(c1, s1) => {
            let s2 = right.node_type->Internal_1;
            let ms = s1.push(sep) + s2;
            let lk = ms.subrange(0, m - 1);
            let rk = ms.subrange(m, ms.len() as int);
            assert forall|j: int| 0 <= j < ms.len() implies storable(#[trigger] ms[j], 10) by {
                if j < s1.len() {
                    assert(ms[j] == s1[j]);
                } else if j > s1.len() {
                    assert(ms[j] == s2[j - s1.len() - 1]);
                }
            }
            assert(storable(ms[m - 1], 10));
            assert forall|j: int| 0 <= j < lk.len() implies storable(#[trigger] lk[j], 10) by {
                assert(lk[j] == ms[j]);
            }
            assert forall|j: int| 0 <= j < rk.len() implies storable(#[trigger] rk[j], 10) by {
                assert(rk[j] == ms[m + j]);
            }
        },
        NodeTypeView::Unexpected => {},
    }
}

/// An internal node that round-trips round-trips with one of its keys
/// replaced by a storable key.
pub proof fn lemma_internal_rekeyed_round_trips(
    node: NodeView,
    low: int,
    key: Seq<char>,
    rekeyed: NodeView,
)
    requires
        round_trips(node),
        node.node_type is Internal,
        0 <= low < node.node_type->Internal_1.len(),
        storable(key, 10),
        rekeyed.is_root == node.is_root,
        rekeyed.parent_offset == node.parent_offset,
        rekeyed.node_type == NodeTypeView::Internal(
            node.node_type->Internal_0,
            node.node_type->Internal_1.update(low, key),
        ),
    ensures
        round_trips(rekeyed),
{
    let seps = node.node_type->Internal_1;
    let other = seps.update(low, key);
    assert forall|j: int| 0 <= j < other.len() implies storable(#[trigger] other[j], 10) by {
        if j != low {
            assert(other[j] == seps[j]);
        }
    }
}

/// Once the entries of two children of the node have been shared out after
/// the key has been taken out below it, the key has still been taken out
/// below the node as `deleted_below` says.
pub proof fn lemma_share_finish(
    image0: Seq<u8>,
    image3: Seq<u8>,
    image4: Seq<u8>,
    image5: Seq<u8>,
    image6: Seq<u8>,
    b: int,
    off: int,
    h: nat,
    lo: Option<Seq<char>>,
    hi: Option<Seq<char>>,
    root: bool,
    node: NodeView,
    k: Seq<char>,
    low: int,
    m: int,
    left: NodeView,
    right: NodeView,
    rekeyed: NodeView,
)
    requires
        2 <= b <= MAX_BRANCHING_FACTOR,
        image0.len() % 4096 == 0,
        h > 0,
        deleted_below(image0, image3, b, off, h, lo, hi, root, k),
        node_at(image3, off) == Some(node),
        node.node_type is Internal,
        share_written(image3, image4, image5, image6, b, off, node, low, m, left, right, rekeyed),
    ensures
        deleted_below(image0, image6, b, off, h, lo, hi, root, k),
        share_done(image3, image6, b, off, h, lo, hi, root, low, m),
{
    reveal(deleted_below);
    let kids = node.node_type->Internal_0;
    let seps = node.node_type->Internal_1;
    let l = kids[low] as int;
    let r = kids[low + 1] as int;
    let g = (h - 1) as nat;
    assert(in_subtree(image3, l, g, l) && in_subtree(image3, r, g, r)) by {
        reveal(in_subtree);
    }
    crate::tree_share::lemma_apart_from(image3, b, off, h, lo, hi, root, low, low + 1, l);
    assert(l != off && r != off && l % 4096 == 0 && r % 4096 == 0) by {
        reveal(subtree_ok);
        assert(!in_subtree(image3, kids[low] as int, g, off));
        assert(!in_subtree(image3, kids[low + 1] as int, g, off));
        assert(subtree_ok(
            image3,
            b,
            0,
            kids[low] as int,
            g,
            child_lo(seps, lo, low),
            child_hi(seps, hi, low),
            false,
        ));
        assert(subtree_ok(
            image3,
            b,
            0,
            kids[low + 1] as int,
            g,
            child_lo(seps, lo, low + 1),
            child_hi(seps, hi, low + 1),
            false,
        ));
    }
    assert(share_done(image3, image6, b, off, h, lo, hi, root, low, m)) by {
        assert(kids_at(image3, off) == kids);
        assert(seps_at(image3, off) == seps);
        assert(node_at(image6, l) == node_at(image5, l));
        assert(node_at(image5, l) == node_at(image4, l));
        assert(node_at(image6, r) == node_at(image5, r));
        assert(node_at(image6, off)->Some_0.is_root == root) by {
            reveal(subtree_ok);
        }
        assert forall|p: int| p % 4096 == 0 && p != off && p != l && p != r implies #[trigger] node_at(
            image6,
            p,
        ) == node_at(image3, p) by {
            assert(node_at(image6, p) == node_at(image5, p));
            assert(node_at(image5, p) == node_at(image4, p));
            assert(node_at(image4, p) == node_at(image3, p));
        }
    }
    lemma_share_parent(image3, image6, b, off, h, lo, hi, root, low, m);
    assert forall|p: int|
        p % 4096 == 0 && p + 4096 <= image0.len() && !in_subtree(
            image0,
            off,
            h,
            p,
        ) implies #[trigger] node_at(image6, p) == node_at(image0, p) by {
        assert(node_at(image3, p) == node_at(image0, p));
        assert(in_subtree(image0, off, h, off)) by {
            reveal(in_subtree);
        }
        if p == l || p == r {
            lemma_in_child_in_parent(image3, off, h, if p == l {
                low
            } else {
                low + 1
            }, p);
            assert(in_subtree(image3, off, h, p));
        }
        assert(node_at(image6, p) == node_at(image5, p));
        assert(node_at(image5, p) == node_at(image4, p));
        assert(node_at(image4, p) == node_at(image3, p));
    }
    assert(kids_at(image6, off) == kids_at(image3, off));
    if branches(node_at(image0, off)) {
        assert(settled(image3, off));
        assert(settled(image6, off));
    }
}

/// What the number of keys in the nodes of a subtree is like before a key
/// is taken out below an internal node: the child into which the search
/// descends is sound with `min` keys in every node, as the subtree is.
pub proof fn lemma_fills_descend(
    image: Seq<u8>,
    b: int,
    min: int,
    off: int,
    h: nat,
    lo: Option<Seq<char>>,
    hi: Option<Seq<char>>,
    root: bool,
    node: NodeView,
    idx: int,
)
    requires
        subtree_ok(image, b, min, off, h, lo, hi, root),
        node_at(image, off) == Some(node),
        node.node_type is Internal,
        0 <= idx < node.node_type->Internal_0.len(),
    ensures
        subtree_ok(
            image,
            b,
            min,
            node.node_type->Internal_0[idx] as int,
            (h - 1) as nat,
            child_lo(node.node_type->Internal_1, lo, idx),
            child_hi(node.node_type->Internal_1, hi, idx),
            false,
        ),
{
    reveal(subtree_ok);
    let kids = node.node_type->Internal_0;
    assert(subtree_ok(
        image,
        b,
        min,
        kids[idx] as int,
        (h - 1) as nat,
        child_lo(node.node_type->Internal_1, lo, idx),
        child_hi(node.node_type->Internal_1, hi, idx),
        false,
    ));
}

/// Once a key has been taken out below the child into which the search
/// descends, every node below the node but that child holds `min` keys, where
/// every node below the child does and every node below the node did.
pub proof fn lemma_fills_ascend(
    image: Seq<u8>,
    image2: Seq<u8>,
    b: int,
    min: int,
    off: int,
    h: nat,
    lo: Option<Seq<char>>,
    hi: Option<Seq<char>>,
    root: bool,
    node: NodeView,
    k: Seq<char>,
)
    requires
        delete_ready(image, b, off, h, lo, hi, root),
        subtree_ok(image, b, min, off, h, lo, hi, root),
        node_at(image, off) == Some(node),
        node.node_type is Internal,
        h > 0,
        deleted_below(
            image,
            image2,
            b,
            node.node_type->Internal_0[child_slot(node.node_type->Internal_1, k)] as int,
            (h - 1) as nat,
            child_lo(node.node_type->Internal_1, lo, child_slot(node.node_type->Internal_1, k)),
            child_hi(node.node_type->Internal_1, hi, child_slot(node.node_type->Internal_1, k)),
            false,
            k,
        ),
        fills(
            image2,
            min,
            node.node_type->Internal_0[child_slot(node.node_type->Internal_1, k)] as int,
            (h - 1) as nat,
        ),
    ensures
        fills_except(
            image2,
            min,
            off,
            h,
            node.node_type->Internal_0[child_slot(node.node_type->Internal_1, k)] as int,
        ),
{
    lemma_gone_internal(image, b, off, h, lo, hi, root, node, k);
    lemma_delete_ascend(image, image2, b, off, h, lo, hi, root, node, k);
    lemma_ok_fills(image, b, min, off, h, lo, hi, root);
    let idx = child_slot(node.node_type->Internal_1, k);
    assert(subtree_ok(image, b, 0, off, h, lo, hi, root)) by {
        reveal(delete_ready);
    }
    assert(subtree_ok(image2, b, 0, off, h, lo, hi, root) && grows_within(
        image,
        image2,
        node.node_type->Internal_0[idx] as int,
        (h - 1) as nat,
    )) by {
        reveal(deleted_below);
    }
    lemma_fills_after_child(image, image2, b, min, off, h, lo, hi, root, idx);
}

/// Where every node below a node but one child holds `min` keys, and that
/// child holds `b - 1` keys at least, every node below the node holds `min`
/// keys.
pub proof fn lemma_fills_kept(
    image: Seq<u8>,
    b: int,
    min: int,
    off: int,
    h: nat,
    child: int,
)
    requires
        fills_except(image, min, off, h, child),
        node_at(image, child) is Some,
        !underflows(node_at(image, child)->Some_0, b),
        !node_at(image, child)->Some_0.is_root,
        !(node_at(image, child)->Some_0.node_type is Unexpected),
        min <= b - 1,
    ensures
        fills(image, min, off, h),
{
    assert(keys_of(node_at(image, child)) >= min);
}

/// A node with one child is the root, or `min` is zero; no child of the
/// root of a tree is the only one.
pub proof fn lemma_fills_lonely(
    image: Seq<u8>,
    image2: Seq<u8>,
    b: int,
    min: int,
    off: int,
    h: nat,
    lo: Option<Seq<char>>,
    hi: Option<Seq<char>>,
    root: bool,
    node: NodeView,
)
    requires
        subtree_ok(image, b, min, off, h, lo, hi, root),
        node_at(image, off) == Some(node),
        node.node_type is Internal,
        node.node_type->Internal_0.len() < 2,
        root ==> branches(node_at(image, off)),
        0 <= min,
    ensures
        min == 0,
        fills(image2, min, off, h),
{
    reveal(subtree_ok);
}

/// Once the key has been taken out below the root, and every node below
/// the root holds `min` keys, the tree is sound with `min` keys in every node
/// but the root.
pub proof fn lemma_delete_filled(image: Seq<u8>, log: Seq<u8>, b: int, min: int, h: nat)
    requires
        tree_ok(image, log, b, 0, h),
        fills(image, min, last_record(log) as int, h),
        0 <= min <= b - 1,
    ensures
        tree_ok(image, log, b, min, h),
{
    lemma_fills_ok(image, b, min, last_record(log) as int, h, None, None, true);
}

/// Where every node below a root with one child holds `min` keys, every
/// node below that child holds `min` keys once it has been written as the
/// root.
pub proof fn lemma_fills_collapsed(
    image0: Seq<u8>,
    image2: Seq<u8>,
    image3: Seq<u8>,
    b: int,
    min: int,
    root: int,
    h: nat,
    k: Seq<char>,
    child: int,
    top: NodeView,
)
    requires
        deleted_below(image0, image2, b, root, h, None, None, true, k),
        branches(node_at(image0, root)),
        node_at(image2, root) is Some,
        node_at(image2, root)->Some_0.node_type is Internal,
        kids_at(image2, root).len() == 1,
        child == kids_at(image2, root)[0],
        image3.len() == image2.len(),
        unchanged_but(image2, image3, child),
        node_at(image3, child) == Some(top),
        top.is_root,
        top.node_type == node_at(image2, child)->Some_0.node_type,
        fills(image2, min, root, h),
    ensures
        h > 0,
        fills(image3, min, child, (h - 1) as nat),
{
    reveal(deleted_below);
    assert(h > 0) by {
        reveal(subtree_ok);
    }
    assert(settled(image2, root));
    lemma_root_collapsed(image2, image3, b, root, h);
}

/// What holds when a key has been taken out below child `idx` of `node`,
/// the node at `off`, and the child, which `child` is then, is about to be
/// mended: the key has been taken out below the node, whose page is what it
/// was; the subtree was sound with `min` keys in every node, and every node
/// below the child still holds as many; where the node is the root it was
/// fit to be one; and the image has room for one page more.
#[verifier::opaque]
pub open spec fn mend_ready(
    image0: Seq<u8>,
    image3: Seq<u8>,
    b: int,
    min: int,
    off: int,
    h: nat,
    lo: Option<Seq<char>>,
    hi: Option<Seq<char>>,
    root: bool,
    k: Seq<char>,
    node: NodeView,
    idx: int,
    child: NodeView,
) -> bool {
    &&& 2 <= b <= MAX_BRANCHING_FACTOR
    &&& 0 <= min <= b - 1
    &&& image0.len() % 4096 == 0
    &&& h > 0
    &&& subtree_ok(image0, b, min, off, h, lo, hi, root)
    &&& root ==> branches(node_at(image0, off))
    &&& node_at(image0, off) == Some(node)
    &&& node_at(image3, off) == Some(node)
    &&& node.node_type is Internal
    &&& 0 <= idx < node.node_type->Internal_0.len()
    &&& node_at(image3, node.node_type->Internal_0[idx] as int) == Some(child)
    &&& deleted_below(image0, image3, b, off, h, lo, hi, root, k)
    &&& fills_except(image3, min, off, h, node.node_type->Internal_0[idx] as int)
    &&& image3.len() <= image0.len() + (h - 1) * 4096
    &&& image3.len() + 4096 <= usize::MAX
}

/// What holds when two neighbouring children of `node`, the node at `off`,
/// are about to be put together after a key has been taken out below the
/// node: the children `low` and `low + 1` are `first` and `second`, one of
/// them lies at `x`, and every node below the node but the node at `x` holds
/// `min` keys.
#[verifier::opaque]
pub open spec fn join_ready(
    image0: Seq<u8>,
    image3: Seq<u8>,
    b: int,
    min: int,
    off: int,
    h: nat,
    lo: Option<Seq<char>>,
    hi: Option<Seq<char>>,
    root: bool,
    k: Seq<char>,
    node: NodeView,
    low: int,
    x: int,
    first: NodeView,
    second: NodeView,
) -> bool {
    &&& 2 <= b <= MAX_BRANCHING_FACTOR
    &&& 0 <= min <= b - 1
    &&& image0.len() % 4096 == 0
    &&& h > 0
    &&& node_at(image3, off) == Some(node)
    &&& node.node_type is Internal
    &&& 0 <= low
    &&& low + 1 < node.node_type->Internal_0.len()
    &&& node_at(image3, node.node_type->Internal_0[low] as int) == Some(first)
    &&& node_at(image3, node.node_type->Internal_0[low + 1] as int) == Some(second)
    &&& x == node.node_type->Internal_0[low] || x == node.node_type->Internal_0[low + 1]
    &&& deleted_below(image0, image3, b, off, h, lo, hi, root, k)
    &&& fills_except(image3, min, off, h, x)
    &&& image3.len() <= image0.len() + (h - 1) * 4096
    &&& image3.len() + 4096 <= usize::MAX
}

/// What holds once a child has been mended after a key has been taken out
/// below `node`, which the node at `off` is then: the key has been taken out
/// below the node, and every node below it holds `min` keys.
#[verifier::opaque]
pub open spec fn mended(
    image0: Seq<u8>,
    image: Seq<u8>,
    b: int,
    min: int,
    off: int,
    h: nat,
    lo: Option<Seq<char>>,
    hi: Option<Seq<char>>,
    root: bool,
    k: Seq<char>,
    node: NodeView,
) -> bool {
    &&& deleted_below(image0, image, b, off, h, lo, hi, root, k)
    &&& fills(image, min, off, h)
    &&& node_at(image, off) == Some(node)
}

/// What `mended` says.
pub proof fn lemma_mended(
    image0: Seq<u8>,
    image: Seq<u8>,
    b: int,
    min: int,
    off: int,
    h: nat,
    lo: Option<Seq<char>>,
    hi: Option<Seq<char>>,
    root: bool,
    k: Seq<char>,
    node: NodeView,
)
    requires
        mended(image0, image, b, min, off, h, lo, hi, root, k, node),
    ensures
        deleted_below(image0, image, b, off, h, lo, hi, root, k),
        fills(image, min, off, h),
        node_at(image, off) == Some(node),
{
    reveal(mended);
}

/// What holds when a child is about to be mended follows from what the
/// descent and the deletion below the child leave behind.
pub proof fn lemma_mend_start(
    image0: Seq<u8>,
    image3: Seq<u8>,
    b: int,
    min: int,
    off: int,
    h: nat,
    lo: Option<Seq<char>>,
    hi: Option<Seq<char>>,
    root: bool,
    k: Seq<char>,
    node: NodeView,
    idx: int,
    child: NodeView,
)
    requires
        2 <= b <= MAX_BRANCHING_FACTOR,
        0 <= min <= b - 1,
        image0.len() % 4096 == 0,
        h > 0,
        subtree_ok(image0, b, min, off, h, lo, hi, root),
        root ==> branches(node_at(image0, off)),
        node_at(image0, off) == Some(node),
        node_at(image3, off) == Some(node),
        node.node_type is Internal,
        0 <= idx < node.node_type->Internal_0.len(),
        node_at(image3, node.node_type->Internal_0[idx] as int) == Some(child),
        deleted_below(image0, image3, b, off, h, lo, hi, root, k),
        fills_except(image3, min, off, h, node.node_type->Internal_0[idx] as int),
        image3.len() <= image0.len() + (h - 1) * 4096,
        image3.len() + 4096 <= usize::MAX,
    ensures
        mend_ready(image0, image3, b, min, off, h, lo, hi, root, k, node, idx, child),
{
    reveal(mend_ready);
}

/// What the child that is about to be mended is like: a node of known kind
/// that is no root; and the branching parameter lies within its range.
pub proof fn lemma_mend_ready(
    image0: Seq<u8>,
    image3: Seq<u8>,
    b: int,
    min: int,
    off: int,
    h: nat,
    lo: Option<Seq<char>>,
    hi: Option<Seq<char>>,
    root: bool,
    k: Seq<char>,
    node: NodeView,
    idx: int,
    child: NodeView,
)
    requires
        mend_ready(image0, image3, b, min, off, h, lo, hi, root, k, node, idx, child),
    ensures
        2 <= b <= MAX_BRANCHING_FACTOR,
        node.node_type is Internal,
        0 <= idx < node.node_type->Internal_0.len(),
        !(child.node_type is Unexpected),
        !child.is_root,
        node.node_type->Internal_0.len() == node.node_type->Internal_1.len() + 1,
{
    reveal(mend_ready);
    reveal(deleted_below);
    reveal(subtree_ok);
    let kids = node.node_type->Internal_0;
    let seps = node.node_type->Internal_1;
    assert(subtree_ok(
        image3,
        b,
        0,
        kids[idx] as int,
        (h - 1) as nat,
        child_lo(seps, lo, idx),
        child_hi(seps, hi, idx),
        false,
    ));
}

/// A child that holds `b - 1` keys needs no mending.
pub proof fn lemma_mended_whole(
    image0: Seq<u8>,
    image3: Seq<u8>,
    b: int,
    min: int,
    off: int,
    h: nat,
    lo: Option<Seq<char>>,
    hi: Option<Seq<char>>,
    root: bool,
    k: Seq<char>,
    node: NodeView,
    idx: int,
    child: NodeView,
)
    requires
        mend_ready(image0, image3, b, min, off, h, lo, hi, root, k, node, idx, child),
        !underflows(child, b),
    ensures
        mended(image0, image3, b, min, off, h, lo, hi, root, k, node),
{
    lemma_mend_ready(image0, image3, b, min, off, h, lo, hi, root, k, node, idx, child);
    reveal(mend_ready);
    reveal(mended);
    lemma_fills_kept(image3, b, min, off, h, node.node_type->Internal_0[idx] as int);
}

/// An only child cannot be mended, and need not be.
pub proof fn lemma_mended_lonely(
    image0: Seq<u8>,
    image3: Seq<u8>,
    b: int,
    min: int,
    off: int,
    h: nat,
    lo: Option<Seq<char>>,
    hi: Option<Seq<char>>,
    root: bool,
    k: Seq<char>,
    node: NodeView,
    idx: int,
    child: NodeView,
)
    requires
        mend_ready(image0, image3, b, min, off, h, lo, hi, root, k, node, idx, child),
        node.node_type->Internal_0.len() < 2,
    ensures
        mended(image0, image3, b, min, off, h, lo, hi, root, k, node),
{
    reveal(mend_ready);
    reveal(mended);
    lemma_fills_lonely(image0, image3, b, min, off, h, lo, hi, root, node);
}

/// The child that is about to be mended and the neighbour that it is put
/// together with: the page of the neighbour holds a node, and the two are
/// ready to be put together.
pub proof fn lemma_mend_sides(
    image0: Seq<u8>,
    image3: Seq<u8>,
    b: int,
    min: int,
    off: int,
    h: nat,
    lo: Option<Seq<char>>,
    hi: Option<Seq<char>>,
    root: bool,
    k: Seq<char>,
    node: NodeView,
    idx: int,
    child: NodeView,
    low: int,
)
    requires
        mend_ready(image0, image3, b, min, off, h, lo, hi, root, k, node, idx, child),
        node.node_type->Internal_0.len() >= 2,
        low == (if idx > 0 {
            idx - 1
        } else {
            idx
        }),
    ensures
        0 <= low,
        low + 1 < node.node_type->Internal_0.len(),
        node_at(image3, node.node_type->Internal_0[low] as int) is Some,
        node_at(image3, node.node_type->Internal_0[low + 1] as int) is Some,
        node_at(image3, node.node_type->Internal_0[idx] as int) == Some(child),
        join_ready(
            image0,
            image3,
            b,
            min,
            off,
            h,
            lo,
            hi,
            root,
            k,
            node,
            low,
            node.node_type->Internal_0[idx] as int,
            node_at(image3, node.node_type->Internal_0[low] as int)->Some_0,
            node_at(image3, node.node_type->Internal_0[low + 1] as int)->Some_0,
        ),
{
    reveal(mend_ready);
    reveal(join_ready);
    lemma_merge_ready(image0, image3, b, off, h, lo, hi, root, node, k, low);
}

/// What two children that are about to be put together, and their parent,
/// are like.
pub proof fn lemma_join_ready(
    image0: Seq<u8>,
    image3: Seq<u8>,
    b: int,
    min: int,
    off: int,
    h: nat,
    lo: Option<Seq<char>>,
    hi: Option<Seq<char>>,
    root: bool,
    k: Seq<char>,
    node: NodeView,
    low: int,
    x: int,
    first: NodeView,
    second: NodeView,
)
    requires
        join_ready(image0, image3, b, min, off, h, lo, hi, root, k, node, low, x, first, second),
    ensures
        2 <= b <= MAX_BRANCHING_FACTOR,
        node.node_type is Internal,
        0 <= low,
        low + 1 < node.node_type->Internal_0.len(),
        node.node_type->Internal_0.len() == node.node_type->Internal_1.len() + 1,
        node_at(image3, off) == Some(node),
        node_at(image3, node.node_type->Internal_0[low] as int) == Some(first),
        node_at(image3, node.node_type->Internal_0[low + 1] as int) == Some(second),
        image3.len() % 4096 == 0,
        image3.len() + 4096 <= usize::MAX,
        off % 4096 == 0,
        off + 4096 <= image3.len(),
        round_trips(node),
        !first.is_root,
        !second.is_root,
        first.node_type is Leaf <==> second.node_type is Leaf,
        first.node_type is Internal <==> second.node_type is Internal,
        !(first.node_type is Unexpected),
        storable(node.node_type->Internal_1[low], 10),
        round_trips(first),
        round_trips(second),
        fit_together(first, second, b) ==> round_trips(
            NodeView {
                node_type: merged_type(first, second, node.node_type->Internal_1[low]),
                is_root: false,
                parent_offset: first.parent_offset,
            },
        ),
{
    reveal(join_ready);
    lemma_merge_ready(image0, image3, b, off, h, lo, hi, root, node, k, low);
}

/// Two children have been merged as `merge_written` says.
pub proof fn lemma_mended_merge(
    image0: Seq<u8>,
    image3: Seq<u8>,
    image4: Seq<u8>,
    image5: Seq<u8>,
    b: int,
    min: int,
    off: int,
    h: nat,
    lo: Option<Seq<char>>,
    hi: Option<Seq<char>>,
    root: bool,
    k: Seq<char>,
    node: NodeView,
    low: int,
    x: int,
    first: NodeView,
    second: NodeView,
    m: usize,
    merged: NodeView,
    shrunk: NodeView,
)
    requires
        join_ready(image0, image3, b, min, off, h, lo, hi, root, k, node, low, x, first, second),
        merge_written(image3, image4, image5, b, off, node, low, m, merged, shrunk),
    ensures
        mended(image0, image5, b, min, off, h, lo, hi, root, k, shrunk),
{
    reveal(join_ready);
    reveal(mended);
    lemma_merge_finish(
        image0,
        image3,
        image4,
        image5,
        b,
        off,
        h,
        lo,
        hi,
        root,
        node,
        k,
        low,
        m,
        merged,
        shrunk,
    );
    lemma_fills_merged(image3, image5, b, min, off, h, lo, hi, root, low, m, x);
}

/// The entries of two children have been shared out as `share_written`
/// says.
pub proof fn lemma_mended_share(
    image0: Seq<u8>,
    image3: Seq<u8>,
    image4: Seq<u8>,
    image5: Seq<u8>,
    image6: Seq<u8>,
    b: int,
    min: int,
    off: int,
    h: nat,
    lo: Option<Seq<char>>,
    hi: Option<Seq<char>>,
    root: bool,
    k: Seq<char>,
    node: NodeView,
    low: int,
    x: int,
    first: NodeView,
    second: NodeView,
    m: int,
    left: NodeView,
    right: NodeView,
    rekeyed: NodeView,
)
    requires
        join_ready(image0, image3, b, min, off, h, lo, hi, root, k, node, low, x, first, second),
        !fit_together(first, second, b),
        m == (entries_of(first) + entries_of(second)) / 2,
        share_written(image3, image4, image5, image6, b, off, node, low, m, left, right, rekeyed),
    ensures
        mended(image0, image6, b, min, off, h, lo, hi, root, k, rekeyed),
{
    reveal(join_ready);
    reveal(mended);
    lemma_share_finish(
        image0,
        image3,
        image4,
        image5,
        image6,
        b,
        off,
        h,
        lo,
        hi,
        root,
        node,
        k,
        low,
        m,
        left,
        right,
        rekeyed,
    );
    lemma_fills_shared(image3, image6, b, min, off, h, lo, hi, root, low, m, x);
}

/// What two children that are about to be put together give when they do
/// not fit into one node and their entries are shared out in halves.
pub proof fn lemma_join_share_ready(
    image0: Seq<u8>,
    image3: Seq<u8>,
    b: int,
    min: int,
    off: int,
    h: nat,
    lo: Option<Seq<char>>,
    hi: Option<Seq<char>>,
    root: bool,
    k: Seq<char>,
    node: NodeView,
    low: int,
    x: int,
    first: NodeView,
    second: NodeView,
)
    requires
        join_ready(image0, image3, b, min, off, h, lo, hi, root, k, node, low, x, first, second),
        !fit_together(first, second, b),
    ensures
        ({
            let whole = joined(first, second, node.node_type->Internal_1[low]);
            let m = (entries_of(first) + entries_of(second)) / 2;
            &&& entries_of(first) <= 2 * b
            &&& entries_of(second) <= 2 * b
            &&& halves_fit(whole, b, m)
            &&& whole.can_split(m)
            &&& round_trips(whole.split_left(m))
            &&& round_trips(whole.split_right(m))
            &&& storable(whole.split_median(m), 10)
        }),
        node.node_type->Internal_0[low] % 4096 == 0,
        node.node_type->Internal_0[low] + 4096 <= image3.len(),
        node.node_type->Internal_0[low + 1] % 4096 == 0,
        node.node_type->Internal_0[low + 1] + 4096 <= image3.len(),
        node.node_type->Internal_0[low] != node.node_type->Internal_0[low + 1],
        node.node_type->Internal_0[low] != off,
        node.node_type->Internal_0[low + 1] != off,
{
    reveal(join_ready);
    lemma_share_ready(image0, image3, b, off, h, lo, hi, root, node, k, low);
}

/// Two children that were about to be put together still are once
/// children of theirs have been told where their parent will stand.
pub proof fn lemma_join_handed(
    image0: Seq<u8>,
    image3: Seq<u8>,
    image4: Seq<u8>,
    b: int,
    min: int,
    off: int,
    h: nat,
    lo: Option<Seq<char>>,
    hi: Option<Seq<char>>,
    root: bool,
    k: Seq<char>,
    node: NodeView,
    low: int,
    x: int,
    first: NodeView,
    second: NodeView,
    from: int,
    to: int,
    parent: usize,
)
    requires
        join_ready(image0, image3, b, min, off, h, lo, hi, root, k, node, low, x, first, second),
        crate::relink::joined_over(
            image3,
            image4,
            node.node_type->Internal_0[low] as int,
            node.node_type->Internal_0[low + 1] as int,
            from,
            to,
            parent,
        ),
    ensures
        join_ready(image0, image4, b, min, off, h, lo, hi, root, k, node, low, x, first, second),
        image4.len() == image3.len(),
        crate::relink::reparented(image3, image4),
{
    reveal(join_ready);
    reveal(crate::relink::joined_over);
    reveal(deleted_below);
    let kids = node.node_type->Internal_0;
    let seps = node.node_type->Internal_1;
    assert(kids_at(image3, off) == kids);
    if first.node_type is Internal {
        assert(h >= 2 && off % 4096 == 0 && kids[0] % 4096 == 0 && kids[low] % 4096 == 0 && kids[low
            + 1] % 4096 == 0) by {
            reveal(subtree_ok);
            assert(subtree_ok(
                image3,
                b,
                0,
                kids[low + 1] as int,
                (h - 1) as nat,
                child_lo(seps, lo, low + 1),
                child_hi(seps, hi, low + 1),
                false,
            ));
            assert(subtree_ok(
                image3,
                b,
                0,
                kids[low] as int,
                (h - 1) as nat,
                child_lo(seps, lo, low),
                child_hi(seps, hi, low),
                false,
            ));
            assert(subtree_ok(
                image3,
                b,
                0,
                kids[0] as int,
                (h - 1) as nat,
                child_lo(seps, lo, 0),
                child_hi(seps, hi, 0),
                false,
            ));
        }
        let both = crate::relink::joint_kids(image3, kids[low] as int, kids[low + 1] as int);
        let n = kids_at(image3, kids[low] as int).len() as int;
        assert forall|j: int| from <= j < to implies crate::relink::relinkable(
            image3,
            #[trigger] both[j] as int,
        ) && in_subtree(image3, off, h, both[j] as int) && both[j] != off && (forall|m: int|
            0 <= m < kids.len() ==> both[j] != #[trigger] kids[m]) by {
            crate::relink::lemma_joint_kid(image3, b, 0, off, h, lo, hi, root, low, j);
            if j < n {
                crate::relink::lemma_grandchildren(image3, b, 0, off, h, lo, hi, root, low, j);
            } else {
                crate::relink::lemma_grandchildren(
                    image3,
                    b,
                    0,
                    off,
                    h,
                    lo,
                    hi,
                    root,
                    low + 1,
                    j - n,
                );
            }
        }
        crate::relink::lemma_relinked_reparented(image3, image4, both, from, to, parent);
        crate::relink::lemma_reparented(image3, image4, b, 0, off, h, lo, hi, root);
        assert forall|p: int|
            p % 4096 == 0 && (p == off || (exists|m: int|
                0 <= m < kids.len() && #[trigger] kids[m] == p) || !in_subtree(
                image3,
                off,
                h,
                p,
            )) implies #[trigger] node_at(image4, p) == node_at(image3, p) by {
            if crate::relink::among(both, from, to, p) {
                let j = choose|j: int| from <= j < to && #[trigger] both[j] == p;
                assert(crate::relink::relinkable(image3, both[j] as int));
            }
        }
        assert(node_at(image4, off) == node_at(image3, off));
        assert(node_at(image4, kids[low] as int) == node_at(image3, kids[low] as int));
        assert(node_at(image4, kids[low + 1] as int) == node_at(image3, kids[low + 1] as int));
        assert(node_at(image4, kids[0] as int) == node_at(image3, kids[0] as int));
        assert(grows_within(image0, image4, off, h)) by {
            assert forall|p: int|
                p % 4096 == 0 && p + 4096 <= image0.len() && !in_subtree(
                    image0,
                    off,
                    h,
                    p,
                ) implies #[trigger] node_at(image4, p) == node_at(image0, p) by {
                assert(node_at(image3, p) == node_at(image0, p));
                if in_subtree(image3, off, h, p) {
                    assert(in_subtree(image0, off, h, p) || p >= image0.len());
                }
            }
            assert forall|p: int| #[trigger] in_subtree(image4, off, h, p) implies in_subtree(
                image0,
                off,
                h,
                p,
            ) || p >= image0.len() by {
                assert(in_subtree(image3, off, h, p));
            }
        }
    }
}

/// The children of two internal nodes that are about to be put together
/// can be given a parent.
pub proof fn lemma_join_relinkable(
    image0: Seq<u8>,
    image3: Seq<u8>,
    b: int,
    min: int,
    off: int,
    h: nat,
    lo: Option<Seq<char>>,
    hi: Option<Seq<char>>,
    root: bool,
    k: Seq<char>,
    node: NodeView,
    low: int,
    x: int,
    first: NodeView,
    second: NodeView,
)
    requires
        join_ready(image0, image3, b, min, off, h, lo, hi, root, k, node, low, x, first, second),
        first.node_type is Internal,
        second.node_type is Internal,
    ensures
        forall|j: int|
            0 <= j < first.node_type->Internal_0.len() ==> crate::relink::relinkable(
                image3,
                #[trigger] first.node_type->Internal_0[j] as int,
            ),
        forall|j: int|
            0 <= j < second.node_type->Internal_0.len() ==> crate::relink::relinkable(
                image3,
                #[trigger] second.node_type->Internal_0[j] as int,
            ),
{
    reveal(join_ready);
    reveal(deleted_below);
    let kids = node.node_type->Internal_0;
    let seps = node.node_type->Internal_1;
    assert(kids_at(image3, off) == kids);
    assert(h >= 2) by {
        reveal(subtree_ok);
        assert(subtree_ok(
            image3,
            b,
            0,
            kids[low] as int,
            (h - 1) as nat,
            child_lo(seps, lo, low),
            child_hi(seps, hi, low),
            false,
        ));
    }
    assert forall|j: int| 0 <= j < first.node_type->Internal_0.len() implies crate::relink::relinkable(
        image3,
        #[trigger] first.node_type->Internal_0[j] as int,
    ) by {
        crate::relink::lemma_grandchildren(image3, b, 0, off, h, lo, hi, root, low, j);
    }
    assert forall|j: int| 0 <= j < second.node_type->Internal_0.len() implies crate::relink::relinkable(
        image3,
        #[trigger] second.node_type->Internal_0[j] as int,
    ) by {
        crate::relink::lemma_grandchildren(image3, b, 0, off, h, lo, hi, root, low + 1, j);
    }
}

/// Once a key has been taken out below the root, the tree is sound and
/// its root is there, above the leaves where it is no leaf.
pub proof fn lemma_deleted_sound(
    image0: Seq<u8>,
    image2: Seq<u8>,
    b: int,
    off: int,
    h: nat,
    k: Seq<char>,
)
    requires
        deleted_below(image0, image2, b, off, h, None, None, true, k),
    ensures
        subtree_ok(image2, b, 0, off, h, None, None, true),
        node_at(image2, off) is Some,
        node_at(image2, off)->Some_0.node_type is Internal ==> h > 0,
{
    reveal(deleted_below);
    reveal(subtree_ok);
}

} // verus!
