//! How many keys the nodes of a subtree hold: the part of the invariant
//! that says that no node but the root holds too few.

use crate::node::NodeView;
use crate::node_type::NodeTypeView;
use crate::tree::{
    child_hi, child_lo, in_subtree, lemma_frame_pages, lemma_in_subtree_valid, node_at,
    subtree_ok,
};
use crate::tree_delete::{fit_together, lemma_merge_parent, merge_done};
use crate::tree_insert::{grows_within, kids_at, lemma_in_child_in_parent, seps_at};
use crate::tree_share::{
    entries_of, lemma_apart_from, lemma_not_below, lemma_share_parent, share_done,
};
use vstd::prelude::*;

verus! {

/// The number of keys that a node holds: the pairs of a leaf, the keys of
/// an internal node.
pub open spec fn keys_of(node: Option<NodeView>) -> int {
    match node {
        Some(node) => match node.node_type {
            NodeTypeView::Leaf(pairs) => pairs.len() as int,
            NodeTypeView::Internal(_, seps) => seps.len() as int,
            NodeTypeView::Unexpected => 0,
        },
        None => 0,
    }
}

/// Every node below the node at `off`, but the node at `x`, holds `min`
/// keys at least.
pub open spec fn fills_except(image: Seq<u8>, min: int, off: int, h: nat, x: int) -> bool {
    forall|p: int|
        #[trigger] in_subtree(image, off, h, p) && p != off && p != x ==> keys_of(
            node_at(image, p),
        ) >= min
}

/// Every node below the node at `off` holds `min` keys at least.
pub open spec fn fills(image: Seq<u8>, min: int, off: int, h: nat) -> bool {
    fills_except(image, min, off, h, off)
}

/// In a subtree that is sound with `min` keys in every node but its root,
/// every node below the root holds `min` keys, and so does the root unless it
/// is the root of the tree.
pub proof fn lemma_ok_fills(
    image: Seq<u8>,
    b: int,
    min: int,
    off: int,
    h: nat,
    lo: Option<Seq<char>>,
    hi: Option<Seq<char>>,
    root: bool,
)
    requires
        subtree_ok(image, b, min, off, h, lo, hi, root),
    ensures
        fills(image, min, off, h),
        !root ==> keys_of(node_at(image, off)) >= min,
    decreases h,
{
    reveal(subtree_ok);
    reveal(in_subtree);
    if h > 0 {
        let kids = kids_at(image, off);
        let seps = seps_at(image, off);
        assert forall|p: int| #[trigger] in_subtree(image, off, h, p) && p != off implies keys_of(
            node_at(image, p),
        ) >= min by {
            let i = choose|i: int|
                #![trigger kids[i]]
                0 <= i < kids.len() && in_subtree(image, kids[i] as int, (h - 1) as nat, p);
            lemma_ok_fills(
                image,
                b,
                min,
                kids[i] as int,
                (h - 1) as nat,
                child_lo(seps, lo, i),
                child_hi(seps, hi, i),
                false,
            );
        }
    }
}

/// A sound subtree in which every node below the root holds `min` keys, and
/// the root too unless it is the root of the tree, is sound with `min` keys
/// in every node but the root of the tree.
pub proof fn lemma_fills_ok(
    image: Seq<u8>,
    b: int,
    min: int,
    off: int,
    h: nat,
    lo: Option<Seq<char>>,
    hi: Option<Seq<char>>,
    root: bool,
)
    requires
        subtree_ok(image, b, 0, off, h, lo, hi, root),
        fills(image, min, off, h),
        root || keys_of(node_at(image, off)) >= min,
    ensures
        subtree_ok(image, b, min, off, h, lo, hi, root),
    decreases h,
{
    reveal(subtree_ok);
    reveal(in_subtree);
    if h > 0 {
        let kids = kids_at(image, off);
        let seps = seps_at(image, off);
        let g = (h - 1) as nat;
        assert forall|i: int| #![trigger kids[i]] 0 <= i < kids.len() implies subtree_ok(
            image,
            b,
            min,
            kids[i] as int,
            g,
            child_lo(seps, lo, i),
            child_hi(seps, hi, i),
            false,
        ) by {
            let c = kids[i] as int;
            assert(subtree_ok(
                image,
                b,
                0,
                kids[i] as int,
                g,
                child_lo(seps, lo, i),
                child_hi(seps, hi, i),
                false,
            ));
            assert(in_subtree(image, c, g, c));
            assert(!in_subtree(image, kids[i] as int, g, off));
            lemma_in_child_in_parent(image, off, h, i, c);
            assert forall|p: int| #[trigger] in_subtree(image, c, g, p) && p != c implies keys_of(
                node_at(image, p),
            ) >= min by {
                lemma_in_child_in_parent(image, off, h, i, p);
            }
            lemma_fills_ok(
                image,
                b,
                min,
                c,
                g,
                child_lo(seps, lo, i),
                child_hi(seps, hi, i),
                false,
            );
        }
    }
}

/// Where the subtree of one child has changed within itself, and every
/// node below that child holds `min` keys as every node below the node did
/// before, every node below the node but that child holds `min` keys.
pub proof fn lemma_fills_after_child(
    image: Seq<u8>,
    image2: Seq<u8>,
    b: int,
    min: int,
    off: int,
    h: nat,
    lo: Option<Seq<char>>,
    hi: Option<Seq<char>>,
    root: bool,
    j: int,
)
    requires
        subtree_ok(image, b, 0, off, h, lo, hi, root),
        subtree_ok(image2, b, 0, off, h, lo, hi, root),
        node_at(image2, off) == node_at(image, off),
        h > 0,
        0 <= j < kids_at(image, off).len(),
        fills(image, min, off, h),
        grows_within(image, image2, kids_at(image, off)[j] as int, (h - 1) as nat),
        fills(image2, min, kids_at(image, off)[j] as int, (h - 1) as nat),
    ensures
        fills_except(image2, min, off, h, kids_at(image, off)[j] as int),
{
    let kids = kids_at(image, off);
    let seps = seps_at(image, off);
    let g = (h - 1) as nat;
    let c = kids[j] as int;
    assert forall|p: int| #[trigger] in_subtree(image2, off, h, p) && p != off && p
        != c implies keys_of(node_at(image2, p)) >= min by {
        reveal(in_subtree);
        let i = choose|i: int|
            #![trigger kids[i]]
            0 <= i < kids.len() && in_subtree(image2, kids[i] as int, g, p);
        if i != j {
            let d = kids[i] as int;
            assert forall|q: int| #[trigger] in_subtree(image, d, g, q) implies node_at(image, q)
                == node_at(image2, q) by {
                reveal(subtree_ok);
                lemma_in_subtree_valid(
                    image,
                    b,
                    0,
                    d,
                    g,
                    child_lo(seps, lo, i),
                    child_hi(seps, hi, i),
                    false,
                    q,
                );
                lemma_not_below(image, b, off, h, lo, hi, root, i, j, q);
                assert(node_at(image2, q) == node_at(image, q));
            }
            lemma_frame_pages(image, image2, d, g);
            assert(in_subtree(image, d, g, p));
            lemma_in_child_in_parent(image, off, h, i, p);
            assert(node_at(image2, p) == node_at(image, p));
        }
    }
}

/// Once two children of a node have been merged, every node below the node
/// holds `min` keys, where every node below it but one of the two did.
pub proof fn lemma_fills_merged(
    image: Seq<u8>,
    image2: Seq<u8>,
    b: int,
    min: int,
    off: int,
    h: nat,
    lo: Option<Seq<char>>,
    hi: Option<Seq<char>>,
    root: bool,
    low: int,
    m: usize,
    x: int,
)
    requires
        merge_done(image, image2, b, off, h, lo, hi, root, low, m),
        x == kids_at(image, off)[low] || x == kids_at(image, off)[low + 1],
        fills_except(image, min, off, h, x),
    ensures
        fills(image2, min, off, h),
{
    lemma_merge_parent(image, image2, b, off, h, lo, hi, root, low, m);
    let kids = kids_at(image, off);
    let seps = seps_at(image, off);
    let l = kids[low] as int;
    let r = kids[low + 1] as int;
    let g = (h - 1) as nat;
    assert(in_subtree(image, off, h, l) && in_subtree(image, off, h, r) && l != off && r != off
        && l != r && node_at(image, l) is Some && node_at(image, r) is Some) by {
        reveal(subtree_ok);
        reveal(in_subtree);
        assert(in_subtree(image, kids[low] as int, g, l));
        assert(in_subtree(image, kids[low + 1] as int, g, r));
        assert(!in_subtree(image, kids[low] as int, g, off));
        assert(!in_subtree(image, kids[low + 1] as int, g, off));
        assert(subtree_ok(
            image,
            b,
            0,
            kids[low] as int,
            g,
            child_lo(seps, lo, low),
            child_hi(seps, hi, low),
            false,
        ));
        assert(subtree_ok(
            image,
            b,
            0,
            kids[low + 1] as int,
            g,
            child_lo(seps, lo, low + 1),
            child_hi(seps, hi, low + 1),
            false,
        ));
        lemma_apart_from(image, b, off, h, lo, hi, root, low, low + 1, l);
    }
    assert forall|p: int| #[trigger] in_subtree(image2, off, h, p) && p != off implies keys_of(
        node_at(image2, p),
    ) >= min by {
        if p == m {
            // the merged node holds what the two held
            let other = if x == l {
                r
            } else {
                l
            };
            assert(keys_of(node_at(image, other)) >= min);
            assert(keys_of(node_at(image2, p)) >= keys_of(node_at(image, other)));
        } else {
            lemma_in_subtree_valid(image, b, 0, off, h, lo, hi, root, p);
            assert(node_at(image2, p) == node_at(image, p));
        }
    }
}

/// Once the entries of two children of a node, which are too many for one
/// node, have been shared out in halves, every node below the node holds
/// `min` keys, where every node below it but one of the two did.
pub proof fn lemma_fills_shared(
    image: Seq<u8>,
    image2: Seq<u8>,
    b: int,
    min: int,
    off: int,
    h: nat,
    lo: Option<Seq<char>>,
    hi: Option<Seq<char>>,
    root: bool,
    low: int,
    m: int,
    x: int,
)
    requires
        share_done(image, image2, b, off, h, lo, hi, root, low, m),
        x == kids_at(image, off)[low] || x == kids_at(image, off)[low + 1],
        fills_except(image, min, off, h, x),
        min <= b - 1,
        !fit_together(
            node_at(image, kids_at(image, off)[low] as int)->Some_0,
            node_at(image, kids_at(image, off)[low + 1] as int)->Some_0,
            b,
        ),
        m == (entries_of(node_at(image, kids_at(image, off)[low] as int)->Some_0) + entries_of(
            node_at(image, kids_at(image, off)[low + 1] as int)->Some_0,
        )) / 2,
    ensures
        fills(image2, min, off, h),
{
    lemma_share_parent(image, image2, b, off, h, lo, hi, root, low, m);
    let kids = kids_at(image, off);
    let seps = seps_at(image, off);
    let l = kids[low] as int;
    let r = kids[low + 1] as int;
    let g = (h - 1) as nat;
    assert(node_at(image, l) is Some && node_at(image, r) is Some && (node_at(
        image,
        l,
    )->Some_0.node_type is Leaf <==> h == 1) && (node_at(image, r)->Some_0.node_type is Leaf <==> h
        == 1) && (node_at(image, l)->Some_0.node_type is Internal <==> h > 1) && (node_at(
        image,
        r,
    )->Some_0.node_type is Internal <==> h > 1)) by {
        reveal(subtree_ok);
        assert(subtree_ok(
            image,
            b,
            0,
            kids[low] as int,
            g,
            child_lo(seps, lo, low),
            child_hi(seps, hi, low),
            false,
        ));
        assert(subtree_ok(
            image,
            b,
            0,
            kids[low + 1] as int,
            g,
            child_lo(seps, lo, low + 1),
            child_hi(seps, hi, low + 1),
            false,
        ));
    }
    assert forall|p: int| #[trigger] in_subtree(image2, off, h, p) && p != off implies keys_of(
        node_at(image2, p),
    ) >= min by {
        if p == l || p == r {
            // each half holds `b - 1` keys at least
        } else {
            assert(node_at(image2, p) == node_at(image, p));
        }
    }
}

} // verus!
