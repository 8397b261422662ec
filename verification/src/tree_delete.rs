//! What taking a pair out of a leaf, merging two children and giving up a
//! root with one child do to a sound subtree.

use crate::key_order::{
    key_le, key_lt, lemma_key_le_lt_transitive, lemma_key_le_transitive, lemma_key_lt_irreflexive,
};
use crate::node::NodeView;
use crate::node_type::NodeTypeView;
use crate::tree::{
    above, at_least, branches, child_hi, child_lo, in_subtree, internal_ok, leaf_ok,
    lemma_in_subtree_valid, lemma_tree_map, node_at, subtree_has, subtree_ok, tree_map, upto,
};
use crate::tree_insert::{
    child_kept, kids_at, lemma_child_kept, lemma_in_child_in_parent, seps_at,
};
use vstd::prelude::*;

verus! {

/// A subtree that is sound with every node but its root holding `min` keys
/// at least is sound with no such demand.
pub proof fn lemma_relax_fill(
    image: Seq<u8>,
    b: int,
    min: int,
    off: int,
    h: nat,
    lo: Option<Seq<char>>,
    hi: Option<Seq<char>>,
    root: bool,
)
    requires
        subtree_ok(image, b, min, off, h, lo, hi, root),
        0 <= min,
    ensures
        subtree_ok(image, b, 0, off, h, lo, hi, root),
    decreases h,
{
    reveal(subtree_ok);
    let node = node_at(image, off)->Some_0;
    match node.node_type {
        NodeTypeView::Internal(children, seps) => {
            assert forall|i: int| #![trigger children[i]] 0 <= i < children.len() implies subtree_ok(
                image,
                b,
                0,
                children[i] as int,
                (h - 1) as nat,
                child_lo(seps, lo, i),
                child_hi(seps, hi, i),
                false,
            ) by {
                lemma_relax_fill(
                    image,
                    b,
                    min,
                    children[i] as int,
                    (h - 1) as nat,
                    child_lo(seps, lo, i),
                    child_hi(seps, hi, i),
                    false,
                );
            }
        },
        _ => {},
    }
}

/// Where a sound tree stores what another sound tree stores but for the
/// key `k`, its map is the map of the other without `k`.
pub proof fn lemma_tree_map_removed(
    image: Seq<u8>,
    root: int,
    h: nat,
    image2: Seq<u8>,
    root2: int,
    h2: nat,
    b: int,
    k: Seq<char>,
)
    requires
        subtree_ok(image, b, 0, root, h, None, None, true),
        subtree_ok(image2, b, 0, root2, h2, None, None, true),
        forall|k2: Seq<char>, v2: Seq<char>|
            #[trigger] subtree_has(image2, root2, h2, k2, v2) <==> subtree_has(
                image,
                root,
                h,
                k2,
                v2,
            ) && k2 != k,
    ensures
        tree_map(image2, root2, h2) == tree_map(image, root, h).remove(k),
{
    let m1 = tree_map(image, root, h);
    let m2 = tree_map(image2, root2, h2);
    assert forall|k2: Seq<char>| m2.contains_key(k2) <==> m1.remove(k).contains_key(k2) by {
        if m2.contains_key(k2) {
            let v2 = choose|v2: Seq<char>| subtree_has(image2, root2, h2, k2, v2);
            assert(subtree_has(image, root, h, k2, v2));
        }
        if m1.contains_key(k2) && k2 != k {
            let v2 = choose|v2: Seq<char>| subtree_has(image, root, h, k2, v2);
            assert(subtree_has(image2, root2, h2, k2, v2));
        }
    }
    assert forall|k2: Seq<char>| m2.contains_key(k2) implies m2[k2] == m1.remove(k)[k2] by {
        lemma_tree_map(image2, b, 0, root2, h2, k2, m2[k2]);
        assert(subtree_has(image, root, h, k2, m2[k2]));
        lemma_tree_map(image, b, 0, root, h, k2, m2[k2]);
    }
    assert(m2 =~= m1.remove(k));
}

/// A leaf of a sound subtree that lost one pair is a sound subtree, and
/// stores what it stored but for the key of that pair.
pub proof fn lemma_leaf_removed(
    image: Seq<u8>,
    image2: Seq<u8>,
    b: int,
    off: int,
    lo: Option<Seq<char>>,
    hi: Option<Seq<char>>,
    root: bool,
    at: int,
)
    requires
        subtree_ok(image, b, 0, off, 0, lo, hi, root),
        0 <= at < node_at(image, off)->Some_0.node_type->Leaf_0.len(),
        node_at(image2, off) is Some,
        node_at(image2, off)->Some_0.is_root == root,
        node_at(image2, off)->Some_0.node_type == NodeTypeView::Leaf(
            node_at(image, off)->Some_0.node_type->Leaf_0.remove(at),
        ),
    ensures
        subtree_ok(image2, b, 0, off, 0, lo, hi, root),
        forall|k2: Seq<char>, v2: Seq<char>|
            #[trigger] subtree_has(image2, off, 0, k2, v2) <==> subtree_has(image, off, 0, k2, v2)
                && k2 != node_at(image, off)->Some_0.node_type->Leaf_0[at].0,
{
    reveal(subtree_ok);
    reveal(subtree_has);
    let pairs = node_at(image, off)->Some_0.node_type->Leaf_0;
    let less = pairs.remove(at);
    let stored = node_at(image2, off)->Some_0.node_type->Leaf_0;
    let k = pairs[at].0;
    assert(stored == less);
    assert(leaf_ok(less, b, 0, lo, hi, root)) by {
        assert forall|i: int| 0 <= i < less.len() implies above(lo, (#[trigger] less[i]).0)
            && upto(less[i].0, hi) by {
            if i < at {
                assert(less[i] == pairs[i]);
            } else {
                assert(less[i] == pairs[i + 1]);
            }
        }
        assert forall|i: int, j: int| 0 <= i < j < less.len() implies key_lt(
            (#[trigger] less[i]).0,
            (#[trigger] less[j]).0,
        ) by {
            let i0 = if i < at {
                i
            } else {
                i + 1
            };
            let j0 = if j < at {
                j
            } else {
                j + 1
            };
            assert(less[i] == pairs[i0] && less[j] == pairs[j0]);
            assert(key_lt(pairs[i0].0, pairs[j0].0));
        }
    }
    assert forall|k2: Seq<char>, v2: Seq<char>| #[trigger]
        subtree_has(image2, off, 0, k2, v2) <==> subtree_has(image, off, 0, k2, v2) && k2
            != k by {
        lemma_key_lt_irreflexive(k);
        if subtree_has(image2, off, 0, k2, v2) {
            let j = choose|j: int| 0 <= j < stored.len() && #[trigger] stored[j] == (k2, v2);
            let j0 = if j < at {
                j
            } else {
                j + 1
            };
            assert(pairs[j0] == (k2, v2));
            if j0 < at {
                assert(key_lt(pairs[j0].0, pairs[at].0));
            } else {
                assert(key_lt(pairs[at].0, pairs[j0].0));
            }
        }
        if subtree_has(image, off, 0, k2, v2) && k2 != k {
            let j = choose|j: int| 0 <= j < pairs.len() && #[trigger] pairs[j] == (k2, v2);
            if j < at {
                assert(stored[j] == (k2, v2));
            } else {
                assert(stored[j - 1] == (k2, v2));
            }
            assert(subtree_has(image2, off, 0, k2, v2));
        }
    }
}

/// A node that is no root and holds fewer than `b - 1` keys.
pub open spec fn underflows(node: NodeView, b: int) -> bool {
    !node.is_root && match node.node_type {
        NodeTypeView::Leaf(pairs) => pairs.len() < b - 1,
        NodeTypeView::Internal(_, keys) => keys.len() < b - 1,
        NodeTypeView::Unexpected => false,
    }
}

/// What two neighbours give when they are merged, with `sep` the key that
/// stood between them in their parent: two leaves a leaf with the pairs of
/// the first and then those of the second; two internal nodes an internal
/// node with the children of the first and then those of the second, and
/// with `sep` between the keys of the first and those of the second.
pub open spec fn merged_type(left: NodeView, right: NodeView, sep: Seq<char>) -> NodeTypeView {
    match left.node_type {
        NodeTypeView::Leaf(first_pairs) => match right.node_type {
            NodeTypeView::Leaf(second_pairs) => NodeTypeView::Leaf(first_pairs + second_pairs),
            _ => NodeTypeView::Unexpected,
        },
        NodeTypeView::Internal(c1, s1) => match right.node_type {
            NodeTypeView::Internal(c2, s2) => NodeTypeView::Internal(c1 + c2, s1.push(sep) + s2),
            _ => NodeTypeView::Unexpected,
        },
        NodeTypeView::Unexpected => NodeTypeView::Unexpected,
    }
}

/// Whether two neighbours fit into one node: two leaves with no more than
/// `2b - 1` pairs together, two internal nodes with no more than `2b`
/// children together.
pub open spec fn fit_together(left: NodeView, right: NodeView, b: int) -> bool {
    match left.node_type {
        NodeTypeView::Leaf(first_pairs) => match right.node_type {
            NodeTypeView::Leaf(second_pairs) => first_pairs.len() + second_pairs.len() <= 2 * b - 1,
            _ => false,
        },
        NodeTypeView::Internal(c1, _) => match right.node_type {
            NodeTypeView::Internal(c2, _) => c1.len() + c2.len() <= 2 * b,
            _ => false,
        },
        NodeTypeView::Unexpected => false,
    }
}

/// What holds when the children `low` and `low + 1` of the node at `off`
/// have been merged: the two fit together; in `image2` the page at `m`, which
/// `image` did not have, holds what merging them gives, as a node that is no
/// root; the node at `off` has that page as its child `low` in place of the
/// two and has lost the key between them; these two pages apart, all pages
/// are what they were.
pub open spec fn merge_done(
    image: Seq<u8>,
    image2: Seq<u8>,
    b: int,
    off: int,
    h: nat,
    lo: Option<Seq<char>>,
    hi: Option<Seq<char>>,
    root: bool,
    low: int,
    m: usize,
) -> bool {
    let kids = kids_at(image, off);
    let seps = seps_at(image, off);
    &&& 2 <= b
    &&& subtree_ok(image, b, 0, off, h, lo, hi, root)
    &&& h > 0
    &&& 0 <= low
    &&& low + 1 < kids.len()
    &&& fit_together(
        node_at(image, kids[low] as int)->Some_0,
        node_at(image, kids[low + 1] as int)->Some_0,
        b,
    )
    &&& m % 4096 == 0
    &&& m >= image.len()
    &&& node_at(image2, m as int) is Some
    &&& !node_at(image2, m as int)->Some_0.is_root
    &&& node_at(image2, m as int)->Some_0.node_type == merged_type(
        node_at(image, kids[low] as int)->Some_0,
        node_at(image, kids[low + 1] as int)->Some_0,
        seps[low],
    )
    &&& node_at(image2, off) is Some
    &&& node_at(image2, off)->Some_0.is_root == root
    &&& node_at(image2, off)->Some_0.node_type == NodeTypeView::Internal(
        kids.remove(low + 1).update(low, m),
        seps.remove(low),
    )
    &&& forall|p: int|
        p % 4096 == 0 && p != off && p != m ==> #[trigger] node_at(image2, p) == node_at(image, p)
}

/// The lower and the upper bound of what merging the children `low` and
/// `low + 1` gives: the lower bound of the first and the upper bound of the
/// second.
pub open spec fn merged_lo(seps: Seq<Seq<char>>, lo: Option<Seq<char>>, low: int) -> Option<
    Seq<char>,
> {
    child_lo(seps, lo, low)
}

pub open spec fn merged_hi(seps: Seq<Seq<char>>, hi: Option<Seq<char>>, low: int) -> Option<
    Seq<char>,
> {
    child_hi(seps, hi, low + 1)
}

/// The two children that are merged, and every child below them, are kept.
proof fn lemma_merge_kept(
    image: Seq<u8>,
    image2: Seq<u8>,
    b: int,
    off: int,
    h: nat,
    lo: Option<Seq<char>>,
    hi: Option<Seq<char>>,
    root: bool,
    low: int,
    m: usize,
    i: int,
)
    requires
        merge_done(image, image2, b, off, h, lo, hi, root, low, m),
        0 <= i < kids_at(image, off).len(),
    ensures
        child_kept(image, image2, b, 0, off, h, lo, hi, i),
        forall|p: int|
            #[trigger] in_subtree(image, kids_at(image, off)[i] as int, (h - 1) as nat, p) ==> p
                != m,
{
    reveal(subtree_ok);
    reveal(in_subtree);
    let kids = kids_at(image, off);
    let seps = seps_at(image, off);
    let c = kids[i] as int;
    let g = (h - 1) as nat;
    assert(!in_subtree(image, kids[i] as int, g, off));
    assert forall|p: int| #[trigger] in_subtree(image, c, g, p) implies node_at(image, p)
        == node_at(image2, p) && p != m by {
        lemma_in_subtree_valid(
            image,
            b,
            0,
            c,
            g,
            child_lo(seps, lo, i),
            child_hi(seps, hi, i),
            false,
            p,
        );
        assert(node_at(image2, p) == node_at(image, p));
    }
    lemma_child_kept(image, image2, b, 0, off, h, lo, hi, root, i);
}

/// The pages of the two children that are merged are what they were.
proof fn lemma_merge_sides(
    image: Seq<u8>,
    image2: Seq<u8>,
    b: int,
    off: int,
    h: nat,
    lo: Option<Seq<char>>,
    hi: Option<Seq<char>>,
    root: bool,
    low: int,
    m: usize,
)
    requires
        merge_done(image, image2, b, off, h, lo, hi, root, low, m),
    ensures
        node_at(image2, kids_at(image, off)[low] as int) == node_at(
            image,
            kids_at(image, off)[low] as int,
        ),
        node_at(image2, kids_at(image, off)[low + 1] as int) == node_at(
            image,
            kids_at(image, off)[low + 1] as int,
        ),
        kids_at(image, off)[low] != kids_at(image, off)[low + 1],
        kids_at(image, off)[low] != m,
        kids_at(image, off)[low + 1] != m,
        kids_at(image, off)[low] != off,
        kids_at(image, off)[low + 1] != off,
{
    lemma_merge_kept(image, image2, b, off, h, lo, hi, root, low, m, low);
    lemma_merge_kept(image, image2, b, off, h, lo, hi, root, low, m, low + 1);
    reveal(in_subtree);
    reveal(subtree_ok);
    let kids = kids_at(image, off);
    let l = kids[low] as int;
    let r = kids[low + 1] as int;
    let g = (h - 1) as nat;
    assert(in_subtree(image, l, g, l));
    assert(in_subtree(image, r, g, r));
    assert(!(in_subtree(image, kids[low] as int, g, l) && in_subtree(
        image,
        kids[low + 1] as int,
        g,
        l,
    )));
}

/// A page below one of two neighbouring children is not the page of the
/// other.
proof fn lemma_sides_apart(
    image: Seq<u8>,
    b: int,
    off: int,
    h: nat,
    lo: Option<Seq<char>>,
    hi: Option<Seq<char>>,
    root: bool,
    low: int,
    p: int,
)
    requires
        subtree_ok(image, b, 0, off, h, lo, hi, root),
        h > 0,
        0 <= low,
        low + 1 < kids_at(image, off).len(),
    ensures
        in_subtree(image, kids_at(image, off)[low] as int, (h - 1) as nat, p) ==> p != kids_at(
            image,
            off,
        )[low + 1],
        in_subtree(image, kids_at(image, off)[low + 1] as int, (h - 1) as nat, p) ==> p
            != kids_at(image, off)[low],
{
    reveal(subtree_ok);
    reveal(in_subtree);
    let kids = kids_at(image, off);
    let l = kids[low] as int;
    let r = kids[low + 1] as int;
    let g = (h - 1) as nat;
    assert(in_subtree(image, l, g, l));
    assert(in_subtree(image, r, g, r));
    assert(!(in_subtree(image, kids[low] as int, g, l) && in_subtree(
        image,
        kids[low + 1] as int,
        g,
        l,
    )));
    assert(!(in_subtree(image, kids[low] as int, g, r) && in_subtree(
        image,
        kids[low + 1] as int,
        g,
        r,
    )));
}

/// What merging two neighbouring leaves gives is a sound leaf within the
/// bounds of the two, and stores what the two stored.
proof fn lemma_merged_leaf(
    image: Seq<u8>,
    image2: Seq<u8>,
    b: int,
    off: int,
    h: nat,
    lo: Option<Seq<char>>,
    hi: Option<Seq<char>>,
    root: bool,
    low: int,
    m: usize,
)
    requires
        merge_done(image, image2, b, off, h, lo, hi, root, low, m),
        h == 1,
    ensures
        subtree_ok(
            image2,
            b,
            0,
            m as int,
            0,
            merged_lo(seps_at(image, off), lo, low),
            merged_hi(seps_at(image, off), hi, low),
            false,
        ),
        forall|k: Seq<char>, v: Seq<char>|
            #[trigger] subtree_has(image2, m as int, 0, k, v) <==> subtree_has(
                image,
                kids_at(image, off)[low] as int,
                0,
                k,
                v,
            ) || subtree_has(image, kids_at(image, off)[low + 1] as int, 0, k, v),
        forall|p: int| #[trigger] in_subtree(image2, m as int, 0, p) ==> p == m,
        branches(node_at(image2, m as int)),
{
    reveal(subtree_ok);
    reveal(subtree_has);
    reveal(in_subtree);
    let kids = kids_at(image, off);
    let seps = seps_at(image, off);
    let l = kids[low] as int;
    let r = kids[low + 1] as int;
    let ln = node_at(image, l)->Some_0;
    let rn = node_at(image, r)->Some_0;
    assert(subtree_ok(
        image,
        b,
        0,
        kids[low] as int,
        0,
        child_lo(seps, lo, low),
        child_hi(seps, hi, low),
        false,
    ));
    assert(subtree_ok(
        image,
        b,
        0,
        kids[low + 1] as int,
        0,
        child_lo(seps, lo, low + 1),
        child_hi(seps, hi, low + 1),
        false,
    ));
    let first_pairs = ln.node_type->Leaf_0;
    let second_pairs = rn.node_type->Leaf_0;
    let all = first_pairs + second_pairs;
    let mlo = merged_lo(seps, lo, low);
    let mhi = merged_hi(seps, hi, low);
    let sep = seps[low];
    let mp = node_at(image2, m as int)->Some_0.node_type->Leaf_0;
    assert(mp == all);
    assert(at_least(lo, sep) && upto(sep, hi));
    assert forall|i: int| 0 <= i < all.len() implies above(mlo, (#[trigger] all[i]).0) && upto(
        all[i].0,
        mhi,
    ) by {
        if i < first_pairs.len() {
            assert(all[i] == first_pairs[i]);
            assert(key_le(first_pairs[i].0, sep));
            if low + 1 < seps.len() {
                assert(key_le(sep, seps[low + 1]));
                lemma_key_le_transitive(first_pairs[i].0, sep, seps[low + 1]);
            } else if hi is Some {
                lemma_key_le_transitive(first_pairs[i].0, sep, hi->Some_0);
            }
        } else {
            assert(all[i] == second_pairs[i - first_pairs.len()]);
            assert(key_lt(sep, second_pairs[i - first_pairs.len()].0));
            if low > 0 {
                assert(key_le(seps[low - 1], sep));
                lemma_key_le_lt_transitive(seps[low - 1], sep, second_pairs[i - first_pairs.len()].0);
            } else if lo is Some {
                lemma_key_le_lt_transitive(lo->Some_0, sep, second_pairs[i - first_pairs.len()].0);
            }
        }
    }
    assert forall|i: int, j: int| 0 <= i < j < all.len() implies key_lt(
        (#[trigger] all[i]).0,
        (#[trigger] all[j]).0,
    ) by {
        if j < first_pairs.len() {
            assert(key_lt(first_pairs[i].0, first_pairs[j].0));
        } else if i >= first_pairs.len() {
            assert(key_lt(second_pairs[i - first_pairs.len()].0, second_pairs[j - first_pairs.len()].0));
        } else {
            assert(key_le(first_pairs[i].0, sep));
            assert(key_lt(sep, second_pairs[j - first_pairs.len()].0));
            lemma_key_le_lt_transitive(first_pairs[i].0, sep, second_pairs[j - first_pairs.len()].0);
        }
    }
    assert(leaf_ok(all, b, 0, mlo, mhi, false));
    assert forall|k: Seq<char>, v: Seq<char>| #[trigger]
        subtree_has(image2, m as int, 0, k, v) <==> subtree_has(image, l, 0, k, v) || subtree_has(
            image,
            r,
            0,
            k,
            v,
        ) by {
        if subtree_has(image2, m as int, 0, k, v) {
            let j = choose|j: int| 0 <= j < mp.len() && #[trigger] mp[j] == (k, v);
            if j < first_pairs.len() {
                assert(first_pairs[j] == (k, v));
            } else {
                assert(second_pairs[j - first_pairs.len()] == (k, v));
            }
        }
        if subtree_has(image, l, 0, k, v) {
            let j = choose|j: int| 0 <= j < first_pairs.len() && #[trigger] first_pairs[j] == (k, v);
            assert(mp[j] == (k, v));
            assert(subtree_has(image2, m as int, 0, k, v));
        }
        if subtree_has(image, r, 0, k, v) {
            let j = choose|j: int| 0 <= j < second_pairs.len() && #[trigger] second_pairs[j] == (k, v);
            assert(mp[first_pairs.len() + j] == (k, v));
            assert(subtree_has(image2, m as int, 0, k, v));
        }
    }
}

/// The keys of what merging two neighbouring internal nodes gives do not
/// descend and lie within the bounds of the two.
proof fn lemma_merged_internal_shape(
    image: Seq<u8>,
    image2: Seq<u8>,
    b: int,
    off: int,
    h: nat,
    lo: Option<Seq<char>>,
    hi: Option<Seq<char>>,
    root: bool,
    low: int,
    m: usize,
)
    requires
        merge_done(image, image2, b, off, h, lo, hi, root, low, m),
        h > 1,
    ensures
        node_at(image2, m as int)->Some_0.node_type is Internal,
        kids_at(image2, m as int) == kids_at(image, kids_at(image, off)[low] as int) + kids_at(
            image,
            kids_at(image, off)[low + 1] as int,
        ),
        seps_at(image2, m as int) == seps_at(image, kids_at(image, off)[low] as int).push(
            seps_at(image, off)[low],
        ) + seps_at(image, kids_at(image, off)[low + 1] as int),
        kids_at(image, kids_at(image, off)[low] as int).len() == seps_at(
            image,
            kids_at(image, off)[low] as int,
        ).len() + 1,
        kids_at(image, kids_at(image, off)[low + 1] as int).len() == seps_at(
            image,
            kids_at(image, off)[low + 1] as int,
        ).len() + 1,
        internal_ok(
            kids_at(image2, m as int),
            seps_at(image2, m as int),
            b,
            0,
            merged_lo(seps_at(image, off), lo, low),
            merged_hi(seps_at(image, off), hi, low),
            false,
        ),
{
    reveal(subtree_ok);
    let kids = kids_at(image, off);
    let seps = seps_at(image, off);
    let l = kids[low] as int;
    let r = kids[low + 1] as int;
    let g = (h - 1) as nat;
    assert(subtree_ok(
        image,
        b,
        0,
        kids[low] as int,
        g,
        child_lo(seps, lo, low),
        child_hi(seps, hi, low),
        false,
    ));
    assert(subtree_ok(
        image,
        b,
        0,
        kids[low + 1] as int,
        g,
        child_lo(seps, lo, low + 1),
        child_hi(seps, hi, low + 1),
        false,
    ));
    let c1 = kids_at(image, l);
    let s1 = seps_at(image, l);
    let c2 = kids_at(image, r);
    let s2 = seps_at(image, r);
    let sep = seps[low];
    let mk = c1 + c2;
    let ms = s1.push(sep) + s2;
    let mlo = merged_lo(seps, lo, low);
    let mhi = merged_hi(seps, hi, low);
    assert(at_least(lo, sep) && upto(sep, hi));
    assert(at_least(mlo, sep)) by {
        if low > 0 {
            assert(key_le(seps[low - 1], seps[low]));
        }
    }
    assert(upto(sep, mhi)) by {
        if low + 1 < seps.len() {
            assert(key_le(seps[low], seps[low + 1]));
        }
    }
    assert forall|i: int| 0 <= i < ms.len() implies at_least(mlo, #[trigger] ms[i]) && upto(
        ms[i],
        mhi,
    ) by {
        if i < s1.len() {
            assert(ms[i] == s1[i]);
            assert(at_least(mlo, s1[i]) && key_le(s1[i], sep));
            if mhi is Some {
                lemma_key_le_transitive(s1[i], sep, mhi->Some_0);
            }
        } else if i > s1.len() {
            assert(ms[i] == s2[i - s1.len() - 1]);
            assert(key_le(sep, s2[i - s1.len() - 1]) && upto(s2[i - s1.len() - 1], mhi));
            if mlo is Some {
                lemma_key_le_transitive(mlo->Some_0, sep, s2[i - s1.len() - 1]);
            }
        }
    }
    assert forall|i: int, j: int| 0 <= i < j < ms.len() implies key_le(
        #[trigger] ms[i],
        #[trigger] ms[j],
    ) by {
        let n = s1.len() as int;
        if j < n {
            assert(key_le(s1[i], s1[j]));
        } else if j == n {
            assert(key_le(s1[i], sep));
        } else if i > n {
            assert(key_le(s2[i - n - 1], s2[j - n - 1]));
        } else if i == n {
            assert(key_le(sep, s2[j - n - 1]));
        } else {
            assert(key_le(s1[i], sep));
            assert(key_le(sep, s2[j - n - 1]));
            lemma_key_le_transitive(s1[i], sep, s2[j - n - 1]);
        }
    }
}

/// Every child of what merging two neighbouring internal nodes gives is the
/// sound subtree that it was below one of the two, within the bounds that the
/// keys of the merged node set.
proof fn lemma_merged_internal_child(
    image: Seq<u8>,
    image2: Seq<u8>,
    b: int,
    off: int,
    h: nat,
    lo: Option<Seq<char>>,
    hi: Option<Seq<char>>,
    root: bool,
    low: int,
    m: usize,
    i: int,
)
    requires
        merge_done(image, image2, b, off, h, lo, hi, root, low, m),
        h > 1,
        0 <= i < kids_at(image2, m as int).len(),
    ensures
        subtree_ok(
            image2,
            b,
            0,
            kids_at(image2, m as int)[i] as int,
            (h - 2) as nat,
            child_lo(seps_at(image2, m as int), merged_lo(seps_at(image, off), lo, low), i),
            child_hi(seps_at(image2, m as int), merged_hi(seps_at(image, off), hi, low), i),
            false,
        ),
        forall|p: int|
            #[trigger] in_subtree(image2, kids_at(image2, m as int)[i] as int, (h - 2) as nat, p)
                ==> p != m && p != off && (if i < kids_at(
                image,
                kids_at(image, off)[low] as int,
            ).len() {
                in_subtree(image, kids_at(image, off)[low] as int, (h - 1) as nat, p) && p
                    != kids_at(image, off)[low]
            } else {
                in_subtree(image, kids_at(image, off)[low + 1] as int, (h - 1) as nat, p) && p
                    != kids_at(image, off)[low + 1]
            }),
        forall|k: Seq<char>, v: Seq<char>|
            #[trigger] subtree_has(
                image2,
                kids_at(image2, m as int)[i] as int,
                (h - 2) as nat,
                k,
                v,
            ) ==> (if i < kids_at(image, kids_at(image, off)[low] as int).len() {
                subtree_has(image, kids_at(image, off)[low] as int, (h - 1) as nat, k, v)
            } else {
                subtree_has(image, kids_at(image, off)[low + 1] as int, (h - 1) as nat, k, v)
            }),
{
    lemma_merged_internal_shape(image, image2, b, off, h, lo, hi, root, low, m);
    lemma_merge_kept(image, image2, b, off, h, lo, hi, root, low, m, low);
    lemma_merge_kept(image, image2, b, off, h, lo, hi, root, low, m, low + 1);
    reveal(subtree_ok);
    reveal(in_subtree);
    reveal(subtree_has);
    let kids = kids_at(image, off);
    let seps = seps_at(image, off);
    let l = kids[low] as int;
    let r = kids[low + 1] as int;
    let g = (h - 1) as nat;
    let gg = (h - 2) as nat;
    let c1 = kids_at(image, l);
    let s1 = seps_at(image, l);
    let c2 = kids_at(image, r);
    let s2 = seps_at(image, r);
    let sep = seps[low];
    let mk = kids_at(image2, m as int);
    let ms = seps_at(image2, m as int);
    let mlo = merged_lo(seps, lo, low);
    let mhi = merged_hi(seps, hi, low);
    assert(in_subtree(image, l, g, l));
    assert(in_subtree(image, r, g, r));
    assert(node_at(image2, l) == node_at(image, l));
    assert(node_at(image2, r) == node_at(image, r));
    let n = c1.len() as int;
    if i < n {
        assert(mk[i] == c1[i]);
        let x = c1[i];
        assert(child_lo(ms, mlo, i) == child_lo(s1, child_lo(seps, lo, low), i)) by {
            if i > 0 {
                assert(ms[i - 1] == s1[i - 1]);
            }
        }
        assert(child_hi(ms, mhi, i) == child_hi(s1, child_hi(seps, hi, low), i)) by {
            if i < s1.len() {
                assert(ms[i] == s1[i]);
            } else {
                assert(ms[i] == sep);
            }
        }
        assert forall|p: int| #[trigger] in_subtree(image2, x as int, gg, p) implies p != m && p
            != off && in_subtree(image, l, g, p) && p != l by {
            assert(!in_subtree(image2, c1[i] as int, gg, l));
            assert(in_subtree(image2, l, g, p));
        }
        assert forall|k: Seq<char>, v: Seq<char>| #[trigger]
            subtree_has(image2, x as int, gg, k, v) implies subtree_has(image, l, g, k, v) by {
            assert(subtree_has(image2, c1[i] as int, gg, k, v));
            assert(subtree_has(image2, l, g, k, v));
        }
    } else {
        let j = i - n;
        assert(mk[i] == c2[j]);
        let x = c2[j];
        assert(child_lo(ms, mlo, i) == child_lo(s2, child_lo(seps, lo, low + 1), j)) by {
            if j > 0 {
                assert(ms[i - 1] == s2[j - 1]);
            } else {
                assert(ms[i - 1] == sep);
            }
        }
        assert(child_hi(ms, mhi, i) == child_hi(s2, child_hi(seps, hi, low + 1), j)) by {
            if j < s2.len() {
                assert(ms[i] == s2[j]);
            }
        }
        assert forall|p: int| #[trigger] in_subtree(image2, x as int, gg, p) implies p != m && p
            != off && in_subtree(image, r, g, p) && p != r by {
            assert(!in_subtree(image2, c2[j] as int, gg, r));
            assert(in_subtree(image2, r, g, p));
        }
        assert forall|k: Seq<char>, v: Seq<char>| #[trigger]
            subtree_has(image2, x as int, gg, k, v) implies subtree_has(image, r, g, k, v) by {
            assert(subtree_has(image2, c2[j] as int, gg, k, v));
            assert(subtree_has(image2, r, g, k, v));
        }
    }
}

/// No page belongs to the subtrees of two children of what merging two
/// neighbouring internal nodes gives.
proof fn lemma_merged_internal_apart(
    image: Seq<u8>,
    image2: Seq<u8>,
    b: int,
    off: int,
    h: nat,
    lo: Option<Seq<char>>,
    hi: Option<Seq<char>>,
    root: bool,
    low: int,
    m: usize,
    i: int,
    j: int,
    p: int,
)
    requires
        merge_done(image, image2, b, off, h, lo, hi, root, low, m),
        h > 1,
        0 <= i < j < kids_at(image2, m as int).len(),
    ensures
        !(in_subtree(image2, kids_at(image2, m as int)[i] as int, (h - 2) as nat, p) && in_subtree(
            image2,
            kids_at(image2, m as int)[j] as int,
            (h - 2) as nat,
            p,
        )),
{
    lemma_merged_internal_shape(image, image2, b, off, h, lo, hi, root, low, m);
    lemma_merge_kept(image, image2, b, off, h, lo, hi, root, low, m, low);
    lemma_merge_kept(image, image2, b, off, h, lo, hi, root, low, m, low + 1);
    lemma_merged_internal_child(image, image2, b, off, h, lo, hi, root, low, m, i);
    lemma_merged_internal_child(image, image2, b, off, h, lo, hi, root, low, m, j);
    lemma_merge_sides(image, image2, b, off, h, lo, hi, root, low, m);
    reveal(subtree_ok);
    let kids = kids_at(image, off);
    let l = kids[low] as int;
    let r = kids[low + 1] as int;
    let g = (h - 1) as nat;
    let gg = (h - 2) as nat;
    let c1 = kids_at(image, l);
    let c2 = kids_at(image, r);
    let mk = kids_at(image2, m as int);
    let n = c1.len() as int;
    if in_subtree(image2, mk[i] as int, gg, p) && in_subtree(image2, mk[j] as int, gg, p) {
        if j < n {
            assert(mk[i] == c1[i] && mk[j] == c1[j]);
            assert(!(in_subtree(image2, c1[i] as int, gg, p) && in_subtree(
                image2,
                c1[j] as int,
                gg,
                p,
            )));
        } else if i >= n {
            assert(mk[i] == c2[i - n] && mk[j] == c2[j - n]);
            assert(!(in_subtree(image2, c2[i - n] as int, gg, p) && in_subtree(
                image2,
                c2[j - n] as int,
                gg,
                p,
            )));
        } else {
            assert(!(in_subtree(image, kids[low] as int, g, p) && in_subtree(
                image,
                kids[low + 1] as int,
                g,
                p,
            )));
        }
    }
}

/// What merging two neighbouring internal nodes gives is a sound subtree
/// within the bounds of the two, stores what the two stored, and lies on the
/// pages below the two and on its own page.
proof fn lemma_merged_internal(
    image: Seq<u8>,
    image2: Seq<u8>,
    b: int,
    off: int,
    h: nat,
    lo: Option<Seq<char>>,
    hi: Option<Seq<char>>,
    root: bool,
    low: int,
    m: usize,
)
    requires
        merge_done(image, image2, b, off, h, lo, hi, root, low, m),
        h > 1,
    ensures
        subtree_ok(
            image2,
            b,
            0,
            m as int,
            (h - 1) as nat,
            merged_lo(seps_at(image, off), lo, low),
            merged_hi(seps_at(image, off), hi, low),
            false,
        ),
        forall|k: Seq<char>, v: Seq<char>|
            #[trigger] subtree_has(image2, m as int, (h - 1) as nat, k, v) <==> subtree_has(
                image,
                kids_at(image, off)[low] as int,
                (h - 1) as nat,
                k,
                v,
            ) || subtree_has(image, kids_at(image, off)[low + 1] as int, (h - 1) as nat, k, v),
        forall|p: int|
            #[trigger] in_subtree(image2, m as int, (h - 1) as nat, p) ==> p == m || (p != off && p
                != kids_at(image, off)[low] && p != kids_at(image, off)[low + 1] && (in_subtree(
                image,
                kids_at(image, off)[low] as int,
                (h - 1) as nat,
                p,
            ) || in_subtree(image, kids_at(image, off)[low + 1] as int, (h - 1) as nat, p))),
        branches(node_at(image2, m as int)),
{
    lemma_merged_internal_shape(image, image2, b, off, h, lo, hi, root, low, m);
    let kids = kids_at(image, off);
    let seps = seps_at(image, off);
    let l = kids[low] as int;
    let r = kids[low + 1] as int;
    let g = (h - 1) as nat;
    let gg = (h - 2) as nat;
    let c1 = kids_at(image, l);
    let c2 = kids_at(image, r);
    let mk = kids_at(image2, m as int);
    let ms = seps_at(image2, m as int);
    let mlo = merged_lo(seps, lo, low);
    let mhi = merged_hi(seps, hi, low);
    let n = c1.len() as int;
    assert forall|i: int| #![trigger mk[i]] 0 <= i < mk.len() implies subtree_ok(
        image2,
        b,
        0,
        mk[i] as int,
        gg,
        child_lo(ms, mlo, i),
        child_hi(ms, mhi, i),
        false,
    ) && !in_subtree(image2, mk[i] as int, gg, m as int) by {
        lemma_merged_internal_child(image, image2, b, off, h, lo, hi, root, low, m, i);
    }
    assert forall|i: int, j: int, p: int| 0 <= i < j < mk.len() implies !(#[trigger] in_subtree(
        image2,
        mk[i] as int,
        gg,
        p,
    ) && #[trigger] in_subtree(image2, mk[j] as int, gg, p)) by {
        lemma_merged_internal_apart(image, image2, b, off, h, lo, hi, root, low, m, i, j, p);
    }
    assert(subtree_ok(image2, b, 0, m as int, g, mlo, mhi, false)) by {
        reveal(subtree_ok);
    }
    assert forall|p: int| #[trigger] in_subtree(image2, m as int, g, p) implies p == m || (p
        != off && p != l && p != r && (in_subtree(image, l, g, p) || in_subtree(
        image,
        r,
        g,
        p,
    ))) by {
        reveal(in_subtree);
        if p != m {
            let i = choose|i: int|
                #![trigger mk[i]]
                0 <= i < mk.len() && in_subtree(image2, mk[i] as int, gg, p);
            lemma_merged_internal_child(image, image2, b, off, h, lo, hi, root, low, m, i);
            lemma_sides_apart(image, b, off, h, lo, hi, root, low, p);
        }
    }
    assert forall|k: Seq<char>, v: Seq<char>| #[trigger]
        subtree_has(image2, m as int, g, k, v) <==> subtree_has(image, l, g, k, v) || subtree_has(
            image,
            r,
            g,
            k,
            v,
        ) by {
        lemma_merge_kept(image, image2, b, off, h, lo, hi, root, low, m, low);
        lemma_merge_kept(image, image2, b, off, h, lo, hi, root, low, m, low + 1);
        lemma_merge_sides(image, image2, b, off, h, lo, hi, root, low, m);
        reveal(subtree_has);
        if subtree_has(image2, m as int, g, k, v) {
            let i = choose|i: int|
                #![trigger mk[i]]
                0 <= i < mk.len() && subtree_has(image2, mk[i] as int, gg, k, v);
            lemma_merged_internal_child(image, image2, b, off, h, lo, hi, root, low, m, i);
        }
        if subtree_has(image, l, g, k, v) {
            assert(subtree_has(image2, l, g, k, v));
            let i = choose|i: int|
                #![trigger c1[i]]
                0 <= i < c1.len() && subtree_has(image2, c1[i] as int, gg, k, v);
            assert(mk[i] == c1[i]);
            assert(subtree_has(image2, mk[i] as int, gg, k, v));
        }
        if subtree_has(image, r, g, k, v) {
            assert(subtree_has(image2, r, g, k, v));
            let i = choose|i: int|
                #![trigger c2[i]]
                0 <= i < c2.len() && subtree_has(image2, c2[i] as int, gg, k, v);
            assert(mk[n + i] == c2[i]);
            assert(subtree_has(image2, mk[n + i] as int, gg, k, v));
        }
    }
}

/// What merging two neighbouring children gives is a sound subtree within
/// the bounds of the two, stores what the two stored, and lies on pages of the
/// two and on its own page.
proof fn lemma_merged(
    image: Seq<u8>,
    image2: Seq<u8>,
    b: int,
    off: int,
    h: nat,
    lo: Option<Seq<char>>,
    hi: Option<Seq<char>>,
    root: bool,
    low: int,
    m: usize,
)
    requires
        merge_done(image, image2, b, off, h, lo, hi, root, low, m),
    ensures
        subtree_ok(
            image2,
            b,
            0,
            m as int,
            (h - 1) as nat,
            merged_lo(seps_at(image, off), lo, low),
            merged_hi(seps_at(image, off), hi, low),
            false,
        ),
        forall|k: Seq<char>, v: Seq<char>|
            #[trigger] subtree_has(image2, m as int, (h - 1) as nat, k, v) <==> subtree_has(
                image,
                kids_at(image, off)[low] as int,
                (h - 1) as nat,
                k,
                v,
            ) || subtree_has(image, kids_at(image, off)[low + 1] as int, (h - 1) as nat, k, v),
        forall|p: int|
            #[trigger] in_subtree(image2, m as int, (h - 1) as nat, p) ==> p == m || (p != off && p
                != kids_at(image, off)[low] && p != kids_at(image, off)[low + 1] && (in_subtree(
                image,
                kids_at(image, off)[low] as int,
                (h - 1) as nat,
                p,
            ) || in_subtree(image, kids_at(image, off)[low + 1] as int, (h - 1) as nat, p))),
        branches(node_at(image2, m as int)),
{
    if h == 1 {
        lemma_merged_leaf(image, image2, b, off, h, lo, hi, root, low, m);
    } else {
        lemma_merged_internal(image, image2, b, off, h, lo, hi, root, low, m);
    }
}

/// The keys of a node two of whose children have been merged still do not
/// descend and lie within the bounds of the node.
proof fn lemma_merge_parent_shape(
    image: Seq<u8>,
    image2: Seq<u8>,
    b: int,
    off: int,
    h: nat,
    lo: Option<Seq<char>>,
    hi: Option<Seq<char>>,
    root: bool,
    low: int,
    m: usize,
)
    requires
        merge_done(image, image2, b, off, h, lo, hi, root, low, m),
    ensures
        kids_at(image2, off) == kids_at(image, off).remove(low + 1).update(low, m),
        seps_at(image2, off) == seps_at(image, off).remove(low),
        kids_at(image, off).len() == seps_at(image, off).len() + 1,
        node_at(image, off) is Some,
        node_at(image, off)->Some_0.node_type is Internal,
        internal_ok(kids_at(image2, off), seps_at(image2, off), b, 0, lo, hi, root),
{
    reveal(subtree_ok);
    let seps = seps_at(image, off);
    let seps2 = seps.remove(low);
    assert forall|i: int| 0 <= i < seps2.len() implies at_least(lo, #[trigger] seps2[i]) && upto(
        seps2[i],
        hi,
    ) by {
        if i < low {
            assert(seps2[i] == seps[i]);
        } else {
            assert(seps2[i] == seps[i + 1]);
        }
    }
    assert forall|i: int, j: int| 0 <= i < j < seps2.len() implies key_le(
        #[trigger] seps2[i],
        #[trigger] seps2[j],
    ) by {
        let i0 = if i < low {
            i
        } else {
            i + 1
        };
        let j0 = if j < low {
            j
        } else {
            j + 1
        };
        assert(seps2[i] == seps[i0] && seps2[j] == seps[j0]);
        assert(key_le(seps[i0], seps[j0]));
    }
}

/// The child of the node before the merge from which child `i` of the node
/// after it comes; the merged child comes from the first of the two.
pub open spec fn merge_origin(low: int, i: int) -> int {
    if i <= low {
        i
    } else {
        i + 1
    }
}

/// Every child of a node two of whose children have been merged is a sound
/// subtree within the bounds that the keys of the node set.
proof fn lemma_merge_parent_child(
    image: Seq<u8>,
    image2: Seq<u8>,
    b: int,
    off: int,
    h: nat,
    lo: Option<Seq<char>>,
    hi: Option<Seq<char>>,
    root: bool,
    low: int,
    m: usize,
    i: int,
)
    requires
        merge_done(image, image2, b, off, h, lo, hi, root, low, m),
        0 <= i < kids_at(image2, off).len(),
    ensures
        subtree_ok(
            image2,
            b,
            0,
            kids_at(image2, off)[i] as int,
            (h - 1) as nat,
            child_lo(seps_at(image2, off), lo, i),
            child_hi(seps_at(image2, off), hi, i),
            false,
        ),
        forall|p: int|
            #[trigger] in_subtree(image2, kids_at(image2, off)[i] as int, (h - 1) as nat, p) ==> p
                != off && ((p == m && i == low) || (p != m && (in_subtree(
                image,
                kids_at(image, off)[merge_origin(low, i)] as int,
                (h - 1) as nat,
                p,
            ) || (i == low && in_subtree(
                image,
                kids_at(image, off)[low + 1] as int,
                (h - 1) as nat,
                p,
            ))))) && (i == low ==> p != kids_at(image, off)[low] && p != kids_at(
                image,
                off,
            )[low + 1]),
        forall|k: Seq<char>, v: Seq<char>|
            #[trigger] subtree_has(image2, kids_at(image2, off)[i] as int, (h - 1) as nat, k, v)
                <==> subtree_has(
                image,
                kids_at(image, off)[merge_origin(low, i)] as int,
                (h - 1) as nat,
                k,
                v,
            ) || (i == low && subtree_has(
                image,
                kids_at(image, off)[low + 1] as int,
                (h - 1) as nat,
                k,
                v,
            )),
{
    lemma_merge_parent_shape(image, image2, b, off, h, lo, hi, root, low, m);
    let kids = kids_at(image, off);
    let seps = seps_at(image, off);
    let kids2 = kids_at(image2, off);
    let seps2 = seps_at(image2, off);
    let g = (h - 1) as nat;
    if i == low {
        assert(kids2[i] == m);
        lemma_merged(image, image2, b, off, h, lo, hi, root, low, m);
        assert(child_lo(seps2, lo, low) == merged_lo(seps, lo, low)) by {
            if low > 0 {
                assert(seps2[low - 1] == seps[low - 1]);
            }
        }
        assert(child_hi(seps2, hi, low) == merged_hi(seps, hi, low)) by {
            if low < seps2.len() {
                assert(seps2[low] == seps[low + 1]);
            }
        }
        lemma_merge_kept(image, image2, b, off, h, lo, hi, root, low, m, low);
        lemma_merge_kept(image, image2, b, off, h, lo, hi, root, low, m, low + 1);
        lemma_merge_sides(image, image2, b, off, h, lo, hi, root, low, m);
        assert(m != off) by {
            reveal(subtree_ok);
            crate::tree::lemma_node_at_within(image, off);
        }
        assert forall|p: int| #[trigger] in_subtree(image2, m as int, g, p) implies p != off && (
        p == m || (p != m && (in_subtree(image, kids[low] as int, g, p) || in_subtree(
            image,
            kids[low + 1] as int,
            g,
            p,
        )))) && p != kids[low] && p != kids[low + 1] by {
            if p != m {
                if in_subtree(image, kids[low] as int, g, p) {
                } else {
                    assert(in_subtree(image, kids[low + 1] as int, g, p));
                }
            }
        }
    } else {
        let o = merge_origin(low, i);
        assert(kids2[i] == kids[o]);
        lemma_merge_kept(image, image2, b, off, h, lo, hi, root, low, m, o);
        assert forall|p: int| #[trigger] in_subtree(image2, kids2[i] as int, g, p) implies p
            != off && p != m && in_subtree(image, kids[o] as int, g, p) by {
            assert(in_subtree(image, kids[o] as int, g, p));
        }
        assert(child_lo(seps2, lo, i) == child_lo(seps, lo, o)) by {
            if i > 0 {
                if i - 1 < low {
                    assert(seps2[i - 1] == seps[i - 1]);
                } else {
                    assert(seps2[i - 1] == seps[i]);
                }
            }
        }
        assert(child_hi(seps2, hi, i) == child_hi(seps, hi, o)) by {
            if i < seps2.len() {
                if i < low {
                    assert(seps2[i] == seps[i]);
                } else {
                    assert(seps2[i] == seps[i + 1]);
                }
            }
        }
    }
}

/// A page below a child is not the page of another child.
proof fn lemma_other_apart(
    image: Seq<u8>,
    b: int,
    off: int,
    h: nat,
    lo: Option<Seq<char>>,
    hi: Option<Seq<char>>,
    root: bool,
    low: int,
    o: int,
    p: int,
)
    requires
        subtree_ok(image, b, 0, off, h, lo, hi, root),
        h > 0,
        0 <= low,
        low + 1 < kids_at(image, off).len(),
        0 <= o < kids_at(image, off).len(),
        o != low,
        o != low + 1,
        in_subtree(image, kids_at(image, off)[o] as int, (h - 1) as nat, p),
    ensures
        p != kids_at(image, off)[low],
        p != kids_at(image, off)[low + 1],
{
    reveal(subtree_ok);
    reveal(in_subtree);
    let kids = kids_at(image, off);
    let l = kids[low] as int;
    let r = kids[low + 1] as int;
    let g = (h - 1) as nat;
    assert(in_subtree(image, l, g, l));
    assert(in_subtree(image, r, g, r));
    if o < low {
        assert(!(in_subtree(image, kids[o] as int, g, l) && in_subtree(
            image,
            kids[low] as int,
            g,
            l,
        )));
        assert(!(in_subtree(image, kids[o] as int, g, r) && in_subtree(
            image,
            kids[low + 1] as int,
            g,
            r,
        )));
    } else {
        assert(!(in_subtree(image, kids[low] as int, g, l) && in_subtree(
            image,
            kids[o] as int,
            g,
            l,
        )));
        assert(!(in_subtree(image, kids[low + 1] as int, g, r) && in_subtree(
            image,
            kids[o] as int,
            g,
            r,
        )));
    }
}

/// A node two of whose children have been merged is the root of a sound
/// subtree as before, which stores what it stored, on pages that it had and
/// on the page of the merged child.
pub proof fn lemma_merge_parent(
    image: Seq<u8>,
    image2: Seq<u8>,
    b: int,
    off: int,
    h: nat,
    lo: Option<Seq<char>>,
    hi: Option<Seq<char>>,
    root: bool,
    low: int,
    m: usize,
)
    requires
        merge_done(image, image2, b, off, h, lo, hi, root, low, m),
    ensures
        subtree_ok(image2, b, 0, off, h, lo, hi, root),
        forall|p: int|
            #[trigger] in_subtree(image2, off, h, p) ==> (in_subtree(image, off, h, p) || p == m)
                && p != kids_at(image, off)[low] && p != kids_at(image, off)[low + 1],
        forall|k: Seq<char>, v: Seq<char>|
            subtree_has(image, off, h, k, v) <==> #[trigger] subtree_has(image2, off, h, k, v),
        kids_at(image2, off).len() == kids_at(image, off).len() - 1,
        kids_at(image2, off)[low] == m,
        branches(node_at(image2, m as int)),
{
    let kids = kids_at(image, off);
    let seps = seps_at(image, off);
    let g = (h - 1) as nat;
    let kids2 = kids_at(image2, off);
    let seps2 = seps_at(image2, off);
    lemma_merge_parent_shape(image, image2, b, off, h, lo, hi, root, low, m);
    lemma_merged(image, image2, b, off, h, lo, hi, root, low, m);
    assert(off % 4096 == 0) by {
        reveal(subtree_ok);
    }
    assert forall|i: int| #![trigger kids2[i]] 0 <= i < kids2.len() implies subtree_ok(
        image2,
        b,
        0,
        kids2[i] as int,
        g,
        child_lo(seps2, lo, i),
        child_hi(seps2, hi, i),
        false,
    ) && !in_subtree(image2, kids2[i] as int, g, off) by {
        lemma_merge_parent_child(image, image2, b, off, h, lo, hi, root, low, m, i);
    }
    assert forall|i: int, j: int, p: int| 0 <= i < j < kids2.len() implies !(#[trigger] in_subtree(
        image2,
        kids2[i] as int,
        g,
        p,
    ) && #[trigger] in_subtree(image2, kids2[j] as int, g, p)) by {
        lemma_merge_parent_child(image, image2, b, off, h, lo, hi, root, low, m, i);
        lemma_merge_parent_child(image, image2, b, off, h, lo, hi, root, low, m, j);
        if in_subtree(image2, kids2[i] as int, g, p) && in_subtree(image2, kids2[j] as int, g, p) {
            reveal(subtree_ok);
            let oi = merge_origin(low, i);
            let oj = merge_origin(low, j);
            assert(!(in_subtree(image, kids[oi] as int, g, p) && in_subtree(
                image,
                kids[oj] as int,
                g,
                p,
            )));
            if i == low {
                assert(!(in_subtree(image, kids[low + 1] as int, g, p) && in_subtree(
                    image,
                    kids[oj] as int,
                    g,
                    p,
                )));
            }
        }
    }
    assert(subtree_ok(image2, b, 0, off, h, lo, hi, root)) by {
        reveal(subtree_ok);
    }
    lemma_merge_sides(image, image2, b, off, h, lo, hi, root, low, m);
    assert forall|p: int| #[trigger] in_subtree(image2, off, h, p) implies (in_subtree(
        image,
        off,
        h,
        p,
    ) || p == m) && p != kids[low] && p != kids[low + 1] by {
        reveal(in_subtree);
        if p != off {
            let i = choose|i: int|
                #![trigger kids2[i]]
                0 <= i < kids2.len() && in_subtree(image2, kids2[i] as int, g, p);
            lemma_merge_parent_child(image, image2, b, off, h, lo, hi, root, low, m, i);
            if p != m {
                let o = merge_origin(low, i);
                if in_subtree(image, kids[o] as int, g, p) {
                    lemma_in_child_in_parent(image, off, h, o, p);
                } else {
                    assert(in_subtree(image, kids[low + 1] as int, g, p));
                    lemma_in_child_in_parent(image, off, h, low + 1, p);
                }
                if i != low {
                    lemma_other_apart(image, b, off, h, lo, hi, root, low, o, p);
                }
            }
        }
    }
    assert forall|k: Seq<char>, v: Seq<char>|
        subtree_has(image, off, h, k, v) <==> #[trigger] subtree_has(image2, off, h, k, v) by {
        reveal(subtree_has);
        if subtree_has(image, off, h, k, v) {
            let i = choose|i: int|
                #![trigger kids[i]]
                0 <= i < kids.len() && subtree_has(image, kids[i] as int, g, k, v);
            let i2 = if i <= low {
                i
            } else {
                i - 1
            };
            lemma_merge_parent_child(image, image2, b, off, h, lo, hi, root, low, m, i2);
            assert(subtree_has(image2, kids2[i2] as int, g, k, v));
        }
        if subtree_has(image2, off, h, k, v) {
            let i = choose|i: int|
                #![trigger kids2[i]]
                0 <= i < kids2.len() && subtree_has(image2, kids2[i] as int, g, k, v);
            lemma_merge_parent_child(image, image2, b, off, h, lo, hi, root, low, m, i);
            let o = merge_origin(low, i);
            if subtree_has(image, kids[o] as int, g, k, v) {
            } else {
                assert(subtree_has(image, kids[low + 1] as int, g, k, v));
            }
        }
    }
}

/// When the only child of the root has been written as the root, it is the
/// root of a sound tree, one level lower, which stores what the tree stored.
pub proof fn lemma_root_collapsed(image: Seq<u8>, image2: Seq<u8>, b: int, old_root: int, h: nat)
    requires
        subtree_ok(image, b, 0, old_root, h, None, None, true),
        h > 0,
        kids_at(image, old_root).len() == 1,
        branches(node_at(image, kids_at(image, old_root)[0] as int)),
        node_at(image2, kids_at(image, old_root)[0] as int) is Some,
        node_at(image2, kids_at(image, old_root)[0] as int)->Some_0.is_root,
        node_at(image2, kids_at(image, old_root)[0] as int)->Some_0.node_type == node_at(
            image,
            kids_at(image, old_root)[0] as int,
        )->Some_0.node_type,
        forall|p: int|
            p % 4096 == 0 && p != kids_at(image, old_root)[0] ==> #[trigger] node_at(image2, p)
                == node_at(image, p),
    ensures
        subtree_ok(
            image2,
            b,
            0,
            kids_at(image, old_root)[0] as int,
            (h - 1) as nat,
            None,
            None,
            true,
        ),
        branches(node_at(image2, kids_at(image, old_root)[0] as int)),
        forall|k: Seq<char>, v: Seq<char>|
            subtree_has(image, old_root, h, k, v) <==> #[trigger] subtree_has(
                image2,
                kids_at(image, old_root)[0] as int,
                (h - 1) as nat,
                k,
                v,
            ),
        forall|p: int|
            #[trigger] in_subtree(image2, kids_at(image, old_root)[0] as int, (h - 1) as nat, p)
                ==> in_subtree(image, old_root, h, p) && in_subtree(
                image,
                kids_at(image, old_root)[0] as int,
                (h - 1) as nat,
                p,
            ) && p != old_root && (p != kids_at(image, old_root)[0] ==> node_at(image2, p)
                == node_at(image, p)),
{
    reveal(subtree_ok);
    reveal(subtree_has);
    reveal(in_subtree);
    let kids = kids_at(image, old_root);
    let seps = seps_at(image, old_root);
    let c = kids[0] as int;
    let g = (h - 1) as nat;
    assert(seps.len() == 0);
    assert(subtree_ok(
        image,
        b,
        0,
        kids[0] as int,
        g,
        child_lo(seps, None, 0),
        child_hi(seps, None, 0),
        false,
    ));
    let cn = node_at(image, c)->Some_0;
    match cn.node_type {
        NodeTypeView::Internal(children, cseps) => {
            let gg = (g - 1) as nat;
            assert forall|i: int| 0 <= i < children.len() implies #[trigger] child_kept(
                image,
                image2,
                b,
                0,
                c,
                g,
                None,
                None,
                i,
            ) by {
                let d = children[i] as int;
                assert(!in_subtree(image, children[i] as int, gg, c));
                assert forall|p: int| #[trigger] in_subtree(image, d, gg, p) implies node_at(
                    image,
                    p,
                ) == node_at(image2, p) by {
                    lemma_in_subtree_valid(
                        image,
                        b,
                        0,
                        d,
                        gg,
                        child_lo(cseps, None, i),
                        child_hi(cseps, None, i),
                        false,
                        p,
                    );
                    assert(node_at(image2, p) == node_at(image, p));
                }
                lemma_child_kept(image, image2, b, 0, c, g, None, None, false, i);
            }
            assert forall|i: int| #![trigger children[i]] 0 <= i < children.len() implies subtree_ok(
                image2,
                b,
                0,
                children[i] as int,
                gg,
                child_lo(cseps, None, i),
                child_hi(cseps, None, i),
                false,
            ) && !in_subtree(image2, children[i] as int, gg, c) by {
                assert(child_kept(image, image2, b, 0, c, g, None, None, i));
                assert(!in_subtree(image, children[i] as int, gg, c));
            }
            assert forall|i: int, j: int, p: int| 0 <= i < j < children.len() implies !(
            #[trigger] in_subtree(image2, children[i] as int, gg, p) && #[trigger] in_subtree(
                image2,
                children[j] as int,
                gg,
                p,
            )) by {
                assert(child_kept(image, image2, b, 0, c, g, None, None, i));
                assert(child_kept(image, image2, b, 0, c, g, None, None, j));
                assert(!(in_subtree(image, children[i] as int, gg, p) && in_subtree(
                    image,
                    children[j] as int,
                    gg,
                    p,
                )));
            }
            assert forall|k: Seq<char>, v: Seq<char>|
                subtree_has(image, old_root, h, k, v) <==> #[trigger] subtree_has(
                    image2,
                    c,
                    g,
                    k,
                    v,
                ) by {
                if subtree_has(image, old_root, h, k, v) {
                    let i0 = choose|i: int|
                        #![trigger kids[i]]
                        0 <= i < kids.len() && subtree_has(image, kids[i] as int, g, k, v);
                    assert(subtree_has(image, c, g, k, v));
                    let i = choose|i: int|
                        #![trigger children[i]]
                        0 <= i < children.len() && subtree_has(
                            image,
                            children[i] as int,
                            gg,
                            k,
                            v,
                        );
                    assert(child_kept(image, image2, b, 0, c, g, None, None, i));
                    assert(subtree_has(image2, children[i] as int, gg, k, v));
                }
                if subtree_has(image2, c, g, k, v) {
                    let i = choose|i: int|
                        #![trigger children[i]]
                        0 <= i < children.len() && subtree_has(
                            image2,
                            children[i] as int,
                            gg,
                            k,
                            v,
                        );
                    assert(child_kept(image, image2, b, 0, c, g, None, None, i));
                    assert(subtree_has(image, children[i] as int, gg, k, v));
                    assert(subtree_has(image, c, g, k, v));
                    assert(subtree_has(image, kids[0] as int, g, k, v));
                }
            }
            assert forall|p: int| #[trigger] in_subtree(image2, c, g, p) implies in_subtree(
                image,
                old_root,
                h,
                p,
            ) && in_subtree(image, c, g, p) && p != old_root && (p != c ==> node_at(image2, p)
                == node_at(image, p)) by {
                assert(in_subtree(image, kids[0] as int, g, c));
                assert(!in_subtree(image, kids[0] as int, g, old_root));
                if p != c {
                    let i = choose|i: int|
                        #![trigger children[i]]
                        0 <= i < children.len() && in_subtree(image2, children[i] as int, gg, p);
                    assert(child_kept(image, image2, b, 0, c, g, None, None, i));
                    assert(in_subtree(image, children[i] as int, gg, p));
                    assert(in_subtree(image, c, g, p));
                    assert(in_subtree(image, kids[0] as int, g, p));
                    lemma_in_subtree_valid(image, b, 0, c, g, None, None, false, p);
                }
            }
        },
        NodeTypeView::Leaf(pairs) => {
            assert forall|k: Seq<char>, v: Seq<char>|
                subtree_has(image, old_root, h, k, v) <==> #[trigger] subtree_has(
                    image2,
                    c,
                    g,
                    k,
                    v,
                ) by {
                if subtree_has(image, old_root, h, k, v) {
                    let i0 = choose|i: int|
                        #![trigger kids[i]]
                        0 <= i < kids.len() && subtree_has(image, kids[i] as int, g, k, v);
                }
                if subtree_has(image2, c, g, k, v) {
                    assert(subtree_has(image, kids[0] as int, g, k, v));
                }
            }
            assert forall|p: int| #[trigger] in_subtree(image2, c, g, p) implies in_subtree(
                image,
                old_root,
                h,
                p,
            ) && in_subtree(image, c, g, p) && p != old_root && (p != c ==> node_at(image2, p)
                == node_at(image, p)) by {
                assert(in_subtree(image, kids[0] as int, g, c));
                assert(!in_subtree(image, kids[0] as int, g, old_root));
            }
        },
        NodeTypeView::Unexpected => {},
    }
}

} // verus!
