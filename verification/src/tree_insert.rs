//! What putting a pair into a leaf, dividing a full node and changing one
//! child do to a sound subtree.

use crate::encoding::{round_trips, storable};
use crate::key_order::{
    key_le, key_lt, lemma_key_le_transitive, lemma_key_lt_transitive, lemma_key_not_lt,
};
use crate::node::NodeView;
use crate::node_type::NodeTypeView;
use crate::pager::{overwritten, page_at};
use crate::tree::{
    above, at_least, child_hi, child_lo, child_slot, in_subtree, internal_ok, leaf_ok,
    lemma_child_slot, lemma_frame_has, lemma_frame_ok, lemma_frame_pages, lemma_has_bounds,
    lemma_in_subtree_valid, node_at, same_subtree_pages, seps_ascend, subtree_has, subtree_ok,
    upto,
};
use crate::tree::{branches, MAX_BRANCHING_FACTOR};
use vstd::prelude::*;

verus! {

/// A node that holds as much as a node may hold: a leaf `2b - 1` pairs, an
/// internal node `2b` children.
pub open spec fn is_full(node: NodeView, b: int) -> bool {
    match node.node_type {
        NodeTypeView::Leaf(pairs) => pairs.len() == 2 * b - 1,
        NodeTypeView::Internal(children, _) => children.len() == 2 * b,
        NodeTypeView::Unexpected => false,
    }
}

/// Writing a page over a page of the image changes that page and no other.
pub proof fn lemma_overwrite(image: Seq<u8>, off: int, page: Seq<u8>)
    requires
        0 <= off,
        off % 4096 == 0,
        off + 4096 <= image.len(),
        page.len() == 4096,
    ensures
        overwritten(image, off, page).len() == image.len(),
        page_at(overwritten(image, off, page), off) == page,
        forall|p: int|
            p % 4096 == 0 && p != off ==> #[trigger] node_at(overwritten(image, off, page), p)
                == node_at(image, p),
{
    reveal(node_at);
    let image2 = overwritten(image, off, page);
    assert(page_at(image2, off) =~= page);
    assert forall|p: int| p % 4096 == 0 && p != off implies #[trigger] node_at(image2, p)
        == node_at(image, p) by {
        if 0 <= p && p + 4096 <= image.len() {
            assert(page_at(image2, p) =~= page_at(image, p));
        }
    }
}

/// Appending a page to an image of whole pages changes no page that was
/// there.
pub proof fn lemma_append(image: Seq<u8>, page: Seq<u8>)
    requires
        image.len() % 4096 == 0,
        page.len() == 4096,
    ensures
        (image + page).len() == image.len() + 4096,
        page_at(image + page, image.len() as int) == page,
        forall|p: int|
            p % 4096 == 0 && p != image.len() ==> #[trigger] node_at(image + page, p) == node_at(
                image,
                p,
            ),
{
    reveal(node_at);
    let image2 = image + page;
    assert(page_at(image2, image.len() as int) =~= page);
    assert forall|p: int| p % 4096 == 0 && p != image.len() implies #[trigger] node_at(image2, p)
        == node_at(image, p) by {
        if 0 <= p && p + 4096 <= image.len() {
            assert(page_at(image2, p) =~= page_at(image, p));
        }
    }
}

/// The pages of a child's subtree belong to the subtree of its parent.
pub proof fn lemma_in_child_in_parent(image: Seq<u8>, off: int, h: nat, i: int, p: int)
    requires
        h > 0,
        node_at(image, off) is Some,
        node_at(image, off)->Some_0.node_type is Internal,
        0 <= i < node_at(image, off)->Some_0.node_type->Internal_0.len(),
        in_subtree(
            image,
            node_at(image, off)->Some_0.node_type->Internal_0[i] as int,
            (h - 1) as nat,
            p,
        ),
    ensures
        in_subtree(image, off, h, p),
{
    reveal(in_subtree);
    let children = node_at(image, off)->Some_0.node_type->Internal_0;
    let c = children[i];
}

/// What holds when a full node of a sound subtree of `image` has been
/// divided: in `image2` the page at `off` holds the half that stays and the
/// page at `sib`, which `image` did not have, the sibling; neither is a root;
/// the other pages of the subtree are what they were.
pub open spec fn split_done(
    image: Seq<u8>,
    image2: Seq<u8>,
    b: int,
    min: int,
    off: int,
    sib: int,
    h: nat,
    lo: Option<Seq<char>>,
    hi: Option<Seq<char>>,
    root: bool,
) -> bool {
    &&& 2 <= b
    &&& 0 <= min <= b - 1
    &&& subtree_ok(image, b, min, off, h, lo, hi, root)
    &&& is_full(node_at(image, off)->Some_0, b)
    &&& sib % 4096 == 0
    &&& sib >= image.len()
    &&& node_at(image2, off) is Some
    &&& node_at(image2, off)->Some_0.node_type == node_at(image, off)->Some_0.split_left(
        b,
    ).node_type
    &&& !node_at(image2, off)->Some_0.is_root
    &&& node_at(image2, sib) is Some
    &&& node_at(image2, sib)->Some_0.node_type == node_at(image, off)->Some_0.split_right(
        b,
    ).node_type
    &&& !node_at(image2, sib)->Some_0.is_root
    &&& forall|p: int|
        #[trigger] in_subtree(image, off, h, p) && p != off ==> node_at(image, p) == node_at(
            image2,
            p,
        )
}

/// The key that goes up when the node at `off` is divided.
pub open spec fn median_at(image: Seq<u8>, off: int, b: int) -> Seq<char> {
    node_at(image, off)->Some_0.split_median(b)
}

/// The children of the internal node at `off`.
pub open spec fn kids_at(image: Seq<u8>, off: int) -> Seq<usize> {
    node_at(image, off)->Some_0.node_type->Internal_0
}

/// The keys of the internal node at `off`.
pub open spec fn seps_at(image: Seq<u8>, off: int) -> Seq<Seq<char>> {
    node_at(image, off)->Some_0.node_type->Internal_1
}

/// Child `i` of the internal node at `off` of `image` is in `image2` the
/// sound subtree that it is in `image`, on the same pages, and stores the
/// same.
pub open spec fn child_kept(
    image: Seq<u8>,
    image2: Seq<u8>,
    b: int,
    min: int,
    off: int,
    h: nat,
    lo: Option<Seq<char>>,
    hi: Option<Seq<char>>,
    i: int,
) -> bool {
    let c = kids_at(image, off)[i] as int;
    let g = (h - 1) as nat;
    &&& subtree_ok(
        image2,
        b,
        min,
        c,
        g,
        child_lo(seps_at(image, off), lo, i),
        child_hi(seps_at(image, off), hi, i),
        false,
    )
    &&& forall|p: int| in_subtree(image, c, g, p) == #[trigger] in_subtree(image2, c, g, p)
    &&& forall|k: Seq<char>, v: Seq<char>|
        subtree_has(image, c, g, k, v) == #[trigger] subtree_has(image2, c, g, k, v)
    &&& forall|p: int| #[trigger] in_subtree(image, c, g, p) ==> p != off && in_subtree(image, off, h, p)
    &&& forall|p: int|
        #[trigger] in_subtree(image, c, g, p) ==> 0 <= p && p + 4096 <= image.len()
}

/// A child whose pages are what they were is kept.
pub proof fn lemma_child_kept(
    image: Seq<u8>,
    image2: Seq<u8>,
    b: int,
    min: int,
    off: int,
    h: nat,
    lo: Option<Seq<char>>,
    hi: Option<Seq<char>>,
    root: bool,
    i: int,
)
    requires
        subtree_ok(image, b, min, off, h, lo, hi, root),
        h > 0,
        0 <= i < kids_at(image, off).len(),
        same_subtree_pages(image, image2, kids_at(image, off)[i] as int, (h - 1) as nat),
    ensures
        child_kept(image, image2, b, min, off, h, lo, hi, i),
{
    reveal(subtree_ok);
    let children = kids_at(image, off);
    let seps = seps_at(image, off);
    let c = children[i] as int;
    let g = (h - 1) as nat;
    assert(!in_subtree(image, children[i] as int, g, off));
    assert forall|p: int| #[trigger] in_subtree(image, c, g, p) implies p != off && in_subtree(
        image,
        off,
        h,
        p,
    ) && 0 <= p && p + 4096 <= image.len() by {
        lemma_in_child_in_parent(image, off, h, i, p);
        lemma_in_subtree_valid(
            image,
            b,
            min,
            c,
            g,
            child_lo(seps, lo, i),
            child_hi(seps, hi, i),
            false,
            p,
        );
    }
    lemma_frame_ok(image, image2, b, min, c, g, child_lo(seps, lo, i), child_hi(seps, hi, i), false);
    lemma_frame_pages(image, image2, c, g);
    lemma_frame_has(image, image2, c, g);
}

/// Where all pages below an internal node are what they were, every child
/// is kept.
pub proof fn lemma_children_kept(
    image: Seq<u8>,
    image2: Seq<u8>,
    b: int,
    min: int,
    off: int,
    h: nat,
    lo: Option<Seq<char>>,
    hi: Option<Seq<char>>,
    root: bool,
    i: int,
)
    requires
        subtree_ok(image, b, min, off, h, lo, hi, root),
        h > 0,
        0 <= i < kids_at(image, off).len(),
        forall|p: int|
            #[trigger] in_subtree(image, off, h, p) && p != off ==> node_at(image, p) == node_at(
                image2,
                p,
            ),
    ensures
        child_kept(image, image2, b, min, off, h, lo, hi, i),
{
    reveal(subtree_ok);
    let children = kids_at(image, off);
    let c = children[i] as int;
    let g = (h - 1) as nat;
    assert(!in_subtree(image, children[i] as int, g, off));
    assert forall|p: int| #[trigger] in_subtree(image, c, g, p) implies node_at(image, p)
        == node_at(image2, p) by {
        lemma_in_child_in_parent(image, off, h, i, p);
    }
    lemma_child_kept(image, image2, b, min, off, h, lo, hi, root, i);
}

/// The halves of a divided leaf.
proof fn lemma_split_leaf(
    image: Seq<u8>,
    image2: Seq<u8>,
    b: int,
    min: int,
    off: int,
    sib: int,
    h: nat,
    lo: Option<Seq<char>>,
    hi: Option<Seq<char>>,
    root: bool,
)
    requires
        split_done(image, image2, b, min, off, sib, h, lo, hi, root),
        h == 0,
    ensures
        subtree_ok(image2, b, min, off, h, lo, Some(median_at(image, off, b)), false),
        subtree_ok(image2, b, min, sib, h, Some(median_at(image, off, b)), hi, false),
        at_least(lo, median_at(image, off, b)),
        upto(median_at(image, off, b), hi),
        forall|k: Seq<char>, v: Seq<char>|
            #[trigger] subtree_has(image, off, h, k, v) <==> subtree_has(image2, off, h, k, v)
                || subtree_has(image2, sib, h, k, v),
{
    reveal(subtree_ok);
    reveal(subtree_has);
    let node = node_at(image, off)->Some_0;
    let median = node.split_median(b);
    let pairs = node.node_type->Leaf_0;
    let lp = pairs.subrange(0, b);
    let rp = pairs.subrange(b, pairs.len() as int);
    assert(above(lo, pairs[b - 1].0));
    assert(upto(pairs[b - 1].0, hi));
    if lo is Some {
        assert(key_le(lo->Some_0, median));
    }
    assert(leaf_ok(lp, b, min, lo, Some(median), false)) by {
        assert forall|i: int| 0 <= i < lp.len() implies above(lo, (#[trigger] lp[i]).0) && upto(
            lp[i].0,
            Some(median),
        ) by {
            assert(lp[i] == pairs[i]);
            if i < b - 1 {
                assert(key_lt(pairs[i].0, pairs[b - 1].0));
            }
        }
        assert forall|i: int, j: int| 0 <= i < j < lp.len() implies key_lt(
            (#[trigger] lp[i]).0,
            (#[trigger] lp[j]).0,
        ) by {
            assert(key_lt(pairs[i].0, pairs[j].0));
        }
    }
    assert(leaf_ok(rp, b, min, Some(median), hi, false)) by {
        assert forall|i: int| 0 <= i < rp.len() implies above(Some(median), (#[trigger] rp[i]).0)
            && upto(rp[i].0, hi) by {
            assert(rp[i] == pairs[b + i]);
            assert(key_lt(pairs[b - 1].0, pairs[b + i].0));
        }
        assert forall|i: int, j: int| 0 <= i < j < rp.len() implies key_lt(
            (#[trigger] rp[i]).0,
            (#[trigger] rp[j]).0,
        ) by {
            assert(key_lt(pairs[b + i].0, pairs[b + j].0));
        }
    }
    assert forall|k: Seq<char>, v: Seq<char>| #[trigger]
        subtree_has(image, off, h, k, v) <==> subtree_has(image2, off, h, k, v) || subtree_has(
            image2,
            sib,
            h,
            k,
            v,
        ) by {
        assert(node_at(image2, off)->Some_0.node_type == NodeTypeView::Leaf(lp));
        assert(node_at(image2, sib)->Some_0.node_type == NodeTypeView::Leaf(rp));
        if subtree_has(image, off, h, k, v) {
            let j = choose|j: int| 0 <= j < pairs.len() && #[trigger] pairs[j] == (k, v);
            if j < b {
                assert(lp[j] == (k, v));
                let written = node_at(image2, off)->Some_0;
                let stored = written.node_type->Leaf_0;
                assert(stored == lp);
                assert(stored[j] == (k, v));
                assert(subtree_has(image2, off, h, k, v));
            } else {
                assert(rp[j - b] == (k, v));
                let written = node_at(image2, sib)->Some_0;
                let stored = written.node_type->Leaf_0;
                assert(stored == rp);
                assert(stored[j - b] == (k, v));
                assert(subtree_has(image2, sib, h, k, v));
            }
        }
        if subtree_has(image2, off, h, k, v) {
            let j = choose|j: int| 0 <= j < lp.len() && #[trigger] lp[j] == (k, v);
            assert(pairs[j] == (k, v));
            assert(subtree_has(image, off, h, k, v));
        }
        if subtree_has(image2, sib, h, k, v) {
            let j = choose|j: int| 0 <= j < rp.len() && #[trigger] rp[j] == (k, v);
            assert(pairs[b + j] == (k, v));
            assert(subtree_has(image, off, h, k, v));
        }
    }
}

/// The half of a divided internal node that stays is sound.
proof fn lemma_split_internal_left(
    image: Seq<u8>,
    image2: Seq<u8>,
    b: int,
    min: int,
    off: int,
    sib: int,
    h: nat,
    lo: Option<Seq<char>>,
    hi: Option<Seq<char>>,
    root: bool,
)
    requires
        split_done(image, image2, b, min, off, sib, h, lo, hi, root),
        h > 0,
    ensures
        subtree_ok(image2, b, min, off, h, lo, Some(median_at(image, off, b)), false),
        at_least(lo, median_at(image, off, b)),
        upto(median_at(image, off, b), hi),
{
    reveal(subtree_ok);
    let median = median_at(image, off, b);
    let children = kids_at(image, off);
    let seps = seps_at(image, off);
    let lc = children.subrange(0, b);
    let ls = seps.subrange(0, b - 1);
    let g = (h - 1) as nat;
    assert(median == seps[b - 1]);
    assert(at_least(lo, seps[b - 1]) && upto(seps[b - 1], hi));
    assert(kids_at(image2, off) == lc);
    assert(seps_at(image2, off) == ls);
    assert(internal_ok(lc, ls, b, min, lo, Some(median), false)) by {
        assert forall|i: int, j: int| 0 <= i < j < ls.len() implies key_le(
            #[trigger] ls[i],
            #[trigger] ls[j],
        ) by {
            assert(key_le(seps[i], seps[j]));
        }
        assert forall|i: int| 0 <= i < ls.len() implies at_least(lo, #[trigger] ls[i]) && upto(
            ls[i],
            Some(median),
        ) by {
            assert(at_least(lo, seps[i]));
            assert(key_le(seps[i], seps[b - 1]));
        }
    }
    assert forall|i: int| #![trigger lc[i]] 0 <= i < lc.len() implies subtree_ok(
        image2,
        b,
        min,
        lc[i] as int,
        g,
        child_lo(ls, lo, i),
        child_hi(ls, Some(median), i),
        false,
    ) by {
        lemma_children_kept(image, image2, b, min, off, h, lo, hi, root, i);
        assert(lc[i] == children[i]);
        assert(child_lo(ls, lo, i) == child_lo(seps, lo, i));
        assert(child_hi(ls, Some(median), i) == child_hi(seps, hi, i));
    }
    assert forall|i: int, j: int, p: int| 0 <= i < j < lc.len() implies !(#[trigger] in_subtree(
        image2,
        lc[i] as int,
        g,
        p,
    ) && #[trigger] in_subtree(image2, lc[j] as int, g, p)) by {
        lemma_children_kept(image, image2, b, min, off, h, lo, hi, root, i);
        lemma_children_kept(image, image2, b, min, off, h, lo, hi, root, j);
        assert(lc[i] == children[i] && lc[j] == children[j]);
        assert(!(in_subtree(image, children[i] as int, g, p) && in_subtree(
            image,
            children[j] as int,
            g,
            p,
        )));
    }
    assert forall|i: int| #![trigger lc[i]] 0 <= i < lc.len() implies !in_subtree(
        image2,
        lc[i] as int,
        g,
        off,
    ) by {
        lemma_children_kept(image, image2, b, min, off, h, lo, hi, root, i);
        assert(lc[i] == children[i]);
        assert(!in_subtree(image, children[i] as int, g, off));
    }
}

/// The sibling that a divided internal node gives is sound.
proof fn lemma_split_internal_right(
    image: Seq<u8>,
    image2: Seq<u8>,
    b: int,
    min: int,
    off: int,
    sib: int,
    h: nat,
    lo: Option<Seq<char>>,
    hi: Option<Seq<char>>,
    root: bool,
)
    requires
        split_done(image, image2, b, min, off, sib, h, lo, hi, root),
        h > 0,
    ensures
        subtree_ok(image2, b, min, sib, h, Some(median_at(image, off, b)), hi, false),
{
    reveal(subtree_ok);
    let median = median_at(image, off, b);
    let children = kids_at(image, off);
    let seps = seps_at(image, off);
    let rc = children.subrange(b, children.len() as int);
    let rs = seps.subrange(b, seps.len() as int);
    let g = (h - 1) as nat;
    assert(median == seps[b - 1]);
    assert(kids_at(image2, sib) == rc);
    assert(seps_at(image2, sib) == rs);
    assert(internal_ok(rc, rs, b, min, Some(median), hi, false)) by {
        assert forall|i: int, j: int| 0 <= i < j < rs.len() implies key_le(
            #[trigger] rs[i],
            #[trigger] rs[j],
        ) by {
            assert(key_le(seps[b + i], seps[b + j]));
        }
        assert forall|i: int| 0 <= i < rs.len() implies at_least(Some(median), #[trigger] rs[i])
            && upto(rs[i], hi) by {
            assert(upto(seps[b + i], hi));
            assert(key_le(seps[b - 1], seps[b + i]));
        }
    }
    assert forall|i: int| #![trigger rc[i]] 0 <= i < rc.len() implies subtree_ok(
        image2,
        b,
        min,
        rc[i] as int,
        g,
        child_lo(rs, Some(median), i),
        child_hi(rs, hi, i),
        false,
    ) by {
        lemma_children_kept(image, image2, b, min, off, h, lo, hi, root, b + i);
        assert(rc[i] == children[b + i]);
        assert(child_lo(rs, Some(median), i) == child_lo(seps, lo, b + i)) by {
            if i > 0 {
                assert(rs[i - 1] == seps[b + i - 1]);
            }
        }
        assert(child_hi(rs, hi, i) == child_hi(seps, hi, b + i)) by {
            if i < rs.len() {
                assert(rs[i] == seps[b + i]);
            }
        }
    }
    assert forall|i: int, j: int, p: int| 0 <= i < j < rc.len() implies !(#[trigger] in_subtree(
        image2,
        rc[i] as int,
        g,
        p,
    ) && #[trigger] in_subtree(image2, rc[j] as int, g, p)) by {
        lemma_children_kept(image, image2, b, min, off, h, lo, hi, root, b + i);
        lemma_children_kept(image, image2, b, min, off, h, lo, hi, root, b + j);
        assert(rc[i] == children[b + i] && rc[j] == children[b + j]);
        assert(!(in_subtree(image, children[b + i] as int, g, p) && in_subtree(
            image,
            children[b + j] as int,
            g,
            p,
        )));
    }
    assert forall|i: int| #![trigger rc[i]] 0 <= i < rc.len() implies !in_subtree(
        image2,
        rc[i] as int,
        g,
        sib,
    ) by {
        lemma_children_kept(image, image2, b, min, off, h, lo, hi, root, b + i);
        assert(rc[i] == children[b + i]);
        if in_subtree(image2, rc[i] as int, g, sib) {
            assert(in_subtree(image, children[b + i] as int, g, sib));
        }
    }
}

/// The pages of the halves of a divided node: those that the node had, and
/// the page of the sibling; the halves share none.
proof fn lemma_split_pages(
    image: Seq<u8>,
    image2: Seq<u8>,
    b: int,
    min: int,
    off: int,
    sib: int,
    h: nat,
    lo: Option<Seq<char>>,
    hi: Option<Seq<char>>,
    root: bool,
)
    requires
        split_done(image, image2, b, min, off, sib, h, lo, hi, root),
    ensures
        forall|p: int| #[trigger] in_subtree(image2, off, h, p) ==> in_subtree(image, off, h, p),
        forall|p: int|
            #[trigger] in_subtree(image2, sib, h, p) ==> p == sib || (in_subtree(image, off, h, p)
                && p != off),
        forall|p: int| !(#[trigger] in_subtree(image2, off, h, p) && in_subtree(image2, sib, h, p)),
{
    reveal(subtree_ok);
    reveal(in_subtree);
    lemma_in_subtree_valid(image, b, min, off, h, lo, hi, root, off);
    if h > 0 {
        let children = kids_at(image, off);
        let lc = children.subrange(0, b);
        let rc = children.subrange(b, children.len() as int);
        let g = (h - 1) as nat;
        assert(kids_at(image2, off) == lc);
        assert(kids_at(image2, sib) == rc);
        assert forall|p: int| #[trigger] in_subtree(image2, off, h, p) implies in_subtree(
            image,
            off,
            h,
            p,
        ) by {
            if p != off {
                let i = choose|i: int|
                    #![trigger lc[i]]
                    0 <= i < lc.len() && in_subtree(image2, lc[i] as int, g, p);
                lemma_children_kept(image, image2, b, min, off, h, lo, hi, root, i);
                assert(lc[i] == children[i]);
                assert(in_subtree(image, children[i] as int, g, p));
            }
        }
        assert forall|p: int| #[trigger] in_subtree(image2, sib, h, p) implies p == sib || (
        in_subtree(image, off, h, p) && p != off) by {
            if p != sib {
                let i = choose|i: int|
                    #![trigger rc[i]]
                    0 <= i < rc.len() && in_subtree(image2, rc[i] as int, g, p);
                lemma_children_kept(image, image2, b, min, off, h, lo, hi, root, b + i);
                assert(rc[i] == children[b + i]);
                assert(in_subtree(image, children[b + i] as int, g, p));
            }
        }
        assert forall|p: int|
            !(#[trigger] in_subtree(image2, off, h, p) && in_subtree(image2, sib, h, p)) by {
            if in_subtree(image2, off, h, p) && in_subtree(image2, sib, h, p) {
                if p == off {
                } else if p == sib {
                    lemma_in_subtree_valid(image, b, min, off, h, lo, hi, root, p);
                } else {
                    let i = choose|i: int|
                        #![trigger lc[i]]
                        0 <= i < lc.len() && in_subtree(image2, lc[i] as int, g, p);
                    let j = choose|j: int|
                        #![trigger rc[j]]
                        0 <= j < rc.len() && in_subtree(image2, rc[j] as int, g, p);
                    lemma_children_kept(image, image2, b, min, off, h, lo, hi, root, i);
                    lemma_children_kept(image, image2, b, min, off, h, lo, hi, root, b + j);
                    assert(lc[i] == children[i]);
                    assert(rc[j] == children[b + j]);
                    assert(in_subtree(image, children[i] as int, g, p));
                    assert(in_subtree(image, children[b + j] as int, g, p));
                }
            }
        }
    }
}

/// The halves of a divided internal node store together what the node
/// stored.
proof fn lemma_split_internal_has(
    image: Seq<u8>,
    image2: Seq<u8>,
    b: int,
    min: int,
    off: int,
    sib: int,
    h: nat,
    lo: Option<Seq<char>>,
    hi: Option<Seq<char>>,
    root: bool,
)
    requires
        split_done(image, image2, b, min, off, sib, h, lo, hi, root),
        h > 0,
    ensures
        forall|k: Seq<char>, v: Seq<char>|
            #[trigger] subtree_has(image, off, h, k, v) <==> subtree_has(image2, off, h, k, v)
                || subtree_has(image2, sib, h, k, v),
{
    reveal(subtree_ok);
    reveal(subtree_has);
    let children = kids_at(image, off);
    let lc = children.subrange(0, b);
    let rc = children.subrange(b, children.len() as int);
    let g = (h - 1) as nat;
    assert(kids_at(image2, off) == lc);
    assert(kids_at(image2, sib) == rc);
    assert forall|k: Seq<char>, v: Seq<char>| #[trigger]
        subtree_has(image, off, h, k, v) <==> subtree_has(image2, off, h, k, v) || subtree_has(
            image2,
            sib,
            h,
            k,
            v,
        ) by {
        if subtree_has(image, off, h, k, v) {
            let i = choose|i: int|
                #![trigger children[i]]
                0 <= i < children.len() && subtree_has(image, children[i] as int, g, k, v);
            lemma_children_kept(image, image2, b, min, off, h, lo, hi, root, i);
            assert(subtree_has(image2, children[i] as int, g, k, v));
            if i < b {
                assert(lc[i] == children[i]);
            } else {
                assert(rc[i - b] == children[i]);
            }
        }
        if subtree_has(image2, off, h, k, v) {
            let i = choose|i: int|
                #![trigger lc[i]]
                0 <= i < lc.len() && subtree_has(image2, lc[i] as int, g, k, v);
            lemma_children_kept(image, image2, b, min, off, h, lo, hi, root, i);
            assert(lc[i] == children[i]);
            assert(subtree_has(image, children[i] as int, g, k, v));
        }
        if subtree_has(image2, sib, h, k, v) {
            let i = choose|i: int|
                #![trigger rc[i]]
                0 <= i < rc.len() && subtree_has(image2, rc[i] as int, g, k, v);
            lemma_children_kept(image, image2, b, min, off, h, lo, hi, root, b + i);
            assert(rc[i] == children[b + i]);
            assert(subtree_has(image, children[b + i] as int, g, k, v));
        }
    }
}

/// Dividing a full node of a sound subtree gives two sound subtrees: the
/// half that stays, with the key that goes up as its upper bound, and the
/// sibling, with that key as its lower bound. Together they store what the
/// node stored, on the pages that it had and the page of the sibling, and
/// they share no page.
pub proof fn lemma_split_halves(
    image: Seq<u8>,
    image2: Seq<u8>,
    b: int,
    min: int,
    off: int,
    sib: int,
    h: nat,
    lo: Option<Seq<char>>,
    hi: Option<Seq<char>>,
    root: bool,
)
    requires
        split_done(image, image2, b, min, off, sib, h, lo, hi, root),
    ensures
        subtree_ok(image2, b, min, off, h, lo, Some(median_at(image, off, b)), false),
        subtree_ok(image2, b, min, sib, h, Some(median_at(image, off, b)), hi, false),
        at_least(lo, median_at(image, off, b)),
        upto(median_at(image, off, b), hi),
        forall|p: int| #[trigger] in_subtree(image2, off, h, p) ==> in_subtree(image, off, h, p),
        forall|p: int|
            #[trigger] in_subtree(image2, sib, h, p) ==> p == sib || (in_subtree(image, off, h, p)
                && p != off),
        forall|p: int| !(#[trigger] in_subtree(image2, off, h, p) && in_subtree(image2, sib, h, p)),
        forall|k: Seq<char>, v: Seq<char>|
            #[trigger] subtree_has(image, off, h, k, v) <==> subtree_has(image2, off, h, k, v)
                || subtree_has(image2, sib, h, k, v),
{
    lemma_split_pages(image, image2, b, min, off, sib, h, lo, hi, root);
    if h == 0 {
        lemma_split_leaf(image, image2, b, min, off, sib, h, lo, hi, root);
    } else {
        lemma_split_internal_left(image, image2, b, min, off, sib, h, lo, hi, root);
        lemma_split_internal_right(image, image2, b, min, off, sib, h, lo, hi, root);
        lemma_split_internal_has(image, image2, b, min, off, sib, h, lo, hi, root);
    }
}

/// What holds when a full child of a node that is not full has been
/// divided: child `idx` of the node at `off` has been divided as `split_done`
/// says; in `image3` the node has the sibling as its child behind that child
/// and the key that went up between the two; these three pages apart, all
/// pages are what they were.
pub open spec fn child_split_done(
    image: Seq<u8>,
    image3: Seq<u8>,
    b: int,
    min: int,
    off: int,
    h: nat,
    lo: Option<Seq<char>>,
    hi: Option<Seq<char>>,
    root: bool,
    idx: int,
    sib: usize,
) -> bool {
    let kids = kids_at(image, off);
    let seps = seps_at(image, off);
    &&& subtree_ok(image, b, min, off, h, lo, hi, root)
    &&& h > 0
    &&& kids.len() < 2 * b
    &&& 0 <= idx < kids.len()
    &&& split_done(
        image,
        image3,
        b,
        min,
        kids[idx] as int,
        sib as int,
        (h - 1) as nat,
        child_lo(seps, lo, idx),
        child_hi(seps, hi, idx),
        false,
    )
    &&& node_at(image3, off) is Some
    &&& node_at(image3, off)->Some_0.is_root == root
    &&& node_at(image3, off)->Some_0.node_type == NodeTypeView::Internal(
        kids.insert(idx + 1, sib),
        seps.insert(idx, median_at(image, kids[idx] as int, b)),
    )
    &&& forall|p: int|
        p % 4096 == 0 && p != off && p != kids[idx] && p != sib ==> #[trigger] node_at(image3, p)
            == node_at(image, p)
}

/// The child of the node before the division from which child `i` of the
/// node after it comes.
pub open spec fn origin(idx: int, i: int) -> int {
    if i <= idx {
        i
    } else {
        i - 1
    }
}

/// The keys of a node whose child has been divided still do not descend and
/// lie within the bounds of the node.
proof fn lemma_split_parent_shape(
    image: Seq<u8>,
    image3: Seq<u8>,
    b: int,
    min: int,
    off: int,
    h: nat,
    lo: Option<Seq<char>>,
    hi: Option<Seq<char>>,
    root: bool,
    idx: int,
    sib: usize,
)
    requires
        child_split_done(image, image3, b, min, off, h, lo, hi, root, idx, sib),
    ensures
        internal_ok(kids_at(image3, off), seps_at(image3, off), b, min, lo, hi, root),
{
    reveal(subtree_ok);
    let kids = kids_at(image, off);
    let seps = seps_at(image, off);
    let c = kids[idx] as int;
    let median = median_at(image, c, b);
    let g = (h - 1) as nat;
    let clo = child_lo(seps, lo, idx);
    let chi = child_hi(seps, hi, idx);
    lemma_split_halves(image, image3, b, min, c, sib as int, g, clo, chi, false);
    let seps2 = seps.insert(idx, median);
    assert(seps_at(image3, off) == seps2);
    assert(at_least(lo, median)) by {
        if idx > 0 {
            assert(at_least(lo, seps[idx - 1]));
            if lo is Some {
                lemma_key_le_transitive(lo->Some_0, seps[idx - 1], median);
            }
        }
    }
    assert(upto(median, hi)) by {
        if idx < seps.len() {
            assert(upto(seps[idx], hi));
            if hi is Some {
                lemma_key_le_transitive(median, seps[idx], hi->Some_0);
            }
        }
    }
    assert forall|i: int| 0 <= i < seps2.len() implies at_least(lo, #[trigger] seps2[i]) && upto(
        seps2[i],
        hi,
    ) by {
        if i < idx {
            assert(seps2[i] == seps[i]);
        } else if i > idx {
            assert(seps2[i] == seps[i - 1]);
        }
    }
    assert forall|i: int, j: int| 0 <= i < j < seps2.len() implies key_le(
        #[trigger] seps2[i],
        #[trigger] seps2[j],
    ) by {
        if j < idx {
            assert(key_le(seps[i], seps[j]));
        } else if j == idx {
            assert(seps2[i] == seps[i]);
            if i < idx - 1 {
                assert(key_le(seps[i], seps[idx - 1]));
            }
            lemma_key_le_transitive(seps[i], seps[idx - 1], median);
        } else if i == idx {
            assert(seps2[j] == seps[j - 1]);
            if idx < j - 1 {
                assert(key_le(seps[idx], seps[j - 1]));
            }
            lemma_key_le_transitive(median, seps[idx], seps[j - 1]);
        } else if i < idx {
            assert(seps2[j] == seps[j - 1]);
            assert(key_le(seps[i], seps[j - 1]));
        } else {
            assert(seps2[i] == seps[i - 1] && seps2[j] == seps[j - 1]);
            assert(key_le(seps[i - 1], seps[j - 1]));
        }
    }
}

/// Every child of a node whose child has been divided is a sound subtree
/// within the bounds that the keys of the node set, on pages of the child it
/// comes from or on the page of the sibling, and stores what that child
/// stored, the two halves together what the divided child stored.
proof fn lemma_split_parent_child(
    image: Seq<u8>,
    image3: Seq<u8>,
    b: int,
    min: int,
    off: int,
    h: nat,
    lo: Option<Seq<char>>,
    hi: Option<Seq<char>>,
    root: bool,
    idx: int,
    sib: usize,
    i: int,
)
    requires
        child_split_done(image, image3, b, min, off, h, lo, hi, root, idx, sib),
        0 <= i < kids_at(image3, off).len(),
    ensures
        subtree_ok(
            image3,
            b,
            min,
            kids_at(image3, off)[i] as int,
            (h - 1) as nat,
            child_lo(seps_at(image3, off), lo, i),
            child_hi(seps_at(image3, off), hi, i),
            false,
        ),
        forall|p: int|
            #[trigger] in_subtree(image3, kids_at(image3, off)[i] as int, (h - 1) as nat, p) ==> (p
                == sib && i == idx + 1) || (p != sib && p != off && in_subtree(
                image,
                kids_at(image, off)[origin(idx, i)] as int,
                (h - 1) as nat,
                p,
            )),
        !in_subtree(image3, kids_at(image3, off)[idx] as int, (h - 1) as nat, sib as int),
        forall|p: int|
            !(#[trigger] in_subtree(image3, kids_at(image3, off)[idx] as int, (h - 1) as nat, p)
                && in_subtree(image3, kids_at(image3, off)[idx + 1] as int, (h - 1) as nat, p)),
        forall|k: Seq<char>, v: Seq<char>|
            i != idx && i != idx + 1 ==> (#[trigger] subtree_has(
                image3,
                kids_at(image3, off)[i] as int,
                (h - 1) as nat,
                k,
                v,
            ) <==> subtree_has(
                image,
                kids_at(image, off)[origin(idx, i)] as int,
                (h - 1) as nat,
                k,
                v,
            )),
        forall|k: Seq<char>, v: Seq<char>|
            #[trigger] subtree_has(image, kids_at(image, off)[idx] as int, (h - 1) as nat, k, v)
                <==> subtree_has(image3, kids_at(image3, off)[idx] as int, (h - 1) as nat, k, v)
                || subtree_has(image3, kids_at(image3, off)[idx + 1] as int, (h - 1) as nat, k, v),
{
    reveal(subtree_ok);
    reveal(in_subtree);
    let kids = kids_at(image, off);
    let seps = seps_at(image, off);
    let c = kids[idx] as int;
    let median = median_at(image, c, b);
    let g = (h - 1) as nat;
    let clo = child_lo(seps, lo, idx);
    let chi = child_hi(seps, hi, idx);
    let kids2 = kids.insert(idx + 1, sib);
    let seps2 = seps.insert(idx, median);
    assert(kids_at(image3, off) == kids2);
    assert(seps_at(image3, off) == seps2);
    assert(kids2[idx] == kids[idx]);
    assert(kids2[idx + 1] == sib);
    lemma_split_halves(image, image3, b, min, c, sib as int, g, clo, chi, false);
    lemma_in_subtree_valid(image, b, min, off, h, lo, hi, root, off);
    assert(!in_subtree(image, kids[idx] as int, g, off));
    assert forall|p: int| #[trigger] in_subtree(image, c, g, p) implies p != sib && p != off by {
        lemma_in_subtree_valid(image, b, min, c, g, clo, chi, false, p);
    }
    if i == idx {
        assert(child_lo(seps2, lo, i) == clo);
        assert(child_hi(seps2, hi, i) == Some(median));
    } else if i == idx + 1 {
        assert(child_lo(seps2, lo, i) == Some(median));
        assert(child_hi(seps2, hi, i) == chi) by {
            if idx < seps.len() {
                assert(seps2[idx + 1] == seps[idx]);
            }
        }
    } else {
        let o = origin(idx, i);
        let d = kids[o] as int;
        assert(kids2[i] == kids[o]);
        assert(child_lo(seps2, lo, i) == child_lo(seps, lo, o)) by {
            if i > 0 {
                if i - 1 < idx {
                    assert(seps2[i - 1] == seps[i - 1]);
                } else {
                    assert(seps2[i - 1] == seps[i - 2]);
                }
            }
        }
        assert(child_hi(seps2, hi, i) == child_hi(seps, hi, o)) by {
            if i < seps2.len() {
                if i < idx {
                    assert(seps2[i] == seps[i]);
                } else {
                    assert(seps2[i] == seps[i - 1]);
                }
            }
        }
        assert(!in_subtree(image, kids[o] as int, g, off));
        assert forall|p: int| #[trigger] in_subtree(image, d, g, p) implies node_at(image, p)
            == node_at(image3, p) by {
            lemma_in_subtree_valid(
                image,
                b,
                min,
                d,
                g,
                child_lo(seps, lo, o),
                child_hi(seps, hi, o),
                false,
                p,
            );
            assert(in_subtree(image, c, g, c));
            if o < idx {
                assert(!(in_subtree(image, kids[o] as int, g, c) && in_subtree(
                    image,
                    kids[idx] as int,
                    g,
                    c,
                )));
            } else {
                assert(!(in_subtree(image, kids[idx] as int, g, c) && in_subtree(
                    image,
                    kids[o] as int,
                    g,
                    c,
                )));
            }
            assert(node_at(image3, p) == node_at(image, p));
        }
        lemma_child_kept(image, image3, b, min, off, h, lo, hi, root, o);
    }
}

/// A node whose full child has been divided is the root of a sound subtree
/// as before, which stores what it stored, on the pages that it had and the
/// page of the sibling.
pub proof fn lemma_split_parent(
    image: Seq<u8>,
    image3: Seq<u8>,
    b: int,
    min: int,
    off: int,
    h: nat,
    lo: Option<Seq<char>>,
    hi: Option<Seq<char>>,
    root: bool,
    idx: int,
    sib: usize,
)
    requires
        child_split_done(image, image3, b, min, off, h, lo, hi, root, idx, sib),
        off % 4096 == 0,
    ensures
        subtree_ok(image3, b, min, off, h, lo, hi, root),
        forall|p: int|
            #[trigger] in_subtree(image3, off, h, p) ==> in_subtree(image, off, h, p) || p == sib,
        forall|k: Seq<char>, v: Seq<char>|
            subtree_has(image, off, h, k, v) <==> #[trigger] subtree_has(image3, off, h, k, v),
{
    reveal(subtree_ok);
    reveal(in_subtree);
    reveal(subtree_has);
    let kids = kids_at(image, off);
    let seps = seps_at(image, off);
    let g = (h - 1) as nat;
    let kids2 = kids_at(image3, off);
    let seps2 = seps_at(image3, off);
    assert(kids2 == kids.insert(idx + 1, sib));
    lemma_split_parent_shape(image, image3, b, min, off, h, lo, hi, root, idx, sib);
    assert forall|i: int| #![trigger kids2[i]] 0 <= i < kids2.len() implies subtree_ok(
        image3,
        b,
        min,
        kids2[i] as int,
        g,
        child_lo(seps2, lo, i),
        child_hi(seps2, hi, i),
        false,
    ) && !in_subtree(image3, kids2[i] as int, g, off) by {
        lemma_split_parent_child(image, image3, b, min, off, h, lo, hi, root, idx, sib, i);
        lemma_in_subtree_valid(image, b, min, off, h, lo, hi, root, off);
    }
    assert forall|i: int, j: int, p: int| 0 <= i < j < kids2.len() implies !(#[trigger] in_subtree(
        image3,
        kids2[i] as int,
        g,
        p,
    ) && #[trigger] in_subtree(image3, kids2[j] as int, g, p)) by {
        lemma_split_parent_child(image, image3, b, min, off, h, lo, hi, root, idx, sib, i);
        lemma_split_parent_child(image, image3, b, min, off, h, lo, hi, root, idx, sib, j);
        if in_subtree(image3, kids2[i] as int, g, p) && in_subtree(image3, kids2[j] as int, g, p) {
            let oi = origin(idx, i);
            let oj = origin(idx, j);
            if oi != oj {
                assert(!(in_subtree(image, kids[oi] as int, g, p) && in_subtree(
                    image,
                    kids[oj] as int,
                    g,
                    p,
                )));
            }
        }
    }
    assert forall|p: int| #[trigger] in_subtree(image3, off, h, p) implies in_subtree(
        image,
        off,
        h,
        p,
    ) || p == sib by {
        if p != off {
            let i = choose|i: int|
                #![trigger kids2[i]]
                0 <= i < kids2.len() && in_subtree(image3, kids2[i] as int, g, p);
            lemma_split_parent_child(image, image3, b, min, off, h, lo, hi, root, idx, sib, i);
            if p != sib {
                lemma_in_child_in_parent(image, off, h, origin(idx, i), p);
            }
        }
    }
    assert forall|k: Seq<char>, v: Seq<char>|
        subtree_has(image, off, h, k, v) <==> #[trigger] subtree_has(image3, off, h, k, v) by {
        lemma_split_parent_child(image, image3, b, min, off, h, lo, hi, root, idx, sib, idx);
        if subtree_has(image, off, h, k, v) {
            let i = choose|i: int|
                #![trigger kids[i]]
                0 <= i < kids.len() && subtree_has(image, kids[i] as int, g, k, v);
            if i == idx {
                let a = kids2[idx];
                let c = kids2[idx + 1];
                assert(subtree_has(image3, a as int, g, k, v) || subtree_has(
                    image3,
                    c as int,
                    g,
                    k,
                    v,
                ));
            } else {
                let i2 = if i < idx {
                    i
                } else {
                    i + 1
                };
                lemma_split_parent_child(
                    image,
                    image3,
                    b,
                    min,
                    off,
                    h,
                    lo,
                    hi,
                    root,
                    idx,
                    sib,
                    i2,
                );
                let a = kids2[i2];
                assert(subtree_has(image3, a as int, g, k, v));
            }
        }
        if subtree_has(image3, off, h, k, v) {
            let i = choose|i: int|
                #![trigger kids2[i]]
                0 <= i < kids2.len() && subtree_has(image3, kids2[i] as int, g, k, v);
            lemma_split_parent_child(image, image3, b, min, off, h, lo, hi, root, idx, sib, i);
            let a = kids[origin(idx, i)];
            assert(subtree_has(image, a as int, g, k, v));
        }
    }
}

/// From `image` to `image2` nothing has changed but within the subtree at
/// `off` and behind the end of `image`: every other page of `image` is what
/// it was, and the subtree lies on pages that it had or that are new.
pub open spec fn grows_within(image: Seq<u8>, image2: Seq<u8>, off: int, h: nat) -> bool {
    &&& image.len() <= image2.len()
    &&& forall|p: int|
        p % 4096 == 0 && p + 4096 <= image.len() && !in_subtree(image, off, h, p)
            ==> #[trigger] node_at(image2, p) == node_at(image, p)
    &&& forall|p: int|
        #[trigger] in_subtree(image2, off, h, p) ==> in_subtree(image, off, h, p) || p
            >= image.len()
}

/// Where the subtree of one child of a sound node has changed within
/// itself and has stayed sound within its bounds, the node is still the root
/// of a sound subtree, which has changed within itself; it stores what the
/// changed child stores and what the other children stored.
pub proof fn lemma_child_updated(
    image: Seq<u8>,
    image2: Seq<u8>,
    b: int,
    min: int,
    off: int,
    h: nat,
    lo: Option<Seq<char>>,
    hi: Option<Seq<char>>,
    root: bool,
    j: int,
)
    requires
        subtree_ok(image, b, min, off, h, lo, hi, root),
        h > 0,
        0 <= j < kids_at(image, off).len(),
        grows_within(image, image2, kids_at(image, off)[j] as int, (h - 1) as nat),
        subtree_ok(
            image2,
            b,
            min,
            kids_at(image, off)[j] as int,
            (h - 1) as nat,
            child_lo(seps_at(image, off), lo, j),
            child_hi(seps_at(image, off), hi, j),
            false,
        ),
    ensures
        subtree_ok(image2, b, min, off, h, lo, hi, root),
        grows_within(image, image2, off, h),
        node_at(image2, off) == node_at(image, off),
        forall|k: Seq<char>, v: Seq<char>|
            #[trigger] subtree_has(image2, off, h, k, v) <==> subtree_has(
                image2,
                kids_at(image, off)[j] as int,
                (h - 1) as nat,
                k,
                v,
            ) || (subtree_has(image, off, h, k, v) && !subtree_has(
                image,
                kids_at(image, off)[j] as int,
                (h - 1) as nat,
                k,
                v,
            )),
{
    reveal(subtree_ok);
    reveal(in_subtree);
    reveal(subtree_has);
    let kids = kids_at(image, off);
    let seps = seps_at(image, off);
    let g = (h - 1) as nat;
    let t = kids[j] as int;
    lemma_in_subtree_valid(image, b, min, off, h, lo, hi, root, off);
    assert(!in_subtree(image, kids[j] as int, g, off));
    assert(node_at(image2, off) == node_at(image, off));
    assert(in_subtree(image, t, g, t));
    // the other children are kept
    assert forall|i: int| 0 <= i < kids.len() && i != j implies #[trigger] child_kept(
        image,
        image2,
        b,
        min,
        off,
        h,
        lo,
        hi,
        i,
    ) by {
        let d = kids[i] as int;
        assert forall|p: int| #[trigger] in_subtree(image, d, g, p) implies node_at(image, p)
            == node_at(image2, p) by {
            lemma_in_subtree_valid(
                image,
                b,
                min,
                d,
                g,
                child_lo(seps, lo, i),
                child_hi(seps, hi, i),
                false,
                p,
            );
            if i < j {
                assert(!(in_subtree(image, kids[i] as int, g, p) && in_subtree(
                    image,
                    kids[j] as int,
                    g,
                    p,
                )));
            } else {
                assert(!(in_subtree(image, kids[j] as int, g, p) && in_subtree(
                    image,
                    kids[i] as int,
                    g,
                    p,
                )));
            }
            assert(node_at(image2, p) == node_at(image, p));
        }
        lemma_child_kept(image, image2, b, min, off, h, lo, hi, root, i);
    }
    assert forall|i: int| #![trigger kids[i]] 0 <= i < kids.len() implies subtree_ok(
        image2,
        b,
        min,
        kids[i] as int,
        g,
        child_lo(seps, lo, i),
        child_hi(seps, hi, i),
        false,
    ) && !in_subtree(image2, kids[i] as int, g, off) by {
        if i != j {
            assert(child_kept(image, image2, b, min, off, h, lo, hi, i));
            assert(!in_subtree(image, kids[i] as int, g, off));
        }
    }
    assert forall|i: int, m: int, p: int| 0 <= i < m < kids.len() implies !(#[trigger] in_subtree(
        image2,
        kids[i] as int,
        g,
        p,
    ) && #[trigger] in_subtree(image2, kids[m] as int, g, p)) by {
        if in_subtree(image2, kids[i] as int, g, p) && in_subtree(image2, kids[m] as int, g, p) {
            if i != j {
                assert(child_kept(image, image2, b, min, off, h, lo, hi, i));
                assert(in_subtree(image, kids[i] as int, g, p));
            }
            if m != j {
                assert(child_kept(image, image2, b, min, off, h, lo, hi, m));
                assert(in_subtree(image, kids[m] as int, g, p));
            }
            assert(!(in_subtree(image, kids[i] as int, g, p) && in_subtree(
                image,
                kids[m] as int,
                g,
                p,
            )));
        }
    }
    assert forall|p: int|
        p % 4096 == 0 && p + 4096 <= image.len() && !in_subtree(
            image,
            off,
            h,
            p,
        ) implies #[trigger] node_at(image2, p) == node_at(image, p) by {
        if in_subtree(image, t, g, p) {
            lemma_in_child_in_parent(image, off, h, j, p);
        }
    }
    assert forall|p: int| #[trigger] in_subtree(image2, off, h, p) implies in_subtree(
        image,
        off,
        h,
        p,
    ) || p >= image.len() by {
        if p != off {
            let i = choose|i: int|
                #![trigger kids[i]]
                0 <= i < kids.len() && in_subtree(image2, kids[i] as int, g, p);
            if i != j {
                assert(child_kept(image, image2, b, min, off, h, lo, hi, i));
                assert(in_subtree(image, kids[i] as int, g, p));
            } else if p < image.len() {
                lemma_in_child_in_parent(image, off, h, j, p);
            }
        }
    }
    assert forall|k: Seq<char>, v: Seq<char>| #[trigger]
        subtree_has(image2, off, h, k, v) <==> subtree_has(image2, t, g, k, v) || (subtree_has(
            image,
            off,
            h,
            k,
            v,
        ) && !subtree_has(image, t, g, k, v)) by {
        if subtree_has(image2, off, h, k, v) {
            let i = choose|i: int|
                #![trigger kids[i]]
                0 <= i < kids.len() && subtree_has(image2, kids[i] as int, g, k, v);
            if i != j {
                assert(child_kept(image, image2, b, min, off, h, lo, hi, i));
                assert(subtree_has(image, kids[i] as int, g, k, v));
                if subtree_has(image, t, g, k, v) {
                    lemma_has_bounds(
                        image,
                        b,
                        min,
                        kids[i] as int,
                        g,
                        child_lo(seps, lo, i),
                        child_hi(seps, hi, i),
                        false,
                        k,
                        v,
                    );
                    lemma_has_bounds(
                        image,
                        b,
                        min,
                        t,
                        g,
                        child_lo(seps, lo, j),
                        child_hi(seps, hi, j),
                        false,
                        k,
                        v,
                    );
                    lemma_ranges_apart(seps, lo, hi, i, j, k);
                }
            }
        }
        if subtree_has(image2, t, g, k, v) {
            let a = kids[j];
            assert(subtree_has(image2, a as int, g, k, v));
        }
        if subtree_has(image, off, h, k, v) && !subtree_has(image, t, g, k, v) {
            let i = choose|i: int|
                #![trigger kids[i]]
                0 <= i < kids.len() && subtree_has(image, kids[i] as int, g, k, v);
            assert(child_kept(image, image2, b, min, off, h, lo, hi, i));
            assert(subtree_has(image2, kids[i] as int, g, k, v));
        }
    }
}

/// A key lies within the bounds of one child only.
pub proof fn lemma_ranges_apart(
    seps: Seq<Seq<char>>,
    lo: Option<Seq<char>>,
    hi: Option<Seq<char>>,
    i: int,
    j: int,
    k: Seq<char>,
)
    requires
        seps_ascend(seps),
        0 <= i <= seps.len(),
        0 <= j <= seps.len(),
        above(child_lo(seps, lo, i), k),
        upto(k, child_hi(seps, hi, i)),
        above(child_lo(seps, lo, j), k),
        upto(k, child_hi(seps, hi, j)),
    ensures
        i == j,
{
    if i != j {
        let (a, c) = if i < j {
            (i, j)
        } else {
            (j, i)
        };
        // k <= seps[a] <= seps[c - 1] < k
        assert(key_le(k, seps[a]));
        assert(key_lt(seps[c - 1], k));
        if a < c - 1 {
            assert(key_le(seps[a], seps[c - 1]));
        }
        lemma_key_le_transitive(k, seps[a], seps[c - 1]);
        lemma_key_not_lt(seps[c - 1], k);
    }
}

/// The halves of a node that round-trips and is no root round-trip, and
/// the key that goes up is storable.
pub proof fn lemma_split_round_trips(node: NodeView, b: int)
    requires
        round_trips(node),
        !node.is_root,
        node.can_split(b),
    ensures
        round_trips(node.split_left(b)),
        round_trips(node.split_right(b)),
        storable(node.split_median(b), 10),
{
    match node.node_type {
        NodeTypeView::Leaf(pairs) => {
            let lp = pairs.subrange(0, b);
            let rp = pairs.subrange(b, pairs.len() as int);
            assert(storable(pairs[b - 1].0, 10));
            assert forall|j: int| 0 <= j < lp.len() implies storable((#[trigger] lp[j]).0, 10)
                && storable(lp[j].1, 10) by {
                assert(lp[j] == pairs[j]);
            }
            assert forall|j: int| 0 <= j < rp.len() implies storable((#[trigger] rp[j]).0, 10)
                && storable(rp[j].1, 10) by {
                assert(rp[j] == pairs[b + j]);
            }
        },
        NodeTypeView::Internal(children, keys) => {
            let lk = keys.subrange(0, b - 1);
            let rk = keys.subrange(b, keys.len() as int);
            assert(storable(keys[b - 1], 10));
            assert forall|j: int| 0 <= j < lk.len() implies storable(#[trigger] lk[j], 10) by {
                assert(lk[j] == keys[j]);
            }
            assert forall|j: int| 0 <= j < rk.len() implies storable(#[trigger] rk[j], 10) by {
                assert(rk[j] == keys[b + j]);
            }
        },
        NodeTypeView::Unexpected => {},
    }
}

/// A leaf that round-trips and has room for one pair more round-trips with
/// a storable pair more.
pub proof fn lemma_leaf_grown_round_trips(
    node: NodeView,
    grown: NodeView,
    at: int,
    k: Seq<char>,
    v: Seq<char>,
)
    requires
        round_trips(node),
        node.node_type is Leaf,
        node.node_type->Leaf_0.len() < 203,
        0 <= at <= node.node_type->Leaf_0.len(),
        storable(k, 10),
        storable(v, 10),
        grown.is_root == node.is_root,
        grown.parent_offset == node.parent_offset,
        grown.node_type == NodeTypeView::Leaf(node.node_type->Leaf_0.insert(at, (k, v))),
    ensures
        round_trips(grown),
{
    let pairs = node.node_type->Leaf_0;
    let more = pairs.insert(at, (k, v));
    assert forall|j: int| 0 <= j < more.len() implies storable((#[trigger] more[j]).0, 10)
        && storable(more[j].1, 10) by {
        if j < at {
            assert(more[j] == pairs[j]);
        } else if j > at {
            assert(more[j] == pairs[j - 1]);
        }
    }
}

/// An internal node that round-trips and has room for one child more
/// round-trips with one child and one storable key more.
pub proof fn lemma_internal_grown_round_trips(
    node: NodeView,
    grown: NodeView,
    idx: int,
    child: usize,
    key: Seq<char>,
)
    requires
        round_trips(node),
        node.node_type is Internal,
        0 < node.node_type->Internal_0.len() < 204,
        0 <= idx < node.node_type->Internal_0.len(),
        storable(key, 10),
        grown.is_root == node.is_root,
        grown.parent_offset == node.parent_offset,
        grown.node_type == NodeTypeView::Internal(
            node.node_type->Internal_0.insert(idx + 1, child),
            node.node_type->Internal_1.insert(idx, key),
        ),
    ensures
        round_trips(grown),
{
    let keys = node.node_type->Internal_1;
    let more = keys.insert(idx, key);
    assert forall|j: int| 0 <= j < more.len() implies storable(#[trigger] more[j], 10) by {
        if j < idx {
            assert(more[j] == keys[j]);
        } else if j > idx {
            assert(more[j] == keys[j - 1]);
        }
    }
}

/// A leaf of a sound subtree that got one pair more at the place where its
/// key belongs is a sound subtree, and stores that pair besides what it
/// stored.
pub proof fn lemma_leaf_inserted(
    image: Seq<u8>,
    image2: Seq<u8>,
    b: int,
    min: int,
    off: int,
    lo: Option<Seq<char>>,
    hi: Option<Seq<char>>,
    root: bool,
    at: int,
    k: Seq<char>,
    v: Seq<char>,
)
    requires
        subtree_ok(image, b, min, off, 0, lo, hi, root),
        0 <= min <= b - 1,
        node_at(image, off)->Some_0.node_type->Leaf_0.len() < 2 * b - 1,
        0 <= at <= node_at(image, off)->Some_0.node_type->Leaf_0.len(),
        forall|m: int|
            0 <= m < at ==> key_lt((#[trigger] node_at(image, off)->Some_0.node_type->Leaf_0[m]).0, k),
        forall|m: int|
            at <= m < node_at(image, off)->Some_0.node_type->Leaf_0.len() ==> key_lt(
                k,
                (#[trigger] node_at(image, off)->Some_0.node_type->Leaf_0[m]).0,
            ),
        above(lo, k),
        upto(k, hi),
        node_at(image2, off) is Some,
        node_at(image2, off)->Some_0.is_root == root,
        node_at(image2, off)->Some_0.node_type == NodeTypeView::Leaf(
            node_at(image, off)->Some_0.node_type->Leaf_0.insert(at, (k, v)),
        ),
    ensures
        subtree_ok(image2, b, min, off, 0, lo, hi, root),
        forall|k2: Seq<char>, v2: Seq<char>|
            #[trigger] subtree_has(image2, off, 0, k2, v2) <==> subtree_has(image, off, 0, k2, v2)
                || (k2 == k && v2 == v),
{
    reveal(subtree_ok);
    reveal(subtree_has);
    let pairs = node_at(image, off)->Some_0.node_type->Leaf_0;
    let more = pairs.insert(at, (k, v));
    let stored = node_at(image2, off)->Some_0.node_type->Leaf_0;
    assert(stored == more);
    assert(leaf_ok(more, b, min, lo, hi, root)) by {
        assert forall|i: int| 0 <= i < more.len() implies above(lo, (#[trigger] more[i]).0)
            && upto(more[i].0, hi) by {
            if i < at {
                assert(more[i] == pairs[i]);
            } else if i > at {
                assert(more[i] == pairs[i - 1]);
            }
        }
        assert forall|i: int, j: int| 0 <= i < j < more.len() implies key_lt(
            (#[trigger] more[i]).0,
            (#[trigger] more[j]).0,
        ) by {
            if j < at {
                assert(key_lt(pairs[i].0, pairs[j].0));
            } else if j == at {
                assert(more[i] == pairs[i]);
            } else if i == at {
                assert(more[j] == pairs[j - 1]);
            } else if i < at {
                assert(more[i] == pairs[i] && more[j] == pairs[j - 1]);
                assert(key_lt(pairs[i].0, pairs[at].0));
                if at < j - 1 {
                    assert(key_lt(pairs[at].0, pairs[j - 1].0));
                    lemma_key_lt_transitive(pairs[i].0, pairs[at].0, pairs[j - 1].0);
                }
            } else {
                assert(more[i] == pairs[i - 1] && more[j] == pairs[j - 1]);
                assert(key_lt(pairs[i - 1].0, pairs[j - 1].0));
            }
        }
    }
    assert forall|k2: Seq<char>, v2: Seq<char>| #[trigger]
        subtree_has(image2, off, 0, k2, v2) <==> subtree_has(image, off, 0, k2, v2) || (k2 == k
            && v2 == v) by {
        if subtree_has(image2, off, 0, k2, v2) {
            let j = choose|j: int| 0 <= j < stored.len() && #[trigger] stored[j] == (k2, v2);
            if j < at {
                assert(pairs[j] == (k2, v2));
            } else if j > at {
                assert(pairs[j - 1] == (k2, v2));
            }
        }
        if subtree_has(image, off, 0, k2, v2) {
            let j = choose|j: int| 0 <= j < pairs.len() && #[trigger] pairs[j] == (k2, v2);
            if j < at {
                assert(stored[j] == (k2, v2));
            } else {
                assert(stored[j + 1] == (k2, v2));
            }
            assert(subtree_has(image2, off, 0, k2, v2));
        }
        if k2 == k && v2 == v {
            assert(stored[at] == (k2, v2));
            assert(subtree_has(image2, off, 0, k2, v2));
        }
    }
}

/// A new root above the halves of the divided old root is the root of a
/// sound tree, one level higher, which stores what the old tree stored, on
/// the pages that it had and on new ones.
pub proof fn lemma_root_split(
    image: Seq<u8>,
    image2: Seq<u8>,
    b: int,
    min: int,
    old_root: usize,
    new_root: usize,
    sib: usize,
    h: nat,
)
    requires
        split_done(image, image2, b, min, old_root as int, sib as int, h, None, None, true),
        new_root % 4096 == 0,
        new_root >= image.len(),
        new_root != sib,
        node_at(image2, new_root as int) is Some,
        node_at(image2, new_root as int)->Some_0.is_root,
        node_at(image2, new_root as int)->Some_0.node_type == NodeTypeView::Internal(
            seq![old_root, sib],
            seq![median_at(image, old_root as int, b)],
        ),
    ensures
        subtree_ok(image2, b, min, new_root as int, h + 1, None, None, true),
        forall|p: int|
            #[trigger] in_subtree(image2, new_root as int, h + 1, p) ==> in_subtree(
                image,
                old_root as int,
                h,
                p,
            ) || p >= image.len(),
        forall|k: Seq<char>, v: Seq<char>|
            #[trigger] subtree_has(image2, new_root as int, h + 1, k, v) <==> subtree_has(
                image,
                old_root as int,
                h,
                k,
                v,
            ),
{
    reveal(subtree_ok);
    reveal(in_subtree);
    reveal(subtree_has);
    let median = median_at(image, old_root as int, b);
    let kids = seq![old_root, sib];
    let seps = seq![median];
    let top = (h + 1) as nat;
    assert(kids_at(image2, new_root as int) == kids);
    assert(seps_at(image2, new_root as int) == seps);
    lemma_split_halves(image, image2, b, min, old_root as int, sib as int, h, None, None, true);
    assert(internal_ok(kids, seps, b, min, None, None, true));
    assert(kids[0] == old_root && kids[1] == sib);
    assert(child_lo(seps, None, 0) == None::<Seq<char>>);
    assert(child_hi(seps, None, 0) == Some(median));
    assert(child_lo(seps, None, 1) == Some(median));
    assert(child_hi(seps, None, 1) == None::<Seq<char>>);
    assert forall|p: int| #[trigger] in_subtree(image, old_root as int, h, p) implies p
        != new_root by {
        lemma_in_subtree_valid(image, b, min, old_root as int, h, None, None, true, p);
    }
    assert forall|i: int| #![trigger kids[i]] 0 <= i < kids.len() implies subtree_ok(
        image2,
        b,
        min,
        kids[i] as int,
        h,
        child_lo(seps, None, i),
        child_hi(seps, None, i),
        false,
    ) && !in_subtree(image2, kids[i] as int, h, new_root as int) by {
        if i == 0 {
            if in_subtree(image2, old_root as int, h, new_root as int) {
                assert(in_subtree(image, old_root as int, h, new_root as int));
            }
        }
    }
    assert forall|i: int, j: int, p: int| 0 <= i < j < kids.len() implies !(#[trigger] in_subtree(
        image2,
        kids[i] as int,
        h,
        p,
    ) && #[trigger] in_subtree(image2, kids[j] as int, h, p)) by {
        assert(i == 0 && j == 1);
    }
    assert forall|p: int| #[trigger] in_subtree(image2, new_root as int, top, p) implies in_subtree(
        image,
        old_root as int,
        h,
        p,
    ) || p >= image.len() by {
        if p != new_root {
            let i = choose|i: int|
                #![trigger kids[i]]
                0 <= i < kids.len() && in_subtree(image2, kids[i] as int, h, p);
            if i == 0 {
                assert(in_subtree(image2, old_root as int, h, p));
            } else {
                assert(in_subtree(image2, sib as int, h, p));
            }
        }
    }
    assert forall|k: Seq<char>, v: Seq<char>| #[trigger]
        subtree_has(image2, new_root as int, top, k, v) <==> subtree_has(
            image,
            old_root as int,
            h,
            k,
            v,
        ) by {
        if subtree_has(image2, new_root as int, top, k, v) {
            let i = choose|i: int|
                #![trigger kids[i]]
                0 <= i < kids.len() && subtree_has(image2, kids[i] as int, h, k, v);
            if i == 0 {
                assert(subtree_has(image2, old_root as int, h, k, v));
            } else {
                assert(subtree_has(image2, sib as int, h, k, v));
            }
        }
        if subtree_has(image, old_root as int, h, k, v) {
            if subtree_has(image2, old_root as int, h, k, v) {
                assert(subtree_has(image2, kids[0] as int, h, k, v));
            } else {
                assert(subtree_has(image2, kids[1] as int, h, k, v));
            }
        }
    }
}

/// From `image` to `image2` no page that starts at a multiple of the page
/// size has changed but the page at `a`.
pub open spec fn unchanged_but(image: Seq<u8>, image2: Seq<u8>, a: int) -> bool {
    forall|p: int| p % 4096 == 0 && p != a ==> #[trigger] node_at(image2, p) == node_at(image, p)
}

/// What must hold for the pair `(k, v)` to go into the subtree at `off`,
/// whose root `node` is: the subtree is sound and its root not full; `k` lies
/// within its bounds and is not stored in it; `k` and `v` are storable.
#[verifier::opaque]
pub open spec fn insert_ready(
    image: Seq<u8>,
    b: int,
    min: int,
    off: int,
    h: nat,
    lo: Option<Seq<char>>,
    hi: Option<Seq<char>>,
    root: bool,
    node: NodeView,
    k: Seq<char>,
    v: Seq<char>,
) -> bool {
    &&& 2 <= b <= MAX_BRANCHING_FACTOR
    &&& 0 <= min <= b - 1
    &&& image.len() % 4096 == 0
    &&& subtree_ok(image, b, min, off, h, lo, hi, root)
    &&& node_at(image, off) == Some(node)
    &&& !is_full(node, b)
    &&& above(lo, k)
    &&& upto(k, hi)
    &&& forall|v2: Seq<char>| !subtree_has(image, off, h, k, v2)
    &&& storable(k, 10)
    &&& storable(v, 10)
}

/// What holds once the pair `(k, v)` has gone into the subtree at `off`:
/// the image has grown by at most one page for each level below `off` and
/// has changed within the subtree only; the subtree is sound as before and
/// stores the pair besides what it stored.
#[verifier::opaque]
pub open spec fn inserted_below(
    image: Seq<u8>,
    image2: Seq<u8>,
    b: int,
    min: int,
    off: int,
    h: nat,
    lo: Option<Seq<char>>,
    hi: Option<Seq<char>>,
    root: bool,
    k: Seq<char>,
    v: Seq<char>,
) -> bool {
    &&& image2.len() % 4096 == 0
    &&& image2.len() <= image.len() + h * 4096
    &&& grows_within(image, image2, off, h)
    &&& subtree_ok(image2, b, min, off, h, lo, hi, root)
    &&& branches(node_at(image, off)) ==> branches(node_at(image2, off))
    &&& forall|k2: Seq<char>, v2: Seq<char>|
        #[trigger] subtree_has(image2, off, h, k2, v2) <==> subtree_has(image, off, h, k2, v2) || (
        k2 == k && v2 == v)
}

/// The pair has gone into a leaf.
pub proof fn lemma_insert_leaf(
    image: Seq<u8>,
    image2: Seq<u8>,
    b: int,
    min: int,
    off: int,
    h: nat,
    lo: Option<Seq<char>>,
    hi: Option<Seq<char>>,
    root: bool,
    node: NodeView,
    at: int,
    k: Seq<char>,
    v: Seq<char>,
)
    requires
        insert_ready(image, b, min, off, h, lo, hi, root, node, k, v),
        node.node_type is Leaf,
        0 <= at <= node.node_type->Leaf_0.len(),
        forall|m: int| 0 <= m < at ==> key_lt((#[trigger] node.node_type->Leaf_0[m]).0, k),
        forall|m: int|
            at <= m < node.node_type->Leaf_0.len() ==> key_lt(
                k,
                (#[trigger] node.node_type->Leaf_0[m]).0,
            ),
        image2.len() == image.len(),
        unchanged_but(image, image2, off),
        node_at(image2, off) is Some,
        node_at(image2, off)->Some_0.is_root == root,
        node_at(image2, off)->Some_0.node_type == NodeTypeView::Leaf(
            node.node_type->Leaf_0.insert(at, (k, v)),
        ),
    ensures
        inserted_below(image, image2, b, min, off, h, lo, hi, root, k, v),
{
    reveal(insert_ready);
    reveal(inserted_below);
    reveal(subtree_ok);
    reveal(in_subtree);
    reveal(subtree_has);
    lemma_leaf_inserted(image, image2, b, min, off, lo, hi, root, at, k, v);
    assert(in_subtree(image, off, h, off));
}

/// Where the pair goes below an internal node: into the child that
/// `child_slot` picks, which is a sound subtree, within whose bounds the key
/// lies, and which does not store the key.
pub proof fn lemma_insert_descend(
    image: Seq<u8>,
    b: int,
    min: int,
    off: int,
    h: nat,
    lo: Option<Seq<char>>,
    hi: Option<Seq<char>>,
    root: bool,
    node: NodeView,
    k: Seq<char>,
    v: Seq<char>,
)
    requires
        insert_ready(image, b, min, off, h, lo, hi, root, node, k, v),
        node.node_type is Internal,
    ensures
        h > 0,
        0 <= child_slot(seps_at(image, off), k) < kids_at(image, off).len(),
        ({
            let idx = child_slot(seps_at(image, off), k);
            let c = kids_at(image, off)[idx] as int;
            let clo = child_lo(seps_at(image, off), lo, idx);
            let chi = child_hi(seps_at(image, off), hi, idx);
            &&& subtree_ok(image, b, min, c, (h - 1) as nat, clo, chi, false)
            &&& above(clo, k)
            &&& upto(k, chi)
            &&& forall|v2: Seq<char>| !#[trigger] subtree_has(image, c, (h - 1) as nat, k, v2)
            &&& c != off
            &&& c % 4096 == 0
            &&& 0 <= c
            &&& c + 4096 <= image.len()
        }),
{
    reveal(insert_ready);
    reveal(inserted_below);
    reveal(subtree_ok);
    reveal(in_subtree);
    reveal(subtree_has);
    let kids = kids_at(image, off);
    let seps = seps_at(image, off);
    lemma_child_slot(seps, k);
    let idx = child_slot(seps, k);
    let c = kids[idx] as int;
    let g = (h - 1) as nat;
    assert(subtree_ok(
        image,
        b,
        min,
        kids[idx] as int,
        g,
        child_lo(seps, lo, idx),
        child_hi(seps, hi, idx),
        false,
    ));
    assert(!in_subtree(image, kids[idx] as int, g, off));
    assert(in_subtree(image, c, g, c));
    lemma_in_subtree_valid(
        image,
        b,
        min,
        c,
        g,
        child_lo(seps, lo, idx),
        child_hi(seps, hi, idx),
        false,
        c,
    );
    assert forall|v2: Seq<char>| !subtree_has(image, c, g, k, v2) by {
        if subtree_has(image, c, g, k, v2) {
            assert(subtree_has(image, kids[idx] as int, g, k, v2));
            assert(subtree_has(image, off, h, k, v2));
        }
    }
}

/// The pair has gone into the subtree of an internal node whose child did
/// not have to be divided.
pub proof fn lemma_insert_ascend(
    image: Seq<u8>,
    image2: Seq<u8>,
    b: int,
    min: int,
    off: int,
    h: nat,
    lo: Option<Seq<char>>,
    hi: Option<Seq<char>>,
    root: bool,
    node: NodeView,
    k: Seq<char>,
    v: Seq<char>,
)
    requires
        insert_ready(image, b, min, off, h, lo, hi, root, node, k, v),
        node.node_type is Internal,
        h > 0,
        0 <= child_slot(seps_at(image, off), k) < kids_at(image, off).len(),
        inserted_below(
            image,
            image2,
            b,
            min,
            kids_at(image, off)[child_slot(seps_at(image, off), k)] as int,
            (h - 1) as nat,
            child_lo(seps_at(image, off), lo, child_slot(seps_at(image, off), k)),
            child_hi(seps_at(image, off), hi, child_slot(seps_at(image, off), k)),
            false,
            k,
            v,
        ),
    ensures
        inserted_below(image, image2, b, min, off, h, lo, hi, root, k, v),
{
    reveal(insert_ready);
    reveal(inserted_below);
    reveal(subtree_ok);
    reveal(in_subtree);
    reveal(subtree_has);
    let kids = kids_at(image, off);
    let seps = seps_at(image, off);
    let idx = child_slot(seps, k);
    let c = kids[idx] as int;
    let g = (h - 1) as nat;
    lemma_child_updated(image, image2, b, min, off, h, lo, hi, root, idx);
    assert forall|k2: Seq<char>, v2: Seq<char>| #[trigger]
        subtree_has(image2, off, h, k2, v2) <==> subtree_has(image, off, h, k2, v2) || (k2 == k
            && v2 == v) by {
        if subtree_has(image, c, g, k2, v2) {
            assert(subtree_has(image, kids[idx] as int, g, k2, v2));
        }
    }
    assert(image2.len() <= image.len() + h * 4096) by (nonlinear_arith)
        requires
            image2.len() <= image.len() + (h - 1) * 4096,
            h > 0,
    ;
}

/// The child into which the pair goes after child `idx` has been divided:
/// the half that stays where the key does not come behind the key that went
/// up, the sibling else.
pub open spec fn split_target(idx: int, k: Seq<char>, median: Seq<char>) -> int {
    if key_le(k, median) {
        idx
    } else {
        idx + 1
    }
}

/// Where the pair goes after the child that `child_slot` picked has been
/// divided: the node is sound as before and stores what it stored; the half
/// into which the pair goes is a sound subtree that is not full, within
/// whose bounds the key lies, and which does not store the key.
pub proof fn lemma_insert_split_descend(
    image: Seq<u8>,
    image3: Seq<u8>,
    b: int,
    min: int,
    off: int,
    h: nat,
    lo: Option<Seq<char>>,
    hi: Option<Seq<char>>,
    root: bool,
    node: NodeView,
    sib: usize,
    k: Seq<char>,
    v: Seq<char>,
)
    requires
        insert_ready(image, b, min, off, h, lo, hi, root, node, k, v),
        node.node_type is Internal,
        child_split_done(
            image,
            image3,
            b,
            min,
            off,
            h,
            lo,
            hi,
            root,
            child_slot(seps_at(image, off), k),
            sib,
        ),
    ensures
        subtree_ok(image3, b, min, off, h, lo, hi, root),
        ({
            let idx = child_slot(seps_at(image, off), k);
            let median = median_at(image, kids_at(image, off)[idx] as int, b);
            let j = split_target(idx, k, median);
            let t = kids_at(image3, off)[j] as int;
            let tlo = child_lo(seps_at(image3, off), lo, j);
            let thi = child_hi(seps_at(image3, off), hi, j);
            &&& 0 <= j < kids_at(image3, off).len()
            &&& t == (if j == idx {
                kids_at(image, off)[idx] as int
            } else {
                sib as int
            })
            &&& subtree_ok(image3, b, min, t, (h - 1) as nat, tlo, thi, false)
            &&& !is_full(node_at(image3, t)->Some_0, b)
            &&& above(tlo, k)
            &&& upto(k, thi)
            &&& forall|v2: Seq<char>| !#[trigger] subtree_has(image3, t, (h - 1) as nat, k, v2)
        }),
{
    reveal(insert_ready);
    reveal(inserted_below);
    reveal(subtree_ok);
    reveal(in_subtree);
    reveal(subtree_has);
    let kids = kids_at(image, off);
    let seps = seps_at(image, off);
    let idx = child_slot(seps, k);
    let c = kids[idx] as int;
    let g = (h - 1) as nat;
    let median = median_at(image, c, b);
    let j = split_target(idx, k, median);
    let kids2 = kids.insert(idx + 1, sib);
    let seps2 = seps.insert(idx, median);
    assert(kids_at(image3, off) == kids2);
    assert(seps_at(image3, off) == seps2);
    lemma_insert_descend(image, b, min, off, h, lo, hi, root, node, k, v);
    lemma_split_parent(image, image3, b, min, off, h, lo, hi, root, idx, sib);
    let t = kids2[j] as int;
    assert(subtree_ok(
        image3,
        b,
        min,
        kids2[j] as int,
        g,
        child_lo(seps2, lo, j),
        child_hi(seps2, hi, j),
        false,
    ));
    lemma_key_not_lt(median, k);
    assert(seps2[idx] == median);
    if idx > 0 {
        assert(seps2[idx - 1] == seps[idx - 1]);
    }
    if idx < seps.len() {
        assert(seps2[idx + 1] == seps[idx]);
    }
    assert forall|v2: Seq<char>| !subtree_has(image3, t, g, k, v2) by {
        if subtree_has(image3, t, g, k, v2) {
            assert(subtree_has(image3, kids2[j] as int, g, k, v2));
            assert(subtree_has(image3, off, h, k, v2));
        }
    }
    let old = node_at(image, c)->Some_0;
    assert(kids2[idx] == kids[idx]);
    assert(kids2[idx + 1] == sib);
    match old.node_type {
        NodeTypeView::Leaf(pairs) => {
            assert(pairs.subrange(0, b).len() == b);
            assert(pairs.subrange(b, pairs.len() as int).len() == b - 1);
        },
        NodeTypeView::Internal(children, _) => {
            assert(children.subrange(0, b).len() == b);
            assert(children.subrange(b, children.len() as int).len() == b);
        },
        NodeTypeView::Unexpected => {},
    }
}

/// The pair has gone into the subtree of an internal node one of whose
/// children had to be divided first.
pub proof fn lemma_insert_split_ascend(
    image: Seq<u8>,
    image3: Seq<u8>,
    image4: Seq<u8>,
    b: int,
    min: int,
    off: int,
    h: nat,
    lo: Option<Seq<char>>,
    hi: Option<Seq<char>>,
    root: bool,
    node: NodeView,
    sib: usize,
    j: int,
    k: Seq<char>,
    v: Seq<char>,
)
    requires
        insert_ready(image, b, min, off, h, lo, hi, root, node, k, v),
        node.node_type is Internal,
        child_split_done(
            image,
            image3,
            b,
            min,
            off,
            h,
            lo,
            hi,
            root,
            child_slot(seps_at(image, off), k),
            sib,
        ),
        sib == image.len(),
        image3.len() == image.len() + 4096,
        0 <= j < kids_at(image3, off).len(),
        inserted_below(
            image3,
            image4,
            b,
            min,
            kids_at(image3, off)[j] as int,
            (h - 1) as nat,
            child_lo(seps_at(image3, off), lo, j),
            child_hi(seps_at(image3, off), hi, j),
            false,
            k,
            v,
        ),
    ensures
        inserted_below(image, image4, b, min, off, h, lo, hi, root, k, v),
{
    reveal(insert_ready);
    reveal(inserted_below);
    reveal(subtree_ok);
    reveal(in_subtree);
    reveal(subtree_has);
    let kids = kids_at(image, off);
    let seps = seps_at(image, off);
    let idx = child_slot(seps, k);
    let c = kids[idx] as int;
    let g = (h - 1) as nat;
    let kids2 = kids_at(image3, off);
    let t = kids2[j] as int;
    lemma_insert_descend(image, b, min, off, h, lo, hi, root, node, k, v);
    lemma_split_parent(image, image3, b, min, off, h, lo, hi, root, idx, sib);
    lemma_child_updated(image3, image4, b, min, off, h, lo, hi, root, j);
    assert(in_subtree(image, off, h, off));
    assert(in_subtree(image, c, g, c));
    lemma_in_child_in_parent(image, off, h, idx, c);
    assert forall|k2: Seq<char>, v2: Seq<char>| #[trigger]
        subtree_has(image4, off, h, k2, v2) <==> subtree_has(image, off, h, k2, v2) || (k2 == k
            && v2 == v) by {
        if subtree_has(image3, t, g, k2, v2) {
            assert(subtree_has(image3, kids2[j] as int, g, k2, v2));
            assert(subtree_has(image3, off, h, k2, v2));
        }
    }
    assert forall|p: int|
        p % 4096 == 0 && p + 4096 <= image.len() && !in_subtree(
            image,
            off,
            h,
            p,
        ) implies #[trigger] node_at(image4, p) == node_at(image, p) by {
        assert(node_at(image3, p) == node_at(image, p));
        if in_subtree(image3, off, h, p) {
            assert(in_subtree(image, off, h, p) || p == sib);
        }
    }
    assert forall|p: int| #[trigger] in_subtree(image4, off, h, p) implies in_subtree(
        image,
        off,
        h,
        p,
    ) || p >= image.len() by {
        if in_subtree(image3, off, h, p) {
            assert(in_subtree(image, off, h, p) || p == sib);
        }
    }
    assert(image4.len() <= image.len() + h * 4096) by (nonlinear_arith)
        requires
            image4.len() <= image3.len() + (h - 1) * 4096,
            image3.len() == image.len() + 4096,
            h > 0,
    ;
}

} // verus!
