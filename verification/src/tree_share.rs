//! What sharing out the entries of two neighbouring children, which do not
//! fit into one node, does to a sound subtree.

use crate::key_order::{
    key_le, key_lt, lemma_key_le_lt_transitive, lemma_key_le_transitive,
};
use crate::node::NodeView;
use crate::node_type::NodeTypeView;
use crate::tree::{
    above, at_least, child_hi, child_lo, in_subtree, internal_ok, leaf_ok, lemma_frame_has,
    lemma_frame_ok, lemma_frame_pages, lemma_in_subtree_valid, node_at, seps_ascend, subtree_has,
    subtree_ok, upto,
};
use crate::tree_delete::merged_type;
use crate::tree_fill::keys_of;
use crate::tree_insert::{
    child_kept, kids_at, lemma_child_kept, lemma_in_child_in_parent, seps_at,
};
use vstd::prelude::*;

verus! {

/// What merging two neighbours gives, with `sep` the key that stood
/// between them in their parent, as a node that is no root and has the parent
/// of the first.
pub open spec fn joined(left: NodeView, right: NodeView, sep: Seq<char>) -> NodeView {
    NodeView {
        node_type: merged_type(left, right, sep),
        is_root: false,
        parent_offset: left.parent_offset,
    }
}

/// Whether both halves of `whole`, divided behind its first `m` entries,
/// are nodes of a tree with the branching parameter `b`: neither is empty,
/// and neither holds more than a node may hold.
pub open spec fn halves_fit(whole: NodeView, b: int, m: int) -> bool {
    match whole.node_type {
        NodeTypeView::Leaf(pairs) => 1 <= m <= 2 * b - 1 && 1 <= pairs.len() - m <= 2 * b - 1,
        NodeTypeView::Internal(children, _) => 1 <= m <= 2 * b && 1 <= children.len() - m <= 2
            * b,
        NodeTypeView::Unexpected => false,
    }
}

/// What holds when the entries of the children `low` and `low + 1` of the
/// node at `off` have been shared out anew: in `image2` the first of the two
/// holds the first `m` entries of what merging them gives and the second the
/// rest; the node at `off` has the key that goes up between them; these three
/// pages apart, all pages are what they were.
pub open spec fn share_done(
    image: Seq<u8>,
    image2: Seq<u8>,
    b: int,
    off: int,
    h: nat,
    lo: Option<Seq<char>>,
    hi: Option<Seq<char>>,
    root: bool,
    low: int,
    m: int,
) -> bool {
    let kids = kids_at(image, off);
    let seps = seps_at(image, off);
    let whole = joined(
        node_at(image, kids[low] as int)->Some_0,
        node_at(image, kids[low + 1] as int)->Some_0,
        seps[low],
    );
    &&& 2 <= b
    &&& subtree_ok(image, b, 0, off, h, lo, hi, root)
    &&& h > 0
    &&& 0 <= low
    &&& low + 1 < kids.len()
    &&& halves_fit(whole, b, m)
    &&& node_at(image2, kids[low] as int) is Some
    &&& !node_at(image2, kids[low] as int)->Some_0.is_root
    &&& node_at(image2, kids[low] as int)->Some_0.node_type == whole.split_left(m).node_type
    &&& node_at(image2, kids[low + 1] as int) is Some
    &&& !node_at(image2, kids[low + 1] as int)->Some_0.is_root
    &&& node_at(image2, kids[low + 1] as int)->Some_0.node_type == whole.split_right(
        m,
    ).node_type
    &&& node_at(image2, off) is Some
    &&& node_at(image2, off)->Some_0.is_root == root
    &&& node_at(image2, off)->Some_0.node_type == NodeTypeView::Internal(
        kids,
        seps.update(low, whole.split_median(m)),
    )
    &&& forall|p: int|
        p % 4096 == 0 && p != off && p != kids[low] && p != kids[low + 1] ==> #[trigger] node_at(
            image2,
            p,
        ) == node_at(image, p)
}

/// The two children whose entries are shared out, as they are before: both
/// are sound subtrees one level below the node, within the bounds that the
/// keys of the node set, and the key between them lies within those bounds.
proof fn lemma_share_sides(
    image: Seq<u8>,
    b: int,
    off: int,
    h: nat,
    lo: Option<Seq<char>>,
    hi: Option<Seq<char>>,
    root: bool,
    low: int,
)
    requires
        subtree_ok(image, b, 0, off, h, lo, hi, root),
        h > 0,
        0 <= low,
        low + 1 < kids_at(image, off).len(),
    ensures
        node_at(image, off) is Some,
        node_at(image, off)->Some_0.node_type is Internal,
        off % 4096 == 0,
        kids_at(image, off).len() == seps_at(image, off).len() + 1,
        subtree_ok(
            image,
            b,
            0,
            kids_at(image, off)[low] as int,
            (h - 1) as nat,
            child_lo(seps_at(image, off), lo, low),
            Some(seps_at(image, off)[low]),
            false,
        ),
        subtree_ok(
            image,
            b,
            0,
            kids_at(image, off)[low + 1] as int,
            (h - 1) as nat,
            Some(seps_at(image, off)[low]),
            child_hi(seps_at(image, off), hi, low + 1),
            false,
        ),
        at_least(child_lo(seps_at(image, off), lo, low), seps_at(image, off)[low]),
        upto(seps_at(image, off)[low], child_hi(seps_at(image, off), hi, low + 1)),
        at_least(lo, seps_at(image, off)[low]),
        upto(seps_at(image, off)[low], hi),
        kids_at(image, off)[low] != kids_at(image, off)[low + 1],
        kids_at(image, off)[low] != off,
        kids_at(image, off)[low + 1] != off,
        kids_at(image, off)[low] % 4096 == 0,
        kids_at(image, off)[low + 1] % 4096 == 0,
        forall|p: int|
            !(#[trigger] in_subtree(image, kids_at(image, off)[low] as int, (h - 1) as nat, p)
                && in_subtree(image, kids_at(image, off)[low + 1] as int, (h - 1) as nat, p)),
        forall|p: int|
            #[trigger] in_subtree(image, kids_at(image, off)[low] as int, (h - 1) as nat, p) ==> p
                != off && p + 4096 <= image.len() && p % 4096 == 0 && in_subtree(
                image,
                off,
                h,
                p,
            ),
        forall|p: int|
            #[trigger] in_subtree(image, kids_at(image, off)[low + 1] as int, (h - 1) as nat, p)
                ==> p != off && p + 4096 <= image.len() && p % 4096 == 0 && in_subtree(
                image,
                off,
                h,
                p,
            ),
{
    reveal(subtree_ok);
    reveal(in_subtree);
    let kids = kids_at(image, off);
    let seps = seps_at(image, off);
    let l = kids[low] as int;
    let r = kids[low + 1] as int;
    let g = (h - 1) as nat;
    assert(subtree_ok(
        image,
        b,
        0,
        kids[low] as int,
        g,
        child_lo(seps, lo, low),
        child_hi(seps, hi, low),
        false,
    ));
    assert(subtree_ok(
        image,
        b,
        0,
        kids[low + 1] as int,
        g,
        child_lo(seps, lo, low + 1),
        child_hi(seps, hi, low + 1),
        false,
    ));
    assert(at_least(lo, seps[low]) && upto(seps[low], hi));
    if low > 0 {
        assert(key_le(seps[low - 1], seps[low]));
    }
    if low + 1 < seps.len() {
        assert(key_le(seps[low], seps[low + 1]));
    }
    assert(in_subtree(image, l, g, l));
    assert(in_subtree(image, r, g, r));
    assert(!in_subtree(image, kids[low] as int, g, off));
    assert(!in_subtree(image, kids[low + 1] as int, g, off));
    assert forall|p: int|
        !(#[trigger] in_subtree(image, l, g, p) && in_subtree(image, r, g, p)) by {
        assert(!(in_subtree(image, kids[low] as int, g, p) && in_subtree(
            image,
            kids[low + 1] as int,
            g,
            p,
        )));
    }
    assert forall|p: int| #[trigger] in_subtree(image, l, g, p) implies p != off && p + 4096
        <= image.len() && p % 4096 == 0 && in_subtree(image, off, h, p) by {
        lemma_in_subtree_valid(
            image,
            b,
            0,
            l,
            g,
            child_lo(seps, lo, low),
            child_hi(seps, hi, low),
            false,
            p,
        );
        lemma_in_child_in_parent(image, off, h, low, p);
    }
    assert forall|p: int| #[trigger] in_subtree(image, r, g, p) implies p != off && p + 4096
        <= image.len() && p % 4096 == 0 && in_subtree(image, off, h, p) by {
        lemma_in_subtree_valid(
            image,
            b,
            0,
            r,
            g,
            child_lo(seps, lo, low + 1),
            child_hi(seps, hi, low + 1),
            false,
            p,
        );
        lemma_in_child_in_parent(image, off, h, low + 1, p);
    }
}

/// The halves of two neighbouring leaves whose pairs have been shared out
/// are sound leaves, the first with the key that goes up as its upper bound
/// and the second with that key as its lower bound; together they store what
/// the two leaves stored.
proof fn lemma_share_leaves(
    image: Seq<u8>,
    image2: Seq<u8>,
    b: int,
    off: int,
    h: nat,
    lo: Option<Seq<char>>,
    hi: Option<Seq<char>>,
    root: bool,
    low: int,
    m: int,
)
    requires
        share_done(image, image2, b, off, h, lo, hi, root, low, m),
        h == 1,
    ensures
        subtree_ok(
            image2,
            b,
            0,
            kids_at(image, off)[low] as int,
            0,
            child_lo(seps_at(image, off), lo, low),
            Some(seps_at(image2, off)[low]),
            false,
        ),
        subtree_ok(
            image2,
            b,
            0,
            kids_at(image, off)[low + 1] as int,
            0,
            Some(seps_at(image2, off)[low]),
            child_hi(seps_at(image, off), hi, low + 1),
            false,
        ),
        at_least(child_lo(seps_at(image, off), lo, low), seps_at(image2, off)[low]),
        upto(seps_at(image2, off)[low], child_hi(seps_at(image, off), hi, low + 1)),
        forall|k: Seq<char>, v: Seq<char>|
            #[trigger] subtree_has(image2, kids_at(image, off)[low] as int, 0, k, v) || subtree_has(
                image2,
                kids_at(image, off)[low + 1] as int,
                0,
                k,
                v,
            ) <==> subtree_has(image, kids_at(image, off)[low] as int, 0, k, v) || subtree_has(
                image,
                kids_at(image, off)[low + 1] as int,
                0,
                k,
                v,
            ),
{
    lemma_share_sides(image, b, off, h, lo, hi, root, low);
    reveal(subtree_ok);
    reveal(subtree_has);
    let kids = kids_at(image, off);
    let seps = seps_at(image, off);
    let l = kids[low] as int;
    let r = kids[low + 1] as int;
    let sep = seps[low];
    let mlo = child_lo(seps, lo, low);
    let mhi = child_hi(seps, hi, low + 1);
    let first = node_at(image, l)->Some_0.node_type->Leaf_0;
    let second = node_at(image, r)->Some_0.node_type->Leaf_0;
    let all = first + second;
    let whole = joined(node_at(image, l)->Some_0, node_at(image, r)->Some_0, sep);
    assert(whole.node_type == NodeTypeView::Leaf(all));
    let lp = all.subrange(0, m);
    let rp = all.subrange(m, all.len() as int);
    let median = all[m - 1].0;
    assert(seps_at(image2, off) == seps.update(low, median));
    assert(seps_at(image2, off)[low] == median);
    let n = first.len() as int;
    // the pairs of the two leaves, one after the other, ascend within the
    // bounds of the two
    assert forall|i: int| 0 <= i < all.len() implies above(mlo, (#[trigger] all[i]).0) && upto(
        all[i].0,
        mhi,
    ) by {
        if i < n {
            assert(all[i] == first[i]);
            assert(key_le(first[i].0, sep));
            if mhi is Some {
                lemma_key_le_transitive(first[i].0, sep, mhi->Some_0);
            }
        } else {
            assert(all[i] == second[i - n]);
            assert(key_lt(sep, second[i - n].0));
            if mlo is Some {
                lemma_key_le_lt_transitive(mlo->Some_0, sep, second[i - n].0);
            }
        }
    }
    assert forall|i: int, j: int| 0 <= i < j < all.len() implies key_lt(
        (#[trigger] all[i]).0,
        (#[trigger] all[j]).0,
    ) by {
        if j < n {
            assert(key_lt(first[i].0, first[j].0));
        } else if i >= n {
            assert(key_lt(second[i - n].0, second[j - n].0));
        } else {
            assert(key_le(first[i].0, sep));
            assert(key_lt(sep, second[j - n].0));
            lemma_key_le_lt_transitive(first[i].0, sep, second[j - n].0);
        }
    }
    assert(above(mlo, all[m - 1].0) && upto(all[m - 1].0, mhi));
    if mlo is Some {
        assert(key_le(mlo->Some_0, median));
    }
    assert(leaf_ok(lp, b, 0, mlo, Some(median), false)) by {
        assert forall|i: int| 0 <= i < lp.len() implies above(mlo, (#[trigger] lp[i]).0) && upto(
            lp[i].0,
            Some(median),
        ) by {
            assert(lp[i] == all[i]);
            if i < m - 1 {
                assert(key_lt(all[i].0, all[m - 1].0));
            }
        }
        assert forall|i: int, j: int| 0 <= i < j < lp.len() implies key_lt(
            (#[trigger] lp[i]).0,
            (#[trigger] lp[j]).0,
        ) by {
            assert(key_lt(all[i].0, all[j].0));
        }
    }
    assert(leaf_ok(rp, b, 0, Some(median), mhi, false)) by {
        assert forall|i: int| 0 <= i < rp.len() implies above(Some(median), (#[trigger] rp[i]).0)
            && upto(rp[i].0, mhi) by {
            assert(rp[i] == all[m + i]);
            assert(key_lt(all[m - 1].0, all[m + i].0));
        }
        assert forall|i: int, j: int| 0 <= i < j < rp.len() implies key_lt(
            (#[trigger] rp[i]).0,
            (#[trigger] rp[j]).0,
        ) by {
            assert(key_lt(all[m + i].0, all[m + j].0));
        }
    }
    let left_stored = node_at(image2, l)->Some_0.node_type->Leaf_0;
    let right_stored = node_at(image2, r)->Some_0.node_type->Leaf_0;
    assert(left_stored == lp);
    assert(right_stored == rp);
    assert forall|k: Seq<char>, v: Seq<char>| #[trigger]
        subtree_has(image2, l, 0, k, v) || subtree_has(image2, r, 0, k, v) <==> subtree_has(
            image,
            l,
            0,
            k,
            v,
        ) || subtree_has(image, r, 0, k, v) by {
        if subtree_has(image2, l, 0, k, v) {
            let j = choose|j: int|
                0 <= j < left_stored.len() && #[trigger] left_stored[j] == (k, v);
            assert(all[j] == (k, v));
            if j < n {
                assert(first[j] == (k, v));
            } else {
                assert(second[j - n] == (k, v));
            }
        }
        if subtree_has(image2, r, 0, k, v) {
            let j = choose|j: int|
                0 <= j < right_stored.len() && #[trigger] right_stored[j] == (k, v);
            assert(all[m + j] == (k, v));
            if m + j < n {
                assert(first[m + j] == (k, v));
            } else {
                assert(second[m + j - n] == (k, v));
            }
        }
        if subtree_has(image, l, 0, k, v) {
            let j = choose|j: int| 0 <= j < first.len() && #[trigger] first[j] == (k, v);
            assert(all[j] == (k, v));
            if j < m {
                assert(left_stored[j] == (k, v));
                assert(subtree_has(image2, l, 0, k, v));
            } else {
                assert(right_stored[j - m] == (k, v));
                assert(subtree_has(image2, r, 0, k, v));
            }
        }
        if subtree_has(image, r, 0, k, v) {
            let j = choose|j: int| 0 <= j < second.len() && #[trigger] second[j] == (k, v);
            assert(all[n + j] == (k, v));
            if n + j < m {
                assert(left_stored[n + j] == (k, v));
                assert(subtree_has(image2, l, 0, k, v));
            } else {
                assert(right_stored[n + j - m] == (k, v));
                assert(subtree_has(image2, r, 0, k, v));
            }
        }
    }
}

/// The children of two neighbouring internal nodes, those of the first and
/// then those of the second.
pub open spec fn joined_kids(image: Seq<u8>, off: int, low: int) -> Seq<usize> {
    kids_at(image, kids_at(image, off)[low] as int) + kids_at(
        image,
        kids_at(image, off)[low + 1] as int,
    )
}

/// The keys of two neighbouring internal nodes, those of the first and then
/// those of the second, with the key that stands between the two nodes in
/// their parent between them.
pub open spec fn joined_seps(image: Seq<u8>, off: int, low: int) -> Seq<Seq<char>> {
    seps_at(image, kids_at(image, off)[low] as int).push(seps_at(image, off)[low]) + seps_at(
        image,
        kids_at(image, off)[low + 1] as int,
    )
}

/// The keys of two neighbouring internal nodes with the key between the
/// nodes among them do not descend and lie within the bounds of the two
/// nodes, and there is one key less than there are children.
proof fn lemma_joined_shape(
    image: Seq<u8>,
    b: int,
    off: int,
    h: nat,
    lo: Option<Seq<char>>,
    hi: Option<Seq<char>>,
    root: bool,
    low: int,
)
    requires
        subtree_ok(image, b, 0, off, h, lo, hi, root),
        h > 1,
        0 <= low,
        low + 1 < kids_at(image, off).len(),
    ensures
        node_at(image, kids_at(image, off)[low] as int)->Some_0.node_type is Internal,
        node_at(image, kids_at(image, off)[low + 1] as int)->Some_0.node_type is Internal,
        kids_at(image, kids_at(image, off)[low] as int).len() == seps_at(
            image,
            kids_at(image, off)[low] as int,
        ).len() + 1,
        kids_at(image, kids_at(image, off)[low + 1] as int).len() == seps_at(
            image,
            kids_at(image, off)[low + 1] as int,
        ).len() + 1,
        joined_kids(image, off, low).len() == joined_seps(image, off, low).len() + 1,
        seps_ascend(joined_seps(image, off, low)),
        forall|i: int|
            0 <= i < joined_seps(image, off, low).len() ==> at_least(
                child_lo(seps_at(image, off), lo, low),
                #[trigger] joined_seps(image, off, low)[i],
            ) && upto(
                joined_seps(image, off, low)[i],
                child_hi(seps_at(image, off), hi, low + 1),
            ),
{
    lemma_share_sides(image, b, off, h, lo, hi, root, low);
    reveal(subtree_ok);
    let kids = kids_at(image, off);
    let seps = seps_at(image, off);
    let l = kids[low] as int;
    let r = kids[low + 1] as int;
    let s1 = seps_at(image, l);
    let s2 = seps_at(image, r);
    let sep = seps[low];
    let ms = joined_seps(image, off, low);
    let mlo = child_lo(seps, lo, low);
    let mhi = child_hi(seps, hi, low + 1);
    let n = s1.len() as int;
    assert forall|i: int| 0 <= i < ms.len() implies at_least(mlo, #[trigger] ms[i]) && upto(
        ms[i],
        mhi,
    ) by {
        if i < n {
            assert(ms[i] == s1[i]);
            assert(at_least(mlo, s1[i]) && key_le(s1[i], sep));
            if mhi is Some {
                lemma_key_le_transitive(s1[i], sep, mhi->Some_0);
            }
        } else if i > n {
            assert(ms[i] == s2[i - n - 1]);
            assert(key_le(sep, s2[i - n - 1]) && upto(s2[i - n - 1], mhi));
            if mlo is Some {
                lemma_key_le_transitive(mlo->Some_0, sep, s2[i - n - 1]);
            }
        }
    }
    assert forall|i: int, j: int| 0 <= i < j < ms.len() implies key_le(
        #[trigger] ms[i],
        #[trigger] ms[j],
    ) by {
        if j < n {
            assert(key_le(s1[i], s1[j]));
        } else if j == n {
            assert(key_le(s1[i], sep));
        } else if i > n {
            assert(key_le(s2[i - n - 1], s2[j - n - 1]));
        } else if i == n {
            assert(key_le(sep, s2[j - n - 1]));
        } else {
            assert(key_le(s1[i], sep));
            assert(key_le(sep, s2[j - n - 1]));
            lemma_key_le_transitive(s1[i], sep, s2[j - n - 1]);
        }
    }
}

/// Child `i` of two neighbouring internal nodes taken together is a sound
/// subtree within the bounds that the keys of the two, with the key between
/// the nodes among them, set; its pages are pages below one of the two nodes
/// and none of them is the page of the two nodes or of their parent.
proof fn lemma_joined_child(
    image: Seq<u8>,
    b: int,
    off: int,
    h: nat,
    lo: Option<Seq<char>>,
    hi: Option<Seq<char>>,
    root: bool,
    low: int,
    i: int,
)
    requires
        subtree_ok(image, b, 0, off, h, lo, hi, root),
        h > 1,
        0 <= low,
        low + 1 < kids_at(image, off).len(),
        0 <= i < joined_kids(image, off, low).len(),
    ensures
        subtree_ok(
            image,
            b,
            0,
            joined_kids(image, off, low)[i] as int,
            (h - 2) as nat,
            child_lo(joined_seps(image, off, low), child_lo(seps_at(image, off), lo, low), i),
            child_hi(joined_seps(image, off, low), child_hi(seps_at(image, off), hi, low + 1), i),
            false,
        ),
        forall|p: int|
            #[trigger] in_subtree(image, joined_kids(image, off, low)[i] as int, (h - 2) as nat, p)
                ==> p != off && p != kids_at(image, off)[low] && p != kids_at(image, off)[low + 1]
                && p % 4096 == 0 && p + 4096 <= image.len() && in_subtree(image, off, h, p),
        forall|k: Seq<char>, v: Seq<char>|
            #[trigger] subtree_has(
                image,
                joined_kids(image, off, low)[i] as int,
                (h - 2) as nat,
                k,
                v,
            ) ==> subtree_has(image, kids_at(image, off)[low] as int, (h - 1) as nat, k, v)
                || subtree_has(image, kids_at(image, off)[low + 1] as int, (h - 1) as nat, k, v),
{
    lemma_share_sides(image, b, off, h, lo, hi, root, low);
    lemma_joined_shape(image, b, off, h, lo, hi, root, low);
    reveal(subtree_ok);
    reveal(in_subtree);
    reveal(subtree_has);
    let kids = kids_at(image, off);
    let seps = seps_at(image, off);
    let l = kids[low] as int;
    let r = kids[low + 1] as int;
    let g = (h - 1) as nat;
    let gg = (h - 2) as nat;
    let c1 = kids_at(image, l);
    let s1 = seps_at(image, l);
    let c2 = kids_at(image, r);
    let s2 = seps_at(image, r);
    let sep = seps[low];
    let mk = joined_kids(image, off, low);
    let ms = joined_seps(image, off, low);
    let mlo = child_lo(seps, lo, low);
    let mhi = child_hi(seps, hi, low + 1);
    let n = c1.len() as int;
    if i < n {
        assert(mk[i] == c1[i]);
        let x = c1[i];
        assert(child_lo(ms, mlo, i) == child_lo(s1, mlo, i)) by {
            if i > 0 {
                assert(ms[i - 1] == s1[i - 1]);
            }
        }
        assert(child_hi(ms, mhi, i) == child_hi(s1, Some(sep), i)) by {
            if i < s1.len() {
                assert(ms[i] == s1[i]);
            } else {
                assert(ms[i] == sep);
            }
        }
        assert(subtree_ok(
            image,
            b,
            0,
            c1[i] as int,
            gg,
            child_lo(s1, mlo, i),
            child_hi(s1, Some(sep), i),
            false,
        ));
        assert(!in_subtree(image, c1[i] as int, gg, l));
        assert forall|p: int| #[trigger] in_subtree(image, x as int, gg, p) implies p != off && p
            != l && p != r && p % 4096 == 0 && p + 4096 <= image.len() && in_subtree(
            image,
            off,
            h,
            p,
        ) by {
            assert(in_subtree(image, c1[i] as int, gg, p));
            assert(in_subtree(image, l, g, p));
            assert(in_subtree(image, r, g, r));
        }
        assert forall|k: Seq<char>, v: Seq<char>| #[trigger]
            subtree_has(image, x as int, gg, k, v) implies subtree_has(image, l, g, k, v) by {
            assert(subtree_has(image, c1[i] as int, gg, k, v));
        }
    } else {
        let j = i - n;
        assert(mk[i] == c2[j]);
        let x = c2[j];
        assert(child_lo(ms, mlo, i) == child_lo(s2, Some(sep), j)) by {
            if j > 0 {
                assert(ms[i - 1] == s2[j - 1]);
            } else {
                assert(ms[i - 1] == sep);
            }
        }
        assert(child_hi(ms, mhi, i) == child_hi(s2, mhi, j)) by {
            if j < s2.len() {
                assert(ms[i] == s2[j]);
            }
        }
        assert(subtree_ok(
            image,
            b,
            0,
            c2[j] as int,
            gg,
            child_lo(s2, Some(sep), j),
            child_hi(s2, mhi, j),
            false,
        ));
        assert(!in_subtree(image, c2[j] as int, gg, r));
        assert forall|p: int| #[trigger] in_subtree(image, x as int, gg, p) implies p != off && p
            != l && p != r && p % 4096 == 0 && p + 4096 <= image.len() && in_subtree(
            image,
            off,
            h,
            p,
        ) by {
            assert(in_subtree(image, c2[j] as int, gg, p));
            assert(in_subtree(image, r, g, p));
            assert(in_subtree(image, l, g, l));
        }
        assert forall|k: Seq<char>, v: Seq<char>| #[trigger]
            subtree_has(image, x as int, gg, k, v) implies subtree_has(image, r, g, k, v) by {
            assert(subtree_has(image, c2[j] as int, gg, k, v));
        }
    }
}

/// No page belongs to the subtrees of two children of two neighbouring
/// internal nodes taken together.
proof fn lemma_joined_apart(
    image: Seq<u8>,
    b: int,
    off: int,
    h: nat,
    lo: Option<Seq<char>>,
    hi: Option<Seq<char>>,
    root: bool,
    low: int,
    i: int,
    j: int,
    p: int,
)
    requires
        subtree_ok(image, b, 0, off, h, lo, hi, root),
        h > 1,
        0 <= low,
        low + 1 < kids_at(image, off).len(),
        0 <= i < j < joined_kids(image, off, low).len(),
    ensures
        !(in_subtree(image, joined_kids(image, off, low)[i] as int, (h - 2) as nat, p)
            && in_subtree(image, joined_kids(image, off, low)[j] as int, (h - 2) as nat, p)),
{
    lemma_share_sides(image, b, off, h, lo, hi, root, low);
    lemma_joined_shape(image, b, off, h, lo, hi, root, low);
    reveal(subtree_ok);
    reveal(in_subtree);
    let kids = kids_at(image, off);
    let l = kids[low] as int;
    let r = kids[low + 1] as int;
    let g = (h - 1) as nat;
    let gg = (h - 2) as nat;
    let c1 = kids_at(image, l);
    let c2 = kids_at(image, r);
    let mk = joined_kids(image, off, low);
    let n = c1.len() as int;
    if in_subtree(image, mk[i] as int, gg, p) && in_subtree(image, mk[j] as int, gg, p) {
        if j < n {
            assert(mk[i] == c1[i] && mk[j] == c1[j]);
            assert(!(in_subtree(image, c1[i] as int, gg, p) && in_subtree(
                image,
                c1[j] as int,
                gg,
                p,
            )));
        } else if i >= n {
            assert(mk[i] == c2[i - n] && mk[j] == c2[j - n]);
            assert(!(in_subtree(image, c2[i - n] as int, gg, p) && in_subtree(
                image,
                c2[j - n] as int,
                gg,
                p,
            )));
        } else {
            assert(mk[i] == c1[i] && mk[j] == c2[j - n]);
            assert(in_subtree(image, c1[i] as int, gg, p));
            assert(in_subtree(image, c2[j - n] as int, gg, p));
            assert(in_subtree(image, l, g, p));
            assert(in_subtree(image, r, g, p));
        }
    }
}

/// What two neighbouring internal nodes store, one of their children
/// taken together stores.
proof fn lemma_joined_has(
    image: Seq<u8>,
    b: int,
    off: int,
    h: nat,
    lo: Option<Seq<char>>,
    hi: Option<Seq<char>>,
    root: bool,
    low: int,
    k: Seq<char>,
    v: Seq<char>,
) -> (i: int)
    requires
        subtree_ok(image, b, 0, off, h, lo, hi, root),
        h > 1,
        0 <= low,
        low + 1 < kids_at(image, off).len(),
        subtree_has(image, kids_at(image, off)[low] as int, (h - 1) as nat, k, v) || subtree_has(
            image,
            kids_at(image, off)[low + 1] as int,
            (h - 1) as nat,
            k,
            v,
        ),
    ensures
        0 <= i < joined_kids(image, off, low).len(),
        subtree_has(image, joined_kids(image, off, low)[i] as int, (h - 2) as nat, k, v),
{
    lemma_share_sides(image, b, off, h, lo, hi, root, low);
    lemma_joined_shape(image, b, off, h, lo, hi, root, low);
    reveal(subtree_ok);
    reveal(subtree_has);
    let kids = kids_at(image, off);
    let l = kids[low] as int;
    let r = kids[low + 1] as int;
    let g = (h - 1) as nat;
    let gg = (h - 2) as nat;
    let c1 = kids_at(image, l);
    let c2 = kids_at(image, r);
    let mk = joined_kids(image, off, low);
    let n = c1.len() as int;
    if subtree_has(image, l, g, k, v) {
        let i = choose|i: int|
            #![trigger c1[i]]
            0 <= i < c1.len() && subtree_has(image, c1[i] as int, gg, k, v);
        assert(mk[i] == c1[i]);
        i
    } else {
        let i = choose|i: int|
            #![trigger c2[i]]
            0 <= i < c2.len() && subtree_has(image, c2[i] as int, gg, k, v);
        assert(mk[n + i] == c2[i]);
        n + i
    }
}

/// Every child of the two internal nodes whose entries are shared out is
/// afterwards the sound subtree that it was, on the same pages, and stores
/// the same.
proof fn lemma_share_kept(
    image: Seq<u8>,
    image2: Seq<u8>,
    b: int,
    off: int,
    h: nat,
    lo: Option<Seq<char>>,
    hi: Option<Seq<char>>,
    root: bool,
    low: int,
    m: int,
    i: int,
)
    requires
        share_done(image, image2, b, off, h, lo, hi, root, low, m),
        h > 1,
        0 <= i < joined_kids(image, off, low).len(),
    ensures
        subtree_ok(
            image2,
            b,
            0,
            joined_kids(image, off, low)[i] as int,
            (h - 2) as nat,
            child_lo(joined_seps(image, off, low), child_lo(seps_at(image, off), lo, low), i),
            child_hi(joined_seps(image, off, low), child_hi(seps_at(image, off), hi, low + 1), i),
            false,
        ),
        forall|p: int|
            in_subtree(image, joined_kids(image, off, low)[i] as int, (h - 2) as nat, p)
                == #[trigger] in_subtree(
                image2,
                joined_kids(image, off, low)[i] as int,
                (h - 2) as nat,
                p,
            ),
        forall|k: Seq<char>, v: Seq<char>|
            subtree_has(image, joined_kids(image, off, low)[i] as int, (h - 2) as nat, k, v)
                == #[trigger] subtree_has(
                image2,
                joined_kids(image, off, low)[i] as int,
                (h - 2) as nat,
                k,
                v,
            ),
{
    lemma_joined_child(image, b, off, h, lo, hi, root, low, i);
    let x = joined_kids(image, off, low)[i] as int;
    let gg = (h - 2) as nat;
    assert forall|p: int| #[trigger] in_subtree(image, x, gg, p) implies node_at(image, p)
        == node_at(image2, p) by {
        assert(node_at(image2, p) == node_at(image, p));
    }
    lemma_frame_ok(
        image,
        image2,
        b,
        0,
        x,
        gg,
        child_lo(joined_seps(image, off, low), child_lo(seps_at(image, off), lo, low), i),
        child_hi(joined_seps(image, off, low), child_hi(seps_at(image, off), hi, low + 1), i),
        false,
    );
    lemma_frame_pages(image, image2, x, gg);
    lemma_frame_has(image, image2, x, gg);
}

/// The key that goes up when the entries of two neighbouring internal nodes
/// are shared out lies within the bounds of the two.
proof fn lemma_share_median(
    image: Seq<u8>,
    image2: Seq<u8>,
    b: int,
    off: int,
    h: nat,
    lo: Option<Seq<char>>,
    hi: Option<Seq<char>>,
    root: bool,
    low: int,
    m: int,
)
    requires
        share_done(image, image2, b, off, h, lo, hi, root, low, m),
        h > 1,
    ensures
        1 <= m < joined_kids(image, off, low).len(),
        node_at(image2, kids_at(image, off)[low] as int)->Some_0.node_type is Internal,
        node_at(image2, kids_at(image, off)[low + 1] as int)->Some_0.node_type is Internal,
        seps_at(image2, off)[low] == joined_seps(image, off, low)[m - 1],
        kids_at(image2, kids_at(image, off)[low] as int) == joined_kids(image, off, low).subrange(
            0,
            m,
        ),
        seps_at(image2, kids_at(image, off)[low] as int) == joined_seps(image, off, low).subrange(
            0,
            m - 1,
        ),
        kids_at(image2, kids_at(image, off)[low + 1] as int) == joined_kids(
            image,
            off,
            low,
        ).subrange(m, joined_kids(image, off, low).len() as int),
        seps_at(image2, kids_at(image, off)[low + 1] as int) == joined_seps(
            image,
            off,
            low,
        ).subrange(m, joined_seps(image, off, low).len() as int),
        at_least(child_lo(seps_at(image, off), lo, low), seps_at(image2, off)[low]),
        upto(seps_at(image2, off)[low], child_hi(seps_at(image, off), hi, low + 1)),
{
    lemma_share_sides(image, b, off, h, lo, hi, root, low);
    lemma_joined_shape(image, b, off, h, lo, hi, root, low);
    let kids = kids_at(image, off);
    let seps = seps_at(image, off);
    let whole = joined(
        node_at(image, kids[low] as int)->Some_0,
        node_at(image, kids[low + 1] as int)->Some_0,
        seps[low],
    );
    let mk = joined_kids(image, off, low);
    let ms = joined_seps(image, off, low);
    assert(whole.node_type == NodeTypeView::Internal(mk, ms));
    assert(seps_at(image2, off) == seps.update(low, whole.split_median(m)));
    assert(at_least(child_lo(seps, lo, low), ms[m - 1]));
}

/// The first of two internal nodes whose entries have been shared out is a
/// sound subtree with the key that goes up as its upper bound.
proof fn lemma_share_left(
    image: Seq<u8>,
    image2: Seq<u8>,
    b: int,
    off: int,
    h: nat,
    lo: Option<Seq<char>>,
    hi: Option<Seq<char>>,
    root: bool,
    low: int,
    m: int,
)
    requires
        share_done(image, image2, b, off, h, lo, hi, root, low, m),
        h > 1,
    ensures
        subtree_ok(
            image2,
            b,
            0,
            kids_at(image, off)[low] as int,
            (h - 1) as nat,
            child_lo(seps_at(image, off), lo, low),
            Some(seps_at(image2, off)[low]),
            false,
        ),
{
    lemma_share_sides(image, b, off, h, lo, hi, root, low);
    lemma_joined_shape(image, b, off, h, lo, hi, root, low);
    lemma_share_median(image, image2, b, off, h, lo, hi, root, low, m);
    let kids = kids_at(image, off);
    let seps = seps_at(image, off);
    let l = kids[low] as int;
    let gg = (h - 2) as nat;
    let mk = joined_kids(image, off, low);
    let ms = joined_seps(image, off, low);
    let mlo = child_lo(seps, lo, low);
    let mhi = child_hi(seps, hi, low + 1);
    let median = ms[m - 1];
    let lk = mk.subrange(0, m);
    let ls = ms.subrange(0, m - 1);
    assert(internal_ok(lk, ls, b, 0, mlo, Some(median), false)) by {
        assert forall|i: int, j: int| 0 <= i < j < ls.len() implies key_le(
            #[trigger] ls[i],
            #[trigger] ls[j],
        ) by {
            assert(key_le(ms[i], ms[j]));
        }
        assert forall|i: int| 0 <= i < ls.len() implies at_least(mlo, #[trigger] ls[i]) && upto(
            ls[i],
            Some(median),
        ) by {
            assert(at_least(mlo, ms[i]));
            assert(key_le(ms[i], ms[m - 1]));
        }
    }
    assert forall|i: int| #![trigger lk[i]] 0 <= i < lk.len() implies subtree_ok(
        image2,
        b,
        0,
        lk[i] as int,
        gg,
        child_lo(ls, mlo, i),
        child_hi(ls, Some(median), i),
        false,
    ) && !in_subtree(image2, lk[i] as int, gg, l) by {
        lemma_share_kept(image, image2, b, off, h, lo, hi, root, low, m, i);
        lemma_joined_child(image, b, off, h, lo, hi, root, low, i);
        assert(lk[i] == mk[i]);
        assert(child_lo(ls, mlo, i) == child_lo(ms, mlo, i)) by {
            if i > 0 {
                assert(ls[i - 1] == ms[i - 1]);
            }
        }
        assert(child_hi(ls, Some(median), i) == child_hi(ms, mhi, i)) by {
            if i < ls.len() {
                assert(ls[i] == ms[i]);
            }
        }
        if in_subtree(image2, mk[i] as int, gg, l) {
            assert(in_subtree(image, mk[i] as int, gg, l));
        }
    }
    assert forall|i: int, j: int, p: int| 0 <= i < j < lk.len() implies !(#[trigger] in_subtree(
        image2,
        lk[i] as int,
        gg,
        p,
    ) && #[trigger] in_subtree(image2, lk[j] as int, gg, p)) by {
        lemma_share_kept(image, image2, b, off, h, lo, hi, root, low, m, i);
        lemma_share_kept(image, image2, b, off, h, lo, hi, root, low, m, j);
        lemma_joined_apart(image, b, off, h, lo, hi, root, low, i, j, p);
        assert(lk[i] == mk[i] && lk[j] == mk[j]);
        assert(in_subtree(image, mk[i] as int, gg, p) == in_subtree(image2, mk[i] as int, gg, p));
        assert(in_subtree(image, mk[j] as int, gg, p) == in_subtree(image2, mk[j] as int, gg, p));
    }
    assert(subtree_ok(image2, b, 0, l, (h - 1) as nat, mlo, Some(median), false)) by {
        reveal(subtree_ok);
    }
}

/// The second of two internal nodes whose entries have been shared out is
/// a sound subtree with the key that goes up as its lower bound.
proof fn lemma_share_right(
    image: Seq<u8>,
    image2: Seq<u8>,
    b: int,
    off: int,
    h: nat,
    lo: Option<Seq<char>>,
    hi: Option<Seq<char>>,
    root: bool,
    low: int,
    m: int,
)
    requires
        share_done(image, image2, b, off, h, lo, hi, root, low, m),
        h > 1,
    ensures
        subtree_ok(
            image2,
            b,
            0,
            kids_at(image, off)[low + 1] as int,
            (h - 1) as nat,
            Some(seps_at(image2, off)[low]),
            child_hi(seps_at(image, off), hi, low + 1),
            false,
        ),
{
    lemma_share_sides(image, b, off, h, lo, hi, root, low);
    lemma_joined_shape(image, b, off, h, lo, hi, root, low);
    lemma_share_median(image, image2, b, off, h, lo, hi, root, low, m);
    let kids = kids_at(image, off);
    let seps = seps_at(image, off);
    let r = kids[low + 1] as int;
    let gg = (h - 2) as nat;
    let mk = joined_kids(image, off, low);
    let ms = joined_seps(image, off, low);
    let mlo = child_lo(seps, lo, low);
    let mhi = child_hi(seps, hi, low + 1);
    let median = ms[m - 1];
    let rk = mk.subrange(m, mk.len() as int);
    let rs = ms.subrange(m, ms.len() as int);
    assert(internal_ok(rk, rs, b, 0, Some(median), mhi, false)) by {
        assert forall|i: int, j: int| 0 <= i < j < rs.len() implies key_le(
            #[trigger] rs[i],
            #[trigger] rs[j],
        ) by {
            assert(key_le(ms[m + i], ms[m + j]));
        }
        assert forall|i: int| 0 <= i < rs.len() implies at_least(Some(median), #[trigger] rs[i])
            && upto(rs[i], mhi) by {
            assert(upto(ms[m + i], mhi));
            assert(key_le(ms[m - 1], ms[m + i]));
        }
    }
    assert forall|i: int| #![trigger rk[i]] 0 <= i < rk.len() implies subtree_ok(
        image2,
        b,
        0,
        rk[i] as int,
        gg,
        child_lo(rs, Some(median), i),
        child_hi(rs, mhi, i),
        false,
    ) && !in_subtree(image2, rk[i] as int, gg, r) by {
        lemma_share_kept(image, image2, b, off, h, lo, hi, root, low, m, m + i);
        lemma_joined_child(image, b, off, h, lo, hi, root, low, m + i);
        assert(rk[i] == mk[m + i]);
        assert(child_lo(rs, Some(median), i) == child_lo(ms, mlo, m + i)) by {
            if i > 0 {
                assert(rs[i - 1] == ms[m + i - 1]);
            }
        }
        assert(child_hi(rs, mhi, i) == child_hi(ms, mhi, m + i)) by {
            if i < rs.len() {
                assert(rs[i] == ms[m + i]);
            }
        }
        if in_subtree(image2, mk[m + i] as int, gg, r) {
            assert(in_subtree(image, mk[m + i] as int, gg, r));
        }
    }
    assert forall|i: int, j: int, p: int| 0 <= i < j < rk.len() implies !(#[trigger] in_subtree(
        image2,
        rk[i] as int,
        gg,
        p,
    ) && #[trigger] in_subtree(image2, rk[j] as int, gg, p)) by {
        lemma_share_kept(image, image2, b, off, h, lo, hi, root, low, m, m + i);
        lemma_share_kept(image, image2, b, off, h, lo, hi, root, low, m, m + j);
        lemma_joined_apart(image, b, off, h, lo, hi, root, low, m + i, m + j, p);
        assert(rk[i] == mk[m + i] && rk[j] == mk[m + j]);
        assert(in_subtree(image, mk[m + i] as int, gg, p) == in_subtree(
            image2,
            mk[m + i] as int,
            gg,
            p,
        ));
        assert(in_subtree(image, mk[m + j] as int, gg, p) == in_subtree(
            image2,
            mk[m + j] as int,
            gg,
            p,
        ));
    }
    assert(subtree_ok(image2, b, 0, r, (h - 1) as nat, Some(median), mhi, false)) by {
        reveal(subtree_ok);
    }
}

/// The pages of two nodes whose entries have been shared out: their own
/// two pages and pages that lay below one of the two; the two share none.
proof fn lemma_share_pages(
    image: Seq<u8>,
    image2: Seq<u8>,
    b: int,
    off: int,
    h: nat,
    lo: Option<Seq<char>>,
    hi: Option<Seq<char>>,
    root: bool,
    low: int,
    m: int,
)
    requires
        share_done(image, image2, b, off, h, lo, hi, root, low, m),
    ensures
        forall|p: int|
            #[trigger] in_subtree(image2, kids_at(image, off)[low] as int, (h - 1) as nat, p) ==> p
                != off && (in_subtree(image, kids_at(image, off)[low] as int, (h - 1) as nat, p)
                || in_subtree(image, kids_at(image, off)[low + 1] as int, (h - 1) as nat, p)),
        forall|p: int|
            #[trigger] in_subtree(image2, kids_at(image, off)[low + 1] as int, (h - 1) as nat, p)
                ==> p != off && (in_subtree(
                image,
                kids_at(image, off)[low] as int,
                (h - 1) as nat,
                p,
            ) || in_subtree(image, kids_at(image, off)[low + 1] as int, (h - 1) as nat, p)),
        forall|p: int|
            !(#[trigger] in_subtree(image2, kids_at(image, off)[low] as int, (h - 1) as nat, p)
                && in_subtree(image2, kids_at(image, off)[low + 1] as int, (h - 1) as nat, p)),
{
    lemma_share_sides(image, b, off, h, lo, hi, root, low);
    let kids = kids_at(image, off);
    let l = kids[low] as int;
    let r = kids[low + 1] as int;
    let g = (h - 1) as nat;
    assert(in_subtree(image, l, g, l) && in_subtree(image, r, g, r)) by {
        reveal(in_subtree);
    }
    if h > 1 {
        let gg = (h - 2) as nat;
        lemma_share_median(image, image2, b, off, h, lo, hi, root, low, m);
        let mk = joined_kids(image, off, low);
        let lk = mk.subrange(0, m);
        let rk = mk.subrange(m, mk.len() as int);
        assert forall|p: int| #[trigger] in_subtree(image2, l, g, p) implies p != off && (
        in_subtree(image, l, g, p) || in_subtree(image, r, g, p)) by {
            reveal(in_subtree);
            if p != l {
                let i = choose|i: int|
                    #![trigger lk[i]]
                    0 <= i < lk.len() && in_subtree(image2, lk[i] as int, gg, p);
                assert(lk[i] == mk[i]);
                lemma_share_kept(image, image2, b, off, h, lo, hi, root, low, m, i);
                lemma_joined_pages(image, b, off, h, lo, hi, root, low, i, p);
            }
        }
        assert forall|p: int| #[trigger] in_subtree(image2, r, g, p) implies p != off && (
        in_subtree(image, l, g, p) || in_subtree(image, r, g, p)) by {
            reveal(in_subtree);
            if p != r {
                let i = choose|i: int|
                    #![trigger rk[i]]
                    0 <= i < rk.len() && in_subtree(image2, rk[i] as int, gg, p);
                assert(rk[i] == mk[m + i]);
                lemma_share_kept(image, image2, b, off, h, lo, hi, root, low, m, m + i);
                lemma_joined_pages(image, b, off, h, lo, hi, root, low, m + i, p);
            }
        }
        assert forall|p: int|
            !(#[trigger] in_subtree(image2, l, g, p) && in_subtree(image2, r, g, p)) by {
            reveal(in_subtree);
            if in_subtree(image2, l, g, p) && in_subtree(image2, r, g, p) {
                if p == l {
                    let j = choose|j: int|
                        #![trigger rk[j]]
                        0 <= j < rk.len() && in_subtree(image2, rk[j] as int, gg, p);
                    assert(rk[j] == mk[m + j]);
                    lemma_share_kept(image, image2, b, off, h, lo, hi, root, low, m, m + j);
                    lemma_joined_child(image, b, off, h, lo, hi, root, low, m + j);
                } else if p == r {
                    let i = choose|i: int|
                        #![trigger lk[i]]
                        0 <= i < lk.len() && in_subtree(image2, lk[i] as int, gg, p);
                    assert(lk[i] == mk[i]);
                    lemma_share_kept(image, image2, b, off, h, lo, hi, root, low, m, i);
                    lemma_joined_child(image, b, off, h, lo, hi, root, low, i);
                } else {
                    let i = choose|i: int|
                        #![trigger lk[i]]
                        0 <= i < lk.len() && in_subtree(image2, lk[i] as int, gg, p);
                    let j = choose|j: int|
                        #![trigger rk[j]]
                        0 <= j < rk.len() && in_subtree(image2, rk[j] as int, gg, p);
                    assert(lk[i] == mk[i]);
                    assert(rk[j] == mk[m + j]);
                    lemma_share_kept(image, image2, b, off, h, lo, hi, root, low, m, i);
                    lemma_share_kept(image, image2, b, off, h, lo, hi, root, low, m, m + j);
                    lemma_joined_apart(image, b, off, h, lo, hi, root, low, i, m + j, p);
                }
            }
        }
    } else {
        reveal(in_subtree);
    }
}

/// A page below a child of two neighbouring internal nodes taken together
/// lies below one of the two.
proof fn lemma_joined_pages(
    image: Seq<u8>,
    b: int,
    off: int,
    h: nat,
    lo: Option<Seq<char>>,
    hi: Option<Seq<char>>,
    root: bool,
    low: int,
    i: int,
    p: int,
)
    requires
        subtree_ok(image, b, 0, off, h, lo, hi, root),
        h > 1,
        0 <= low,
        low + 1 < kids_at(image, off).len(),
        0 <= i < joined_kids(image, off, low).len(),
        in_subtree(image, joined_kids(image, off, low)[i] as int, (h - 2) as nat, p),
    ensures
        p != off,
        in_subtree(image, kids_at(image, off)[low] as int, (h - 1) as nat, p) || in_subtree(
            image,
            kids_at(image, off)[low + 1] as int,
            (h - 1) as nat,
            p,
        ),
{
    lemma_share_sides(image, b, off, h, lo, hi, root, low);
    lemma_joined_shape(image, b, off, h, lo, hi, root, low);
    lemma_joined_child(image, b, off, h, lo, hi, root, low, i);
    reveal(in_subtree);
    reveal(subtree_ok);
    let kids = kids_at(image, off);
    let l = kids[low] as int;
    let r = kids[low + 1] as int;
    let c1 = kids_at(image, l);
    let c2 = kids_at(image, r);
    let mk = joined_kids(image, off, low);
    let n = c1.len() as int;
    if i < n {
        assert(mk[i] == c1[i]);
        assert(in_subtree(image, c1[i] as int, (h - 2) as nat, p));
    } else {
        assert(mk[i] == c2[i - n]);
        assert(in_subtree(image, c2[i - n] as int, (h - 2) as nat, p));
    }
}

/// Two internal nodes whose entries have been shared out store together
/// what they stored.
proof fn lemma_share_internal_has(
    image: Seq<u8>,
    image2: Seq<u8>,
    b: int,
    off: int,
    h: nat,
    lo: Option<Seq<char>>,
    hi: Option<Seq<char>>,
    root: bool,
    low: int,
    m: int,
)
    requires
        share_done(image, image2, b, off, h, lo, hi, root, low, m),
        h > 1,
    ensures
        forall|k: Seq<char>, v: Seq<char>|
            #[trigger] subtree_has(image2, kids_at(image, off)[low] as int, (h - 1) as nat, k, v)
                || subtree_has(image2, kids_at(image, off)[low + 1] as int, (h - 1) as nat, k, v)
                <==> subtree_has(image, kids_at(image, off)[low] as int, (h - 1) as nat, k, v)
                || subtree_has(image, kids_at(image, off)[low + 1] as int, (h - 1) as nat, k, v),
{
    lemma_share_sides(image, b, off, h, lo, hi, root, low);
    lemma_share_median(image, image2, b, off, h, lo, hi, root, low, m);
    let kids = kids_at(image, off);
    let l = kids[low] as int;
    let r = kids[low + 1] as int;
    let g = (h - 1) as nat;
    let gg = (h - 2) as nat;
    let mk = joined_kids(image, off, low);
    let lk = mk.subrange(0, m);
    let rk = mk.subrange(m, mk.len() as int);
    assert forall|k: Seq<char>, v: Seq<char>| #[trigger]
        subtree_has(image2, l, g, k, v) || subtree_has(image2, r, g, k, v) <==> subtree_has(
            image,
            l,
            g,
            k,
            v,
        ) || subtree_has(image, r, g, k, v) by {
        if subtree_has(image2, l, g, k, v) {
            reveal(subtree_has);
            let i = choose|i: int|
                #![trigger lk[i]]
                0 <= i < lk.len() && subtree_has(image2, lk[i] as int, gg, k, v);
            assert(lk[i] == mk[i]);
            lemma_share_kept(image, image2, b, off, h, lo, hi, root, low, m, i);
            lemma_joined_child(image, b, off, h, lo, hi, root, low, i);
            assert(subtree_has(image, mk[i] as int, gg, k, v));
        }
        if subtree_has(image2, r, g, k, v) {
            reveal(subtree_has);
            let i = choose|i: int|
                #![trigger rk[i]]
                0 <= i < rk.len() && subtree_has(image2, rk[i] as int, gg, k, v);
            assert(rk[i] == mk[m + i]);
            lemma_share_kept(image, image2, b, off, h, lo, hi, root, low, m, m + i);
            lemma_joined_child(image, b, off, h, lo, hi, root, low, m + i);
            assert(subtree_has(image, mk[m + i] as int, gg, k, v));
        }
        if subtree_has(image, l, g, k, v) || subtree_has(image, r, g, k, v) {
            let i = lemma_joined_has(image, b, off, h, lo, hi, root, low, k, v);
            lemma_share_kept(image, image2, b, off, h, lo, hi, root, low, m, i);
            assert(subtree_has(image2, mk[i] as int, gg, k, v));
            reveal(subtree_has);
            if i < m {
                assert(lk[i] == mk[i]);
                assert(subtree_has(image2, lk[i] as int, gg, k, v));
                assert(subtree_has(image2, l, g, k, v));
            } else {
                assert(rk[i - m] == mk[i]);
                assert(subtree_has(image2, rk[i - m] as int, gg, k, v));
                assert(subtree_has(image2, r, g, k, v));
            }
        }
    }
}

/// The number of entries by which a node is divided: the pairs of a leaf,
/// the children of an internal node.
pub open spec fn entries_of(node: NodeView) -> int {
    match node.node_type {
        NodeTypeView::Leaf(pairs) => pairs.len() as int,
        NodeTypeView::Internal(children, _) => children.len() as int,
        NodeTypeView::Unexpected => 0,
    }
}

/// Two nodes whose entries have been shared out are sound subtrees, the
/// first with the key that goes up as its upper bound and the second with
/// that key as its lower bound; together they store what they stored, on
/// their own two pages and on pages that lay below one of them, and they
/// share no page. The first holds the first `m` entries and the second the
/// rest.
proof fn lemma_share_halves(
    image: Seq<u8>,
    image2: Seq<u8>,
    b: int,
    off: int,
    h: nat,
    lo: Option<Seq<char>>,
    hi: Option<Seq<char>>,
    root: bool,
    low: int,
    m: int,
)
    requires
        share_done(image, image2, b, off, h, lo, hi, root, low, m),
    ensures
        subtree_ok(
            image2,
            b,
            0,
            kids_at(image, off)[low] as int,
            (h - 1) as nat,
            child_lo(seps_at(image, off), lo, low),
            Some(seps_at(image2, off)[low]),
            false,
        ),
        subtree_ok(
            image2,
            b,
            0,
            kids_at(image, off)[low + 1] as int,
            (h - 1) as nat,
            Some(seps_at(image2, off)[low]),
            child_hi(seps_at(image, off), hi, low + 1),
            false,
        ),
        at_least(child_lo(seps_at(image, off), lo, low), seps_at(image2, off)[low]),
        upto(seps_at(image2, off)[low], child_hi(seps_at(image, off), hi, low + 1)),
        forall|k: Seq<char>, v: Seq<char>|
            #[trigger] subtree_has(image2, kids_at(image, off)[low] as int, (h - 1) as nat, k, v)
                || subtree_has(image2, kids_at(image, off)[low + 1] as int, (h - 1) as nat, k, v)
                <==> subtree_has(image, kids_at(image, off)[low] as int, (h - 1) as nat, k, v)
                || subtree_has(image, kids_at(image, off)[low + 1] as int, (h - 1) as nat, k, v),
        entries_of(node_at(image2, kids_at(image, off)[low] as int)->Some_0) == m,
        entries_of(node_at(image2, kids_at(image, off)[low] as int)->Some_0) + entries_of(
            node_at(image2, kids_at(image, off)[low + 1] as int)->Some_0,
        ) == entries_of(node_at(image, kids_at(image, off)[low] as int)->Some_0) + entries_of(
            node_at(image, kids_at(image, off)[low + 1] as int)->Some_0,
        ),
        node_at(image2, kids_at(image, off)[low] as int)->Some_0.node_type is Leaf <==> h == 1,
        node_at(image2, kids_at(image, off)[low + 1] as int)->Some_0.node_type is Leaf <==> h
            == 1,
        node_at(image2, kids_at(image, off)[low] as int)->Some_0.node_type is Internal <==> h
            > 1,
        node_at(image2, kids_at(image, off)[low + 1] as int)->Some_0.node_type is Internal <==> h
            > 1,
        h > 1 ==> kids_at(image2, kids_at(image, off)[low] as int).len() == seps_at(
            image2,
            kids_at(image, off)[low] as int,
        ).len() + 1 && kids_at(image2, kids_at(image, off)[low + 1] as int).len() == seps_at(
            image2,
            kids_at(image, off)[low + 1] as int,
        ).len() + 1,
{
    lemma_share_sides(image, b, off, h, lo, hi, root, low);
    if h == 1 {
        lemma_share_leaves(image, image2, b, off, h, lo, hi, root, low, m);
        reveal(subtree_ok);
    } else {
        lemma_joined_shape(image, b, off, h, lo, hi, root, low);
        lemma_share_median(image, image2, b, off, h, lo, hi, root, low, m);
        lemma_share_left(image, image2, b, off, h, lo, hi, root, low, m);
        lemma_share_right(image, image2, b, off, h, lo, hi, root, low, m);
        lemma_share_internal_has(image, image2, b, off, h, lo, hi, root, low, m);
    }
}

/// A node the entries of two of whose children have been shared out is the
/// root of a sound subtree as before, which stores what it stored, on pages
/// that it had.
pub proof fn lemma_share_parent(
    image: Seq<u8>,
    image2: Seq<u8>,
    b: int,
    off: int,
    h: nat,
    lo: Option<Seq<char>>,
    hi: Option<Seq<char>>,
    root: bool,
    low: int,
    m: int,
)
    requires
        share_done(image, image2, b, off, h, lo, hi, root, low, m),
    ensures
        subtree_ok(image2, b, 0, off, h, lo, hi, root),
        forall|p: int| #[trigger] in_subtree(image2, off, h, p) ==> in_subtree(image, off, h, p),
        forall|k: Seq<char>, v: Seq<char>|
            subtree_has(image, off, h, k, v) <==> #[trigger] subtree_has(image2, off, h, k, v),
        kids_at(image2, off) == kids_at(image, off),
        forall|p: int|
            #[trigger] in_subtree(image2, off, h, p) && p != off && p != kids_at(image, off)[low]
                && p != kids_at(image, off)[low + 1] ==> node_at(image2, p) == node_at(image, p),
        entries_of(node_at(image2, kids_at(image, off)[low] as int)->Some_0) == m,
        entries_of(node_at(image2, kids_at(image, off)[low] as int)->Some_0) + entries_of(
            node_at(image2, kids_at(image, off)[low + 1] as int)->Some_0,
        ) == entries_of(node_at(image, kids_at(image, off)[low] as int)->Some_0) + entries_of(
            node_at(image, kids_at(image, off)[low + 1] as int)->Some_0,
        ),
        keys_of(node_at(image2, kids_at(image, off)[low] as int)) == (if h == 1 {
            m
        } else {
            m - 1
        }),
        keys_of(node_at(image2, kids_at(image, off)[low + 1] as int)) == entries_of(
            node_at(image2, kids_at(image, off)[low + 1] as int)->Some_0,
        ) - (if h == 1 {
            0int
        } else {
            1int
        }),
{
    lemma_share_sides(image, b, off, h, lo, hi, root, low);
    lemma_share_halves(image, image2, b, off, h, lo, hi, root, low, m);
    lemma_share_pages(image, image2, b, off, h, lo, hi, root, low, m);
    let kids = kids_at(image, off);
    let seps = seps_at(image, off);
    let l = kids[low] as int;
    let r = kids[low + 1] as int;
    let g = (h - 1) as nat;
    let seps2 = seps_at(image2, off);
    let median = seps2[low];
    let mlo = child_lo(seps, lo, low);
    let mhi = child_hi(seps, hi, low + 1);
    assert(kids_at(image2, off) == kids);
    assert(seps2.len() == seps.len());
    assert(forall|i: int| 0 <= i < seps.len() && i != low ==> seps2[i] == seps[i]);
    // the other children are kept
    assert forall|i: int| 0 <= i < kids.len() && i != low && i != low + 1 implies #[trigger] child_kept(
        image,
        image2,
        b,
        0,
        off,
        h,
        lo,
        hi,
        i,
    ) by {
        let d = kids[i] as int;
        assert forall|p: int| #[trigger] in_subtree(image, d, g, p) implies node_at(image, p)
            == node_at(image2, p) by {
            reveal(subtree_ok);
            lemma_in_subtree_valid(
                image,
                b,
                0,
                d,
                g,
                child_lo(seps, lo, i),
                child_hi(seps, hi, i),
                false,
                p,
            );
            assert(!in_subtree(image, kids[i] as int, g, off));
            lemma_apart_from(image, b, off, h, lo, hi, root, i, low, p);
            lemma_apart_from(image, b, off, h, lo, hi, root, i, low + 1, p);
            assert(node_at(image2, p) == node_at(image, p));
        }
        lemma_child_kept(image, image2, b, 0, off, h, lo, hi, root, i);
    }
    assert(internal_ok(kids, seps2, b, 0, lo, hi, root)) by {
        reveal(subtree_ok);
        assert(at_least(lo, median)) by {
            if low > 0 {
                assert(at_least(lo, seps[low - 1]));
                if lo is Some {
                    lemma_key_le_transitive(lo->Some_0, seps[low - 1], median);
                }
            }
        }
        assert(upto(median, hi)) by {
            if low + 1 < seps.len() {
                assert(upto(seps[low + 1], hi));
                if hi is Some {
                    lemma_key_le_transitive(median, seps[low + 1], hi->Some_0);
                }
            }
        }
        assert forall|i: int| 0 <= i < seps2.len() implies at_least(lo, #[trigger] seps2[i])
            && upto(seps2[i], hi) by {
            if i != low {
                assert(seps2[i] == seps[i]);
            }
        }
        assert forall|i: int, j: int| 0 <= i < j < seps2.len() implies key_le(
            #[trigger] seps2[i],
            #[trigger] seps2[j],
        ) by {
            if i != low && j != low {
                assert(key_le(seps[i], seps[j]));
            } else if j == low {
                assert(seps2[i] == seps[i]);
                if i < low - 1 {
                    assert(key_le(seps[i], seps[low - 1]));
                }
                lemma_key_le_transitive(seps[i], seps[low - 1], median);
            } else {
                assert(seps2[j] == seps[j]);
                if low + 1 < j {
                    assert(key_le(seps[low + 1], seps[j]));
                }
                lemma_key_le_transitive(median, seps[low + 1], seps[j]);
            }
        }
    }
    assert forall|i: int| #![trigger kids[i]] 0 <= i < kids.len() implies subtree_ok(
        image2,
        b,
        0,
        kids[i] as int,
        g,
        child_lo(seps2, lo, i),
        child_hi(seps2, hi, i),
        false,
    ) && !in_subtree(image2, kids[i] as int, g, off) by {
        if i == low {
            assert(child_lo(seps2, lo, low) == mlo);
            assert(child_hi(seps2, hi, low) == Some(median));
        } else if i == low + 1 {
            assert(child_lo(seps2, lo, low + 1) == Some(median));
            assert(child_hi(seps2, hi, low + 1) == mhi);
        } else {
            assert(child_kept(image, image2, b, 0, off, h, lo, hi, i));
            assert(child_lo(seps2, lo, i) == child_lo(seps, lo, i));
            assert(child_hi(seps2, hi, i) == child_hi(seps, hi, i));
        }
    }
    assert forall|i: int, j: int, p: int| 0 <= i < j < kids.len() implies !(#[trigger] in_subtree(
        image2,
        kids[i] as int,
        g,
        p,
    ) && #[trigger] in_subtree(image2, kids[j] as int, g, p)) by {
        if in_subtree(image2, kids[i] as int, g, p) && in_subtree(image2, kids[j] as int, g, p) {
            lemma_share_trace(image, image2, b, off, h, lo, hi, root, low, m, i, p);
            lemma_share_trace(image, image2, b, off, h, lo, hi, root, low, m, j, p);
            if (i == low || i == low + 1) && (j == low || j == low + 1) {
            } else if i == low || i == low + 1 {
                assert(child_kept(image, image2, b, 0, off, h, lo, hi, j));
                lemma_apart_from(image, b, off, h, lo, hi, root, j, low, p);
                lemma_apart_from(image, b, off, h, lo, hi, root, j, low + 1, p);
                lemma_not_below(image, b, off, h, lo, hi, root, j, low, p);
                lemma_not_below(image, b, off, h, lo, hi, root, j, low + 1, p);
            } else if j == low || j == low + 1 {
                assert(child_kept(image, image2, b, 0, off, h, lo, hi, i));
                lemma_not_below(image, b, off, h, lo, hi, root, i, low, p);
                lemma_not_below(image, b, off, h, lo, hi, root, i, low + 1, p);
            } else {
                assert(child_kept(image, image2, b, 0, off, h, lo, hi, i));
                assert(child_kept(image, image2, b, 0, off, h, lo, hi, j));
                reveal(subtree_ok);
                assert(!(in_subtree(image, kids[i] as int, g, p) && in_subtree(
                    image,
                    kids[j] as int,
                    g,
                    p,
                )));
            }
        }
    }
    assert(subtree_ok(image2, b, 0, off, h, lo, hi, root)) by {
        reveal(subtree_ok);
    }
    assert forall|p: int| #[trigger] in_subtree(image2, off, h, p) implies in_subtree(
        image,
        off,
        h,
        p,
    ) && (p != off && p != l && p != r ==> node_at(image2, p) == node_at(image, p)) by {
        reveal(in_subtree);
        if p != off {
            let i = choose|i: int|
                #![trigger kids[i]]
                0 <= i < kids.len() && in_subtree(image2, kids[i] as int, g, p);
            lemma_share_trace(image, image2, b, off, h, lo, hi, root, low, m, i, p);
            lemma_in_subtree_valid(image2, b, 0, off, h, lo, hi, root, p);
        }
    }
    assert forall|k: Seq<char>, v: Seq<char>|
        subtree_has(image, off, h, k, v) <==> #[trigger] subtree_has(image2, off, h, k, v) by {
        reveal(subtree_has);
        if subtree_has(image, off, h, k, v) {
            let i = choose|i: int|
                #![trigger kids[i]]
                0 <= i < kids.len() && subtree_has(image, kids[i] as int, g, k, v);
            if i == low || i == low + 1 {
                let in_first = subtree_has(image2, kids_at(image, off)[low] as int, g, k, v);
                assert(subtree_has(image, l, g, k, v) || subtree_has(image, r, g, k, v));
                assert(subtree_has(image2, l, g, k, v) || subtree_has(image2, r, g, k, v));
                if subtree_has(image2, l, g, k, v) {
                    assert(subtree_has(image2, kids[low] as int, g, k, v));
                } else {
                    assert(subtree_has(image2, kids[low + 1] as int, g, k, v));
                }
            } else {
                assert(child_kept(image, image2, b, 0, off, h, lo, hi, i));
                assert(subtree_has(image2, kids[i] as int, g, k, v));
            }
        }
        if subtree_has(image2, off, h, k, v) {
            let i = choose|i: int|
                #![trigger kids[i]]
                0 <= i < kids.len() && subtree_has(image2, kids[i] as int, g, k, v);
            if i == low || i == low + 1 {
                let in_first = subtree_has(image2, kids_at(image, off)[low] as int, g, k, v);
                assert(subtree_has(image2, l, g, k, v) || subtree_has(image2, r, g, k, v));
                assert(subtree_has(image, l, g, k, v) || subtree_has(image, r, g, k, v));
                if subtree_has(image, l, g, k, v) {
                    assert(subtree_has(image, kids[low] as int, g, k, v));
                } else {
                    assert(subtree_has(image, kids[low + 1] as int, g, k, v));
                }
            } else {
                assert(child_kept(image, image2, b, 0, off, h, lo, hi, i));
                assert(subtree_has(image, kids[i] as int, g, k, v));
            }
        }
    }
}

/// A page below one child does not lie below another.
pub proof fn lemma_not_below(
    image: Seq<u8>,
    b: int,
    off: int,
    h: nat,
    lo: Option<Seq<char>>,
    hi: Option<Seq<char>>,
    root: bool,
    i: int,
    j: int,
    p: int,
)
    requires
        subtree_ok(image, b, 0, off, h, lo, hi, root),
        h > 0,
        0 <= i < kids_at(image, off).len(),
        0 <= j < kids_at(image, off).len(),
        i != j,
        in_subtree(image, kids_at(image, off)[i] as int, (h - 1) as nat, p),
    ensures
        !in_subtree(image, kids_at(image, off)[j] as int, (h - 1) as nat, p),
{
    reveal(subtree_ok);
    let kids = kids_at(image, off);
    let g = (h - 1) as nat;
    if i < j {
        assert(!(in_subtree(image, kids[i] as int, g, p) && in_subtree(
            image,
            kids[j] as int,
            g,
            p,
        )));
    } else {
        assert(!(in_subtree(image, kids[j] as int, g, p) && in_subtree(
            image,
            kids[i] as int,
            g,
            p,
        )));
    }
}

/// A page below one child is not the page of another child.
pub proof fn lemma_apart_from(
    image: Seq<u8>,
    b: int,
    off: int,
    h: nat,
    lo: Option<Seq<char>>,
    hi: Option<Seq<char>>,
    root: bool,
    i: int,
    j: int,
    p: int,
)
    requires
        subtree_ok(image, b, 0, off, h, lo, hi, root),
        h > 0,
        0 <= i < kids_at(image, off).len(),
        0 <= j < kids_at(image, off).len(),
        i != j,
        in_subtree(image, kids_at(image, off)[i] as int, (h - 1) as nat, p),
    ensures
        p != kids_at(image, off)[j],
{
    let c = kids_at(image, off)[j] as int;
    assert(in_subtree(image, c, (h - 1) as nat, c)) by {
        reveal(in_subtree);
    }
    if p == c {
        lemma_not_below(image, b, off, h, lo, hi, root, i, j, p);
    }
}

/// Where a page below child `i` of the node comes from once the entries of
/// two children have been shared out: from below one of the two where `i` is
/// one of them, and else from below child `i`, with what it held.
proof fn lemma_share_trace(
    image: Seq<u8>,
    image2: Seq<u8>,
    b: int,
    off: int,
    h: nat,
    lo: Option<Seq<char>>,
    hi: Option<Seq<char>>,
    root: bool,
    low: int,
    m: int,
    i: int,
    p: int,
)
    requires
        share_done(image, image2, b, off, h, lo, hi, root, low, m),
        0 <= i < kids_at(image, off).len(),
        in_subtree(image2, kids_at(image, off)[i] as int, (h - 1) as nat, p),
    ensures
        p != off,
        in_subtree(image, off, h, p),
        i == low || i == low + 1 ==> in_subtree(
            image,
            kids_at(image, off)[low] as int,
            (h - 1) as nat,
            p,
        ) || in_subtree(image, kids_at(image, off)[low + 1] as int, (h - 1) as nat, p),
        i != low && i != low + 1 ==> in_subtree(
            image,
            kids_at(image, off)[i] as int,
            (h - 1) as nat,
            p,
        ) && node_at(image2, p) == node_at(image, p) && p != kids_at(image, off)[low] && p
            != kids_at(image, off)[low + 1],
{
    lemma_share_sides(image, b, off, h, lo, hi, root, low);
    lemma_share_pages(image, image2, b, off, h, lo, hi, root, low, m);
    let kids = kids_at(image, off);
    let seps = seps_at(image, off);
    let g = (h - 1) as nat;
    if i == low || i == low + 1 {
        if in_subtree(image, kids[low] as int, g, p) {
            lemma_in_child_in_parent(image, off, h, low, p);
        } else {
            assert(in_subtree(image, kids[low + 1] as int, g, p));
            lemma_in_child_in_parent(image, off, h, low + 1, p);
        }
    } else {
        let d = kids[i] as int;
        assert forall|q: int| #[trigger] in_subtree(image, d, g, q) implies node_at(image, q)
            == node_at(image2, q) by {
            reveal(subtree_ok);
            lemma_in_subtree_valid(
                image,
                b,
                0,
                d,
                g,
                child_lo(seps, lo, i),
                child_hi(seps, hi, i),
                false,
                q,
            );
            assert(!in_subtree(image, kids[i] as int, g, off));
            lemma_apart_from(image, b, off, h, lo, hi, root, i, low, q);
            lemma_apart_from(image, b, off, h, lo, hi, root, i, low + 1, q);
            assert(node_at(image2, q) == node_at(image, q));
        }
        lemma_child_kept(image, image2, b, 0, off, h, lo, hi, root, i);
        assert(in_subtree(image, d, g, p));
        lemma_in_child_in_parent(image, off, h, i, p);
        lemma_apart_from(image, b, off, h, lo, hi, root, i, low, p);
        lemma_apart_from(image, b, off, h, lo, hi, root, i, low + 1, p);
    }
}

} // verus!
