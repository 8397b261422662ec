//! What a sound tree is: the invariant of the pages at and below a node,
//! what a subtree stores, and which pages belong to it.

use crate::encoding::{decode_page, round_trips};
use crate::key_order::{
    key_le, key_lt, lemma_key_le_lt_transitive, lemma_key_le_transitive, lemma_key_lt_irreflexive,
    lemma_key_not_lt,
};
use crate::node::NodeView;
use crate::node_type::NodeTypeView;
use crate::pager::page_at;
use crate::wal::last_record;
use vstd::prelude::*;

verus! {

/// The node that the page of `image` at `offset` holds, if the image holds
/// that page and the page holds a node.
#[verifier::opaque]
pub open spec fn node_at(image: Seq<u8>, offset: int) -> Option<NodeView> {
    if 0 <= offset && offset + 4096 <= image.len() {
        match decode_page(page_at(image, offset)) {
            Ok(node) => Some(node),
            Err(_) => None,
        }
    } else {
        None
    }
}

/// `k` lies strictly above the lower bound `lo`; no bound, no limit.
pub open spec fn above(lo: Option<Seq<char>>, k: Seq<char>) -> bool {
    match lo {
        Some(bound) => key_lt(bound, k),
        None => true,
    }
}

/// `k` lies at or above the lower bound `lo`.
pub open spec fn at_least(lo: Option<Seq<char>>, k: Seq<char>) -> bool {
    match lo {
        Some(bound) => key_le(bound, k),
        None => true,
    }
}

/// `k` lies at or below the upper bound `hi`.
pub open spec fn upto(k: Seq<char>, hi: Option<Seq<char>>) -> bool {
    match hi {
        Some(bound) => key_le(k, bound),
        None => true,
    }
}

/// The lower bound of child `i` of a node with the keys `seps` and the
/// lower bound `lo`: the key before the child, or `lo` for the first child.
pub open spec fn child_lo(seps: Seq<Seq<char>>, lo: Option<Seq<char>>, i: int) -> Option<
    Seq<char>,
> {
    if i <= 0 {
        lo
    } else {
        Some(seps[i - 1])
    }
}

/// The upper bound of child `i`: the key behind the child, or `hi` for the
/// last child.
pub open spec fn child_hi(seps: Seq<Seq<char>>, hi: Option<Seq<char>>, i: int) -> Option<
    Seq<char>,
> {
    if i >= seps.len() {
        hi
    } else {
        Some(seps[i])
    }
}

/// The child into which the search for `k` descends: the first child whose
/// key behind it does not come before `k`, or the last child.
pub open spec fn child_slot(seps: Seq<Seq<char>>, k: Seq<char>) -> int
    decreases seps.len(),
{
    if seps.len() == 0 {
        0
    } else if key_le(k, seps[0]) {
        0
    } else {
        1 + child_slot(seps.drop_first(), k)
    }
}

/// The keys of `pairs` ascend strictly.
pub open spec fn pairs_ascend(pairs: Seq<(Seq<char>, Seq<char>)>) -> bool {
    forall|i: int, j: int|
        0 <= i < j < pairs.len() ==> key_lt((#[trigger] pairs[i]).0, (#[trigger] pairs[j]).0)
}

/// The keys `seps` do not descend.
pub open spec fn seps_ascend(seps: Seq<Seq<char>>) -> bool {
    forall|i: int, j: int| 0 <= i < j < seps.len() ==> key_le(#[trigger] seps[i], #[trigger] seps[j])
}

/// What holds of a leaf of a tree with the branching parameter `b`: at most
/// `2b - 1` pairs, and at least `min` unless it is the root; keys that ascend
/// strictly and lie above `lo` and not above `hi`.
pub open spec fn leaf_ok(
    pairs: Seq<(Seq<char>, Seq<char>)>,
    b: int,
    min: int,
    lo: Option<Seq<char>>,
    hi: Option<Seq<char>>,
    root: bool,
) -> bool {
    &&& pairs.len() <= 2 * b - 1
    &&& !root ==> pairs.len() >= min
    &&& pairs_ascend(pairs)
    &&& forall|i: int|
        0 <= i < pairs.len() ==> above(lo, (#[trigger] pairs[i]).0) && upto(pairs[i].0, hi)
}

/// What holds of an internal node of a tree with the branching parameter
/// `b`: one child more than keys; at most `2b` children; at least `min` keys
/// unless it is the root; keys that do not descend and lie between `lo` and
/// `hi`.
pub open spec fn internal_ok(
    children: Seq<usize>,
    seps: Seq<Seq<char>>,
    b: int,
    min: int,
    lo: Option<Seq<char>>,
    hi: Option<Seq<char>>,
    root: bool,
) -> bool {
    &&& children.len() == seps.len() + 1
    &&& children.len() <= 2 * b
    &&& !root ==> seps.len() >= min
    &&& seps_ascend(seps)
    &&& forall|i: int|
        0 <= i < seps.len() ==> at_least(lo, #[trigger] seps[i]) && upto(seps[i], hi)
}

/// Whether the page at `p` belongs to the subtree of height `h` whose root
/// is the page at `off`.
#[verifier::opaque]
pub open spec fn in_subtree(image: Seq<u8>, off: int, h: nat, p: int) -> bool
    decreases h,
{
    p == off || (h > 0 && match node_at(image, off) {
        Some(node) => match node.node_type {
            NodeTypeView::Internal(children, _) => exists|i: int|
                #![trigger children[i]]
                0 <= i < children.len() && in_subtree(image, children[i] as int, (h - 1) as nat, p),
            _ => false,
        },
        None => false,
    })
}

/// Whether the subtree of height `h` at `off` stores the value `v` under the
/// key `k` in one of its leaves.
#[verifier::opaque]
pub open spec fn subtree_has(image: Seq<u8>, off: int, h: nat, k: Seq<char>, v: Seq<char>) -> bool
    decreases h,
{
    match node_at(image, off) {
        Some(node) => match node.node_type {
            NodeTypeView::Leaf(pairs) => exists|j: int|
                0 <= j < pairs.len() && #[trigger] pairs[j] == (k, v),
            NodeTypeView::Internal(children, _) => h > 0 && exists|i: int|
                #![trigger children[i]]
                0 <= i < children.len() && subtree_has(
                    image,
                    children[i] as int,
                    (h - 1) as nat,
                    k,
                    v,
                ),
            NodeTypeView::Unexpected => false,
        },
        None => false,
    }
}

/// The pages at and below `off` form a sound subtree of height `h`, all of
/// whose keys lie above `lo` and not above `hi`.
///
/// Every page starts at a multiple of the page size and holds a node. A node
/// says that it is the root exactly where it is. All leaves lie `h` levels
/// below `off`. Every leaf satisfies `leaf_ok` and every internal node
/// `internal_ok`, each child within the bounds that the keys of its parent
/// set. No page belongs to the subtrees of two children, and no node to a
/// subtree of its own children.
#[verifier::opaque]
pub open spec fn subtree_ok(
    image: Seq<u8>,
    b: int,
    min: int,
    off: int,
    h: nat,
    lo: Option<Seq<char>>,
    hi: Option<Seq<char>>,
    root: bool,
) -> bool
    decreases h,
{
    &&& off % 4096 == 0
    &&& match node_at(image, off) {
        None => false,
        Some(node) => {
            &&& node.is_root == root
            &&& match node.node_type {
                NodeTypeView::Leaf(pairs) => h == 0 && leaf_ok(pairs, b, min, lo, hi, root),
                NodeTypeView::Internal(children, seps) => {
                    &&& h > 0
                    &&& internal_ok(children, seps, b, min, lo, hi, root)
                    &&& forall|i: int|
                        #![trigger children[i]]
                        0 <= i < children.len() ==> subtree_ok(
                            image,
                            b,
                            min,
                            children[i] as int,
                            (h - 1) as nat,
                            child_lo(seps, lo, i),
                            child_hi(seps, hi, i),
                            false,
                        )
                    &&& forall|i: int, j: int, p: int|
                        0 <= i < j < children.len() ==> !(#[trigger] in_subtree(
                            image,
                            children[i] as int,
                            (h - 1) as nat,
                            p,
                        ) && #[trigger] in_subtree(image, children[j] as int, (h - 1) as nat, p))
                    &&& forall|i: int|
                        #![trigger children[i]]
                        0 <= i < children.len() ==> !in_subtree(
                            image,
                            children[i] as int,
                            (h - 1) as nat,
                            off,
                        )
                },
                NodeTypeView::Unexpected => false,
            }
        },
    }
}

/// The largest branching parameter: with it a full leaf, of `2b - 1` pairs,
/// still fits its page.
pub const MAX_BRANCHING_FACTOR: usize = 102;

/// A node that may be the root of a tree: a leaf, or an internal node with
/// two children at least.
pub open spec fn branches(node: Option<NodeView>) -> bool {
    match node {
        Some(node) => match node.node_type {
            NodeTypeView::Internal(children, _) => children.len() >= 2,
            _ => true,
        },
        None => true,
    }
}

/// The image and the root log hold a sound tree of height `h` with the
/// branching parameter `b`, in which every node but the root has at least
/// `min` keys.
///
/// The image is made of whole pages. The root is where the last record of
/// the log says; it is marked as root, and is a leaf or has two children at
/// least; the pages at and below it form a sound subtree without bounds on
/// its keys. The image has more pages than the tree has levels.
pub open spec fn tree_ok(image: Seq<u8>, log: Seq<u8>, b: int, min: int, h: nat) -> bool {
    &&& 2 <= b <= MAX_BRANCHING_FACTOR
    &&& 0 <= min <= b - 1
    &&& image.len() % 4096 == 0
    &&& image.len() <= usize::MAX
    &&& (h + 1) * 4096 <= image.len()
    &&& log.len() >= 8
    &&& subtree_ok(image, b, min, last_record(log) as int, h, None, None, true)
    &&& branches(node_at(image, last_record(log) as int))
}

/// What the tree stores: under every key that one of its leaves holds, the
/// value that stands beside it.
pub open spec fn tree_map(image: Seq<u8>, root: int, h: nat) -> Map<Seq<char>, Seq<char>> {
    Map::new(
        |k: Seq<char>| exists|v: Seq<char>| subtree_has(image, root, h, k, v),
        |k: Seq<char>| choose|v: Seq<char>| subtree_has(image, root, h, k, v),
    )
}

/// The map of a sound tree holds a pair exactly where a leaf holds it.
pub proof fn lemma_tree_map(
    image: Seq<u8>,
    b: int,
    min: int,
    root: int,
    h: nat,
    k: Seq<char>,
    v: Seq<char>,
)
    requires
        subtree_ok(image, b, min, root, h, None, None, true),
    ensures
        subtree_has(image, root, h, k, v) <==> tree_map(image, root, h).contains_key(k)
            && tree_map(image, root, h)[k] == v,
{
    if tree_map(image, root, h).contains_key(k) {
        let w = choose|w: Seq<char>| subtree_has(image, root, h, k, w);
        if subtree_has(image, root, h, k, v) {
            lemma_has_unique(image, b, min, root, h, None, None, true, k, v, w);
        }
    }
}

/// Where a sound tree stores the pair `(k, v)` besides what another sound
/// tree stores, its map is the map of the other with `v` put under `k`.
pub proof fn lemma_tree_map_inserted(
    image: Seq<u8>,
    root: int,
    h: nat,
    image2: Seq<u8>,
    root2: int,
    h2: nat,
    b: int,
    min: int,
    k: Seq<char>,
    v: Seq<char>,
)
    requires
        subtree_ok(image, b, min, root, h, None, None, true),
        subtree_ok(image2, b, min, root2, h2, None, None, true),
        forall|k2: Seq<char>, v2: Seq<char>|
            #[trigger] subtree_has(image2, root2, h2, k2, v2) <==> subtree_has(
                image,
                root,
                h,
                k2,
                v2,
            ) || (k2 == k && v2 == v),
    ensures
        tree_map(image2, root2, h2) == tree_map(image, root, h).insert(k, v),
{
    let m1 = tree_map(image, root, h);
    let m2 = tree_map(image2, root2, h2);
    assert forall|k2: Seq<char>| m2.contains_key(k2) <==> m1.insert(k, v).contains_key(k2) by {
        if m2.contains_key(k2) {
            let v2 = choose|v2: Seq<char>| subtree_has(image2, root2, h2, k2, v2);
            assert(subtree_has(image, root, h, k2, v2) || k2 == k);
        }
        if m1.contains_key(k2) {
            let v2 = choose|v2: Seq<char>| subtree_has(image, root, h, k2, v2);
            assert(subtree_has(image2, root2, h2, k2, v2));
        }
        if k2 == k {
            assert(subtree_has(image2, root2, h2, k, v));
        }
    }
    assert forall|k2: Seq<char>| m2.contains_key(k2) implies m2[k2] == m1.insert(k, v)[k2] by {
        lemma_tree_map(image2, b, min, root2, h2, k2, m2[k2]);
        if k2 == k {
            assert(subtree_has(image2, root2, h2, k, v));
            lemma_has_unique(image2, b, min, root2, h2, None, None, true, k, v, m2[k2]);
        } else {
            assert(subtree_has(image, root, h, k2, m2[k2]));
            lemma_tree_map(image, b, min, root, h, k2, m2[k2]);
        }
    }
    assert(m2 =~= m1.insert(k, v));
}

/// A sound subtree has one height only, whatever bounds it is held to.
pub proof fn lemma_height_unique(
    image: Seq<u8>,
    b: int,
    off: int,
    min1: int,
    h1: nat,
    lo1: Option<Seq<char>>,
    hi1: Option<Seq<char>>,
    root1: bool,
    min2: int,
    h2: nat,
    lo2: Option<Seq<char>>,
    hi2: Option<Seq<char>>,
    root2: bool,
)
    requires
        subtree_ok(image, b, min1, off, h1, lo1, hi1, root1),
        subtree_ok(image, b, min2, off, h2, lo2, hi2, root2),
    ensures
        h1 == h2,
    decreases h1,
{
    reveal(subtree_ok);
    let node = node_at(image, off)->Some_0;
    match node.node_type {
        NodeTypeView::Internal(children, seps) => {
            let first = children[0];
            lemma_height_unique(
                image,
                b,
                children[0] as int,
                min1,
                (h1 - 1) as nat,
                child_lo(seps, lo1, 0),
                child_hi(seps, hi1, 0),
                false,
                min2,
                (h2 - 1) as nat,
                child_lo(seps, lo2, 0),
                child_hi(seps, hi2, 0),
                false,
            );
        },
        _ => {},
    }
}

/// A page that holds a node lies within the image.
pub proof fn lemma_node_at_within(image: Seq<u8>, offset: int)
    requires
        node_at(image, offset) is Some,
    ensures
        0 <= offset,
        offset + 4096 <= image.len(),
{
    reveal(node_at);
}

/// The node at an offset round-trips.
pub proof fn lemma_node_at_round_trips(image: Seq<u8>, offset: int)
    requires
        node_at(image, offset) is Some,
    ensures
        round_trips(node_at(image, offset)->Some_0),
{
    reveal(node_at);
    crate::encoding::lemma_decoded_round_trips(page_at(image, offset));
}

/// Where `child_slot` points: behind all keys that come before `k`, at the
/// first key that does not.
pub proof fn lemma_child_slot(seps: Seq<Seq<char>>, k: Seq<char>)
    ensures
        0 <= child_slot(seps, k) <= seps.len(),
        forall|i: int| 0 <= i < child_slot(seps, k) ==> key_lt(#[trigger] seps[i], k),
        child_slot(seps, k) < seps.len() ==> key_le(k, seps[child_slot(seps, k)]),
    decreases seps.len(),
{
    if seps.len() > 0 {
        lemma_key_not_lt(seps[0], k);
        if !key_le(k, seps[0]) {
            let rest = seps.drop_first();
            lemma_child_slot(rest, k);
            assert forall|i: int| 0 <= i < child_slot(seps, k) implies key_lt(
                #[trigger] seps[i],
                k,
            ) by {
                if i > 0 {
                    assert(rest[i - 1] == seps[i]);
                }
            }
            if child_slot(seps, k) < seps.len() {
                assert(rest[child_slot(rest, k)] == seps[child_slot(seps, k)]);
            }
        }
    }
}

/// A slot that lies behind all keys before `k` and at a key not before `k`
/// is the slot of `k`.
pub proof fn lemma_child_slot_is(seps: Seq<Seq<char>>, k: Seq<char>, s: int)
    requires
        0 <= s <= seps.len(),
        forall|i: int| 0 <= i < s ==> key_lt(#[trigger] seps[i], k),
        s < seps.len() ==> key_le(k, seps[s]),
    ensures
        child_slot(seps, k) == s,
{
    lemma_child_slot(seps, k);
    let t = child_slot(seps, k);
    if t < s {
        lemma_key_not_lt(seps[t], k);
    } else if s < t {
        lemma_key_not_lt(seps[s], k);
    }
}

/// Every page of a sound subtree lies within the image, starts at a multiple
/// of the page size and holds a node.
pub proof fn lemma_in_subtree_valid(
    image: Seq<u8>,
    b: int,
    min: int,
    off: int,
    h: nat,
    lo: Option<Seq<char>>,
    hi: Option<Seq<char>>,
    root: bool,
    p: int,
)
    requires
        subtree_ok(image, b, min, off, h, lo, hi, root),
        in_subtree(image, off, h, p),
    ensures
        p % 4096 == 0,
        0 <= p,
        p + 4096 <= image.len(),
        node_at(image, p) is Some,
    decreases h,
{
    reveal(node_at);
    reveal(subtree_ok);
    reveal(in_subtree);
    reveal(subtree_has);
    if p != off {
        let node = node_at(image, off)->Some_0;
        let children = node.node_type->Internal_0;
        let seps = node.node_type->Internal_1;
        let i = choose|i: int|
            #![trigger children[i]]
            0 <= i < children.len() && in_subtree(image, children[i] as int, (h - 1) as nat, p);
        lemma_in_subtree_valid(
            image,
            b,
            min,
            children[i] as int,
            (h - 1) as nat,
            child_lo(seps, lo, i),
            child_hi(seps, hi, i),
            false,
            p,
        );
    }
}

/// Two images agree on the pages of the subtree at `off`.
pub open spec fn same_subtree_pages(image1: Seq<u8>, image2: Seq<u8>, off: int, h: nat) -> bool {
    forall|p: int| #[trigger] in_subtree(image1, off, h, p) ==> node_at(image1, p) == node_at(image2, p)
}

/// Where two images agree on the pages of a subtree, they agree on the
/// pages of the subtree of each child.
pub proof fn lemma_same_pages_child(image1: Seq<u8>, image2: Seq<u8>, off: int, h: nat, i: int)
    requires
        same_subtree_pages(image1, image2, off, h),
        h > 0,
        node_at(image1, off) is Some,
        node_at(image1, off)->Some_0.node_type is Internal,
        0 <= i < node_at(image1, off)->Some_0.node_type->Internal_0.len(),
    ensures
        same_subtree_pages(
            image1,
            image2,
            node_at(image1, off)->Some_0.node_type->Internal_0[i] as int,
            (h - 1) as nat,
        ),
{
    reveal(in_subtree);
    let children = node_at(image1, off)->Some_0.node_type->Internal_0;
    assert forall|p: int| #[trigger]
        in_subtree(image1, children[i] as int, (h - 1) as nat, p) implies node_at(image1, p)
        == node_at(image2, p) by {
        assert(in_subtree(image1, off, h, p));
    }
}

/// Where two images agree on the pages of a subtree, the same pages belong
/// to it in both.
pub proof fn lemma_frame_pages(image1: Seq<u8>, image2: Seq<u8>, off: int, h: nat)
    requires
        same_subtree_pages(image1, image2, off, h),
    ensures
        forall|p: int| in_subtree(image1, off, h, p) == #[trigger] in_subtree(image2, off, h, p),
    decreases h,
{
    reveal(in_subtree);
    assert(in_subtree(image1, off, h, off));
    if h > 0 {
        match node_at(image1, off) {
            Some(node) => match node.node_type {
                NodeTypeView::Internal(children, _) => {
                    assert forall|i: int, p: int| 0 <= i < children.len() implies in_subtree(
                        image1,
                        children[i] as int,
                        (h - 1) as nat,
                        p,
                    ) == #[trigger] in_subtree(image2, children[i] as int, (h - 1) as nat, p) by {
                        lemma_same_pages_child(image1, image2, off, h, i);
                        lemma_frame_pages(image1, image2, children[i] as int, (h - 1) as nat);
                    }
                    assert forall|p: int| in_subtree(image1, off, h, p) == #[trigger] in_subtree(
                        image2,
                        off,
                        h,
                        p,
                    ) by {
                        if in_subtree(image1, off, h, p) && p != off {
                            let i = choose|i: int|
                                #![trigger children[i]]
                                0 <= i < children.len() && in_subtree(
                                    image1,
                                    children[i] as int,
                                    (h - 1) as nat,
                                    p,
                                );
                            assert(in_subtree(image2, children[i] as int, (h - 1) as nat, p));
                        }
                        if in_subtree(image2, off, h, p) && p != off {
                            let i = choose|i: int|
                                #![trigger children[i]]
                                0 <= i < children.len() && in_subtree(
                                    image2,
                                    children[i] as int,
                                    (h - 1) as nat,
                                    p,
                                );
                            assert(in_subtree(image1, children[i] as int, (h - 1) as nat, p));
                        }
                    }
                },
                _ => {},
            },
            None => {},
        }
    }
}

/// Where two images agree on the pages of a subtree, it stores the same in
/// both.
pub proof fn lemma_frame_has(image1: Seq<u8>, image2: Seq<u8>, off: int, h: nat)
    requires
        same_subtree_pages(image1, image2, off, h),
    ensures
        forall|k: Seq<char>, v: Seq<char>|
            subtree_has(image1, off, h, k, v) == #[trigger] subtree_has(image2, off, h, k, v),
    decreases h,
{
    reveal(in_subtree);
    reveal(subtree_has);
    assert(in_subtree(image1, off, h, off));
    match node_at(image1, off) {
        Some(node) => match node.node_type {
            NodeTypeView::Internal(children, _) => {
                if h > 0 {
                    assert forall|i: int, k: Seq<char>, v: Seq<char>|
                        0 <= i < children.len() implies subtree_has(
                        image1,
                        children[i] as int,
                        (h - 1) as nat,
                        k,
                        v,
                    ) == #[trigger] subtree_has(image2, children[i] as int, (h - 1) as nat, k, v) by {
                        lemma_same_pages_child(image1, image2, off, h, i);
                        lemma_frame_has(image1, image2, children[i] as int, (h - 1) as nat);
                    }
                    assert forall|k: Seq<char>, v: Seq<char>|
                        subtree_has(image1, off, h, k, v) == #[trigger] subtree_has(
                            image2,
                            off,
                            h,
                            k,
                            v,
                        ) by {
                        if subtree_has(image1, off, h, k, v) {
                            let i = choose|i: int|
                                #![trigger children[i]]
                                0 <= i < children.len() && subtree_has(
                                    image1,
                                    children[i] as int,
                                    (h - 1) as nat,
                                    k,
                                    v,
                                );
                            assert(subtree_has(image2, children[i] as int, (h - 1) as nat, k, v));
                        }
                        if subtree_has(image2, off, h, k, v) {
                            let i = choose|i: int|
                                #![trigger children[i]]
                                0 <= i < children.len() && subtree_has(
                                    image2,
                                    children[i] as int,
                                    (h - 1) as nat,
                                    k,
                                    v,
                                );
                            assert(subtree_has(image1, children[i] as int, (h - 1) as nat, k, v));
                        }
                    }
                }
            },
            _ => {},
        },
        None => {},
    }
}

/// Where two images agree on the pages of a sound subtree, it is sound in
/// both.
pub proof fn lemma_frame_ok(
    image1: Seq<u8>,
    image2: Seq<u8>,
    b: int,
    min: int,
    off: int,
    h: nat,
    lo: Option<Seq<char>>,
    hi: Option<Seq<char>>,
    root: bool,
)
    requires
        same_subtree_pages(image1, image2, off, h),
        subtree_ok(image1, b, min, off, h, lo, hi, root),
    ensures
        subtree_ok(image2, b, min, off, h, lo, hi, root),
    decreases h,
{
    reveal(subtree_ok);
    reveal(in_subtree);
    assert(in_subtree(image1, off, h, off));
    let node = node_at(image1, off)->Some_0;
    match node.node_type {
        NodeTypeView::Internal(children, seps) => {
            assert forall|i: int| #![trigger children[i]] 0 <= i < children.len() implies {
                &&& subtree_ok(
                    image2,
                    b,
                    min,
                    children[i] as int,
                    (h - 1) as nat,
                    child_lo(seps, lo, i),
                    child_hi(seps, hi, i),
                    false,
                )
                &&& forall|p: int|
                    in_subtree(image1, children[i] as int, (h - 1) as nat, p)
                        == #[trigger] in_subtree(image2, children[i] as int, (h - 1) as nat, p)
            } by {
                lemma_same_pages_child(image1, image2, off, h, i);
                lemma_frame_ok(
                    image1,
                    image2,
                    b,
                    min,
                    children[i] as int,
                    (h - 1) as nat,
                    child_lo(seps, lo, i),
                    child_hi(seps, hi, i),
                    false,
                );
                lemma_frame_pages(image1, image2, children[i] as int, (h - 1) as nat);
            }
            assert forall|i: int, j: int, p: int| 0 <= i < j < children.len() implies !(
            #[trigger] in_subtree(image2, children[i] as int, (h - 1) as nat, p)
                && #[trigger] in_subtree(image2, children[j] as int, (h - 1) as nat, p)) by {
                let ci = children[i];
                let cj = children[j];
                assert(in_subtree(image1, ci as int, (h - 1) as nat, p) == in_subtree(
                    image2,
                    ci as int,
                    (h - 1) as nat,
                    p,
                ));
                assert(in_subtree(image1, cj as int, (h - 1) as nat, p) == in_subtree(
                    image2,
                    cj as int,
                    (h - 1) as nat,
                    p,
                ));
            }
            assert forall|i: int| #![trigger children[i]] 0 <= i < children.len() implies !in_subtree(
                image2,
                children[i] as int,
                (h - 1) as nat,
                off,
            ) by {
                let ci = children[i];
                assert(in_subtree(image1, ci as int, (h - 1) as nat, off) == in_subtree(
                    image2,
                    ci as int,
                    (h - 1) as nat,
                    off,
                ));
            }
        },
        _ => {},
    }
}

/// Every key that a sound subtree stores lies within the bounds of the
/// subtree.
pub proof fn lemma_has_bounds(
    image: Seq<u8>,
    b: int,
    min: int,
    off: int,
    h: nat,
    lo: Option<Seq<char>>,
    hi: Option<Seq<char>>,
    root: bool,
    k: Seq<char>,
    v: Seq<char>,
)
    requires
        subtree_ok(image, b, min, off, h, lo, hi, root),
        subtree_has(image, off, h, k, v),
    ensures
        above(lo, k),
        upto(k, hi),
    decreases h,
{
    reveal(subtree_ok);
    reveal(subtree_has);
    let node = node_at(image, off)->Some_0;
    match node.node_type {
        NodeTypeView::Leaf(pairs) => {
            let j = choose|j: int| 0 <= j < pairs.len() && #[trigger] pairs[j] == (k, v);
            assert(above(lo, pairs[j].0));
        },
        NodeTypeView::Internal(children, seps) => {
            let i = choose|i: int|
                #![trigger children[i]]
                0 <= i < children.len() && subtree_has(
                    image,
                    children[i] as int,
                    (h - 1) as nat,
                    k,
                    v,
                );
            lemma_has_bounds(
                image,
                b,
                min,
                children[i] as int,
                (h - 1) as nat,
                child_lo(seps, lo, i),
                child_hi(seps, hi, i),
                false,
                k,
                v,
            );
            if i > 0 {
                assert(at_least(lo, seps[i - 1]));
                if lo is Some {
                    lemma_key_le_lt_transitive(lo->Some_0, seps[i - 1], k);
                }
            }
            if i < seps.len() {
                assert(upto(seps[i], hi));
                if hi is Some {
                    lemma_key_le_transitive(k, seps[i], hi->Some_0);
                }
            }
        },
        NodeTypeView::Unexpected => {},
    }
}

/// A sound internal node stores a key exactly where the child that the
/// search for the key descends into stores it.
pub proof fn lemma_has_in_slot(
    image: Seq<u8>,
    b: int,
    min: int,
    off: int,
    h: nat,
    lo: Option<Seq<char>>,
    hi: Option<Seq<char>>,
    root: bool,
    k: Seq<char>,
    v: Seq<char>,
)
    requires
        subtree_ok(image, b, min, off, h, lo, hi, root),
        h > 0,
    ensures
        ({
            let node = node_at(image, off)->Some_0;
            let children = node.node_type->Internal_0;
            let seps = node.node_type->Internal_1;
            &&& 0 <= child_slot(seps, k) < children.len()
            &&& subtree_has(image, off, h, k, v) == subtree_has(
                image,
                children[child_slot(seps, k)] as int,
                (h - 1) as nat,
                k,
                v,
            )
        }),
{
    reveal(subtree_ok);
    reveal(subtree_has);
    let node = node_at(image, off)->Some_0;
    let children = node.node_type->Internal_0;
    let seps = node.node_type->Internal_1;
    let s = child_slot(seps, k);
    lemma_child_slot(seps, k);
    let cs = children[s];
    if subtree_has(image, off, h, k, v) {
        let i = choose|i: int|
            #![trigger children[i]]
            0 <= i < children.len() && subtree_has(image, children[i] as int, (h - 1) as nat, k, v);
        lemma_has_bounds(
            image,
            b,
            min,
            children[i] as int,
            (h - 1) as nat,
            child_lo(seps, lo, i),
            child_hi(seps, hi, i),
            false,
            k,
            v,
        );
        if i < s {
            assert(key_lt(seps[i], k));
            lemma_key_not_lt(seps[i], k);
        } else if s < i {
            assert(key_le(k, seps[s]));
            assert(key_lt(seps[i - 1], k));
            if s < i - 1 {
                assert(key_le(seps[s], seps[i - 1]));
            }
            lemma_key_le_transitive(k, seps[s], seps[i - 1]);
            lemma_key_not_lt(seps[i - 1], k);
        }
    }
}

/// A sound subtree stores at most one value under a key.
pub proof fn lemma_has_unique(
    image: Seq<u8>,
    b: int,
    min: int,
    off: int,
    h: nat,
    lo: Option<Seq<char>>,
    hi: Option<Seq<char>>,
    root: bool,
    k: Seq<char>,
    v1: Seq<char>,
    v2: Seq<char>,
)
    requires
        subtree_ok(image, b, min, off, h, lo, hi, root),
        subtree_has(image, off, h, k, v1),
        subtree_has(image, off, h, k, v2),
    ensures
        v1 == v2,
    decreases h,
{
    reveal(subtree_ok);
    reveal(subtree_has);
    let node = node_at(image, off)->Some_0;
    match node.node_type {
        NodeTypeView::Leaf(pairs) => {
            let j1 = choose|j: int| 0 <= j < pairs.len() && #[trigger] pairs[j] == (k, v1);
            let j2 = choose|j: int| 0 <= j < pairs.len() && #[trigger] pairs[j] == (k, v2);
            lemma_key_lt_irreflexive(k);
            if j1 < j2 {
                assert(key_lt(pairs[j1].0, pairs[j2].0));
            } else if j2 < j1 {
                assert(key_lt(pairs[j2].0, pairs[j1].0));
            }
        },
        NodeTypeView::Internal(children, seps) => {
            lemma_has_in_slot(image, b, min, off, h, lo, hi, root, k, v1);
            lemma_has_in_slot(image, b, min, off, h, lo, hi, root, k, v2);
            let s = child_slot(seps, k);
            let cs = children[s];
            lemma_has_unique(
                image,
                b,
                min,
                children[s] as int,
                (h - 1) as nat,
                child_lo(seps, lo, s),
                child_hi(seps, hi, s),
                false,
                k,
                v1,
                v2,
            );
        },
        NodeTypeView::Unexpected => {},
    }
}

} // verus!
