//! What holds of every sound tree, and of what insert, search and delete
//! do to the map that a tree stores.

use crate::encoding::{decode_page, encode_node, lemma_round_trip, round_trips};
use crate::error::Error;
use crate::key_order::{key_le, key_lt, lemma_key_le_lt_transitive, lemma_key_le_transitive};
use crate::node::NodeView;
use crate::node_type::NodeTypeView;
use crate::tree::{
    above, at_least, child_hi, child_lo, in_subtree, node_at, subtree_has, subtree_ok, tree_ok,
    upto,
};
use crate::tree_insert::{kids_at, seps_at};
use crate::wal::last_record;
use vstd::prelude::*;

verus! {

/// Every page of a sound tree holds a node, and every internal node among
/// them has one child more than it has keys.
pub proof fn law_one_child_more_than_keys(
    image: Seq<u8>,
    log: Seq<u8>,
    b: int,
    min: int,
    h: nat,
    p: int,
)
    requires
        tree_ok(image, log, b, min, h),
        in_subtree(image, last_record(log) as int, h, p),
    ensures
        node_at(image, p) is Some,
        node_at(image, p)->Some_0.node_type is Internal ==> kids_at(image, p).len() == seps_at(
            image,
            p,
        ).len() + 1,
{
    lemma_node_shape(image, b, min, last_record(log) as int, h, None, None, true, p);
}

/// Every node of a sound tree holds no more than `2b - 1` keys, and every
/// node but the root no fewer than `min`: a leaf between `min` and `2b - 1`
/// pairs, an internal node between `min + 1` and `2b` children. In a balanced
/// tree `min` is `b - 1`.
pub proof fn law_node_sizes(image: Seq<u8>, log: Seq<u8>, b: int, min: int, h: nat, p: int)
    requires
        tree_ok(image, log, b, min, h),
        in_subtree(image, last_record(log) as int, h, p),
    ensures
        match node_at(image, p)->Some_0.node_type {
            NodeTypeView::Leaf(pairs) => pairs.len() <= 2 * b - 1 && (p != last_record(log)
                ==> min <= pairs.len()),
            NodeTypeView::Internal(children, _) => children.len() <= 2 * b && (p != last_record(
                log,
            ) ==> min + 1 <= children.len()),
            NodeTypeView::Unexpected => false,
        },
{
    lemma_node_shape(image, b, min, last_record(log) as int, h, None, None, true, p);
}

/// Every child offset of every internal node of a sound tree resolves to a
/// page of the image that holds a node, and that node is no root and names a
/// parent.
pub proof fn law_children_resolve(
    image: Seq<u8>,
    log: Seq<u8>,
    b: int,
    min: int,
    h: nat,
    p: int,
    i: int,
)
    requires
        tree_ok(image, log, b, min, h),
        in_subtree(image, last_record(log) as int, h, p),
        node_at(image, p) is Some,
        node_at(image, p)->Some_0.node_type is Internal,
        0 <= i < kids_at(image, p).len(),
    ensures
        kids_at(image, p)[i] % 4096 == 0,
        kids_at(image, p)[i] + 4096 <= image.len(),
        node_at(image, kids_at(image, p)[i] as int) is Some,
        !node_at(image, kids_at(image, p)[i] as int)->Some_0.is_root,
        node_at(image, kids_at(image, p)[i] as int)->Some_0.parent_offset is Some,
{
    lemma_child_resolves(image, b, min, last_record(log) as int, h, None, None, true, p, i);
}

/// In a sound tree that is linked, every child of every internal node
/// names that node as its parent.
pub proof fn law_children_name_their_parent(
    image: Seq<u8>,
    log: Seq<u8>,
    b: int,
    min: int,
    h: nat,
    p: int,
    i: int,
)
    requires
        tree_ok(image, log, b, min, h),
        crate::links::tree_linked(image, last_record(log) as int, h),
        in_subtree(image, last_record(log) as int, h, p),
        node_at(image, p) is Some,
        node_at(image, p)->Some_0.node_type is Internal,
        0 <= i < kids_at(image, p).len(),
    ensures
        crate::links::parent_at(image, kids_at(image, p)[i] as int) == Some(p as usize),
{
    lemma_linked_names(image, b, min, last_record(log) as int, h, None, None, true, p, i);
}

/// In a sound subtree every node below whose root names its parent, every
/// child of a node names that node.
proof fn lemma_linked_names(
    image: Seq<u8>,
    b: int,
    min: int,
    off: int,
    h: nat,
    lo: Option<Seq<char>>,
    hi: Option<Seq<char>>,
    root: bool,
    p: int,
    i: int,
)
    requires
        subtree_ok(image, b, min, off, h, lo, hi, root),
        crate::links::subtree_linked(image, off, h),
        in_subtree(image, off, h, p),
        node_at(image, p) is Some,
        node_at(image, p)->Some_0.node_type is Internal,
        0 <= i < kids_at(image, p).len(),
    ensures
        crate::links::parent_at(image, kids_at(image, p)[i] as int) == Some(p as usize),
    decreases h,
{
    reveal(subtree_ok);
    reveal(in_subtree);
    reveal(crate::links::subtree_linked);
    if p != off {
        let children = kids_at(image, off);
        let seps = seps_at(image, off);
        let j = choose|j: int|
            #![trigger children[j]]
            0 <= j < children.len() && in_subtree(image, children[j] as int, (h - 1) as nat, p);
        assert(subtree_ok(
            image,
            b,
            min,
            children[j] as int,
            (h - 1) as nat,
            child_lo(seps, lo, j),
            child_hi(seps, hi, j),
            false,
        ));
        assert(crate::links::subtree_linked(image, children[j] as int, (h - 1) as nat));
        lemma_linked_names(
            image,
            b,
            min,
            children[j] as int,
            (h - 1) as nat,
            child_lo(seps, lo, j),
            child_hi(seps, hi, j),
            false,
            p,
            i,
        );
    } else {
        crate::tree::lemma_node_at_within(image, p);
        let children = kids_at(image, p);
        assert(crate::links::parent_at(image, children[i] as int) == Some(p as usize));
    }
}

proof fn lemma_child_resolves(
    image: Seq<u8>,
    b: int,
    min: int,
    off: int,
    h: nat,
    lo: Option<Seq<char>>,
    hi: Option<Seq<char>>,
    root: bool,
    p: int,
    i: int,
)
    requires
        subtree_ok(image, b, min, off, h, lo, hi, root),
        in_subtree(image, off, h, p),
        node_at(image, p) is Some,
        node_at(image, p)->Some_0.node_type is Internal,
        0 <= i < kids_at(image, p).len(),
    ensures
        kids_at(image, p)[i] % 4096 == 0,
        kids_at(image, p)[i] + 4096 <= image.len(),
        node_at(image, kids_at(image, p)[i] as int) is Some,
        !node_at(image, kids_at(image, p)[i] as int)->Some_0.is_root,
        node_at(image, kids_at(image, p)[i] as int)->Some_0.parent_offset is Some,
    decreases h,
{
    reveal(subtree_ok);
    reveal(in_subtree);
    let children = kids_at(image, off);
    let seps = seps_at(image, off);
    if p == off {
        let c = children[i] as int;
        assert(subtree_ok(
            image,
            b,
            min,
            children[i] as int,
            (h - 1) as nat,
            child_lo(seps, lo, i),
            child_hi(seps, hi, i),
            false,
        ));
        crate::tree::lemma_node_at_within(image, c);
        crate::tree::lemma_node_at_round_trips(image, c);
    } else {
        let j = choose|j: int|
            #![trigger children[j]]
            0 <= j < children.len() && in_subtree(image, children[j] as int, (h - 1) as nat, p);
        lemma_child_resolves(
            image,
            b,
            min,
            children[j] as int,
            (h - 1) as nat,
            child_lo(seps, lo, j),
            child_hi(seps, hi, j),
            false,
            p,
            i,
        );
    }
}

/// What holds of every node of a sound subtree.
proof fn lemma_node_shape(
    image: Seq<u8>,
    b: int,
    min: int,
    off: int,
    h: nat,
    lo: Option<Seq<char>>,
    hi: Option<Seq<char>>,
    root: bool,
    p: int,
)
    requires
        subtree_ok(image, b, min, off, h, lo, hi, root),
        in_subtree(image, off, h, p),
    ensures
        node_at(image, p) is Some,
        match node_at(image, p)->Some_0.node_type {
            NodeTypeView::Leaf(pairs) => pairs.len() <= 2 * b - 1 && (p != off || !root ==> min
                <= pairs.len()),
            NodeTypeView::Internal(children, seps) => children.len() == seps.len() + 1
                && children.len() <= 2 * b && (p != off || !root ==> min + 1 <= children.len()),
            NodeTypeView::Unexpected => false,
        },
    decreases h,
{
    reveal(subtree_ok);
    reveal(in_subtree);
    if p != off {
        let children = kids_at(image, off);
        let seps = seps_at(image, off);
        let i = choose|i: int|
            #![trigger children[i]]
            0 <= i < children.len() && in_subtree(image, children[i] as int, (h - 1) as nat, p);
        assert(!in_subtree(image, children[i] as int, (h - 1) as nat, off));
        lemma_node_shape(
            image,
            b,
            min,
            children[i] as int,
            (h - 1) as nat,
            child_lo(seps, lo, i),
            child_hi(seps, hi, i),
            false,
            p,
        );
    }
}

/// Whether the page at `p` is reached from the page at `off` by going down
/// `d` times from a node to one of its children.
pub open spec fn reached(image: Seq<u8>, off: int, p: int, d: nat) -> bool
    decreases d,
{
    if d == 0 {
        p == off
    } else {
        match node_at(image, off) {
            Some(node) => match node.node_type {
                NodeTypeView::Internal(children, _) => exists|i: int|
                    #![trigger children[i]]
                    0 <= i < children.len() && reached(image, children[i] as int, p, (d - 1) as nat),
                _ => false,
            },
            None => false,
        }
    }
}

/// All leaves of a sound tree lie at one depth: every leaf that is reached
/// from the root is reached in as many steps as the tree is high.
pub proof fn law_leaves_at_one_depth(
    image: Seq<u8>,
    log: Seq<u8>,
    b: int,
    min: int,
    h: nat,
    p: int,
    d: nat,
)
    requires
        tree_ok(image, log, b, min, h),
        reached(image, last_record(log) as int, p, d),
        node_at(image, p) is Some,
        node_at(image, p)->Some_0.node_type is Leaf,
    ensures
        d == h,
{
    lemma_leaf_depth(image, b, min, last_record(log) as int, h, None, None, true, p, d);
}

proof fn lemma_leaf_depth(
    image: Seq<u8>,
    b: int,
    min: int,
    off: int,
    h: nat,
    lo: Option<Seq<char>>,
    hi: Option<Seq<char>>,
    root: bool,
    p: int,
    d: nat,
)
    requires
        subtree_ok(image, b, min, off, h, lo, hi, root),
        reached(image, off, p, d),
        node_at(image, p) is Some,
        node_at(image, p)->Some_0.node_type is Leaf,
    ensures
        d == h,
    decreases d,
{
    reveal(subtree_ok);
    if d > 0 {
        let children = kids_at(image, off);
        let seps = seps_at(image, off);
        let i = choose|i: int|
            #![trigger children[i]]
            0 <= i < children.len() && reached(image, children[i] as int, p, (d - 1) as nat);
        lemma_leaf_depth(
            image,
            b,
            min,
            children[i] as int,
            (h - 1) as nat,
            child_lo(seps, lo, i),
            child_hi(seps, hi, i),
            false,
            p,
            (d - 1) as nat,
        );
    }
}

/// The pairs of the leaves of the subtree at `off`, leaf after leaf from
/// the first child to the last.
pub open spec fn leaves_in_order(image: Seq<u8>, off: int, h: nat) -> Seq<(Seq<char>, Seq<char>)>
    decreases h, 0nat,
{
    match node_at(image, off) {
        Some(node) => match node.node_type {
            NodeTypeView::Leaf(pairs) => pairs,
            NodeTypeView::Internal(children, _) => if h > 0 {
                children_in_order(image, children, (h - 1) as nat, children.len())
            } else {
                Seq::empty()
            },
            NodeTypeView::Unexpected => Seq::empty(),
        },
        None => Seq::empty(),
    }
}

/// The pairs of the leaves below the first `n` of `children`.
pub open spec fn children_in_order(image: Seq<u8>, children: Seq<usize>, g: nat, n: nat) -> Seq<
    (Seq<char>, Seq<char>),
>
    decreases g, n + 1,
{
    if n == 0 {
        Seq::empty()
    } else {
        children_in_order(image, children, g, (n - 1) as nat) + leaves_in_order(
            image,
            children[n - 1] as int,
            g,
        )
    }
}

/// The keys of `pairs` ascend strictly and lie above `lo` and not above
/// `hi`.
pub open spec fn ascends_within(
    pairs: Seq<(Seq<char>, Seq<char>)>,
    lo: Option<Seq<char>>,
    hi: Option<Seq<char>>,
) -> bool {
    &&& forall|i: int, j: int|
        0 <= i < j < pairs.len() ==> key_lt((#[trigger] pairs[i]).0, (#[trigger] pairs[j]).0)
    &&& forall|i: int|
        0 <= i < pairs.len() ==> above(lo, (#[trigger] pairs[i]).0) && upto(pairs[i].0, hi)
}

/// Going through the leaves of a sound tree in order gives keys that ascend
/// strictly.
pub proof fn law_keys_ascend_in_order(image: Seq<u8>, log: Seq<u8>, b: int, min: int, h: nat)
    requires
        tree_ok(image, log, b, min, h),
    ensures
        forall|i: int, j: int|
            0 <= i < j < leaves_in_order(image, last_record(log) as int, h).len() ==> key_lt(
                (#[trigger] leaves_in_order(image, last_record(log) as int, h)[i]).0,
                (#[trigger] leaves_in_order(image, last_record(log) as int, h)[j]).0,
            ),
{
    lemma_in_order_ascends(image, b, min, last_record(log) as int, h, None, None, true);
}

proof fn lemma_in_order_ascends(
    image: Seq<u8>,
    b: int,
    min: int,
    off: int,
    h: nat,
    lo: Option<Seq<char>>,
    hi: Option<Seq<char>>,
    root: bool,
)
    requires
        subtree_ok(image, b, min, off, h, lo, hi, root),
    ensures
        ascends_within(leaves_in_order(image, off, h), lo, hi),
    decreases h, 0nat,
{
    reveal(subtree_ok);
    let node = node_at(image, off)->Some_0;
    match node.node_type {
        NodeTypeView::Internal(children, seps) => {
            lemma_children_in_order_ascend(
                image,
                b,
                min,
                off,
                h,
                lo,
                hi,
                root,
                children.len(),
            );
            assert(child_hi(seps, hi, children.len() - 1) == hi);
        },
        _ => {},
    }
}

proof fn lemma_children_in_order_ascend(
    image: Seq<u8>,
    b: int,
    min: int,
    off: int,
    h: nat,
    lo: Option<Seq<char>>,
    hi: Option<Seq<char>>,
    root: bool,
    n: nat,
)
    requires
        subtree_ok(image, b, min, off, h, lo, hi, root),
        h > 0,
        n <= kids_at(image, off).len(),
    ensures
        n > 0 ==> ascends_within(
            children_in_order(image, kids_at(image, off), (h - 1) as nat, n),
            lo,
            child_hi(seps_at(image, off), hi, n - 1),
        ),
        n == 0 ==> children_in_order(image, kids_at(image, off), (h - 1) as nat, n).len() == 0,
    decreases (h - 1) as nat, n + 1,
{
    reveal(subtree_ok);
    let children = kids_at(image, off);
    let seps = seps_at(image, off);
    let g = (h - 1) as nat;
    if n > 0 {
        let before = children_in_order(image, children, g, (n - 1) as nat);
        let last = leaves_in_order(image, children[n - 1] as int, g);
        let all = children_in_order(image, children, g, n);
        assert(all == before + last);
        lemma_children_in_order_ascend(image, b, min, off, h, lo, hi, root, (n - 1) as nat);
        let c = children[n - 1];
        let clo = child_lo(seps, lo, n - 1);
        let chi = child_hi(seps, hi, n - 1);
        lemma_in_order_ascends(image, b, min, children[n - 1] as int, g, clo, chi, false);
        // every key before the last child lies at or below the key before it,
        // and every key of the last child above that key
        assert forall|i: int| 0 <= i < all.len() implies above(lo, (#[trigger] all[i]).0) && upto(
            all[i].0,
            chi,
        ) by {
            if i < before.len() {
                assert(all[i] == before[i]);
                let sep = seps[n - 2];
                assert(key_le(before[i].0, sep));
                if n - 1 < seps.len() {
                    assert(key_le(sep, seps[n - 1]));
                    lemma_key_le_transitive(before[i].0, sep, seps[n - 1]);
                } else {
                    assert(upto(sep, hi));
                    if hi is Some {
                        lemma_key_le_transitive(before[i].0, sep, hi->Some_0);
                    }
                }
            } else {
                assert(all[i] == last[i - before.len()]);
                if n - 1 > 0 {
                    let sep = seps[n - 2];
                    assert(key_lt(sep, last[i - before.len()].0));
                    assert(at_least(lo, sep));
                    if lo is Some {
                        lemma_key_le_lt_transitive(lo->Some_0, sep, last[i - before.len()].0);
                    }
                }
            }
        }
        assert forall|i: int, j: int| 0 <= i < j < all.len() implies key_lt(
            (#[trigger] all[i]).0,
            (#[trigger] all[j]).0,
        ) by {
            if j < before.len() {
                assert(all[i] == before[i] && all[j] == before[j]);
            } else if i >= before.len() {
                assert(all[i] == last[i - before.len()] && all[j] == last[j - before.len()]);
            } else {
                assert(all[i] == before[i] && all[j] == last[j - before.len()]);
                let sep = seps[n - 2];
                assert(key_le(before[i].0, sep));
                assert(key_lt(sep, last[j - before.len()].0));
                lemma_key_le_lt_transitive(before[i].0, sep, last[j - before.len()].0);
            }
        }
    }
}

/// A balanced tree that stores nothing is a single leaf: once the last key
/// has been taken out of a balanced tree, the root is a leaf again.
pub proof fn law_empty_tree_is_a_leaf(image: Seq<u8>, log: Seq<u8>, b: int, h: nat)
    requires
        tree_ok(image, log, b, b - 1, h),
        crate::tree::tree_map(image, last_record(log) as int, h) == Map::<
            Seq<char>,
            Seq<char>,
        >::empty(),
    ensures
        h == 0,
        node_at(image, last_record(log) as int)->Some_0.node_type == NodeTypeView::Leaf(
            Seq::empty(),
        ),
{
    reveal(subtree_ok);
    reveal(subtree_has);
    let root = last_record(log) as int;
    let node = node_at(image, root)->Some_0;
    match node.node_type {
        NodeTypeView::Internal(children, seps) => {
            let (k, v) = lemma_filled_subtree_stores(
                image,
                b,
                b - 1,
                children[0] as int,
                (h - 1) as nat,
                child_lo(seps, None, 0),
                child_hi(seps, None, 0),
            );
            assert(subtree_has(image, root, h, k, v));
            assert(crate::tree::tree_map(image, root, h).contains_key(k));
        },
        NodeTypeView::Leaf(pairs) => {
            if pairs.len() > 0 {
                assert(pairs[0] == (pairs[0].0, pairs[0].1));
                assert(subtree_has(image, root, h, pairs[0].0, pairs[0].1));
                assert(crate::tree::tree_map(image, root, h).contains_key(pairs[0].0));
            }
            assert(pairs =~= Seq::empty());
        },
        NodeTypeView::Unexpected => {},
    }
}

/// A sound subtree below the root in which every node holds a key at least
/// stores something.
proof fn lemma_filled_subtree_stores(
    image: Seq<u8>,
    b: int,
    min: int,
    off: int,
    h: nat,
    lo: Option<Seq<char>>,
    hi: Option<Seq<char>>,
) -> (pair: (Seq<char>, Seq<char>))
    requires
        subtree_ok(image, b, min, off, h, lo, hi, false),
        min >= 1,
    ensures
        subtree_has(image, off, h, pair.0, pair.1),
    decreases h,
{
    reveal(subtree_ok);
    reveal(subtree_has);
    let node = node_at(image, off)->Some_0;
    match node.node_type {
        NodeTypeView::Internal(children, seps) => {
            let pair = lemma_filled_subtree_stores(
                image,
                b,
                min,
                children[0] as int,
                (h - 1) as nat,
                child_lo(seps, lo, 0),
                child_hi(seps, hi, 0),
            );
            assert(subtree_has(image, children[0] as int, (h - 1) as nat, pair.0, pair.1));
            pair
        },
        NodeTypeView::Leaf(pairs) => {
            assert(pairs[0] == (pairs[0].0, pairs[0].1));
            (pairs[0].0, pairs[0].1)
        },
        NodeTypeView::Unexpected => (Seq::empty(), Seq::empty()),
    }
}

/// The pages of the subtree at `off`, each with its depth, in the order in
/// which the tree is listed: a node before its children, and the children
/// from the first to the last, each with all that lies below it.
pub open spec fn nodes_in_order(image: Seq<u8>, off: int, h: nat, depth: nat) -> Seq<(nat, int)>
    decreases h, 0nat,
{
    seq![(depth, off)] + (match node_at(image, off) {
        Some(node) => match node.node_type {
            NodeTypeView::Internal(children, _) => if h > 0 {
                children_nodes(image, children, (h - 1) as nat, depth + 1, children.len())
            } else {
                Seq::empty()
            },
            _ => Seq::empty(),
        },
        None => Seq::empty(),
    })
}

/// The pages at and below the first `n` of `children`, each with its depth.
pub open spec fn children_nodes(
    image: Seq<u8>,
    children: Seq<usize>,
    g: nat,
    depth: nat,
    n: nat,
) -> Seq<(nat, int)>
    decreases g, n + 1,
{
    if n == 0 {
        Seq::empty()
    } else {
        children_nodes(image, children, g, depth, (n - 1) as nat) + nodes_in_order(
            image,
            children[n - 1] as int,
            g,
            depth,
        )
    }
}

/// Every node whose fields are valid is read back from the page to which
/// it is written: a root without a parent or another node with one; an
/// internal node with one key less than children, or a leaf; entries that fit
/// the page; keys and values that fit their fields and do not end in a zero
/// byte.
pub proof fn law_node_round_trips(node: NodeView)
    requires
        round_trips(node),
    ensures
        encode_node(node) is Ok,
        decode_page(encode_node(node)->Ok_0) == Ok::<NodeView, Error>(node),
{
    lemma_round_trip(node);
}

/// What is put into a map under a key is what is found under it: the pair
/// that `insert` stores is the pair that `search` hands out.
pub proof fn law_insert_then_search(
    stored: Map<Seq<char>, Seq<char>>,
    k: Seq<char>,
    v: Seq<char>,
)
    ensures
        stored.insert(k, v).contains_key(k),
        stored.insert(k, v)[k] == v,
{
}

/// A key that is put into a map that did not hold it and taken out again
/// is not found, and the map is what it was: after `insert` and `delete` of
/// one key `search` answers that the key is not found.
pub proof fn law_insert_then_delete(
    stored: Map<Seq<char>, Seq<char>>,
    k: Seq<char>,
    v: Seq<char>,
)
    requires
        !stored.contains_key(k),
    ensures
        !stored.insert(k, v).remove(k).contains_key(k),
        stored.insert(k, v).remove(k) == stored,
{
    assert(stored.insert(k, v).remove(k) =~= stored);
}

/// The map that holds `pairs`, put in one after the other, besides what
/// `stored` holds.
pub open spec fn with_all(
    stored: Map<Seq<char>, Seq<char>>,
    pairs: Seq<(Seq<char>, Seq<char>)>,
) -> Map<Seq<char>, Seq<char>>
    decreases pairs.len(),
{
    if pairs.len() == 0 {
        stored
    } else {
        with_all(stored, pairs.drop_last()).insert(pairs.last().0, pairs.last().1)
    }
}

/// No two of `pairs` have the same key.
pub open spec fn distinct_keys(pairs: Seq<(Seq<char>, Seq<char>)>) -> bool {
    forall|i: int, j: int|
        0 <= i < j < pairs.len() ==> (#[trigger] pairs[i]).0 != (#[trigger] pairs[j]).0
}

/// Pairs with distinct keys that are put in one after the other, in
/// whatever order, are all found, each key with its value.
pub proof fn law_insert_many_then_search(
    stored: Map<Seq<char>, Seq<char>>,
    pairs: Seq<(Seq<char>, Seq<char>)>,
    i: int,
)
    requires
        distinct_keys(pairs),
        0 <= i < pairs.len(),
    ensures
        with_all(stored, pairs).contains_key(pairs[i].0),
        with_all(stored, pairs)[pairs[i].0] == pairs[i].1,
    decreases pairs.len(),
{
    if i < pairs.len() - 1 {
        let rest = pairs.drop_last();
        assert(distinct_keys(rest)) by {
            assert forall|x: int, y: int| 0 <= x < y < rest.len() implies (#[trigger] rest[x]).0 != (
            #[trigger] rest[y]).0 by {
                assert(rest[x] == pairs[x] && rest[y] == pairs[y]);
            }
        }
        assert(rest[i] == pairs[i]);
        law_insert_many_then_search(stored, rest, i);
        assert(pairs[i].0 != pairs[pairs.len() - 1].0);
    }
}

} // verus!
