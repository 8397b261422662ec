//! Handing children over to another parent: what changes on the pages
//! when nodes are told the offset of the node above them, and what does not.

use crate::encoding::round_trips;
use crate::node::NodeView;
use crate::node_type::NodeTypeView;
use crate::tree::{
    child_hi, child_lo, child_slot, in_subtree, lemma_in_subtree_valid, node_at, subtree_has,
    subtree_ok, tree_map, tree_ok,
};
use crate::tree_fill::{fills_except, keys_of};
use crate::tree_insert::{
    grows_within, insert_ready, inserted_below, kids_at, lemma_in_child_in_parent, seps_at,
};
use crate::wal::last_record;
use vstd::prelude::*;

verus! {

/// `node` with the page at `parent` as its parent.
pub open spec fn with_parent(node: NodeView, parent: usize) -> NodeView {
    NodeView { node_type: node.node_type, is_root: node.is_root, parent_offset: Some(parent) }
}

/// The kind, the entries and the root flag of the node at `off`: all of it
/// but its parent.
pub open spec fn shape_at(image: Seq<u8>, off: int) -> Option<(NodeTypeView, bool)> {
    match node_at(image, off) {
        Some(node) => Some((node.node_type, node.is_root)),
        None => None,
    }
}

/// From `image` to `image2` no node has changed but in the parent that it
/// names.
pub open spec fn reparented(image: Seq<u8>, image2: Seq<u8>) -> bool {
    &&& image2.len() == image.len()
    &&& forall|p: int| p % 4096 == 0 ==> #[trigger] shape_at(image2, p) == shape_at(image, p)
}

/// Whether the page at `p` is one of `kids[from..to]`.
pub open spec fn among(kids: Seq<usize>, from: int, to: int, p: int) -> bool {
    exists|j: int| from <= j < to && #[trigger] kids[j] == p
}

/// From `image` to `image2` the nodes at `kids[from..to]` have been given
/// the page at `parent` as their parent, and nothing else has changed.
pub open spec fn relinked(
    image: Seq<u8>,
    image2: Seq<u8>,
    kids: Seq<usize>,
    from: int,
    to: int,
    parent: usize,
) -> bool {
    &&& image2.len() == image.len()
    &&& forall|p: int|
        p % 4096 == 0 ==> #[trigger] node_at(image2, p) == (if among(kids, from, to, p) {
            Some(with_parent(node_at(image, p)->Some_0, parent))
        } else {
            node_at(image, p)
        })
}

/// Whether the node at `c` can be given a parent: its page starts at a
/// multiple of the page size, and it is a node that is no root.
pub open spec fn relinkable(image: Seq<u8>, c: int) -> bool {
    &&& c % 4096 == 0
    &&& node_at(image, c) is Some
    &&& !node_at(image, c)->Some_0.is_root
}

/// Nodes that were given a parent have changed in nothing else.
pub proof fn lemma_relinked_reparented(
    image: Seq<u8>,
    image2: Seq<u8>,
    kids: Seq<usize>,
    from: int,
    to: int,
    parent: usize,
)
    requires
        relinked(image, image2, kids, from, to, parent),
        forall|j: int| from <= j < to ==> relinkable(image, #[trigger] kids[j] as int),
    ensures
        reparented(image, image2),
{
    assert forall|p: int| p % 4096 == 0 implies #[trigger] shape_at(image2, p) == shape_at(
        image,
        p,
    ) by {
        if among(kids, from, to, p) {
            let j = choose|j: int| from <= j < to && #[trigger] kids[j] == p;
            assert(relinkable(image, kids[j] as int));
        }
    }
}

/// A subtree lies on the same pages whatever parents its nodes name.
pub proof fn lemma_reparented_in(
    image: Seq<u8>,
    image2: Seq<u8>,
    b: int,
    min: int,
    off: int,
    h: nat,
    lo: Option<Seq<char>>,
    hi: Option<Seq<char>>,
    root: bool,
    p: int,
)
    requires
        subtree_ok(image, b, min, off, h, lo, hi, root),
        reparented(image, image2),
    ensures
        in_subtree(image2, off, h, p) == in_subtree(image, off, h, p),
    decreases h,
{
    reveal(subtree_ok);
    reveal(in_subtree);
    assert(shape_at(image2, off) == shape_at(image, off));
    if h > 0 && p != off {
        let node = node_at(image, off)->Some_0;
        let children = node.node_type->Internal_0;
        let seps = node.node_type->Internal_1;
        assert forall|i: int| 0 <= i < children.len() implies in_subtree(
            image2,
            #[trigger] children[i] as int,
            (h - 1) as nat,
            p,
        ) == in_subtree(image, children[i] as int, (h - 1) as nat, p) by {
            lemma_reparented_in(
                image,
                image2,
                b,
                min,
                children[i] as int,
                (h - 1) as nat,
                child_lo(seps, lo, i),
                child_hi(seps, hi, i),
                false,
                p,
            );
        }
    }
}

/// A subtree stores the same whatever parents its nodes name.
pub proof fn lemma_reparented_has(
    image: Seq<u8>,
    image2: Seq<u8>,
    b: int,
    min: int,
    off: int,
    h: nat,
    lo: Option<Seq<char>>,
    hi: Option<Seq<char>>,
    root: bool,
    k: Seq<char>,
    v: Seq<char>,
)
    requires
        subtree_ok(image, b, min, off, h, lo, hi, root),
        reparented(image, image2),
    ensures
        subtree_has(image2, off, h, k, v) == subtree_has(image, off, h, k, v),
    decreases h,
{
    reveal(subtree_ok);
    reveal(subtree_has);
    assert(shape_at(image2, off) == shape_at(image, off));
    if h > 0 {
        let node = node_at(image, off)->Some_0;
        let children = node.node_type->Internal_0;
        let seps = node.node_type->Internal_1;
        assert forall|i: int| 0 <= i < children.len() implies subtree_has(
            image2,
            #[trigger] children[i] as int,
            (h - 1) as nat,
            k,
            v,
        ) == subtree_has(image, children[i] as int, (h - 1) as nat, k, v) by {
            lemma_reparented_has(
                image,
                image2,
                b,
                min,
                children[i] as int,
                (h - 1) as nat,
                child_lo(seps, lo, i),
                child_hi(seps, hi, i),
                false,
                k,
                v,
            );
        }
    }
}

/// A subtree is sound whatever parents its nodes name.
pub proof fn lemma_reparented_ok(
    image: Seq<u8>,
    image2: Seq<u8>,
    b: int,
    min: int,
    off: int,
    h: nat,
    lo: Option<Seq<char>>,
    hi: Option<Seq<char>>,
    root: bool,
)
    requires
        subtree_ok(image, b, min, off, h, lo, hi, root),
        reparented(image, image2),
    ensures
        subtree_ok(image2, b, min, off, h, lo, hi, root),
    decreases h,
{
    reveal(subtree_ok);
    assert(shape_at(image2, off) == shape_at(image, off));
    if h > 0 {
        let node = node_at(image, off)->Some_0;
        let children = node.node_type->Internal_0;
        let seps = node.node_type->Internal_1;
        let g = (h - 1) as nat;
        assert forall|i: int| #![trigger children[i]] 0 <= i < children.len() implies subtree_ok(
            image2,
            b,
            min,
            children[i] as int,
            g,
            child_lo(seps, lo, i),
            child_hi(seps, hi, i),
            false,
        ) by {
            lemma_reparented_ok(
                image,
                image2,
                b,
                min,
                children[i] as int,
                g,
                child_lo(seps, lo, i),
                child_hi(seps, hi, i),
                false,
            );
        }
        assert forall|i: int, p: int| 0 <= i < children.len() implies #[trigger] in_subtree(
            image2,
            children[i] as int,
            g,
            p,
        ) == in_subtree(image, children[i] as int, g, p) by {
            lemma_reparented_in(
                image,
                image2,
                b,
                min,
                children[i] as int,
                g,
                child_lo(seps, lo, i),
                child_hi(seps, hi, i),
                false,
                p,
            );
        }
    }
}

/// What holds of a sound subtree holds of it whatever parents its nodes
/// name: it is sound, lies on the same pages, stores the same, and its nodes
/// hold as many keys.
pub proof fn lemma_reparented(
    image: Seq<u8>,
    image2: Seq<u8>,
    b: int,
    min: int,
    off: int,
    h: nat,
    lo: Option<Seq<char>>,
    hi: Option<Seq<char>>,
    root: bool,
)
    requires
        subtree_ok(image, b, min, off, h, lo, hi, root),
        reparented(image, image2),
    ensures
        subtree_ok(image2, b, min, off, h, lo, hi, root),
        forall|p: int| #[trigger] in_subtree(image2, off, h, p) == in_subtree(image, off, h, p),
        forall|k: Seq<char>, v: Seq<char>| #[trigger]
            subtree_has(image2, off, h, k, v) == subtree_has(image, off, h, k, v),
        forall|fill: int, x: int| #[trigger]
            fills_except(image2, fill, off, h, x) == fills_except(image, fill, off, h, x),
{
    lemma_reparented_ok(image, image2, b, min, off, h, lo, hi, root);
    assert forall|p: int| #[trigger]
        in_subtree(image2, off, h, p) == in_subtree(image, off, h, p) by {
        lemma_reparented_in(image, image2, b, min, off, h, lo, hi, root, p);
    }
    assert forall|k: Seq<char>, v: Seq<char>| #[trigger]
        subtree_has(image2, off, h, k, v) == subtree_has(image, off, h, k, v) by {
        lemma_reparented_has(image, image2, b, min, off, h, lo, hi, root, k, v);
    }
    assert forall|p: int| #[trigger] in_subtree(image, off, h, p) implies keys_of(
        node_at(image2, p),
    ) == keys_of(node_at(image, p)) by {
        lemma_in_subtree_valid(image, b, min, off, h, lo, hi, root, p);
        assert(shape_at(image2, p) == shape_at(image, p));
    }
    assert forall|fill: int, x: int| #[trigger]
        fills_except(image2, fill, off, h, x) == fills_except(image, fill, off, h, x) by {
        if fills_except(image, fill, off, h, x) {
            assert forall|p: int| #[trigger]
                in_subtree(image2, off, h, p) && p != off && p != x implies keys_of(
                node_at(image2, p),
            ) >= fill by {
                assert(in_subtree(image, off, h, p));
            }
        }
        if fills_except(image2, fill, off, h, x) {
            assert forall|p: int| #[trigger]
                in_subtree(image, off, h, p) && p != off && p != x implies keys_of(
                node_at(image, p),
            ) >= fill by {
                assert(in_subtree(image2, off, h, p));
            }
        }
    }
}

/// A node that is no root round-trips with another parent as it did with
/// its own.
pub proof fn lemma_with_parent_round_trips(node: NodeView, parent: usize)
    requires
        round_trips(node),
        !node.is_root,
    ensures
        round_trips(with_parent(node, parent)),
        with_parent(with_parent(node, parent), parent) == with_parent(node, parent),
{
}

/// One node more has been given its parent.
pub proof fn lemma_relinked_step(
    image: Seq<u8>,
    cur: Seq<u8>,
    next: Seq<u8>,
    kids: Seq<usize>,
    from: int,
    i: int,
    parent: usize,
)
    requires
        from <= i < kids.len(),
        relinked(image, cur, kids, from, i, parent),
        kids[i] % 4096 == 0,
        node_at(image, kids[i] as int) is Some,
        next.len() == cur.len(),
        node_at(next, kids[i] as int) == Some(
            with_parent(node_at(image, kids[i] as int)->Some_0, parent),
        ),
        forall|p: int|
            p % 4096 == 0 && p != kids[i] ==> #[trigger] node_at(next, p) == node_at(cur, p),
    ensures
        relinked(image, next, kids, from, i + 1, parent),
{
    assert forall|p: int| p % 4096 == 0 implies #[trigger] node_at(next, p) == (if among(
        kids,
        from,
        i + 1,
        p,
    ) {
        Some(with_parent(node_at(image, p)->Some_0, parent))
    } else {
        node_at(image, p)
    }) by {
        if p == kids[i] {
            assert(among(kids, from, i + 1, p));
        } else {
            assert(node_at(next, p) == node_at(cur, p));
            if among(kids, from, i, p) {
                let j = choose|j: int| from <= j < i && #[trigger] kids[j] == p;
                assert(from <= j < i + 1 && kids[j] == p);
            }
            if among(kids, from, i + 1, p) {
                let j = choose|j: int| from <= j < i + 1 && #[trigger] kids[j] == p;
                assert(from <= j < i && kids[j] == p);
            }
        }
    }
}

/// The node that is about to be given its parent: it is there, round-trips
/// and is no root, whether an earlier step has given it the parent or not.
pub proof fn lemma_relinked_next(
    image: Seq<u8>,
    cur: Seq<u8>,
    kids: Seq<usize>,
    from: int,
    i: int,
    parent: usize,
)
    requires
        from <= i < kids.len(),
        relinked(image, cur, kids, from, i, parent),
        relinkable(image, kids[i] as int),
    ensures
        node_at(cur, kids[i] as int) is Some,
        !node_at(cur, kids[i] as int)->Some_0.is_root,
        round_trips(node_at(cur, kids[i] as int)->Some_0),
        0 <= kids[i] as int,
        kids[i] + 4096 <= cur.len(),
        with_parent(node_at(cur, kids[i] as int)->Some_0, parent) == with_parent(
            node_at(image, kids[i] as int)->Some_0,
            parent,
        ),
{
    let c = kids[i] as int;
    assert(node_at(cur, c) == (if among(kids, from, i, c) {
        Some(with_parent(node_at(image, c)->Some_0, parent))
    } else {
        node_at(image, c)
    }));
    crate::tree::lemma_node_at_round_trips(cur, c);
    crate::tree::lemma_node_at_within(cur, c);
}

/// The children of the children of a sound node can be given a parent, and
/// lie below the node, apart from it and from its children.
pub proof fn lemma_grandchildren(
    image: Seq<u8>,
    b: int,
    min: int,
    off: int,
    h: nat,
    lo: Option<Seq<char>>,
    hi: Option<Seq<char>>,
    root: bool,
    i: int,
    j: int,
)
    requires
        subtree_ok(image, b, min, off, h, lo, hi, root),
        h >= 2,
        0 <= i < kids_at(image, off).len(),
        0 <= j < kids_at(image, kids_at(image, off)[i] as int).len(),
    ensures
        relinkable(image, kids_at(image, kids_at(image, off)[i] as int)[j] as int),
        in_subtree(image, off, h, kids_at(image, kids_at(image, off)[i] as int)[j] as int),
        in_subtree(
            image,
            kids_at(image, off)[i] as int,
            (h - 1) as nat,
            kids_at(image, kids_at(image, off)[i] as int)[j] as int,
        ),
        in_subtree(
            image,
            kids_at(image, kids_at(image, off)[i] as int)[j] as int,
            (h - 2) as nat,
            kids_at(image, kids_at(image, off)[i] as int)[j] as int,
        ),
        subtree_ok(
            image,
            b,
            min,
            kids_at(image, kids_at(image, off)[i] as int)[j] as int,
            (h - 2) as nat,
            child_lo(
                seps_at(image, kids_at(image, off)[i] as int),
                child_lo(seps_at(image, off), lo, i),
                j,
            ),
            child_hi(
                seps_at(image, kids_at(image, off)[i] as int),
                child_hi(seps_at(image, off), hi, i),
                j,
            ),
            false,
        ),
        kids_at(image, kids_at(image, off)[i] as int)[j] != off,
        forall|m: int|
            0 <= m < kids_at(image, off).len() ==> kids_at(
                image,
                kids_at(image, off)[i] as int,
            )[j] != #[trigger] kids_at(image, off)[m],
{
    reveal(subtree_ok);
    let kids = kids_at(image, off);
    let seps = seps_at(image, off);
    let c = kids[i] as int;
    let g = (h - 1) as nat;
    assert(subtree_ok(image, b, min, kids[i] as int, g, child_lo(seps, lo, i), child_hi(
        seps,
        hi,
        i,
    ), false));
    let gkids = kids_at(image, c);
    let gseps = seps_at(image, c);
    let q = gkids[j] as int;
    let clo = child_lo(seps, lo, i);
    let chi = child_hi(seps, hi, i);
    assert(subtree_ok(
        image,
        b,
        min,
        gkids[j] as int,
        (g - 1) as nat,
        child_lo(gseps, clo, j),
        child_hi(gseps, chi, j),
        false,
    ));
    assert(in_subtree(image, gkids[j] as int, (g - 1) as nat, q)) by {
        reveal(in_subtree);
    }
    lemma_in_child_in_parent(image, c, g, j, q);
    lemma_in_child_in_parent(image, off, h, i, q);
    assert(!in_subtree(image, kids[i] as int, g, off));
    assert(!in_subtree(image, gkids[j] as int, (g - 1) as nat, c));
    assert forall|m: int| 0 <= m < kids.len() implies q != #[trigger] kids[m] by {
        if m != i {
            assert(in_subtree(image, kids[m] as int, g, kids[m] as int)) by {
                reveal(in_subtree);
            }
            if m < i {
                assert(!(in_subtree(image, kids[m] as int, g, q) && in_subtree(
                    image,
                    kids[i] as int,
                    g,
                    q,
                )));
            } else {
                assert(!(in_subtree(image, kids[i] as int, g, q) && in_subtree(
                    image,
                    kids[m] as int,
                    g,
                    q,
                )));
            }
        }
    }
}

/// The children of the nodes at `a1` and `a2`: those of the first and then
/// those of the second.
pub open spec fn joint_kids(image: Seq<u8>, a1: int, a2: int) -> Seq<usize> {
    kids_at(image, a1) + kids_at(image, a2)
}

/// Handing over all children of one node and then all children of
/// another is handing over the children of both.
pub proof fn lemma_relinked_twice(
    image: Seq<u8>,
    between: Seq<u8>,
    image2: Seq<u8>,
    kids1: Seq<usize>,
    kids2: Seq<usize>,
    parent: usize,
)
    requires
        relinked(image, between, kids1, 0, kids1.len() as int, parent),
        relinked(between, image2, kids2, 0, kids2.len() as int, parent),
    ensures
        relinked(image, image2, kids1 + kids2, 0, (kids1 + kids2).len() as int, parent),
{
    let both = kids1 + kids2;
    assert forall|p: int| p % 4096 == 0 implies #[trigger] node_at(image2, p) == (if among(
        both,
        0,
        both.len() as int,
        p,
    ) {
        Some(with_parent(node_at(image, p)->Some_0, parent))
    } else {
        node_at(image, p)
    }) by {
        if among(kids1, 0, kids1.len() as int, p) {
            let j = choose|j: int| 0 <= j < kids1.len() && #[trigger] kids1[j] == p;
            assert(both[j] == p);
        }
        if among(kids2, 0, kids2.len() as int, p) {
            let j = choose|j: int| 0 <= j < kids2.len() && #[trigger] kids2[j] == p;
            assert(both[kids1.len() + j] == p);
        }
        if among(both, 0, both.len() as int, p) {
            let j = choose|j: int| 0 <= j < both.len() && #[trigger] both[j] == p;
            if j < kids1.len() {
                assert(kids1[j] == p);
            } else {
                assert(kids2[j - kids1.len()] == p);
            }
        }
    }
}

/// Handing over children of the first of two nodes is handing over those
/// among the children of both.
pub proof fn lemma_relinked_first(
    image: Seq<u8>,
    image2: Seq<u8>,
    kids1: Seq<usize>,
    kids2: Seq<usize>,
    from: int,
    to: int,
    parent: usize,
)
    requires
        0 <= from,
        to <= kids1.len(),
        relinked(image, image2, kids1, from, to, parent),
    ensures
        relinked(image, image2, kids1 + kids2, from, to, parent),
{
    let both = kids1 + kids2;
    assert forall|p: int| among(both, from, to, p) == among(kids1, from, to, p) by {
        if among(kids1, from, to, p) {
            let j = choose|j: int| from <= j < to && #[trigger] kids1[j] == p;
            assert(both[j] == p);
        }
        if among(both, from, to, p) {
            let j = choose|j: int| from <= j < to && #[trigger] both[j] == p;
            assert(kids1[j] == p);
        }
    }
}

/// Handing over the first children of the second of two nodes is handing
/// over those among the children of both.
pub proof fn lemma_relinked_second(
    image: Seq<u8>,
    image2: Seq<u8>,
    kids1: Seq<usize>,
    kids2: Seq<usize>,
    to: int,
    parent: usize,
)
    requires
        to <= kids2.len(),
        relinked(image, image2, kids2, 0, to, parent),
    ensures
        relinked(image, image2, kids1 + kids2, kids1.len() as int, kids1.len() + to, parent),
{
    let both = kids1 + kids2;
    let n = kids1.len() as int;
    assert forall|p: int| among(both, n, n + to, p) == among(kids2, 0, to, p) by {
        if among(kids2, 0, to, p) {
            let j = choose|j: int| 0 <= j < to && #[trigger] kids2[j] == p;
            assert(both[n + j] == p);
        }
        if among(both, n, n + to, p) {
            let j = choose|j: int| n <= j < n + to && #[trigger] both[j] == p;
            assert(kids2[j - n] == p);
        }
    }
}

/// From `image3` to `image2` those of the children of the two internal
/// nodes at `a1` and `a2` that stand at `from..to` among the children of
/// both have been told that their parent stands at `parent`; nothing has
/// changed where the two are leaves.
#[verifier::opaque]
pub open spec fn joined_over(
    image3: Seq<u8>,
    image2: Seq<u8>,
    a1: int,
    a2: int,
    from: int,
    to: int,
    parent: usize,
) -> bool {
    match node_at(image3, a1) {
        Some(node) => match node.node_type {
            NodeTypeView::Internal(_, _) => {
                &&& 0 <= from
                &&& to <= joint_kids(image3, a1, a2).len()
                &&& relinked(image3, image2, joint_kids(image3, a1, a2), from, to, parent)
            },
            _ => image2 == image3,
        },
        None => image2 == image3,
    }
}

/// A node that could be given a parent still can once others, or it
/// itself, have been given one.
pub proof fn lemma_relinkable_kept(
    image: Seq<u8>,
    image2: Seq<u8>,
    kids: Seq<usize>,
    from: int,
    to: int,
    parent: usize,
    q: int,
)
    requires
        relinked(image, image2, kids, from, to, parent),
        relinkable(image, q),
    ensures
        relinkable(image2, q),
{
    assert(node_at(image2, q) == (if among(kids, from, to, q) {
        Some(with_parent(node_at(image, q)->Some_0, parent))
    } else {
        node_at(image, q)
    }));
}

/// Nothing is handed over where the two nodes are leaves.
pub proof fn lemma_joined_over_leaves(
    image3: Seq<u8>,
    a1: int,
    a2: int,
    from: int,
    to: int,
    parent: usize,
)
    requires
        !(node_at(image3, a1) is Some && node_at(image3, a1)->Some_0.node_type is Internal),
    ensures
        joined_over(image3, image3, a1, a2, from, to, parent),
{
    reveal(joined_over);
}

/// Children of two internal nodes have been handed over.
pub proof fn lemma_joined_over(
    image3: Seq<u8>,
    image2: Seq<u8>,
    a1: int,
    a2: int,
    from: int,
    to: int,
    parent: usize,
)
    requires
        node_at(image3, a1) is Some,
        node_at(image3, a1)->Some_0.node_type is Internal,
        0 <= from,
        to <= joint_kids(image3, a1, a2).len(),
        relinked(image3, image2, joint_kids(image3, a1, a2), from, to, parent),
    ensures
        joined_over(image3, image2, a1, a2, from, to, parent),
{
    reveal(joined_over);
}

/// Where child `j` of the two children `low` and `low + 1` of a sound node
/// stands: it is a child of the one or of the other.
pub proof fn lemma_joint_kid(
    image: Seq<u8>,
    b: int,
    min: int,
    off: int,
    h: nat,
    lo: Option<Seq<char>>,
    hi: Option<Seq<char>>,
    root: bool,
    low: int,
    j: int,
)
    requires
        subtree_ok(image, b, min, off, h, lo, hi, root),
        h >= 2,
        0 <= low,
        low + 1 < kids_at(image, off).len(),
        0 <= j < joint_kids(
            image,
            kids_at(image, off)[low] as int,
            kids_at(image, off)[low + 1] as int,
        ).len(),
    ensures
        ({
            let kids = kids_at(image, off);
            let n = kids_at(image, kids[low] as int).len();
            let q = joint_kids(image, kids[low] as int, kids[low + 1] as int)[j];
            let i = if j < n {
                low
            } else {
                low + 1
            };
            let at = if j < n {
                j
            } else {
                j - n
            };
            &&& 0 <= at < kids_at(image, kids[i] as int).len()
            &&& q == kids_at(image, kids[i] as int)[at]
        }),
{
}

/// No page in the subtree of a child of one of the two children `low` and
/// `low + 1` of a sound node is another child of the two.
pub proof fn lemma_joint_apart(
    image: Seq<u8>,
    b: int,
    min: int,
    off: int,
    h: nat,
    lo: Option<Seq<char>>,
    hi: Option<Seq<char>>,
    root: bool,
    low: int,
    j: int,
    m: int,
    p: int,
)
    requires
        subtree_ok(image, b, min, off, h, lo, hi, root),
        h >= 2,
        0 <= low,
        low + 1 < kids_at(image, off).len(),
        0 <= j < joint_kids(
            image,
            kids_at(image, off)[low] as int,
            kids_at(image, off)[low + 1] as int,
        ).len(),
        0 <= m < joint_kids(
            image,
            kids_at(image, off)[low] as int,
            kids_at(image, off)[low + 1] as int,
        ).len(),
        m != j,
        in_subtree(
            image,
            joint_kids(
                image,
                kids_at(image, off)[low] as int,
                kids_at(image, off)[low + 1] as int,
            )[j] as int,
            (h - 2) as nat,
            p,
        ),
    ensures
        p != joint_kids(
            image,
            kids_at(image, off)[low] as int,
            kids_at(image, off)[low + 1] as int,
        )[m],
{
    let kids = kids_at(image, off);
    let seps = seps_at(image, off);
    let n = kids_at(image, kids[low] as int).len() as int;
    let both = joint_kids(image, kids[low] as int, kids[low + 1] as int);
    let g = (h - 1) as nat;
    let f = (h - 2) as nat;
    lemma_joint_kid(image, b, min, off, h, lo, hi, root, low, j);
    lemma_joint_kid(image, b, min, off, h, lo, hi, root, low, m);
    let ij = if j < n {
        low
    } else {
        low + 1
    };
    let aj = if j < n {
        j
    } else {
        j - n
    };
    let im = if m < n {
        low
    } else {
        low + 1
    };
    let am = if m < n {
        m
    } else {
        m - n
    };
    lemma_grandchildren(image, b, min, off, h, lo, hi, root, ij, aj);
    lemma_grandchildren(image, b, min, off, h, lo, hi, root, im, am);
    if p == both[m] {
        reveal(subtree_ok);
        assert(subtree_ok(
            image,
            b,
            min,
            kids[ij] as int,
            g,
            child_lo(seps, lo, ij),
            child_hi(seps, hi, ij),
            false,
        ));
        let gk = kids_at(image, kids[ij] as int);
        lemma_in_child_in_parent(image, kids[ij] as int, g, aj, p);
        if im == ij {
            if am < aj {
                assert(!(in_subtree(image, gk[am] as int, f, p) && in_subtree(
                    image,
                    gk[aj] as int,
                    f,
                    p,
                )));
            } else {
                assert(!(in_subtree(image, gk[aj] as int, f, p) && in_subtree(
                    image,
                    gk[am] as int,
                    f,
                    p,
                )));
            }
        } else {
            assert(!(in_subtree(image, kids[low] as int, g, p) && in_subtree(
                image,
                kids[low + 1] as int,
                g,
                p,
            )));
        }
    }
}

/// What must hold for children of the node at `c`, which `node` is, to be
/// handed over: the node is the root of a sound subtree.
pub open spec fn hand_over_ready(
    image: Seq<u8>,
    b: int,
    min: int,
    c: int,
    g: nat,
    lo: Option<Seq<char>>,
    hi: Option<Seq<char>>,
    root: bool,
    node: NodeView,
) -> bool {
    &&& 2 <= b
    &&& subtree_ok(image, b, min, c, g, lo, hi, root)
    &&& node_at(image, c) == Some(node)
}

/// Where the sibling of a node that is divided will stand: `ahead` pages
/// behind the end of the image.
pub open spec fn sibling_place(image: Seq<u8>, ahead: int) -> usize {
    (image.len() + (ahead - 1) * 4096) as usize
}

/// From `image` to `image2` the children of the node at `c` from child `b`
/// on have been told that their parent stands at `sibling_place`; nothing has
/// changed where the node is a leaf.
#[verifier::opaque]
pub open spec fn handed_over(image: Seq<u8>, image2: Seq<u8>, b: int, c: int, ahead: int) -> bool {
    match node_at(image, c) {
        Some(node) => match node.node_type {
            NodeTypeView::Internal(kids, _) => relinked(
                image,
                image2,
                kids,
                b,
                kids.len() as int,
                sibling_place(image, ahead),
            ),
            _ => image2 == image,
        },
        None => image2 == image,
    }
}

/// The children of the root of a sound subtree can be given a parent.
pub proof fn lemma_hand_over_ready(
    image: Seq<u8>,
    b: int,
    min: int,
    c: int,
    g: nat,
    lo: Option<Seq<char>>,
    hi: Option<Seq<char>>,
    root: bool,
    node: NodeView,
)
    requires
        hand_over_ready(image, b, min, c, g, lo, hi, root, node),
        node.node_type is Internal,
    ensures
        forall|j: int|
            0 <= j < node.node_type->Internal_0.len() ==> relinkable(
                image,
                #[trigger] node.node_type->Internal_0[j] as int,
            ),
{
    reveal(subtree_ok);
    let kids = node.node_type->Internal_0;
    let seps = node.node_type->Internal_1;
    assert forall|j: int| 0 <= j < kids.len() implies relinkable(
        image,
        #[trigger] kids[j] as int,
    ) by {
        assert(subtree_ok(
            image,
            b,
            min,
            kids[j] as int,
            (g - 1) as nat,
            child_lo(seps, lo, j),
            child_hi(seps, hi, j),
            false,
        ));
    }
}

/// The children have been handed over.
pub proof fn lemma_handed_over(
    image: Seq<u8>,
    image2: Seq<u8>,
    b: int,
    c: int,
    node: NodeView,
    ahead: int,
)
    requires
        node_at(image, c) == Some(node),
        match node.node_type {
            NodeTypeView::Internal(kids, _) => relinked(
                image,
                image2,
                kids,
                b,
                kids.len() as int,
                sibling_place(image, ahead),
            ),
            _ => image2 == image,
        },
    ensures
        handed_over(image, image2, b, c, ahead),
{
    reveal(handed_over);
}

/// What handing over children of the root of a sound subtree leaves as it
/// was: the shape of every node, the root itself, and every page that does
/// not lie in the subtree.
pub proof fn lemma_handed_below(
    image: Seq<u8>,
    image2: Seq<u8>,
    b: int,
    min: int,
    c: int,
    g: nat,
    lo: Option<Seq<char>>,
    hi: Option<Seq<char>>,
    root: bool,
    ahead: int,
)
    requires
        2 <= b,
        subtree_ok(image, b, min, c, g, lo, hi, root),
        handed_over(image, image2, b, c, ahead),
    ensures
        reparented(image, image2),
        node_at(image2, c) == node_at(image, c),
        forall|p: int|
            p % 4096 == 0 && !in_subtree(image, c, g, p) ==> #[trigger] node_at(image2, p)
                == node_at(image, p),
{
    reveal(handed_over);
    reveal(subtree_ok);
    let node = node_at(image, c)->Some_0;
    if node.node_type is Internal {
        let kids = node.node_type->Internal_0;
        let seps = node.node_type->Internal_1;
        let parent = sibling_place(image, ahead);
        lemma_hand_over_ready(image, b, min, c, g, lo, hi, root, node);
        lemma_relinked_reparented(image, image2, kids, b, kids.len() as int, parent);
        assert forall|j: int| 0 <= j < kids.len() implies in_subtree(
            image,
            c,
            g,
            #[trigger] kids[j] as int,
        ) && kids[j] != c by {
            assert(in_subtree(image, kids[j] as int, (g - 1) as nat, kids[j] as int)) by {
                reveal(in_subtree);
            }
            lemma_in_child_in_parent(image, c, g, j, kids[j] as int);
            assert(!in_subtree(image, kids[j] as int, (g - 1) as nat, c));
        }
        assert(!among(kids, b, kids.len() as int, c)) by {
            if among(kids, b, kids.len() as int, c) {
                let j = choose|j: int| b <= j < kids.len() && #[trigger] kids[j] == c;
                assert(in_subtree(image, c, g, kids[j] as int) && kids[j] != c);
            }
        }
        assert forall|p: int| p % 4096 == 0 && !in_subtree(image, c, g, p) implies #[trigger] node_at(
            image2,
            p,
        ) == node_at(image, p) by {
            if among(kids, b, kids.len() as int, p) {
                let j = choose|j: int| b <= j < kids.len() && #[trigger] kids[j] == p;
                assert(in_subtree(image, c, g, kids[j] as int) && kids[j] != c);
            }
        }
    }
}

/// What handing over children of the child for `k` of the node at `off`
/// leaves as it was: the shape of every node, the node and its children, and
/// every page that does not lie below the node.
pub open spec fn relinked_below(image: Seq<u8>, image2: Seq<u8>, off: int, h: nat) -> bool {
    &&& reparented(image, image2)
    &&& node_at(image2, off) == node_at(image, off)
    &&& forall|m: int|
        0 <= m < kids_at(image, off).len() ==> node_at(
            image2,
            #[trigger] kids_at(image, off)[m] as int,
        ) == node_at(image, kids_at(image, off)[m] as int)
    &&& forall|p: int|
        p % 4096 == 0 && !in_subtree(image, off, h, p) ==> #[trigger] node_at(image2, p) == node_at(
            image,
            p,
        )
}

/// Children of the child for `k` of a node that is ready for a pair have
/// been handed over.
pub proof fn lemma_relinked_below(
    image: Seq<u8>,
    image2: Seq<u8>,
    b: int,
    min: int,
    off: int,
    h: nat,
    lo: Option<Seq<char>>,
    hi: Option<Seq<char>>,
    root: bool,
    node: NodeView,
    k: Seq<char>,
    v: Seq<char>,
    ahead: int,
)
    requires
        insert_ready(image, b, min, off, h, lo, hi, root, node, k, v),
        node.node_type is Internal,
        handed_over(
            image,
            image2,
            b,
            node.node_type->Internal_0[child_slot(node.node_type->Internal_1, k)] as int,
            ahead,
        ),
    ensures
        relinked_below(image, image2, off, h),
{
    crate::tree_insert::lemma_insert_descend(image, b, min, off, h, lo, hi, root, node, k, v);
    reveal(insert_ready);
    reveal(subtree_ok);
    let kids = node.node_type->Internal_0;
    let seps = node.node_type->Internal_1;
    let idx = child_slot(seps, k);
    let c = kids[idx] as int;
    let g = (h - 1) as nat;
    assert(kids_at(image, off) == kids && seps_at(image, off) == seps);
    assert(subtree_ok(image, b, min, kids[idx] as int, g, child_lo(seps, lo, idx), child_hi(
        seps,
        hi,
        idx,
    ), false));
    lemma_handed_below(
        image,
        image2,
        b,
        min,
        c,
        g,
        child_lo(seps, lo, idx),
        child_hi(seps, hi, idx),
        false,
        ahead,
    );
    assert(!in_subtree(image, kids[idx] as int, g, off));
    assert forall|m: int| 0 <= m < kids.len() implies node_at(image2, #[trigger] kids[m] as int)
        == node_at(image, kids[m] as int) by {
        assert(subtree_ok(
            image,
            b,
            min,
            kids[m] as int,
            g,
            child_lo(seps, lo, m),
            child_hi(seps, hi, m),
            false,
        ));
        if m != idx {
            assert(in_subtree(image, kids[m] as int, g, kids[m] as int)) by {
                reveal(in_subtree);
            }
            if m < idx {
                assert(!(in_subtree(image, kids[m] as int, g, kids[m] as int) && in_subtree(
                    image,
                    kids[idx] as int,
                    g,
                    kids[m] as int,
                )));
            } else {
                assert(!(in_subtree(image, kids[idx] as int, g, kids[m] as int) && in_subtree(
                    image,
                    kids[m] as int,
                    g,
                    kids[m] as int,
                )));
            }
        }
    }
    assert forall|p: int| p % 4096 == 0 && !in_subtree(image, off, h, p) implies #[trigger] node_at(
        image2,
        p,
    ) == node_at(image, p) by {
        if in_subtree(image, c, g, p) {
            lemma_in_child_in_parent(image, off, h, idx, p);
        }
    }
}

/// The child for `k` of a node that is ready for a pair is the root of a
/// sound subtree, whose children can be handed over.
pub proof fn lemma_child_hand_over_ready(
    image: Seq<u8>,
    b: int,
    min: int,
    off: int,
    h: nat,
    lo: Option<Seq<char>>,
    hi: Option<Seq<char>>,
    root: bool,
    node: NodeView,
    k: Seq<char>,
    v: Seq<char>,
)
    requires
        insert_ready(image, b, min, off, h, lo, hi, root, node, k, v),
        node.node_type is Internal,
    ensures
        ({
            let kids = node.node_type->Internal_0;
            let seps = node.node_type->Internal_1;
            let idx = child_slot(seps, k);
            hand_over_ready(
                image,
                b,
                min,
                kids[idx] as int,
                (h - 1) as nat,
                child_lo(seps, lo, idx),
                child_hi(seps, hi, idx),
                false,
                node_at(image, kids[idx] as int)->Some_0,
            )
        }),
{
    crate::tree_insert::lemma_insert_descend(image, b, min, off, h, lo, hi, root, node, k, v);
    reveal(insert_ready);
    reveal(subtree_ok);
}

/// A sound tree is the tree that it was once children of its root have
/// been handed over: sound, with the same root, storing the same.
pub proof fn lemma_root_handed(
    image: Seq<u8>,
    image2: Seq<u8>,
    log: Seq<u8>,
    b: int,
    min: int,
    h: nat,
    ahead: int,
)
    requires
        tree_ok(image, log, b, min, h),
        handed_over(image, image2, b, last_record(log) as int, ahead),
    ensures
        tree_ok(image2, log, b, min, h),
        tree_map(image2, last_record(log) as int, h) == tree_map(image, last_record(log) as int, h),
        node_at(image2, last_record(log) as int) == node_at(image, last_record(log) as int),
        image2.len() == image.len(),
        h == 0 ==> image2 == image,
{
    let root = last_record(log) as int;
    lemma_handed_below(image, image2, b, min, root, h, None, None, true, ahead);
    lemma_reparented(image, image2, b, min, root, h, None, None, true);
    if h == 0 {
        reveal(handed_over);
        reveal(subtree_ok);
    }
    assert forall|k: Seq<char>| #[trigger]
        tree_map(image2, root, h).contains_key(k) == tree_map(image, root, h).contains_key(
            k,
        ) by {
        if tree_map(image, root, h).contains_key(k) {
            let w = choose|w: Seq<char>| subtree_has(image, root, h, k, w);
            assert(subtree_has(image2, root, h, k, w));
        }
        if tree_map(image2, root, h).contains_key(k) {
            let w = choose|w: Seq<char>| subtree_has(image2, root, h, k, w);
            assert(subtree_has(image, root, h, k, w));
        }
    }
    assert forall|k: Seq<char>| #[trigger] tree_map(image, root, h).contains_key(k) implies tree_map(
        image2,
        root,
        h,
    )[k] == tree_map(image, root, h)[k] by {
        let w = tree_map(image, root, h)[k];
        crate::tree::lemma_tree_map(image, b, min, root, h, k, w);
        assert(subtree_has(image2, root, h, k, w));
        crate::tree::lemma_tree_map(image2, b, min, root, h, k, w);
    }
    assert(tree_map(image2, root, h) =~= tree_map(image, root, h));
}

/// A subtree that was ready for a pair still is once children below it
/// have been handed over to another parent.
pub proof fn lemma_handed_ready(
    image: Seq<u8>,
    image2: Seq<u8>,
    b: int,
    min: int,
    off: int,
    h: nat,
    lo: Option<Seq<char>>,
    hi: Option<Seq<char>>,
    root: bool,
    node: NodeView,
    k: Seq<char>,
    v: Seq<char>,
    ahead: int,
)
    requires
        insert_ready(image, b, min, off, h, lo, hi, root, node, k, v),
        node.node_type is Internal,
        handed_over(
            image,
            image2,
            b,
            node.node_type->Internal_0[child_slot(node.node_type->Internal_1, k)] as int,
            ahead,
        ),
    ensures
        insert_ready(image2, b, min, off, h, lo, hi, root, node, k, v),
        node_at(
            image2,
            node.node_type->Internal_0[child_slot(node.node_type->Internal_1, k)] as int,
        ) == node_at(
            image,
            node.node_type->Internal_0[child_slot(node.node_type->Internal_1, k)] as int,
        ),
        image2.len() == image.len(),
{
    lemma_relinked_below(image, image2, b, min, off, h, lo, hi, root, node, k, v, ahead);
    crate::tree_insert::lemma_insert_descend(image, b, min, off, h, lo, hi, root, node, k, v);
    reveal(insert_ready);
    lemma_reparented(image, image2, b, min, off, h, lo, hi, root);
    assert(kids_at(image, off) == node.node_type->Internal_0);
}

/// Where a pair has gone into a subtree after children below it had been
/// handed over to another parent, it has gone into the subtree as it was
/// before.
pub proof fn lemma_handed_done(
    image: Seq<u8>,
    image2: Seq<u8>,
    image3: Seq<u8>,
    b: int,
    min: int,
    off: int,
    h: nat,
    lo: Option<Seq<char>>,
    hi: Option<Seq<char>>,
    root: bool,
    node: NodeView,
    k: Seq<char>,
    v: Seq<char>,
    ahead: int,
)
    requires
        insert_ready(image, b, min, off, h, lo, hi, root, node, k, v),
        node.node_type is Internal,
        handed_over(
            image,
            image2,
            b,
            node.node_type->Internal_0[child_slot(node.node_type->Internal_1, k)] as int,
            ahead,
        ),
        inserted_below(image2, image3, b, min, off, h, lo, hi, root, k, v),
    ensures
        inserted_below(image, image3, b, min, off, h, lo, hi, root, k, v),
{
    lemma_relinked_below(image, image2, b, min, off, h, lo, hi, root, node, k, v, ahead);
    reveal(insert_ready);
    reveal(inserted_below);
    lemma_reparented(image, image2, b, min, off, h, lo, hi, root);
    assert(grows_within(image, image3, off, h)) by {
        assert forall|p: int|
            p % 4096 == 0 && p + 4096 <= image.len() && !in_subtree(
                image,
                off,
                h,
                p,
            ) implies #[trigger] node_at(image3, p) == node_at(image, p) by {
            assert(!in_subtree(image2, off, h, p));
            assert(node_at(image3, p) == node_at(image2, p));
        }
        assert forall|p: int| #[trigger] in_subtree(image3, off, h, p) implies in_subtree(
            image,
            off,
            h,
            p,
        ) || p >= image.len() by {
            assert(in_subtree(image2, off, h, p) || p >= image2.len());
        }
    }
}

} // verus!
