//! Parent offsets: where the nodes of a tree name the node above them.

use crate::delete_steps::{
    delete_ready, deleted_below, join_ready, merge_written, share_written,
};
use crate::insert_steps::{root_split_written, split_written};
use crate::merge_trace::type_at;
use crate::node::NodeView;
use crate::node_type::NodeTypeView;
use crate::relink::{among, handed_over, joined_over, joint_kids, relinked, sibling_place};
use crate::tree::{
    child_hi, child_lo, child_slot, in_subtree, lemma_in_subtree_valid, lemma_node_at_within,
    node_at, subtree_ok,
};
use crate::tree_insert::{
    grows_within, insert_ready, inserted_below, is_full, kids_at, lemma_in_child_in_parent,
    lemma_insert_descend, seps_at,
};
use crate::tree_share::entries_of;
use vstd::prelude::*;

verus! {

/// The parent offset that the node at `off` names.
pub open spec fn parent_at(image: Seq<u8>, off: int) -> Option<usize> {
    match node_at(image, off) {
        Some(node) => node.parent_offset,
        None => None,
    }
}

/// Every child of the node at `off` names the page at `off` as its parent.
pub open spec fn kids_linked(image: Seq<u8>, off: int) -> bool {
    match node_at(image, off) {
        Some(node) => match node.node_type {
            NodeTypeView::Internal(children, _) => forall|i: int|
                0 <= i < children.len() ==> parent_at(image, #[trigger] children[i] as int)
                    == Some(off as usize),
            _ => true,
        },
        None => true,
    }
}

/// Every node below the node at `off`, which lies `h` levels above the
/// leaves, names as its parent the node whose child it is.
#[verifier::opaque]
pub open spec fn subtree_linked(image: Seq<u8>, off: int, h: nat) -> bool
    decreases h,
{
    h == 0 || (kids_linked(image, off) && match node_at(image, off) {
        Some(node) => match node.node_type {
            NodeTypeView::Internal(children, _) => forall|i: int|
                #![trigger children[i]]
                0 <= i < children.len() ==> subtree_linked(
                    image,
                    children[i] as int,
                    (h - 1) as nat,
                ),
            _ => true,
        },
        None => true,
    })
}

/// From `image` to `image2` the node at `off` names the parent that it
/// named, and where every node below it named as its parent the node whose
/// child it was, every node below it still does.
pub open spec fn links_kept(image: Seq<u8>, image2: Seq<u8>, off: int, h: nat) -> bool {
    &&& parent_at(image2, off) == parent_at(image, off)
    &&& subtree_linked(image, off, h) ==> subtree_linked(image2, off, h)
}

/// A tree of the height `h` in which every node but the root names as its
/// parent the node whose child it is.
pub open spec fn tree_linked(image: Seq<u8>, root: int, h: nat) -> bool {
    subtree_linked(image, root, h)
}

/// Whether every node below the root of a sound subtree names its parent
/// depends on the kind and entries of the nodes of the subtree and on the
/// parents that the nodes below its root name, and on nothing else.
pub proof fn lemma_linked_frame(
    image: Seq<u8>,
    image2: Seq<u8>,
    b: int,
    min: int,
    off: int,
    h: nat,
    lo: Option<Seq<char>>,
    hi: Option<Seq<char>>,
    root: bool,
)
    requires
        subtree_ok(image, b, min, off, h, lo, hi, root),
        forall|p: int| #[trigger]
            in_subtree(image, off, h, p) ==> type_at(image2, p) == type_at(image, p),
        forall|p: int| #[trigger]
            in_subtree(image, off, h, p) && p != off ==> parent_at(image2, p) == parent_at(
                image,
                p,
            ),
    ensures
        subtree_linked(image2, off, h) == subtree_linked(image, off, h),
    decreases h,
{
    reveal(subtree_ok);
    reveal(subtree_linked);
    assert(in_subtree(image, off, h, off)) by {
        reveal(in_subtree);
    }
    assert(type_at(image2, off) == type_at(image, off));
    if h > 0 {
        let kids = kids_at(image, off);
        let seps = seps_at(image, off);
        let g = (h - 1) as nat;
        assert forall|i: int| 0 <= i < kids.len() implies parent_at(
            image2,
            #[trigger] kids[i] as int,
        ) == parent_at(image, kids[i] as int) && subtree_linked(image2, kids[i] as int, g)
            == subtree_linked(image, kids[i] as int, g) by {
            let c = kids[i] as int;
            assert(in_subtree(image, kids[i] as int, g, c)) by {
                reveal(in_subtree);
            }
            lemma_in_child_in_parent(image, off, h, i, c);
            assert(!in_subtree(image, kids[i] as int, g, off));
            assert forall|p: int| #[trigger] in_subtree(image, c, g, p) implies type_at(image2, p)
                == type_at(image, p) by {
                lemma_in_child_in_parent(image, off, h, i, p);
            }
            assert forall|p: int| #[trigger] in_subtree(image, c, g, p) && p != c implies parent_at(
                image2,
                p,
            ) == parent_at(image, p) by {
                lemma_in_child_in_parent(image, off, h, i, p);
            }
            assert(subtree_ok(
                image,
                b,
                min,
                kids[i] as int,
                g,
                child_lo(seps, lo, i),
                child_hi(seps, hi, i),
                false,
            ));
            lemma_linked_frame(
                image,
                image2,
                b,
                min,
                c,
                g,
                child_lo(seps, lo, i),
                child_hi(seps, hi, i),
                false,
            );
        }
    }
}

/// A subtree none of whose pages has changed names its parents as it did.
pub proof fn lemma_linked_untouched(
    image: Seq<u8>,
    image2: Seq<u8>,
    b: int,
    min: int,
    off: int,
    h: nat,
    lo: Option<Seq<char>>,
    hi: Option<Seq<char>>,
    root: bool,
)
    requires
        subtree_ok(image, b, min, off, h, lo, hi, root),
        forall|p: int| #[trigger] in_subtree(image, off, h, p) ==> node_at(image2, p) == node_at(
            image,
            p,
        ),
    ensures
        subtree_linked(image2, off, h) == subtree_linked(image, off, h),
        parent_at(image2, off) == parent_at(image, off),
{
    assert(in_subtree(image, off, h, off)) by {
        reveal(in_subtree);
    }
    lemma_linked_frame(image, image2, b, min, off, h, lo, hi, root);
}

/// What handing children of the root of a sound subtree over to another
/// parent does to a page in the subtree of child `j`: its node keeps its kind
/// and entries, and its parent too where it is not the child itself.
pub proof fn lemma_relinked_page(
    image: Seq<u8>,
    image2: Seq<u8>,
    b: int,
    min: int,
    c: int,
    g: nat,
    lo: Option<Seq<char>>,
    hi: Option<Seq<char>>,
    root: bool,
    from: int,
    to: int,
    parent: usize,
    j: int,
    p: int,
)
    requires
        subtree_ok(image, b, min, c, g, lo, hi, root),
        g >= 1,
        0 <= from,
        to <= kids_at(image, c).len(),
        relinked(image, image2, kids_at(image, c), from, to, parent),
        0 <= j < kids_at(image, c).len(),
        in_subtree(image, kids_at(image, c)[j] as int, (g - 1) as nat, p),
    ensures
        type_at(image2, p) == type_at(image, p),
        p != kids_at(image, c)[j] ==> node_at(image2, p) == node_at(image, p),
{
    reveal(subtree_ok);
    let kids = kids_at(image, c);
    let seps = seps_at(image, c);
    let f = (g - 1) as nat;
    let q = kids[j] as int;
    assert(subtree_ok(
        image,
        b,
        min,
        kids[j] as int,
        f,
        child_lo(seps, lo, j),
        child_hi(seps, hi, j),
        false,
    ));
    lemma_in_subtree_valid(
        image,
        b,
        min,
        q,
        f,
        child_lo(seps, lo, j),
        child_hi(seps, hi, j),
        false,
        p,
    );
    if among(kids, from, to, p) {
        let m = choose|m: int| from <= m < to && #[trigger] kids[m] == p;
        assert(in_subtree(image, kids[m] as int, f, kids[m] as int)) by {
            reveal(in_subtree);
        }
        if m < j {
            assert(!(in_subtree(image, kids[m] as int, f, p) && in_subtree(
                image,
                kids[j] as int,
                f,
                p,
            )));
        } else if j < m {
            assert(!(in_subtree(image, kids[j] as int, f, p) && in_subtree(
                image,
                kids[m] as int,
                f,
                p,
            )));
        }
    }
}

/// What handing children of the root of a sound subtree over to another
/// parent does to child `j`: it names the new parent where it is one of
/// those handed over and the parent that it named where it is not; and below
/// it every node names its parent as it did.
pub proof fn lemma_relinked_kid(
    image: Seq<u8>,
    image2: Seq<u8>,
    b: int,
    min: int,
    c: int,
    g: nat,
    lo: Option<Seq<char>>,
    hi: Option<Seq<char>>,
    root: bool,
    from: int,
    to: int,
    parent: usize,
    j: int,
)
    requires
        subtree_ok(image, b, min, c, g, lo, hi, root),
        g >= 1,
        0 <= from,
        to <= kids_at(image, c).len(),
        relinked(image, image2, kids_at(image, c), from, to, parent),
        0 <= j < kids_at(image, c).len(),
    ensures
        parent_at(image2, kids_at(image, c)[j] as int) == (if from <= j < to {
            Some(parent)
        } else {
            parent_at(image, kids_at(image, c)[j] as int)
        }),
        type_at(image2, kids_at(image, c)[j] as int) == type_at(image, kids_at(image, c)[j] as int),
        subtree_linked(image2, kids_at(image, c)[j] as int, (g - 1) as nat) == subtree_linked(
            image,
            kids_at(image, c)[j] as int,
            (g - 1) as nat,
        ),
{
    reveal(subtree_ok);
    let kids = kids_at(image, c);
    let seps = seps_at(image, c);
    let f = (g - 1) as nat;
    let q = kids[j] as int;
    assert(subtree_ok(
        image,
        b,
        min,
        kids[j] as int,
        f,
        child_lo(seps, lo, j),
        child_hi(seps, hi, j),
        false,
    ));
    assert(in_subtree(image, kids[j] as int, f, q)) by {
        reveal(in_subtree);
    }
    // no other child lies on a page of the subtree of child `j`
    assert forall|p: int, m: int|
        0 <= m < kids.len() && m != j && #[trigger] in_subtree(image, q, f, p) implies p
            != #[trigger] kids[m] by {
        assert(in_subtree(image, kids[m] as int, f, kids[m] as int)) by {
            reveal(in_subtree);
        }
        if p == kids[m] {
            if m < j {
                assert(!(in_subtree(image, kids[m] as int, f, p) && in_subtree(
                    image,
                    kids[j] as int,
                    f,
                    p,
                )));
            } else {
                assert(!(in_subtree(image, kids[j] as int, f, p) && in_subtree(
                    image,
                    kids[m] as int,
                    f,
                    p,
                )));
            }
        }
    }
    assert(among(kids, from, to, q) == (from <= j < to)) by {
        if among(kids, from, to, q) {
            let m = choose|m: int| from <= m < to && #[trigger] kids[m] == q;
            if m != j {
                assert(q != kids[m]);
            }
        }
        if from <= j < to {
            assert(kids[j] == q);
        }
    }
    assert forall|p: int| #[trigger] in_subtree(image, q, f, p) && p != q implies node_at(
        image2,
        p,
    ) == node_at(image, p) by {
        lemma_in_subtree_valid(
            image,
            b,
            min,
            q,
            f,
            child_lo(seps, lo, j),
            child_hi(seps, hi, j),
            false,
            p,
        );
        if among(kids, from, to, p) {
            let m = choose|m: int| from <= m < to && #[trigger] kids[m] == p;
            if m != j {
                assert(p != kids[m]);
            }
        }
    }
    lemma_linked_frame(
        image,
        image2,
        b,
        min,
        q,
        f,
        child_lo(seps, lo, j),
        child_hi(seps, hi, j),
        false,
    );
}

/// The links are kept where the page at `off` is the only one that has
/// changed and the node names the parent that it named.
pub proof fn lemma_links_leaf(image: Seq<u8>, image2: Seq<u8>, off: int)
    requires
        parent_at(image2, off) == parent_at(image, off),
    ensures
        links_kept(image, image2, off, 0),
{
    reveal(subtree_linked);
}

/// The links are kept below a node where a pair has gone into the subtree
/// of the child into which the search descends and the links are kept below
/// that child.
pub proof fn lemma_links_ascend(
    image: Seq<u8>,
    image2: Seq<u8>,
    b: int,
    min: int,
    off: int,
    h: nat,
    lo: Option<Seq<char>>,
    hi: Option<Seq<char>>,
    root: bool,
    node: NodeView,
    k: Seq<char>,
    v: Seq<char>,
    t: int,
)
    requires
        insert_ready(image, b, min, off, h, lo, hi, root, node, k, v),
        node.node_type is Internal,
        t == node.node_type->Internal_0[child_slot(node.node_type->Internal_1, k)],
        grows_within(image, image2, t, (h - 1) as nat),
        links_kept(image, image2, t, (h - 1) as nat),
    ensures
        links_kept(image, image2, off, h),
{
    lemma_insert_descend(image, b, min, off, h, lo, hi, root, node, k, v);
    reveal(insert_ready);
    assert(kids_at(image, off)[child_slot(node.node_type->Internal_1, k)] == t);
    lemma_kids_kept(image, image2, b, min, off, h, lo, hi, root, t);
}

/// Where nothing has changed but within the subtree of one child, the node
/// is what it was, and the links are kept below it where they are kept below
/// that child.
pub proof fn lemma_kids_kept(
    image: Seq<u8>,
    image2: Seq<u8>,
    b: int,
    min: int,
    off: int,
    h: nat,
    lo: Option<Seq<char>>,
    hi: Option<Seq<char>>,
    root: bool,
    t: int,
)
    requires
        subtree_ok(image, b, min, off, h, lo, hi, root),
        h > 0,
        exists|j: int| 0 <= j < kids_at(image, off).len() && #[trigger] kids_at(image, off)[j] == t,
        grows_within(image, image2, t, (h - 1) as nat),
        links_kept(image, image2, t, (h - 1) as nat),
    ensures
        node_at(image2, off) == node_at(image, off),
        links_kept(image, image2, off, h),
{
    reveal(subtree_ok);
    let kids = kids_at(image, off);
    let seps = seps_at(image, off);
    let g = (h - 1) as nat;
    let j = choose|j: int| 0 <= j < kids.len() && #[trigger] kids[j] == t;
    lemma_node_at_within(image, off);
    assert(!in_subtree(image, kids[j] as int, g, off));
    assert(node_at(image2, off) == node_at(image, off));
    if subtree_linked(image, off, h) {
        reveal(subtree_linked);
        assert forall|i: int| 0 <= i < kids.len() implies parent_at(
            image2,
            #[trigger] kids[i] as int,
        ) == Some(off as usize) && subtree_linked(image2, kids[i] as int, g) by {
            assert(parent_at(image, kids[i] as int) == Some(off as usize));
            assert(subtree_linked(image, kids[i] as int, g));
            if kids[i] != t {
                assert(subtree_ok(
                    image,
                    b,
                    min,
                    kids[i] as int,
                    g,
                    child_lo(seps, lo, i),
                    child_hi(seps, hi, i),
                    false,
                ));
                assert forall|p: int| #[trigger]
                    in_subtree(image, kids[i] as int, g, p) implies node_at(image2, p) == node_at(
                    image,
                    p,
                ) by {
                    lemma_in_subtree_valid(
                        image,
                        b,
                        min,
                        kids[i] as int,
                        g,
                        child_lo(seps, lo, i),
                        child_hi(seps, hi, i),
                        false,
                        p,
                    );
                    if i < j {
                        assert(!(in_subtree(image, kids[i] as int, g, p) && in_subtree(
                            image,
                            kids[j] as int,
                            g,
                            p,
                        )));
                    } else {
                        assert(!(in_subtree(image, kids[j] as int, g, p) && in_subtree(
                            image,
                            kids[i] as int,
                            g,
                            p,
                        )));
                    }
                }
                lemma_linked_untouched(
                    image,
                    image2,
                    b,
                    min,
                    kids[i] as int,
                    g,
                    child_lo(seps, lo, i),
                    child_hi(seps, hi, i),
                    false,
                );
            }
        }
    }
}

/// What the children of the root of a sound and linked subtree are like
/// once some of them have been handed over to another parent, from `entry`
/// to `image0`, and pages outside the subtree, or its root, have changed
/// after that, from `image0` to `image3`: child `j` names the new parent where
/// it was handed over and the root where it was not, and below it every node
/// names its parent.
pub proof fn lemma_kid_after(
    entry: Seq<u8>,
    image0: Seq<u8>,
    image3: Seq<u8>,
    b: int,
    min: int,
    c: int,
    g: nat,
    lo: Option<Seq<char>>,
    hi: Option<Seq<char>>,
    root: bool,
    from: int,
    to: int,
    parent: usize,
    j: int,
)
    requires
        subtree_ok(entry, b, min, c, g, lo, hi, root),
        g >= 1,
        subtree_linked(entry, c, g),
        0 <= from,
        to <= kids_at(entry, c).len(),
        relinked(entry, image0, kids_at(entry, c), from, to, parent),
        forall|p: int| #[trigger]
            in_subtree(entry, c, g, p) && p != c ==> node_at(image3, p) == node_at(image0, p),
        0 <= j < kids_at(entry, c).len(),
    ensures
        parent_at(image3, kids_at(entry, c)[j] as int) == Some(
            if from <= j < to {
                parent
            } else {
                c as usize
            },
        ),
        subtree_linked(image3, kids_at(entry, c)[j] as int, (g - 1) as nat),
{
    let kids = kids_at(entry, c);
    let seps = seps_at(entry, c);
    let f = (g - 1) as nat;
    let q = kids[j] as int;
    lemma_relinked_kid(entry, image0, b, min, c, g, lo, hi, root, from, to, parent, j);
    assert(node_at(entry, c) is Some && node_at(entry, c)->Some_0.node_type is Internal) by {
        reveal(subtree_ok);
    }
    assert(parent_at(entry, kids[j] as int) == Some(c as usize) && subtree_linked(
        entry,
        kids[j] as int,
        f,
    )) by {
        reveal(subtree_linked);
        reveal(subtree_ok);
    }
    assert(subtree_ok(
        entry,
        b,
        min,
        kids[j] as int,
        f,
        child_lo(seps, lo, j),
        child_hi(seps, hi, j),
        false,
    ) && !in_subtree(entry, kids[j] as int, f, c)) by {
        reveal(subtree_ok);
    }
    assert(in_subtree(entry, q, f, q)) by {
        reveal(in_subtree);
    }
    assert forall|p: int| #[trigger] in_subtree(entry, q, f, p) implies node_at(image3, p)
        == node_at(image0, p) by {
        lemma_in_child_in_parent(entry, c, g, j, p);
    }
    // from `image0` to `image3` by way of the shape that the two share with `entry`
    assert forall|p: int| #[trigger] in_subtree(entry, q, f, p) implies type_at(image3, p)
        == type_at(entry, p) by {
        lemma_relinked_page(entry, image0, b, min, c, g, lo, hi, root, from, to, parent, j, p);
    }
    assert forall|p: int| #[trigger] in_subtree(entry, q, f, p) && p != q implies parent_at(
        image3,
        p,
    ) == parent_at(entry, p) by {
        lemma_relinked_page(entry, image0, b, min, c, g, lo, hi, root, from, to, parent, j, p);
    }
    lemma_linked_frame(
        entry,
        image3,
        b,
        min,
        q,
        f,
        child_lo(seps, lo, j),
        child_hi(seps, hi, j),
        false,
    );
}

/// One half of a divided node names its parents: where every node below
/// the node at `c` named its parent in `entry`, the children that go to the
/// sibling were told where it stands, from `entry` to `image0`, and the half
/// was written to the page at `x`, its own or that of the sibling, in
/// `image3`, every node below the half names its parent.
pub proof fn lemma_side_linked(
    entry: Seq<u8>,
    image0: Seq<u8>,
    image3: Seq<u8>,
    b: int,
    min: int,
    c: int,
    g: nat,
    lo: Option<Seq<char>>,
    hi: Option<Seq<char>>,
    root: bool,
    ahead: int,
    x: int,
    right: bool,
)
    requires
        2 <= b,
        subtree_ok(entry, b, min, c, g, lo, hi, root),
        subtree_linked(entry, c, g),
        handed_over(entry, image0, b, c, ahead),
        is_full(node_at(entry, c)->Some_0, b),
        forall|p: int| #[trigger]
            in_subtree(entry, c, g, p) && p != c ==> node_at(image3, p) == node_at(image0, p),
        type_at(image3, x) == Some(
            if right {
                node_at(entry, c)->Some_0.split_right(b).node_type
            } else {
                node_at(entry, c)->Some_0.split_left(b).node_type
            },
        ),
        x == (if right {
            sibling_place(entry, ahead) as int
        } else {
            c
        }),
        0 <= c <= usize::MAX,
    ensures
        subtree_linked(image3, x, g),
{
    reveal(subtree_linked);
    if g > 0 {
        assert(node_at(entry, c) is Some && node_at(entry, c)->Some_0.node_type is Internal) by {
            reveal(subtree_ok);
        }
        let whole = node_at(entry, c)->Some_0;
        let gkids = kids_at(entry, c);
        let parent = sibling_place(entry, ahead);
        assert(relinked(entry, image0, gkids, b, gkids.len() as int, parent)) by {
            reveal(handed_over);
        }
        let mine = kids_at(image3, x);
        let base = if right {
            b
        } else {
            0
        };
        assert(mine == (if right {
            gkids.subrange(b, gkids.len() as int)
        } else {
            gkids.subrange(0, b)
        }));
        assert forall|i: int| 0 <= i < mine.len() implies parent_at(
            image3,
            #[trigger] mine[i] as int,
        ) == Some(x as usize) && subtree_linked(image3, mine[i] as int, (g - 1) as nat) by {
            assert(mine[i] == gkids[base + i]);
            lemma_kid_after(
                entry,
                image0,
                image3,
                b,
                min,
                c,
                g,
                lo,
                hi,
                root,
                b,
                gkids.len() as int,
                parent,
                base + i,
            );
        }
    }
}

/// The links are kept below a node one of whose children has been divided,
/// after those of its children that go to the sibling had been told where it
/// stands.
pub proof fn lemma_links_divided(
    entry: Seq<u8>,
    image0: Seq<u8>,
    image1: Seq<u8>,
    image2: Seq<u8>,
    image3: Seq<u8>,
    b: int,
    min: int,
    off: int,
    h: nat,
    lo: Option<Seq<char>>,
    hi: Option<Seq<char>>,
    root: bool,
    node: NodeView,
    k: Seq<char>,
    v: Seq<char>,
    sib: usize,
    left: NodeView,
    right: NodeView,
    grown: NodeView,
)
    requires
        insert_ready(entry, b, min, off, h, lo, hi, root, node, k, v),
        node.node_type is Internal,
        handed_over(
            entry,
            image0,
            b,
            node.node_type->Internal_0[child_slot(node.node_type->Internal_1, k)] as int,
            1,
        ),
        split_written(image0, image1, image2, image3, b, off, node, k, sib, left, right, grown),
    ensures
        links_kept(entry, image3, off, h),
{
    crate::relink::lemma_handed_ready(entry, image0, b, min, off, h, lo, hi, root, node, k, v, 1);
    crate::insert_steps::lemma_ready_internal(entry, b, min, off, h, lo, hi, root, node, k, v);
    lemma_insert_descend(entry, b, min, off, h, lo, hi, root, node, k, v);
    let kids = node.node_type->Internal_0;
    let seps = node.node_type->Internal_1;
    let idx = child_slot(seps, k);
    let c = kids[idx] as int;
    let g = (h - 1) as nat;
    let clo = child_lo(seps, lo, idx);
    let chi = child_hi(seps, hi, idx);
    let kids3 = kids.insert(idx + 1, sib);
    let whole = node_at(entry, c)->Some_0;
    assert(subtree_ok(entry, b, min, off, h, lo, hi, root) && 2 <= b) by {
        reveal(insert_ready);
    }
    crate::relink::lemma_handed_below(entry, image0, b, min, c, g, clo, chi, false, 1);
    assert forall|p: int| p % 4096 == 0 && p != off && p != c && p != sib implies #[trigger] node_at(
        image3,
        p,
    ) == node_at(image0, p) by {
        assert(node_at(image3, p) == node_at(image2, p));
        assert(node_at(image2, p) == node_at(image1, p));
        assert(node_at(image1, p) == node_at(image0, p));
    }
    assert(node_at(image3, c) == node_at(image2, c));
    assert(node_at(image2, c) == node_at(image1, c));
    assert(node_at(image3, sib as int) == node_at(image2, sib as int));
    assert(kids_at(image3, off) == kids3);
    if subtree_linked(entry, off, h) {
        reveal(subtree_linked);
        assert forall|i: int| 0 <= i < kids3.len() implies parent_at(
            image3,
            #[trigger] kids3[i] as int,
        ) == Some(off as usize) && subtree_linked(image3, kids3[i] as int, g) by {
            assert(parent_at(entry, kids[idx] as int) == Some(off as usize));
            assert(subtree_linked(entry, kids[idx] as int, g));
            if i == idx || i == idx + 1 {
                assert forall|p: int| #[trigger] in_subtree(entry, c, g, p) && p != c implies node_at(
                    image3,
                    p,
                ) == node_at(image0, p) by {
                    lemma_in_subtree_valid(entry, b, min, c, g, clo, chi, false, p);
                    lemma_in_child_in_parent(entry, off, h, idx, p);
                    reveal(subtree_ok);
                    assert(!in_subtree(entry, kids[idx] as int, g, off));
                }
                lemma_side_linked(
                    entry,
                    image0,
                    image3,
                    b,
                    min,
                    c,
                    g,
                    clo,
                    chi,
                    false,
                    1,
                    kids3[i] as int,
                    i == idx + 1,
                );
            } else {
                let o = if i < idx {
                    i
                } else {
                    i - 1
                };
                assert(kids3[i] == kids[o]);
                assert(parent_at(entry, kids[o] as int) == Some(off as usize));
                assert(subtree_linked(entry, kids[o] as int, g));
                lemma_other_untouched(entry, image0, image3, b, min, off, h, lo, hi, root, idx, o, sib as int);
            }
        }
    }
}

/// A child of a sound node is as it was, with all below it, where nothing
/// has changed but the node itself, pages in the subtree of another child,
/// and pages behind the end of the image.
pub proof fn lemma_other_untouched(
    entry: Seq<u8>,
    image0: Seq<u8>,
    image3: Seq<u8>,
    b: int,
    min: int,
    off: int,
    h: nat,
    lo: Option<Seq<char>>,
    hi: Option<Seq<char>>,
    root: bool,
    idx: int,
    o: int,
    end: int,
)
    requires
        subtree_ok(entry, b, min, off, h, lo, hi, root),
        h > 0,
        0 <= idx < kids_at(entry, off).len(),
        0 <= o < kids_at(entry, off).len(),
        o != idx,
        end >= entry.len(),
        forall|p: int|
            p % 4096 == 0 && !in_subtree(
                entry,
                kids_at(entry, off)[idx] as int,
                (h - 1) as nat,
                p,
            ) ==> #[trigger] node_at(image0, p) == node_at(entry, p),
        forall|p: int|
            p % 4096 == 0 && p != off && p != kids_at(entry, off)[idx] && p != end
                ==> #[trigger] node_at(image3, p) == node_at(image0, p),
    ensures
        parent_at(image3, kids_at(entry, off)[o] as int) == parent_at(
            entry,
            kids_at(entry, off)[o] as int,
        ),
        subtree_linked(image3, kids_at(entry, off)[o] as int, (h - 1) as nat) == subtree_linked(
            entry,
            kids_at(entry, off)[o] as int,
            (h - 1) as nat,
        ),
{
    reveal(subtree_ok);
    let kids = kids_at(entry, off);
    let seps = seps_at(entry, off);
    let g = (h - 1) as nat;
    assert(subtree_ok(
        entry,
        b,
        min,
        kids[o] as int,
        g,
        child_lo(seps, lo, o),
        child_hi(seps, hi, o),
        false,
    ));
    assert(in_subtree(entry, kids[idx] as int, g, kids[idx] as int)) by {
        reveal(in_subtree);
    }
    assert forall|p: int| #[trigger] in_subtree(entry, kids[o] as int, g, p) implies node_at(
        image3,
        p,
    ) == node_at(entry, p) by {
        lemma_in_subtree_valid(
            entry,
            b,
            min,
            kids[o] as int,
            g,
            child_lo(seps, lo, o),
            child_hi(seps, hi, o),
            false,
            p,
        );
        assert(!in_subtree(entry, kids[o] as int, g, off));
        if o < idx {
            assert(!(in_subtree(entry, kids[o] as int, g, p) && in_subtree(
                entry,
                kids[idx] as int,
                g,
                p,
            )));
        } else {
            assert(!(in_subtree(entry, kids[idx] as int, g, p) && in_subtree(
                entry,
                kids[o] as int,
                g,
                p,
            )));
        }
        assert(node_at(image3, p) == node_at(image0, p));
    }
    lemma_linked_untouched(
        entry,
        image3,
        b,
        min,
        kids[o] as int,
        g,
        child_lo(seps, lo, o),
        child_hi(seps, hi, o),
        false,
    );
}

/// The links are kept below a node one of whose children has been divided
/// before a pair went into one of the halves, where the links are kept below
/// that half.
pub proof fn lemma_links_split(
    entry: Seq<u8>,
    image0: Seq<u8>,
    image1: Seq<u8>,
    image2: Seq<u8>,
    image3: Seq<u8>,
    image4: Seq<u8>,
    b: int,
    min: int,
    off: int,
    h: nat,
    lo: Option<Seq<char>>,
    hi: Option<Seq<char>>,
    root: bool,
    node: NodeView,
    k: Seq<char>,
    v: Seq<char>,
    sib: usize,
    left: NodeView,
    right: NodeView,
    grown: NodeView,
    t: int,
)
    requires
        insert_ready(entry, b, min, off, h, lo, hi, root, node, k, v),
        node.node_type is Internal,
        handed_over(
            entry,
            image0,
            b,
            node.node_type->Internal_0[child_slot(node.node_type->Internal_1, k)] as int,
            1,
        ),
        split_written(image0, image1, image2, image3, b, off, node, k, sib, left, right, grown),
        t == node.node_type->Internal_0[child_slot(node.node_type->Internal_1, k)] || t == sib,
        grows_within(image3, image4, t, (h - 1) as nat),
        links_kept(image3, image4, t, (h - 1) as nat),
    ensures
        links_kept(entry, image4, off, h),
{
    crate::relink::lemma_handed_ready(entry, image0, b, min, off, h, lo, hi, root, node, k, v, 1);
    lemma_links_divided(
        entry,
        image0,
        image1,
        image2,
        image3,
        b,
        min,
        off,
        h,
        lo,
        hi,
        root,
        node,
        k,
        v,
        sib,
        left,
        right,
        grown,
    );
    crate::insert_steps::lemma_split_written(
        image0,
        image1,
        image2,
        image3,
        b,
        min,
        off,
        h,
        lo,
        hi,
        root,
        node,
        k,
        v,
        sib,
        left,
        right,
        grown,
    );
    crate::tree_insert::lemma_insert_split_descend(
        image0,
        image3,
        b,
        min,
        off,
        h,
        lo,
        hi,
        root,
        node,
        sib,
        k,
        v,
    );
    lemma_insert_descend(image0, b, min, off, h, lo, hi, root, node, k, v);
    let kids = node.node_type->Internal_0;
    let idx = child_slot(node.node_type->Internal_1, k);
    let c = kids[idx] as int;
    let kids3 = kids.insert(idx + 1, sib);
    assert(0 <= idx < kids.len() && node_at(image0, off) == Some(node)) by {
        reveal(insert_ready);
    }
    assert(kids_at(image3, off) == kids3);
    assert(kids3[idx] == kids[idx] && kids3[idx + 1] == sib);
    assert(exists|j: int| 0 <= j < kids3.len() && #[trigger] kids3[j] == t) by {
        if t == c {
            assert(kids3[idx] == t);
        } else {
            assert(kids3[idx + 1] == t);
        }
    }
    lemma_kids_kept(image3, image4, b, min, off, h, lo, hi, root, t);
}

/// Once a pair has gone into a subtree, nothing has changed but within the
/// subtree.
pub proof fn lemma_inserted_grows(
    image: Seq<u8>,
    image2: Seq<u8>,
    b: int,
    min: int,
    off: int,
    h: nat,
    lo: Option<Seq<char>>,
    hi: Option<Seq<char>>,
    root: bool,
    k: Seq<char>,
    v: Seq<char>,
)
    requires
        inserted_below(image, image2, b, min, off, h, lo, hi, root, k, v),
    ensures
        grows_within(image, image2, off, h),
{
    reveal(inserted_below);
}

/// Once a key has been taken out of a subtree, nothing has changed but
/// within the subtree.
pub proof fn lemma_deleted_grows(
    image: Seq<u8>,
    image2: Seq<u8>,
    b: int,
    off: int,
    h: nat,
    lo: Option<Seq<char>>,
    hi: Option<Seq<char>>,
    root: bool,
    k: Seq<char>,
)
    requires
        deleted_below(image, image2, b, off, h, lo, hi, root, k),
    ensures
        grows_within(image, image2, off, h),
{
    reveal(deleted_below);
}

/// The links are kept below a node where a key has been taken out of the
/// subtree of the child into which the search descends and the links are kept
/// below that child.
pub proof fn lemma_links_delete_ascend(
    image: Seq<u8>,
    image2: Seq<u8>,
    b: int,
    off: int,
    h: nat,
    lo: Option<Seq<char>>,
    hi: Option<Seq<char>>,
    root: bool,
    node: NodeView,
    k: Seq<char>,
    t: int,
)
    requires
        delete_ready(image, b, off, h, lo, hi, root),
        node_at(image, off) == Some(node),
        node.node_type is Internal,
        t == node.node_type->Internal_0[child_slot(node.node_type->Internal_1, k)],
        grows_within(image, image2, t, (h - 1) as nat),
        links_kept(image, image2, t, (h - 1) as nat),
    ensures
        links_kept(image, image2, off, h),
{
    crate::delete_steps::lemma_gone_internal(image, b, off, h, lo, hi, root, node, k);
    reveal(delete_ready);
    let kids = node.node_type->Internal_0;
    let idx = child_slot(node.node_type->Internal_1, k);
    assert(kids_at(image, off) == kids);
    assert(kids_at(image, off)[idx] == t);
    lemma_kids_kept(image, image2, b, 0, off, h, lo, hi, root, t);
}

/// What a child of the two children `low` and `low + 1` of a sound and
/// linked node is like once some of their children have been handed over,
/// from `image3` to `image4`, and nothing has changed after that, up to
/// `image5`, but the node, the two, and pages behind the end: child `j` of the
/// children of both names the new parent where it was handed over and its own
/// where it was not, and below it every node names its parent.
pub proof fn lemma_joint_after(
    image3: Seq<u8>,
    image4: Seq<u8>,
    image5: Seq<u8>,
    b: int,
    min: int,
    off: int,
    h: nat,
    lo: Option<Seq<char>>,
    hi: Option<Seq<char>>,
    root: bool,
    low: int,
    from: int,
    to: int,
    parent: usize,
    j: int,
)
    requires
        subtree_ok(image3, b, min, off, h, lo, hi, root),
        h >= 2,
        0 <= low,
        low + 1 < kids_at(image3, off).len(),
        subtree_linked(image3, off, h),
        0 <= from,
        to <= joint_kids(
            image3,
            kids_at(image3, off)[low] as int,
            kids_at(image3, off)[low + 1] as int,
        ).len(),
        relinked(
            image3,
            image4,
            joint_kids(
                image3,
                kids_at(image3, off)[low] as int,
                kids_at(image3, off)[low + 1] as int,
            ),
            from,
            to,
            parent,
        ),
        forall|p: int|
            p % 4096 == 0 && p + 4096 <= image3.len() && p != off && p != kids_at(
                image3,
                off,
            )[low] && p != kids_at(image3, off)[low + 1] ==> #[trigger] node_at(image5, p)
                == node_at(image4, p),
        0 <= j < joint_kids(
            image3,
            kids_at(image3, off)[low] as int,
            kids_at(image3, off)[low + 1] as int,
        ).len(),
    ensures
        parent_at(
            image5,
            joint_kids(
                image3,
                kids_at(image3, off)[low] as int,
                kids_at(image3, off)[low + 1] as int,
            )[j] as int,
        ) == Some(
            if from <= j < to {
                parent
            } else if j < kids_at(image3, kids_at(image3, off)[low] as int).len() {
                kids_at(image3, off)[low]
            } else {
                kids_at(image3, off)[low + 1]
            },
        ),
        subtree_linked(
            image5,
            joint_kids(
                image3,
                kids_at(image3, off)[low] as int,
                kids_at(image3, off)[low + 1] as int,
            )[j] as int,
            (h - 2) as nat,
        ),
{
    let kids = kids_at(image3, off);
    let seps = seps_at(image3, off);
    let both = joint_kids(image3, kids[low] as int, kids[low + 1] as int);
    let n = kids_at(image3, kids[low] as int).len() as int;
    let g = (h - 1) as nat;
    let f = (h - 2) as nat;
    let q = both[j] as int;
    let i = if j < n {
        low
    } else {
        low + 1
    };
    let at = if j < n {
        j
    } else {
        j - n
    };
    crate::relink::lemma_joint_kid(image3, b, min, off, h, lo, hi, root, low, j);
    crate::relink::lemma_grandchildren(image3, b, min, off, h, lo, hi, root, i, at);
    let gk = kids_at(image3, kids[i] as int);
    let gs = seps_at(image3, kids[i] as int);
    let qlo = child_lo(gs, child_lo(seps, lo, i), at);
    let qhi = child_hi(gs, child_hi(seps, hi, i), at);
    assert(q == gk[at]);
    lemma_node_at_within(image3, q);
    assert(subtree_ok(image3, b, min, kids[i] as int, g, child_lo(seps, lo, i), child_hi(
        seps,
        hi,
        i,
    ), false) && node_at(image3, off) is Some) by {
        reveal(subtree_ok);
    }
    assert(parent_at(image3, q) == Some(kids[i]) && subtree_linked(image3, q, f)) by {
        reveal(subtree_linked);
        reveal(subtree_ok);
        assert(subtree_linked(image3, kids[i] as int, g));
        assert(parent_at(image3, gk[at] as int) == Some(kids[i] as int as usize));
        assert(subtree_linked(image3, gk[at] as int, f));
    }
    assert(among(both, from, to, q) == (from <= j < to)) by {
        if among(both, from, to, q) {
            let m = choose|m: int| from <= m < to && #[trigger] both[m] == q;
            if m != j {
                crate::relink::lemma_joint_apart(
                    image3,
                    b,
                    min,
                    off,
                    h,
                    lo,
                    hi,
                    root,
                    low,
                    j,
                    m,
                    q,
                );
            }
        }
        if from <= j < to {
            assert(both[j] == q);
        }
    }
    assert(node_at(image5, q) == node_at(image4, q));
    assert forall|p: int| #[trigger] in_subtree(image3, q, f, p) implies type_at(image5, p)
        == type_at(image3, p) && (p != q ==> node_at(image5, p) == node_at(image3, p)) by {
        lemma_in_subtree_valid(image3, b, min, q, f, qlo, qhi, false, p);
        reveal(subtree_ok);
        lemma_in_child_in_parent(image3, kids[i] as int, g, at, p);
        lemma_in_child_in_parent(image3, off, h, i, p);
        assert(!in_subtree(image3, kids[i] as int, g, off));
        assert(!in_subtree(image3, gk[at] as int, f, kids[i] as int));
        let other = if i == low {
            low + 1
        } else {
            low
        };
        assert(in_subtree(image3, kids[other] as int, g, kids[other] as int)) by {
            reveal(in_subtree);
        }
        assert(!(in_subtree(image3, kids[low] as int, g, p) && in_subtree(
            image3,
            kids[low + 1] as int,
            g,
            p,
        )));
        assert(node_at(image5, p) == node_at(image4, p));
        if p != q {
            if among(both, from, to, p) {
                let m = choose|m: int| from <= m < to && #[trigger] both[m] == p;
                crate::relink::lemma_joint_apart(
                    image3,
                    b,
                    min,
                    off,
                    h,
                    lo,
                    hi,
                    root,
                    low,
                    j,
                    m,
                    p,
                );
            }
        }
    }
    lemma_linked_frame(image3, image5, b, min, q, f, qlo, qhi, false);
}

/// A child of a sound node that is neither child `low` nor child `low + 1`
/// is as it was, with all below it, where nothing has changed but the node
/// itself, pages in the subtrees of those two children, and pages behind the
/// end of the image.
pub proof fn lemma_third_untouched(
    image3: Seq<u8>,
    image5: Seq<u8>,
    b: int,
    off: int,
    h: nat,
    lo: Option<Seq<char>>,
    hi: Option<Seq<char>>,
    root: bool,
    low: int,
    o: int,
)
    requires
        subtree_ok(image3, b, 0, off, h, lo, hi, root),
        h > 0,
        0 <= low,
        low + 1 < kids_at(image3, off).len(),
        0 <= o < kids_at(image3, off).len(),
        o != low,
        o != low + 1,
        forall|p: int|
            p % 4096 == 0 && p + 4096 <= image3.len() && p != off && !in_subtree(
                image3,
                kids_at(image3, off)[low] as int,
                (h - 1) as nat,
                p,
            ) && !in_subtree(image3, kids_at(image3, off)[low + 1] as int, (h - 1) as nat, p)
                ==> #[trigger] node_at(image5, p) == node_at(image3, p),
    ensures
        parent_at(image5, kids_at(image3, off)[o] as int) == parent_at(
            image3,
            kids_at(image3, off)[o] as int,
        ),
        subtree_linked(image5, kids_at(image3, off)[o] as int, (h - 1) as nat) == subtree_linked(
            image3,
            kids_at(image3, off)[o] as int,
            (h - 1) as nat,
        ),
{
    reveal(subtree_ok);
    let kids = kids_at(image3, off);
    let seps = seps_at(image3, off);
    let g = (h - 1) as nat;
    assert(subtree_ok(
        image3,
        b,
        0,
        kids[o] as int,
        g,
        child_lo(seps, lo, o),
        child_hi(seps, hi, o),
        false,
    ));
    assert forall|p: int| #[trigger] in_subtree(image3, kids[o] as int, g, p) implies node_at(
        image5,
        p,
    ) == node_at(image3, p) by {
        lemma_in_subtree_valid(
            image3,
            b,
            0,
            kids[o] as int,
            g,
            child_lo(seps, lo, o),
            child_hi(seps, hi, o),
            false,
            p,
        );
        assert(!in_subtree(image3, kids[o] as int, g, off));
        crate::tree_share::lemma_not_below(image3, b, off, h, lo, hi, root, o, low, p);
        crate::tree_share::lemma_not_below(image3, b, off, h, lo, hi, root, o, low + 1, p);
    }
    lemma_linked_untouched(
        image3,
        image5,
        b,
        0,
        kids[o] as int,
        g,
        child_lo(seps, lo, o),
        child_hi(seps, hi, o),
        false,
    );
}

/// The links are kept below a node two of whose children have been merged,
/// after their children had been told where the merged node stands.
pub proof fn lemma_links_merge(
    image0: Seq<u8>,
    image3: Seq<u8>,
    handed: Seq<u8>,
    image4: Seq<u8>,
    image5: Seq<u8>,
    b: int,
    min: int,
    off: int,
    h: nat,
    lo: Option<Seq<char>>,
    hi: Option<Seq<char>>,
    root: bool,
    k: Seq<char>,
    node: NodeView,
    low: int,
    x: int,
    first: NodeView,
    second: NodeView,
    m: usize,
    merged: NodeView,
    shrunk: NodeView,
)
    requires
        join_ready(image0, image3, b, min, off, h, lo, hi, root, k, node, low, x, first, second),
        join_ready(image0, handed, b, min, off, h, lo, hi, root, k, node, low, x, first, second),
        joined_over(
            image3,
            handed,
            node.node_type->Internal_0[low] as int,
            node.node_type->Internal_0[low + 1] as int,
            0,
            entries_of(first) + entries_of(second),
            m,
        ),
        first.node_type is Internal <==> second.node_type is Internal,
        merge_written(handed, image4, image5, b, off, node, low, m, merged, shrunk),
    ensures
        links_kept(image3, image5, off, h),
{
    reveal(join_ready);
    reveal(deleted_below);
    reveal(joined_over);
    let kids = node.node_type->Internal_0;
    let seps = node.node_type->Internal_1;
    let g = (h - 1) as nat;
    let kids5 = kids.remove(low + 1).update(low, m);
    assert(kids_at(image3, off) == kids && kids_at(image5, off) == kids5);
    lemma_node_at_within(image3, off);
    assert(handed.len() == image3.len());
    assert(node_at(image5, m as int) == node_at(image4, m as int));
    assert forall|p: int|
        p % 4096 == 0 && p + 4096 <= image3.len() && p != off implies #[trigger] node_at(
        image5,
        p,
    ) == node_at(handed, p) by {
        assert(node_at(image5, p) == node_at(image4, p));
        assert(node_at(image4, p) == node_at(handed, p));
    }
    if subtree_linked(image3, off, h) {
        assert(subtree_ok(
            image3,
            b,
            0,
            kids[low] as int,
            g,
            child_lo(seps, lo, low),
            child_hi(seps, hi, low),
            false,
        ) && parent_at(image3, kids[low] as int) == Some(off as usize)) by {
            reveal(subtree_ok);
            reveal(subtree_linked);
        }
        assert(first.node_type is Internal ==> h >= 2) by {
            reveal(subtree_ok);
        }
        assert forall|i: int| 0 <= i < kids5.len() implies parent_at(
            image5,
            #[trigger] kids5[i] as int,
        ) == Some(off as usize) && subtree_linked(image5, kids5[i] as int, g) by {
            if i == low {
                if first.node_type is Internal {
                    let both = joint_kids(image3, kids[low] as int, kids[low + 1] as int);
                    assert(kids_at(image5, m as int) == both);
                    assert forall|j: int| 0 <= j < both.len() implies parent_at(
                        image5,
                        #[trigger] both[j] as int,
                    ) == Some(m) && subtree_linked(image5, both[j] as int, (g - 1) as nat) by {
                        lemma_joint_after(
                            image3,
                            handed,
                            image5,
                            b,
                            0,
                            off,
                            h,
                            lo,
                            hi,
                            root,
                            low,
                            0,
                            both.len() as int,
                            m,
                            j,
                        );
                    }
                    assert(subtree_linked(image5, m as int, g)) by {
                        reveal(subtree_linked);
                    }
                } else {
                    assert(subtree_linked(image5, m as int, g)) by {
                        reveal(subtree_linked);
                        reveal(subtree_ok);
                    }
                }
            } else {
                let o = if i < low {
                    i
                } else {
                    i + 1
                };
                assert(kids5[i] == kids[o]);
                assert(parent_at(image3, kids[o] as int) == Some(off as usize) && subtree_linked(
                    image3,
                    kids[o] as int,
                    g,
                )) by {
                    reveal(subtree_linked);
                }
                lemma_pair_frame(
                    image3,
                    handed,
                    image5,
                    b,
                    off,
                    h,
                    lo,
                    hi,
                    root,
                    low,
                    0,
                    entries_of(first) + entries_of(second),
                    m,
                );
                lemma_third_untouched(image3, image5, b, off, h, lo, hi, root, low, o);
            }
        }
        assert(subtree_linked(image5, off, h)) by {
            reveal(subtree_linked);
        }
    }
}

/// Where children of the children `low` and `low + 1` of a sound node have
/// been handed over, and nothing has changed after that but the node, the
/// two, and pages behind the end, every page that is neither the node nor
/// lies in the subtree of one of the two is what it was.
pub proof fn lemma_pair_frame(
    image3: Seq<u8>,
    handed: Seq<u8>,
    image5: Seq<u8>,
    b: int,
    off: int,
    h: nat,
    lo: Option<Seq<char>>,
    hi: Option<Seq<char>>,
    root: bool,
    low: int,
    from: int,
    to: int,
    parent: usize,
)
    requires
        subtree_ok(image3, b, 0, off, h, lo, hi, root),
        h > 0,
        0 <= low,
        low + 1 < kids_at(image3, off).len(),
        joined_over(
            image3,
            handed,
            kids_at(image3, off)[low] as int,
            kids_at(image3, off)[low + 1] as int,
            from,
            to,
            parent,
        ),
        forall|p: int|
            p % 4096 == 0 && p + 4096 <= image3.len() && p != off && p != kids_at(
                image3,
                off,
            )[low] && p != kids_at(image3, off)[low + 1] ==> #[trigger] node_at(image5, p)
                == node_at(handed, p),
    ensures
        forall|p: int|
            p % 4096 == 0 && p + 4096 <= image3.len() && p != off && !in_subtree(
                image3,
                kids_at(image3, off)[low] as int,
                (h - 1) as nat,
                p,
            ) && !in_subtree(image3, kids_at(image3, off)[low + 1] as int, (h - 1) as nat, p)
                ==> #[trigger] node_at(image5, p) == node_at(image3, p),
{
    reveal(joined_over);
    let kids = kids_at(image3, off);
    let seps = seps_at(image3, off);
    let g = (h - 1) as nat;
    assert(in_subtree(image3, kids[low] as int, g, kids[low] as int) && in_subtree(
        image3,
        kids[low + 1] as int,
        g,
        kids[low + 1] as int,
    )) by {
        reveal(in_subtree);
    }
    assert(subtree_ok(
        image3,
        b,
        0,
        kids[low] as int,
        g,
        child_lo(seps, lo, low),
        child_hi(seps, hi, low),
        false,
    )) by {
        reveal(subtree_ok);
    }
    assert forall|p: int|
        p % 4096 == 0 && p + 4096 <= image3.len() && p != off && !in_subtree(
            image3,
            kids[low] as int,
            g,
            p,
        ) && !in_subtree(image3, kids[low + 1] as int, g, p) implies #[trigger] node_at(image5, p)
        == node_at(image3, p) by {
        assert(node_at(image5, p) == node_at(handed, p));
        assert(node_at(image3, kids[low] as int) is Some) by {
            reveal(subtree_ok);
        }
        if node_at(image3, kids[low] as int)->Some_0.node_type is Internal {
            let both = joint_kids(image3, kids[low] as int, kids[low + 1] as int);
            let n = kids_at(image3, kids[low] as int).len() as int;
            assert(h >= 2) by {
                reveal(subtree_ok);
            }
            if among(both, from, to, p) {
                let j = choose|j: int| from <= j < to && #[trigger] both[j] == p;
                crate::relink::lemma_joint_kid(image3, b, 0, off, h, lo, hi, root, low, j);
                if j < n {
                    crate::relink::lemma_grandchildren(image3, b, 0, off, h, lo, hi, root, low, j);
                } else {
                    crate::relink::lemma_grandchildren(
                        image3,
                        b,
                        0,
                        off,
                        h,
                        lo,
                        hi,
                        root,
                        low + 1,
                        j - n,
                    );
                }
            }
        }
    }
}

/// The links are kept below a node the entries of two of whose children
/// have been shared out, after the children that change sides had been told
/// where their parent stands.
pub proof fn lemma_links_share(
    image0: Seq<u8>,
    image3: Seq<u8>,
    handed: Seq<u8>,
    image4: Seq<u8>,
    image5: Seq<u8>,
    image6: Seq<u8>,
    b: int,
    min: int,
    off: int,
    h: nat,
    lo: Option<Seq<char>>,
    hi: Option<Seq<char>>,
    root: bool,
    k: Seq<char>,
    node: NodeView,
    low: int,
    x: int,
    first: NodeView,
    second: NodeView,
    m: int,
    left: NodeView,
    right: NodeView,
    rekeyed: NodeView,
)
    requires
        join_ready(image0, image3, b, min, off, h, lo, hi, root, k, node, low, x, first, second),
        join_ready(image0, handed, b, min, off, h, lo, hi, root, k, node, low, x, first, second),
        joined_over(
            image3,
            handed,
            node.node_type->Internal_0[low] as int,
            node.node_type->Internal_0[low + 1] as int,
            if m < entries_of(first) {
                m
            } else {
                entries_of(first)
            },
            if m < entries_of(first) {
                entries_of(first)
            } else {
                m
            },
            if m < entries_of(first) {
                node.node_type->Internal_0[low + 1]
            } else {
                node.node_type->Internal_0[low]
            },
        ),
        first.node_type is Internal <==> second.node_type is Internal,
        share_written(handed, image4, image5, image6, b, off, node, low, m, left, right, rekeyed),
    ensures
        links_kept(image3, image6, off, h),
{
    reveal(join_ready);
    reveal(deleted_below);
    reveal(joined_over);
    let kids = node.node_type->Internal_0;
    let seps = node.node_type->Internal_1;
    let g = (h - 1) as nat;
    let n = entries_of(first);
    let from = if m < n {
        m
    } else {
        n
    };
    let to = if m < n {
        n
    } else {
        m
    };
    let parent = if m < n {
        kids[low + 1]
    } else {
        kids[low]
    };
    assert(kids_at(image3, off) == kids && kids_at(image6, off) == kids);
    lemma_node_at_within(image3, off);
    assert(handed.len() == image3.len());
    assert forall|p: int|
        p % 4096 == 0 && p + 4096 <= image3.len() && p != off && p != kids[low] && p != kids[low
            + 1] implies #[trigger] node_at(image6, p) == node_at(handed, p) by {
        assert(node_at(image6, p) == node_at(image5, p));
        assert(node_at(image5, p) == node_at(image4, p));
        assert(node_at(image4, p) == node_at(handed, p));
    }
    if subtree_linked(image3, off, h) {
        assert(subtree_ok(
            image3,
            b,
            0,
            kids[low] as int,
            g,
            child_lo(seps, lo, low),
            child_hi(seps, hi, low),
            false,
        ) && subtree_ok(
            image3,
            b,
            0,
            kids[low + 1] as int,
            g,
            child_lo(seps, lo, low + 1),
            child_hi(seps, hi, low + 1),
            false,
        ) && parent_at(image3, kids[low] as int) == Some(off as usize)) by {
            reveal(subtree_ok);
            reveal(subtree_linked);
        }
        assert(first.node_type is Internal ==> h >= 2) by {
            reveal(subtree_ok);
        }
        assert(kids[low] != off && kids[low + 1] != off && kids[low] != kids[low + 1]) by {
            reveal(subtree_ok);
            assert(in_subtree(image3, kids[low] as int, g, kids[low] as int) && in_subtree(
                image3,
                kids[low + 1] as int,
                g,
                kids[low + 1] as int,
            )) by {
                reveal(in_subtree);
            }
            assert(!in_subtree(image3, kids[low] as int, g, off));
            assert(!in_subtree(image3, kids[low + 1] as int, g, off));
            assert(!(in_subtree(image3, kids[low] as int, g, kids[low] as int) && in_subtree(
                image3,
                kids[low + 1] as int,
                g,
                kids[low] as int,
            )));
        }
        assert(kids[low] % 4096 == 0 && kids[low + 1] % 4096 == 0) by {
            reveal(subtree_ok);
        }
        assert(node_at(image6, kids[low] as int) == node_at(image5, kids[low] as int));
        assert(node_at(image5, kids[low] as int) == node_at(image4, kids[low] as int));
        assert(node_at(image6, kids[low + 1] as int) == node_at(image5, kids[low + 1] as int));
        assert forall|i: int| 0 <= i < kids.len() implies parent_at(
            image6,
            #[trigger] kids[i] as int,
        ) == Some(off as usize) && subtree_linked(image6, kids[i] as int, g) by {
            if i == low || i == low + 1 {
                if first.node_type is Internal {
                    let both = joint_kids(image3, kids[low] as int, kids[low + 1] as int);
                    let mine = kids_at(image6, kids[i] as int);
                    let base = if i == low {
                        0
                    } else {
                        m
                    };
                    assert(mine == (if i == low {
                        both.subrange(0, m)
                    } else {
                        both.subrange(m, both.len() as int)
                    }));
                    assert forall|j: int| 0 <= j < mine.len() implies parent_at(
                        image6,
                        #[trigger] mine[j] as int,
                    ) == Some(kids[i]) && subtree_linked(image6, mine[j] as int, (g - 1) as nat) by {
                        assert(mine[j] == both[base + j]);
                        lemma_joint_after(
                            image3,
                            handed,
                            image6,
                            b,
                            0,
                            off,
                            h,
                            lo,
                            hi,
                            root,
                            low,
                            from,
                            to,
                            parent,
                            base + j,
                        );
                    }
                    assert(subtree_linked(image6, kids[i] as int, g)) by {
                        reveal(subtree_linked);
                    }
                } else {
                    assert(subtree_linked(image6, kids[i] as int, g)) by {
                        reveal(subtree_linked);
                        reveal(subtree_ok);
                    }
                }
            } else {
                assert(parent_at(image3, kids[i] as int) == Some(off as usize) && subtree_linked(
                    image3,
                    kids[i] as int,
                    g,
                )) by {
                    reveal(subtree_linked);
                }
                lemma_pair_frame(image3, handed, image6, b, off, h, lo, hi, root, low, from, to, parent);
                lemma_third_untouched(image3, image6, b, off, h, lo, hi, root, low, i);
            }
        }
        assert(subtree_linked(image6, off, h)) by {
            reveal(subtree_linked);
        }
    }
}

/// Under a new root above the halves of a divided root, both of which
/// name it as their parent, every node names its parent where every node did
/// below the old root and the children that went to the sibling had been told
/// where it stands.
pub proof fn lemma_links_root_split(
    entry: Seq<u8>,
    image0: Seq<u8>,
    image1: Seq<u8>,
    image2: Seq<u8>,
    image3: Seq<u8>,
    image4: Seq<u8>,
    b: int,
    min: int,
    h: nat,
    old_root: usize,
    new_root: usize,
    sib: usize,
    left: NodeView,
    right: NodeView,
    top: NodeView,
)
    requires
        2 <= b,
        subtree_ok(entry, b, min, old_root as int, h, None, None, true),
        entry.len() % 4096 == 0,
        handed_over(entry, image0, b, old_root as int, 2),
        root_split_written(
            image0,
            image1,
            image2,
            image3,
            image4,
            b,
            old_root,
            new_root,
            sib,
            left,
            right,
            top,
        ),
        left.parent_offset == Some(new_root),
        right.parent_offset == Some(new_root),
        subtree_linked(entry, old_root as int, h),
    ensures
        subtree_linked(image4, new_root as int, (h + 1) as nat),
{
    let r = old_root as int;
    crate::relink::lemma_handed_below(entry, image0, b, min, r, h, None, None, true, 2);
    assert(r % 4096 == 0 && node_at(entry, r) is Some) by {
        reveal(subtree_ok);
    }
    lemma_node_at_within(entry, r);
    let kids = seq![old_root, sib];
    assert(node_at(image4, r) == node_at(image3, r));
    assert(node_at(image3, r) == node_at(image2, r));
    assert(node_at(image4, sib as int) == node_at(image3, sib as int));
    assert forall|p: int| #[trigger] in_subtree(entry, r, h, p) && p != r implies node_at(
        image4,
        p,
    ) == node_at(image0, p) by {
        lemma_in_subtree_valid(entry, b, min, r, h, None, None, true, p);
        assert(node_at(image4, p) == node_at(image3, p));
        assert(node_at(image3, p) == node_at(image2, p));
        assert(node_at(image2, p) == node_at(image1, p));
        assert(node_at(image1, p) == node_at(image0, p));
    }
    lemma_side_linked(entry, image0, image4, b, min, r, h, None, None, true, 2, r, false);
    lemma_side_linked(
        entry,
        image0,
        image4,
        b,
        min,
        r,
        h,
        None,
        None,
        true,
        2,
        sib as int,
        true,
    );
    assert forall|i: int| 0 <= i < kids.len() implies parent_at(image4, #[trigger] kids[i] as int)
        == Some(new_root) && subtree_linked(image4, kids[i] as int, h) by {
        if i == 0 {
            assert(kids[0] == old_root);
        } else {
            assert(kids[1] == sib);
        }
    }
    assert(kids_at(image4, new_root as int) == kids);
    reveal(subtree_linked);
}

/// Where the only child of the root of a linked tree has been made the
/// root, every node below it names its parent.
pub proof fn lemma_links_collapsed(
    image2: Seq<u8>,
    image3: Seq<u8>,
    b: int,
    root: int,
    h: nat,
    child: int,
)
    requires
        subtree_ok(image2, b, 0, root, h, None, None, true),
        h > 0,
        kids_at(image2, root).len() >= 1,
        child == kids_at(image2, root)[0],
        subtree_linked(image2, root, h),
        type_at(image3, child) == type_at(image2, child),
        forall|p: int|
            p % 4096 == 0 && p != child ==> #[trigger] node_at(image3, p) == node_at(image2, p),
    ensures
        subtree_linked(image3, child, (h - 1) as nat),
{
    let kids = kids_at(image2, root);
    let seps = seps_at(image2, root);
    let g = (h - 1) as nat;
    assert(subtree_ok(
        image2,
        b,
        0,
        kids[0] as int,
        g,
        child_lo(seps, None, 0),
        child_hi(seps, None, 0),
        false,
    ) && subtree_linked(image2, kids[0] as int, g)) by {
        reveal(subtree_ok);
        reveal(subtree_linked);
    }
    assert forall|p: int| #[trigger] in_subtree(image2, child, g, p) implies type_at(image3, p)
        == type_at(image2, p) && (p != child ==> parent_at(image3, p) == parent_at(image2, p)) by {
        lemma_in_subtree_valid(
            image2,
            b,
            0,
            child,
            g,
            child_lo(seps, None, 0),
            child_hi(seps, None, 0),
            false,
            p,
        );
        if p != child {
            assert(node_at(image3, p) == node_at(image2, p));
        }
    }
    lemma_linked_frame(
        image2,
        image3,
        b,
        0,
        child,
        g,
        child_lo(seps, None, 0),
        child_hi(seps, None, 0),
        false,
    );
}

} // verus!
