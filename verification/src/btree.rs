//! The tree: search, insert with splits on the way down, delete with merges
//! on the way back, and the listing of its nodes.

use crate::bytes::be_bytes;
use crate::delete_steps::{
    delete_ready, deleted_below, lemma_collapse_ready, lemma_delete_ascend, lemma_delete_collapsed,
    lemma_delete_done, lemma_delete_filled, lemma_delete_leaf, lemma_delete_root_ready,
    lemma_fills_ascend, lemma_fills_collapsed, lemma_fills_descend, lemma_gone_internal,
    lemma_gone_leaf, lemma_internal_rekeyed_round_trips, lemma_internal_shrunk_round_trips,
    lemma_deleted_sound, lemma_join_handed, lemma_join_ready, lemma_join_relinkable,
    lemma_join_share_ready, lemma_leaf_shrunk_round_trips, lemma_mend_ready,
    lemma_mend_sides, lemma_mend_start, lemma_mended, lemma_mended_lonely, lemma_mended_merge,
    lemma_mended_share, lemma_mended_whole, join_ready, mend_ready, mended, merge_written,
    share_written, subtree_holds,
};
use crate::encoding::{lemma_round_trip, round_trips};
use crate::error::Error;
use crate::insert_steps::{
    descends_whole, lemma_insert_done, lemma_ready_internal, lemma_ready_leaf,
    lemma_ready_leaf_grown, lemma_ready_root, lemma_root_split_descends, lemma_root_split_ready,
    lemma_split_target_done, lemma_split_target_ready, lemma_top_kept, root_split_written,
    split_written, top_kept,
};
use crate::key_order::{
    key_less, key_less_eq, key_lt, lemma_key_lt_irreflexive, lemma_key_lt_transitive,
    lemma_key_not_lt, lemma_key_total,
};
use crate::links::{
    lemma_deleted_grows, lemma_inserted_grows, lemma_links_ascend, lemma_links_delete_ascend,
    lemma_links_collapsed, lemma_links_leaf, lemma_links_merge, lemma_links_root_split,
    lemma_links_share, lemma_links_split, links_kept, subtree_linked, tree_linked,
};
use crate::merge_trace::{
    delete_trace, leaf_merge_due, leaf_parent, left_by_delete, lemma_below_collapsed,
    lemma_delete_trace, lemma_merge_trace,
    lemma_merge_trace_handed, lemma_share_trace_handed, lemma_mend_nodes, lemma_mend_trace_merged,
    lemma_mend_trace_same, lemma_mend_trace_shared, lemma_share_trace, lemma_trace_above_leaves,
    lemma_trace_higher, lemma_trace_leaf, lemma_trace_retyped, mend_trace, merge_trace,
    share_trace, type_at,
};
use crate::node::{Node, NodeView};
use crate::node_type::{
    keys_view, offsets_view, pairs_view, Key, KeyValuePair, NodeType, NodeTypeView, Offset,
};
use crate::page::Page;
use crate::page_layout::{KEY_SIZE, PAGE_SIZE, VALUE_SIZE};
use crate::pager::{page_at, Pager};
use crate::relink::{
    hand_over_ready, handed_over, joined_over, joint_kids, lemma_child_hand_over_ready,
    lemma_hand_over_ready, lemma_handed_done, lemma_handed_over, lemma_joined_over,
    lemma_joined_over_leaves, lemma_relinkable_kept, lemma_relinked_first, lemma_relinked_second,
    lemma_relinked_twice,
    lemma_handed_ready, lemma_relinked_next, lemma_root_handed, lemma_relinked_step,
    lemma_with_parent_round_trips, relinkable, relinked, with_parent,
};
use crate::tree::{branches, in_subtree};
use crate::tree::{
    child_hi, child_lo, child_slot, lemma_child_slot, lemma_child_slot_is, lemma_has_in_slot,
    lemma_tree_map, node_at, pairs_ascend, subtree_has, subtree_ok, tree_map, tree_ok,
    MAX_BRANCHING_FACTOR,
};
use crate::tree_delete::{fit_together, underflows};
use crate::tree_fill::fills;
use crate::tree_insert::{
    insert_ready, inserted_below, is_full, lemma_append, lemma_insert_ascend, lemma_insert_leaf,
    lemma_internal_grown_round_trips, lemma_overwrite, median_at, unchanged_but,
};
use crate::tree_share::{entries_of, joined};
use crate::wal::{last_record, Wal};
use vstd::prelude::*;
use vstd::utf8::*;

verus! {

/// The child of an internal node with the keys `keys` into which the search
/// for `key` descends.
pub fn child_index(keys: &Vec<Key>, key: &str) -> (idx: usize)
    ensures
        idx == child_slot(keys_view(keys@), key@),
        idx <= keys@.len(),
{
    let ghost seps = keys_view(keys@);
    let mut i: usize = 0;
    while i < keys.len() && !key_less_eq(key, keys[i].0.as_str())
        invariant
            i <= keys@.len(),
            seps == keys_view(keys@),
            forall|m: int| 0 <= m < i ==> key_lt(#[trigger] seps[m], key@),
        decreases keys@.len() - i,
    {
        proof {
            lemma_key_not_lt(seps[i as int], key@);
        }
        i += 1;
    }
    proof {
        lemma_child_slot_is(seps, key@, i as int);
    }
    i
}

/// Looks for `key` among `pairs` by halving the range in which it can lie.
/// Says where the pair with that key stands, or else where a pair with that
/// key would have to go. It finds every key that is there where the keys of
/// `pairs` ascend.
pub fn find_pair(pairs: &Vec<KeyValuePair>, key: &str) -> (res: Result<usize, usize>)
    ensures
        match res {
            Ok(at) => at < pairs@.len() && pairs@[at as int].key@ == key@,
            Err(at) => {
                &&& at <= pairs@.len()
                &&& pairs_ascend(pairs_view(pairs@)) ==> {
                    &&& forall|m: int| 0 <= m < at ==> key_lt(#[trigger] pairs@[m].key@, key@)
                    &&& forall|m: int|
                        at <= m < pairs@.len() ==> key_lt(key@, #[trigger] pairs@[m].key@)
                }
            },
        },
{
    let ghost shown = pairs_view(pairs@);
    let mut low: usize = 0;
    let mut high: usize = pairs.len();
    while low < high
        invariant
            low <= high <= pairs@.len(),
            shown == pairs_view(pairs@),
            pairs_ascend(shown) ==> {
                &&& forall|m: int| 0 <= m < low ==> key_lt(#[trigger] pairs@[m].key@, key@)
                &&& forall|m: int|
                    high <= m < pairs@.len() ==> key_lt(key@, #[trigger] pairs@[m].key@)
            },
        decreases high - low,
    {
        let mid: usize = low + (high - low) / 2;
        let here = pairs[mid].key.as_str();
        if key_less(here, key) {
            proof {
                if pairs_ascend(shown) {
                    assert forall|m: int| 0 <= m < mid + 1 implies key_lt(
                        #[trigger] pairs@[m].key@,
                        key@,
                    ) by {
                        if m < mid {
                            assert(key_lt(shown[m].0, shown[mid as int].0));
                            lemma_key_lt_transitive(pairs@[m].key@, here@, key@);
                        }
                    }
                }
            }
            low = mid + 1;
        } else if key_less(key, here) {
            proof {
                if pairs_ascend(shown) {
                    assert forall|m: int| mid <= m < pairs@.len() implies key_lt(
                        key@,
                        #[trigger] pairs@[m].key@,
                    ) by {
                        if m > mid {
                            assert(key_lt(shown[mid as int].0, shown[m].0));
                            lemma_key_lt_transitive(key@, here@, pairs@[m].key@);
                        }
                    }
                }
            }
            high = mid;
        } else {
            proof {
                lemma_key_total(here@, key@);
            }
            return Ok(mid);
        }
    }
    Err(low)
}

/// Collects what a tree is made with: the path of its index file and the
/// branching parameter.
pub struct BTreeBuilder {
    /// Path to the index file.
    path: String,
    /// The branching parameter: an internal node has no more than `2b`
    /// children and, unless it is the root, no fewer than `b`.
    b: usize,
}

impl BTreeBuilder {
    pub fn new() -> (res: BTreeBuilder)
        ensures
            res.get_path_spec() == Seq::<char>::empty(),
            res.get_b_spec() == 0,
    {
        BTreeBuilder { path: String::new(), b: 0 }
    }

    /// The path that the builder holds.
    pub closed spec fn get_path_spec(&self) -> Seq<char> {
        self.path@
    }

    /// The branching parameter that the builder holds.
    pub closed spec fn get_b_spec(&self) -> usize {
        self.b
    }

    pub fn path(self, path: &str) -> (res: BTreeBuilder)
        ensures
            res.get_path_spec() == path@,
            res.get_b_spec() == self.get_b_spec(),
    {
        BTreeBuilder { path: path.to_owned(), b: self.b }
    }

    pub fn b_parameter(self, b: usize) -> (res: BTreeBuilder)
        ensures
            res.get_path_spec() == self.get_path_spec(),
            res.get_b_spec() == b,
    {
        BTreeBuilder { path: self.path, b }
    }

    /// The path that the builder holds.
    pub fn get_path(&self) -> (res: &str)
        ensures
            res@ == self.get_path_spec(),
    {
        self.path.as_str()
    }

    /// Makes an empty tree: an image of one page, which holds the root as an
    /// empty leaf, and a root log of one record, which points to it. A
    /// branching parameter above `MAX_BRANCHING_FACTOR` is lowered to it.
    /// Fails where the path is empty or the branching parameter below two.
    pub fn build(&self) -> (res: Result<BTree, Error>)
        ensures
            res is Ok <==> self.get_path_spec().len() > 0 && self.get_b_spec() >= 2,
            res is Err ==> res->Err_0 == Error::UnexpectedError,
            res is Ok ==> {
                let tree = res->Ok_0;
                &&& tree.balanced()
                &&& tree.linked()
                &&& tree.height() == 0
                &&& tree.root() == 0
                &&& tree.image().len() == PAGE_SIZE
                &&& node_at(tree.image(), 0) == Some(
                    (NodeView {
                        node_type: NodeTypeView::Leaf(Seq::empty()),
                        is_root: true,
                        parent_offset: None,
                    }),
                )
                &&& tree.log().len() == 8
                &&& tree.branching() == effective_b(self.get_b_spec())
                &&& tree@ == Map::<Seq<char>, Seq<char>>::empty()
            },
    {
        if self.path.as_str().is_empty() {
            return Err(Error::UnexpectedError);
        }
        if self.b < 2 {
            return Err(Error::UnexpectedError);
        }
        let b: usize = if self.b > MAX_BRANCHING_FACTOR {
            MAX_BRANCHING_FACTOR
        } else {
            self.b
        };
        let mut pager = Pager::new(Vec::new());
        let pairs: Vec<KeyValuePair> = Vec::new();
        let root = Node::new(NodeType::Leaf(pairs), true, None);
        proof {
            assert(pairs_view(pairs@) =~= Seq::empty());
            lemma_round_trip(root@);
        }
        let page = match Page::try_from(&root) {
            Ok(page) => page,
            Err(error) => {
                return Err(error);
            },
        };
        let root_offset = match pager.write_page(page) {
            Ok(offset) => offset,
            Err(error) => {
                return Err(error);
            },
        };
        let mut wal = Wal::new(Vec::new());
        let _ = wal.set_root(root_offset);
        let tree = BTree { pager, wal, b, height: Ghost(0), fill: Ghost(b - 1) };
        proof {
            broadcast use Page::lemma_page_len;

            reveal(node_at);
            reveal(subtree_ok);
            reveal(subtree_has);
            crate::wal::lemma_last_record_of_set(Seq::empty(), 0);
            assert(Seq::<u8>::empty() + crate::bytes::be_bytes(0, 8) =~= tree.log());
            crate::bytes::lemma_be_bytes_len(0, 8);
            assert(page_at(tree.image(), 0) =~= page@);
            assert(node_at(tree.image(), 0) == Some(root@));
            assert(subtree_ok(tree.image(), b as int, b - 1, 0, 0, None, None, true));
            assert(tree@ =~= Map::<Seq<char>, Seq<char>>::empty());
            assert(tree.linked()) by {
                reveal(subtree_linked);
            }
        }
        Ok(tree)
    }
}

impl Default for BTreeBuilder {
    /// A builder with the branching parameter 200 and the path `/tmp/db`.
    fn default() -> (res: Self)
        ensures
            res.get_b_spec() == 200,
            res.get_path_spec() == "/tmp/db"@,
    {
        BTreeBuilder::new().b_parameter(200).path("/tmp/db")
    }
}

/// No byte of `bytes` is zero.
pub open spec fn zero_free(bytes: Seq<u8>) -> bool {
    forall|i: int| 0 <= i < bytes.len() ==> bytes[i] != 0u8
}

/// Whether some byte of `bytes` is zero.
pub fn has_zero_byte(bytes: &[u8]) -> (res: bool)
    ensures
        res == !zero_free(bytes@),
{
    let mut i: usize = 0;
    while i < bytes.len()
        invariant
            i <= bytes@.len(),
            forall|m: int| 0 <= m < i ==> bytes@[m] != 0u8,
        decreases bytes@.len() - i,
    {
        if bytes[i] == 0 {
            return true;
        }
        i += 1;
    }
    false
}

/// What `insert` answers for the pair `(k, v)` on a sound tree that stores
/// `stored` in an image of `image_len` bytes. In this order: a key of more
/// than ten bytes is refused, then a value of more than ten bytes, then a key
/// or value with a zero byte, then an image so long that no machine word
/// could hold its length after the insertion, then a key that the tree
/// stores already.
pub open spec fn insert_outcome(
    stored: Map<Seq<char>, Seq<char>>,
    image_len: nat,
    k: Seq<char>,
    v: Seq<char>,
) -> Result<(), Error> {
    if encode_utf8(k).len() > 10 {
        Err(Error::KeyOverflowError)
    } else if encode_utf8(v).len() > 10 {
        Err(Error::ValueOverflowError)
    } else if !zero_free(encode_utf8(k)) || !zero_free(encode_utf8(v)) {
        Err(Error::UnexpectedError)
    } else if 2 * image_len + 2 * PAGE_SIZE > usize::MAX {
        Err(Error::UnexpectedError)
    } else if stored.contains_key(k) {
        Err(Error::KeyAlreadyExists)
    } else {
        Ok(())
    }
}

/// The number of entries by which a node is divided: the pairs of a leaf,
/// the children of an internal node.
pub fn entries(node: &Node) -> (res: usize)
    ensures
        res == entries_of(node@),
{
    match &node.node_type {
        NodeType::Leaf(pairs) => pairs.len(),
        NodeType::Internal(children, _) => {
            assert(offsets_view(children@).len() == children@.len());
            children.len()
        },
        NodeType::Unexpected => 0,
    }
}

/// Puts the key `sep` behind the keys of an internal node; a leaf stays as
/// it is.
pub fn pull_down(node: Node, sep: &Key) -> (res: Node)
    ensures
        res@.is_root == node@.is_root,
        res@.parent_offset == node@.parent_offset,
        res@.node_type == (match node@.node_type {
            NodeTypeView::Internal(children, keys) => NodeTypeView::Internal(
                children,
                keys.push(sep@),
            ),
            other => other,
        }),
{
    let Node { node_type, is_root, parent_offset } = node;
    match node_type {
        NodeType::Internal(children, mut keys) => {
            let ghost shown = keys_view(keys@);
            keys.push(sep.clone());
            assert(keys_view(keys@) =~= shown.push(sep@));
            Node { node_type: NodeType::Internal(children, keys), is_root, parent_offset }
        },
        NodeType::Leaf(pairs) => Node { node_type: NodeType::Leaf(pairs), is_root, parent_offset },
        NodeType::Unexpected => Node { node_type: NodeType::Unexpected, is_root, parent_offset },
    }
}

/// What `delete` answers for the key `k` on a sound tree that stores
/// `stored` in an image of `image_len` bytes. An image so long that no
/// machine word could hold its length after the deletion is refused, then a
/// key that the tree does not store.
pub open spec fn delete_outcome(stored: Map<Seq<char>, Seq<char>>, image_len: nat, k: Seq<char>)
    -> Result<(), Error> {
    if 2 * image_len + 2 * PAGE_SIZE > usize::MAX {
        Err(Error::UnexpectedError)
    } else if !stored.contains_key(k) {
        Err(Error::KeyNotFound)
    } else {
        Ok(())
    }
}

/// What `merge` gives for two nodes of one kind: the pairs, or the children
/// and the keys, of the first and then those of the second, in a node that is
/// a root where the first is, with the parent of the first.
pub open spec fn merge_of(first: NodeView, second: NodeView) -> NodeView {
    NodeView {
        node_type: match first.node_type {
            NodeTypeView::Leaf(first_shown) => match second.node_type {
                NodeTypeView::Leaf(second_shown) => NodeTypeView::Leaf(first_shown + second_shown),
                _ => NodeTypeView::Unexpected,
            },
            NodeTypeView::Internal(c1, s1) => match second.node_type {
                NodeTypeView::Internal(c2, s2) => NodeTypeView::Internal(c1 + c2, s1 + s2),
                _ => NodeTypeView::Unexpected,
            },
            NodeTypeView::Unexpected => NodeTypeView::Unexpected,
        },
        is_root: first.is_root,
        parent_offset: first.parent_offset,
    }
}

/// The branching parameter that a tree made with `b` works with.
pub open spec fn effective_b(b: usize) -> int {
    if b > MAX_BRANCHING_FACTOR {
        MAX_BRANCHING_FACTOR as int
    } else {
        b as int
    }
}

/// One node of a tree as `print` lists it: how deep below the root it
/// lies, where its page starts, and the node itself.
#[derive(Debug)]
pub struct PrintedNode {
    pub depth: usize,
    pub offset: Offset,
    pub node: Node,
}

/// Depth and offset of each node of a listing.
pub open spec fn listed(nodes: Seq<PrintedNode>) -> Seq<(nat, int)> {
    Seq::new(nodes.len(), |i: int| (nodes[i].depth as nat, nodes[i].offset.0 as int))
}

/// Every node of a listing is the node that the image holds at its offset.
pub open spec fn listed_from(nodes: Seq<PrintedNode>, image: Seq<u8>) -> bool {
    forall|i: int|
        0 <= i < nodes.len() ==> node_at(image, (#[trigger] nodes[i]).offset.0 as int) == Some(
            nodes[i].node@,
        )
}

/// An on-disk B+Tree: the index image, the root log and the branching
/// parameter. Every node but the root holds between `b - 1` and `2b - 1`
/// keys; the leaves hold the values.
pub struct BTree {
    pager: Pager,
    wal: Wal,
    b: usize,
    height: Ghost<nat>,
    fill: Ghost<int>,
}

impl View for BTree {
    type V = Map<Seq<char>, Seq<char>>;

    /// What the tree stores.
    open spec fn view(&self) -> Map<Seq<char>, Seq<char>> {
        tree_map(self.image(), self.root(), self.height())
    }
}

impl BTree {
    /// The bytes of the index image.
    pub closed spec fn image(&self) -> Seq<u8> {
        self.pager@
    }

    /// The bytes of the root log.
    pub closed spec fn log(&self) -> Seq<u8> {
        self.wal@
    }

    /// The branching parameter.
    pub closed spec fn branching(&self) -> int {
        self.b as int
    }

    /// The number of levels below the root.
    pub closed spec fn height(&self) -> nat {
        self.height@
    }

    /// The number of keys that every node but the root is known to hold at
    /// least.
    pub closed spec fn fill(&self) -> int {
        self.fill@
    }

    /// Where the root log says the root is.
    pub open spec fn root(&self) -> int {
        last_record(self.log()) as int
    }

    /// The image and the log hold a sound tree.
    pub open spec fn wf(&self) -> bool {
        tree_ok(self.image(), self.log(), self.branching(), self.fill(), self.height())
    }

    /// The tree is sound and every node but the root holds at least `b - 1`
    /// keys.
    pub open spec fn balanced(&self) -> bool {
        self.wf() && self.fill() == self.branching() - 1
    }

    /// Every node of the tree but the root names as its parent the node
    /// whose child it is.
    pub open spec fn linked(&self) -> bool {
        tree_linked(self.image(), self.root(), self.height())
    }

    /// Whether the root holds as much as a node may hold.
    pub open spec fn root_full(&self) -> bool {
        match node_at(self.image(), self.root()) {
            Some(node) => is_full(node, self.branching()),
            None => false,
        }
    }

    /// Takes up a tree from the bytes of its index file and of its root
    /// log. A branching parameter above `MAX_BRANCHING_FACTOR` is lowered to
    /// it. Fails where the branching parameter is below two. Where the bytes
    /// hold a sound tree, the tree that is handed out is sound, has the same
    /// height and stores the same; where every node but the root holds at
    /// least `b - 1` keys, it is balanced.
    pub fn open(image: Vec<u8>, log: Vec<u8>, b: usize) -> (res: Result<BTree, Error>)
        ensures
            res is Ok <==> b >= 2,
            res is Err ==> res->Err_0 == Error::UnexpectedError,
            res is Ok ==> {
                let tree = res->Ok_0;
                &&& tree.image() == image@
                &&& tree.log() == log@
                &&& tree.branching() == effective_b(b)
                &&& forall|min: int, h: nat|
                    tree_ok(image@, log@, effective_b(b), min, h) ==> tree.wf() && tree.height()
                        == h
                &&& forall|min: int, h: nat|
                    #[trigger] tree_ok(image@, log@, effective_b(b), min, h) && min
                        == effective_b(b) - 1 ==> tree.balanced()
            },
    {
        if b < 2 {
            return Err(Error::UnexpectedError);
        }
        let b: usize = if b > MAX_BRANCHING_FACTOR {
            MAX_BRANCHING_FACTOR
        } else {
            b
        };
        let ghost full = exists|min: int, h: nat|
            #[trigger] tree_ok(image@, log@, b as int, min, h) && min == b - 1;
        let ghost some = exists|min: int, h: nat| tree_ok(image@, log@, b as int, min, h);
        let ghost (fill, height): (int, nat) = if full {
            choose|min: int, h: nat|
                #[trigger] tree_ok(image@, log@, b as int, min, h) && min == b - 1
        } else if some {
            choose|min: int, h: nat| tree_ok(image@, log@, b as int, min, h)
        } else {
            (0, 0)
        };
        let tree = BTree {
            pager: Pager::new(image),
            wal: Wal::new(log),
            b,
            height: Ghost(height),
            fill: Ghost(fill),
        };
        proof {
            assert forall|min: int, h: nat| tree_ok(image@, log@, b as int, min, h) implies tree.wf()
                && tree.height() == h by {
                assert(tree_ok(image@, log@, b as int, fill, height));
                crate::tree::lemma_height_unique(
                    image@,
                    b as int,
                    last_record(log@) as int,
                    min,
                    h,
                    None,
                    None,
                    true,
                    fill,
                    height,
                    None,
                    None,
                    true,
                );
            }
        }
        Ok(tree)
    }

    /// The index image.
    pub fn get_pager(&self) -> (res: &Pager)
        ensures
            res@ == self.image(),
    {
        &self.pager
    }

    /// The root log.
    pub fn get_wal(&self) -> (res: &Wal)
        ensures
            res@ == self.log(),
    {
        &self.wal
    }

    /// The branching parameter.
    pub fn get_b(&self) -> (res: usize)
        ensures
            res == self.branching(),
    {
        self.b
    }

    /// Reads the node that the page at `offset` holds.
    fn load_node(&self, offset: &Offset) -> (res: Result<Node, Error>)
        ensures
            res is Ok <==> node_at(self.image(), offset.0 as int) is Some,
            res is Ok ==> node_at(self.image(), offset.0 as int) == Some(res->Ok_0@),
    {
        proof {
            reveal(node_at);
        }
        let page = match self.pager.get_page(offset) {
            Ok(page) => page,
            Err(error) => {
                return Err(error);
            },
        };
        Node::try_from(page)
    }

    /// Writes `node` over the page at `offset`.
    fn store_node(&mut self, node: &Node, offset: &Offset) -> (res: Result<(), Error>)
        ensures
            final(self).log() == old(self).log(),
            final(self).branching() == old(self).branching(),
            final(self).height() == old(self).height(),
            final(self).fill() == old(self).fill(),
            round_trips(node@) && offset.0 % 4096 == 0 && offset.0 + 4096 <= old(self).image().len()
                ==> {
                &&& res is Ok
                &&& final(self).image().len() == old(self).image().len()
                &&& node_at(final(self).image(), offset.0 as int) == Some(node@)
                &&& unchanged_but(old(self).image(), final(self).image(), offset.0 as int)
            },
    {
        broadcast use Page::lemma_page_len;

        let page = match Page::try_from(node) {
            Ok(page) => page,
            Err(error) => {
                proof {
                    if round_trips(node@) {
                        lemma_round_trip(node@);
                    }
                }
                return Err(error);
            },
        };
        // the length of the image fits a machine word
        let _len: usize = self.pager.len();
        proof {
            if round_trips(node@) && offset.0 % 4096 == 0 && offset.0 + 4096 <= self.image().len() {
                reveal(node_at);
                lemma_round_trip(node@);
                lemma_overwrite(self.image(), offset.0 as int, page@);
            }
        }
        self.pager.write_page_at_offset(page, offset)
    }

    /// Tells the nodes at `children[from..to]` that the node at `parent` is
    /// the node above them: each is read, given `parent` as its parent
    /// offset, and written over its own page. Fails where one of them is not
    /// there or is a root.
    fn relink(&mut self, children: &Vec<Offset>, from: usize, to: usize, parent: usize) -> (res:
        Result<(), Error>)
        ensures
            final(self).log() == old(self).log(),
            final(self).branching() == old(self).branching(),
            final(self).height() == old(self).height(),
            final(self).fill() == old(self).fill(),
            to <= children@.len() && (forall|j: int|
                from <= j < to ==> relinkable(
                    old(self).image(),
                    #[trigger] offsets_view(children@)[j] as int,
                )) ==> res is Ok && relinked(
                old(self).image(),
                final(self).image(),
                offsets_view(children@),
                from as int,
                to as int,
                parent,
            ),
    {
        let ghost image0 = self.image();
        let ghost kids = offsets_view(children@);
        let ghost fit = forall|j: int|
            from <= j < to ==> relinkable(image0, #[trigger] kids[j] as int);
        if to > children.len() {
            return Err(Error::UnexpectedError);
        }
        if from >= to {
            return Ok(());
        }
        let mut i: usize = from;
        while i < to
            invariant
                from <= i <= to <= children.len(),
                image0 == old(self).image(),
                kids == offsets_view(children@),
                self.log() == old(self).log(),
                self.branching() == old(self).branching(),
                self.height() == old(self).height(),
                self.fill() == old(self).fill(),
                fit == (forall|j: int|
                    from <= j < to ==> relinkable(image0, #[trigger] kids[j] as int)),
                fit ==> relinked(image0, self.image(), kids, from as int, i as int, parent),
            decreases to - i,
        {
            let ghost cur = self.image();
            let offset = Offset(children[i].0);
            proof {
                assert(kids[i as int] == offset.0);
                if fit {
                    assert(relinkable(image0, kids[i as int] as int));
                    lemma_relinked_next(image0, cur, kids, from as int, i as int, parent);
                }
            }
            let mut node = match self.load_node(&offset) {
                Ok(node) => node,
                Err(error) => {
                    return Err(error);
                },
            };
            if node.is_root {
                return Err(Error::UnexpectedError);
            }
            let ghost loaded = node@;
            node.parent_offset = Some(Offset(parent));
            proof {
                assert(node@ == with_parent(loaded, parent));
                if fit {
                    lemma_with_parent_round_trips(loaded, parent);
                }
            }
            match self.store_node(&node, &offset) {
                Ok(()) => {},
                Err(error) => {
                    return Err(error);
                },
            }
            proof {
                if fit {
                    lemma_relinked_step(
                        image0,
                        cur,
                        self.image(),
                        kids,
                        from as int,
                        i as int,
                        parent,
                    );
                }
            }
            i += 1;
        }
        Ok(())
    }

    /// Tells the children of `node`, the node at `c`, that go to its
    /// sibling when it is divided where the sibling will stand: `ahead` pages
    /// behind the end of the image. Changes nothing where `node` is a leaf.
    fn hand_over(
        &mut self,
        node: &Node,
        ahead: usize,
        Ghost(c): Ghost<int>,
        Ghost(g): Ghost<nat>,
        Ghost(lo): Ghost<Option<Seq<char>>>,
        Ghost(hi): Ghost<Option<Seq<char>>>,
        Ghost(root): Ghost<bool>,
    ) -> (res: Result<(), Error>)
        ensures
            final(self).log() == old(self).log(),
            final(self).branching() == old(self).branching(),
            final(self).height() == old(self).height(),
            final(self).fill() == old(self).fill(),
            hand_over_ready(
                old(self).image(),
                old(self).branching(),
                old(self).fill(),
                c,
                g,
                lo,
                hi,
                root,
                node@,
            ) && old(self).branching() <= MAX_BRANCHING_FACTOR && 1 <= ahead <= 2 && old(
                self,
            ).image().len() + ahead * PAGE_SIZE <= usize::MAX ==> res is Ok && handed_over(
                old(self).image(),
                final(self).image(),
                old(self).branching(),
                c,
                ahead as int,
            ),
    {
        let ghost entry = self.image();
        let ghost b = self.branching();
        let ghost min = self.fill();
        let ghost sound = hand_over_ready(entry, b, min, c, g, lo, hi, root, node@) && b
            <= MAX_BRANCHING_FACTOR && 1 <= ahead <= 2 && entry.len() + ahead * PAGE_SIZE
            <= usize::MAX;
        let len: usize = self.pager.len();
        if self.b < 2 || self.b > MAX_BRANCHING_FACTOR || ahead < 1 || ahead > 2 {
            return Err(Error::UnexpectedError);
        }
        if len > usize::MAX - ahead * PAGE_SIZE {
            return Err(Error::UnexpectedError);
        }
        let ghost moved_kids = node@.node_type->Internal_0;
        match &node.node_type {
            NodeType::Internal(moving, _) => {
                proof {
                    if sound {
                        lemma_hand_over_ready(entry, b, min, c, g, lo, hi, root, node@);
                    }
                }
                proof {
                    assert(offsets_view(moving@) == moved_kids);
                    if sound {
                        assert forall|j: int| self.b <= j < moving@.len() implies relinkable(
                            entry,
                            #[trigger] offsets_view(moving@)[j] as int,
                        ) by {
                            assert(relinkable(entry, moved_kids[j] as int));
                        }
                    }
                }
                let res = self.relink(
                    moving,
                    self.b,
                    moving.len(),
                    len + (ahead - 1) * PAGE_SIZE,
                );
                proof {
                    if sound {
                        assert(len + (ahead - 1) * PAGE_SIZE == crate::relink::sibling_place(
                            entry,
                            ahead as int,
                        ));
                        lemma_handed_over(entry, self.image(), b, c, node@, ahead as int);
                    }
                }
                res
            },
            _ => {
                proof {
                    if sound {
                        lemma_handed_over(entry, self.image(), b, c, node@, ahead as int);
                    }
                }
                Ok(())
            },
        }
    }

    /// Tells children of `first` and `second`, the nodes at `a1` and `a2`,
    /// that the node at `parent` is the node above them: those that stand at
    /// `from..to` among the children of both, which are children of the
    /// first, or the first children of the second, or all. Changes nothing
    /// where the two are leaves.
    fn hand_both(
        &mut self,
        first: &Node,
        second: &Node,
        from: usize,
        to: usize,
        parent: usize,
        Ghost(a1): Ghost<int>,
        Ghost(a2): Ghost<int>,
    ) -> (res: Result<(), Error>)
        ensures
            final(self).log() == old(self).log(),
            final(self).branching() == old(self).branching(),
            final(self).height() == old(self).height(),
            final(self).fill() == old(self).fill(),
            node_at(old(self).image(), a1) == Some(first@) && node_at(old(self).image(), a2)
                == Some(second@) && (first@.node_type is Internal <==> second@.node_type
                is Internal) && (first@.node_type is Internal ==> {
                &&& from <= to <= entries_of(first@) + entries_of(second@)
                &&& to <= entries_of(first@) || from == entries_of(first@) || (from == 0 && to
                    == entries_of(first@) + entries_of(second@))
                &&& forall|j: int|
                    0 <= j < first@.node_type->Internal_0.len() ==> relinkable(
                        old(self).image(),
                        #[trigger] first@.node_type->Internal_0[j] as int,
                    )
                &&& forall|j: int|
                    0 <= j < second@.node_type->Internal_0.len() ==> relinkable(
                        old(self).image(),
                        #[trigger] second@.node_type->Internal_0[j] as int,
                    )
            }) ==> res is Ok && joined_over(
                old(self).image(),
                final(self).image(),
                a1,
                a2,
                from as int,
                to as int,
                parent,
            ),
    {
        let ghost image3 = self.image();
        let ghost sound = node_at(image3, a1) == Some(first@) && node_at(image3, a2) == Some(
            second@,
        ) && (first@.node_type is Internal <==> second@.node_type is Internal) && (
        first@.node_type is Internal ==> {
            &&& from <= to <= entries_of(first@) + entries_of(second@)
            &&& to <= entries_of(first@) || from == entries_of(first@) || (from == 0 && to
                == entries_of(first@) + entries_of(second@))
            &&& forall|j: int|
                0 <= j < first@.node_type->Internal_0.len() ==> relinkable(
                    image3,
                    #[trigger] first@.node_type->Internal_0[j] as int,
                )
            &&& forall|j: int|
                0 <= j < second@.node_type->Internal_0.len() ==> relinkable(
                    image3,
                    #[trigger] second@.node_type->Internal_0[j] as int,
                )
        });
        let (mine, theirs) = match (&first.node_type, &second.node_type) {
            (NodeType::Internal(mine, _), NodeType::Internal(theirs, _)) => (mine, theirs),
            _ => {
                proof {
                    if sound {
                        lemma_joined_over_leaves(image3, a1, a2, from as int, to as int, parent);
                    }
                }
                return Ok(());
            },
        };
        let ghost kids1 = offsets_view(mine@);
        let ghost kids2 = offsets_view(theirs@);
        proof {
            assert(kids1 == first@.node_type->Internal_0);
            assert(kids2 == second@.node_type->Internal_0);
            if sound {
                assert(joint_kids(image3, a1, a2) == kids1 + kids2);
            }
        }
        let count: usize = mine.len();
        if from > to {
            return Err(Error::UnexpectedError);
        }
        if to <= count {
            let res = self.relink(mine, from, to, parent);
            proof {
                if sound {
                    lemma_relinked_first(
                        image3,
                        self.image(),
                        kids1,
                        kids2,
                        from as int,
                        to as int,
                        parent,
                    );
                    lemma_joined_over(
                        image3,
                        self.image(),
                        a1,
                        a2,
                        from as int,
                        to as int,
                        parent,
                    );
                }
            }
            res
        } else if from == count {
            let res = self.relink(theirs, 0, to - count, parent);
            proof {
                if sound {
                    lemma_relinked_second(
                        image3,
                        self.image(),
                        kids1,
                        kids2,
                        to - count,
                        parent,
                    );
                    lemma_joined_over(
                        image3,
                        self.image(),
                        a1,
                        a2,
                        from as int,
                        to as int,
                        parent,
                    );
                }
            }
            res
        } else {
            if from != 0 || to - count != theirs.len() {
                return Err(Error::UnexpectedError);
            }
            match self.relink(mine, 0, count, parent) {
                Ok(()) => {},
                Err(error) => {
                    return Err(error);
                },
            }
            let ghost between = self.image();
            proof {
                if sound {
                    assert forall|j: int| 0 <= j < theirs@.len() implies relinkable(
                        between,
                        #[trigger] offsets_view(theirs@)[j] as int,
                    ) by {
                        assert(relinkable(image3, kids2[j] as int));
                        lemma_relinkable_kept(
                            image3,
                            between,
                            kids1,
                            0,
                            count as int,
                            parent,
                            kids2[j] as int,
                        );
                    }
                }
            }
            let res = self.relink(theirs, 0, theirs.len(), parent);
            proof {
                if sound {
                    lemma_relinked_twice(image3, between, self.image(), kids1, kids2, parent);
                    lemma_joined_over(
                        image3,
                        self.image(),
                        a1,
                        a2,
                        from as int,
                        to as int,
                        parent,
                    );
                }
            }
            res
        }
    }

    /// Writes `node` to a new page at the end of the image and says where
    /// the page starts.
    fn append_node(&mut self, node: &Node) -> (res: Result<Offset, Error>)
        ensures
            final(self).log() == old(self).log(),
            final(self).branching() == old(self).branching(),
            final(self).height() == old(self).height(),
            final(self).fill() == old(self).fill(),
            round_trips(node@) && old(self).image().len() % 4096 == 0 && old(self).image().len()
                + 4096 <= usize::MAX ==> {
                &&& res is Ok
                &&& res->Ok_0.0 == old(self).image().len()
                &&& final(self).image().len() == old(self).image().len() + 4096
                &&& node_at(final(self).image(), res->Ok_0.0 as int) == Some(node@)
                &&& unchanged_but(old(self).image(), final(self).image(), res->Ok_0.0 as int)
            },
    {
        broadcast use Page::lemma_page_len;

        let page = match Page::try_from(node) {
            Ok(page) => page,
            Err(error) => {
                proof {
                    if round_trips(node@) {
                        lemma_round_trip(node@);
                    }
                }
                return Err(error);
            },
        };
        proof {
            if round_trips(node@) && self.image().len() % 4096 == 0 {
                reveal(node_at);
                lemma_round_trip(node@);
                lemma_append(self.image(), page@);
            }
        }
        self.pager.write_page(page)
    }

    /// Looks for `key` in the tree and hands out the pair stored under it.
    pub fn search(&self, key: String) -> (res: Result<KeyValuePair, Error>)
        ensures
            res is Ok ==> res->Ok_0.key@ == key@,
            self.wf() ==> match res {
                Ok(pair) => self@.contains_key(key@) && pair.value@ == self@[key@],
                Err(error) => error == Error::KeyNotFound && !self@.contains_key(key@),
            },
    {
        proof {
            if self.wf() {
                reveal(subtree_ok);
                crate::tree::lemma_node_at_within(self.image(), self.root());
            }
        }
        let root_offset = match self.wal.get_root() {
            Ok(offset) => offset,
            Err(error) => {
                return Err(error);
            },
        };
        let root = match self.load_node(&root_offset) {
            Ok(node) => node,
            Err(error) => {
                return Err(error);
            },
        };
        let fuel: usize = self.pager.len() / PAGE_SIZE;
        let res = self.search_node(
            root,
            key.as_str(),
            fuel,
            Ghost(root_offset.0 as int),
            Ghost(self.height@),
            Ghost(None),
            Ghost(None),
            Ghost(true),
        );
        proof {
            if self.wf() {
                assert forall|v: Seq<char>|
                    subtree_has(self.image(), self.root(), self.height(), key@, v)
                        <==> self@.contains_key(key@) && self@[key@] == v by {
                    lemma_tree_map(
                        self.image(),
                        self.branching(),
                        self.fill(),
                        self.root(),
                        self.height(),
                        key@,
                        v,
                    );
                }
                if res is Err {
                    if self@.contains_key(key@) {
                        assert(subtree_has(
                            self.image(),
                            self.root(),
                            self.height(),
                            key@,
                            self@[key@],
                        ));
                    }
                }
            }
        }
        res
    }

    /// Looks for `search` in the subtree whose root `node` is: in the child
    /// that `child_index` picks, level by level, and in the leaf by
    /// `find_pair`. `fuel` bounds the number of levels.
    fn search_node(
        &self,
        node: Node,
        search: &str,
        fuel: usize,
        Ghost(off): Ghost<int>,
        Ghost(h): Ghost<nat>,
        Ghost(lo): Ghost<Option<Seq<char>>>,
        Ghost(hi): Ghost<Option<Seq<char>>>,
        Ghost(root): Ghost<bool>,
    ) -> (res: Result<KeyValuePair, Error>)
        ensures
            res is Ok ==> res->Ok_0.key@ == search@,
            subtree_ok(self.image(), self.branching(), self.fill(), off, h, lo, hi, root)
                && node_at(self.image(), off) == Some(node@) && h <= fuel ==> match res {
                Ok(pair) => subtree_has(self.image(), off, h, search@, pair.value@),
                Err(error) => error == Error::KeyNotFound && forall|v: Seq<char>|
                    !subtree_has(self.image(), off, h, search@, v),
            },
        decreases fuel,
    {
        let ghost sound = subtree_ok(
            self.image(),
            self.branching(),
            self.fill(),
            off,
            h,
            lo,
            hi,
            root,
        ) && node_at(self.image(), off) == Some(node@) && h <= fuel;
        proof {
            reveal(subtree_ok);
            reveal(subtree_has);
        }
        match node.node_type {
            NodeType::Internal(children, keys) => {
                let idx = child_index(&keys, search);
                if idx >= children.len() || fuel == 0 {
                    proof {
                        if sound {
                            lemma_child_slot(keys_view(keys@), search@);
                        }
                    }
                    return Err(Error::UnexpectedError);
                }
                let child_offset = Offset(children[idx].0);
                let ghost shown = offsets_view(children@);
                let ghost seps = keys_view(keys@);
                proof {
                    if sound {
                        assert(shown[idx as int] == child_offset.0);
                        assert(subtree_ok(
                            self.image(),
                            self.branching(),
                            self.fill(),
                            shown[idx as int] as int,
                            (h - 1) as nat,
                            child_lo(seps, lo, idx as int),
                            child_hi(seps, hi, idx as int),
                            false,
                        ));
                    }
                }
                let child_node = match self.load_node(&child_offset) {
                    Ok(node) => node,
                    Err(error) => {
                        return Err(error);
                    },
                };
                let res = self.search_node(
                    child_node,
                    search,
                    fuel - 1,
                    Ghost(child_offset.0 as int),
                    Ghost((h - 1) as nat),
                    Ghost(child_lo(seps, lo, idx as int)),
                    Ghost(child_hi(seps, hi, idx as int)),
                    Ghost(false),
                );
                proof {
                    if sound {
                        assert forall|v: Seq<char>|
                            subtree_has(self.image(), off, h, search@, v) == subtree_has(
                                self.image(),
                                child_offset.0 as int,
                                (h - 1) as nat,
                                search@,
                                v,
                            ) by {
                            lemma_has_in_slot(
                                self.image(),
                                self.branching(),
                                self.fill(),
                                off,
                                h,
                                lo,
                                hi,
                                root,
                                search@,
                                v,
                            );
                        }
                    }
                }
                res
            },
            NodeType::Leaf(pairs) => {
                let ghost shown = pairs_view(pairs@);
                match find_pair(&pairs, search) {
                    Ok(at) => {
                        let pair = pairs[at].clone();
                        proof {
                            if sound {
                                assert(shown[at as int] == (search@, pair.value@));
                            }
                        }
                        Ok(pair)
                    },
                    Err(at) => {
                        proof {
                            if sound {
                                lemma_key_lt_irreflexive(search@);
                                assert forall|v: Seq<char>| !subtree_has(
                                    self.image(),
                                    off,
                                    h,
                                    search@,
                                    v,
                                ) by {
                                    if subtree_has(self.image(), off, h, search@, v) {
                                        let j = choose|j: int|
                                            0 <= j < shown.len() && #[trigger] shown[j] == (
                                                search@,
                                                v,
                                            );
                                        assert(pairs@[j].key@ == search@);
                                    }
                                }
                            }
                        }
                        Err(Error::KeyNotFound)
                    },
                }
            },
            NodeType::Unexpected => Err(Error::UnexpectedError),
        }
    }

    /// Whether `node` holds as much as a node may hold. Fails for a node of
    /// unknown kind and for a branching parameter outside its range.
    fn is_node_full(&self, node: &Node) -> (res: Result<bool, Error>)
        ensures
            res is Ok <==> 2 <= self.branching() <= MAX_BRANCHING_FACTOR && !(node@.node_type
                is Unexpected),
            res is Ok ==> res->Ok_0 == is_full(node@, self.branching()),
            res is Err ==> res->Err_0 == Error::UnexpectedError,
    {
        if self.b < 2 || self.b > MAX_BRANCHING_FACTOR {
            return Err(Error::UnexpectedError);
        }
        match &node.node_type {
            NodeType::Leaf(pairs) => Ok(pairs.len() == 2 * self.b - 1),
            NodeType::Internal(children, _) => Ok(children.len() == 2 * self.b),
            NodeType::Unexpected => Err(Error::UnexpectedError),
        }
    }

    /// Stores `kv` in the tree, dividing full nodes on the way down, and
    /// appends the offset of the root to the root log. A full root is divided
    /// first, under a new root, which makes the tree one level higher.
    ///
    /// On a sound tree the answer is `insert_outcome`. Where it is an error,
    /// image and log are what they were. Else the tree is sound again and
    /// stores `kv` besides what it stored; every node but the root holds as
    /// many keys at least as before; every node names its parent where
    /// every node did; the log has one record more. Where the
    /// root was not full it stays where it was, and the image grows by one
    /// page at most for each level below it. Where it was full, the new root
    /// stands on the first page behind the old image, with the old root and
    /// then the sibling on the page behind it as its children, and between
    /// them the key that went up.
    pub fn insert(&mut self, kv: KeyValuePair) -> (res: Result<(), Error>)
        ensures
            final(self).branching() == old(self).branching(),
            old(self).wf() ==> res == insert_outcome(
                old(self)@,
                old(self).image().len(),
                kv.key@,
                kv.value@,
            ),
            old(self).wf() && res is Err ==> {
                &&& final(self).image() == old(self).image()
                &&& final(self).log() == old(self).log()
                &&& final(self).height() == old(self).height()
                &&& final(self).fill() == old(self).fill()
            },
            old(self).wf() && res is Ok ==> {
                &&& final(self).wf()
                &&& final(self)@ == old(self)@.insert(kv.key@, kv.value@)
                &&& final(self).fill() == old(self).fill()
                &&& final(self).log() == old(self).log() + be_bytes(final(self).root() as nat, 8)
                &&& final(self).height() == old(self).height() + (if old(self).root_full() {
                    1nat
                } else {
                    0nat
                })
                &&& old(self).linked() ==> final(self).linked()
                &&& old(self).image().len() <= final(self).image().len()
                &&& !old(self).root_full() ==> {
                    &&& final(self).root() == old(self).root()
                    &&& final(self).image().len() <= old(self).image().len() + old(self).height()
                        * PAGE_SIZE
                }
                &&& old(self).root_full() ==> {
                    &&& old(self).root() < old(self).image().len() == final(self).root()
                    &&& final(self).image().len() <= old(self).image().len() + (old(
                        self,
                    ).height() + 2) * PAGE_SIZE
                    &&& node_at(final(self).image(), final(self).root()) == Some(
                        (NodeView {
                            node_type: NodeTypeView::Internal(
                                seq![
                                    old(self).root() as usize,
                                    (old(self).image().len() + PAGE_SIZE) as usize,
                                ],
                                seq![
                                    median_at(
                                        old(self).image(),
                                        old(self).root(),
                                        old(self).branching(),
                                    ),
                                ],
                            ),
                            is_root: true,
                            parent_offset: None,
                        }),
                    )
                }
            },
    {
        let ghost sound = self.wf();
        let ghost image0 = self.image();
        let ghost log0 = self.log();
        let ghost b = self.branching();
        let ghost min = self.fill();
        let ghost h0 = self.height();
        let ghost stored = self@;
        let ghost k = kv.key@;
        let ghost v = kv.value@;
        if kv.key.as_str().as_bytes().len() > KEY_SIZE {
            return Err(Error::KeyOverflowError);
        }
        if kv.value.as_str().as_bytes().len() > VALUE_SIZE {
            return Err(Error::ValueOverflowError);
        }
        if has_zero_byte(kv.key.as_str().as_bytes()) || has_zero_byte(
            kv.value.as_str().as_bytes(),
        ) {
            return Err(Error::UnexpectedError);
        }
        let len: usize = self.pager.len();
        if len > (usize::MAX - 2 * PAGE_SIZE) / 2 {
            return Err(Error::UnexpectedError);
        }
        match self.search(kv.key.clone()) {
            Ok(_) => {
                return Err(Error::KeyAlreadyExists);
            },
            Err(Error::KeyNotFound) => {},
            Err(error) => {
                return Err(error);
            },
        }
        proof {
            if sound {
                let kb = encode_utf8(k);
                let vb = encode_utf8(v);
                assert(kb.len() > 0 ==> kb.last() != 0u8);
                assert(vb.len() > 0 ==> vb.last() != 0u8);
                lemma_ready_root(image0, log0, b, min, h0, k, v);
            }
        }
        let fuel: usize = len / PAGE_SIZE;
        let root_offset = match self.wal.get_root() {
            Ok(offset) => offset,
            Err(error) => {
                return Err(error);
            },
        };
        let mut root = match self.load_node(&root_offset) {
            Ok(node) => node,
            Err(error) => {
                return Err(error);
            },
        };
        let full = match self.is_node_full(&root) {
            Ok(full) => full,
            Err(error) => {
                return Err(error);
            },
        };
        if full {
            let ghost whole = root@;
            let ghost entry = image0;
            match self.hand_over(
                &root,
                2,
                Ghost(root_offset.0 as int),
                Ghost(h0),
                Ghost(None),
                Ghost(None),
                Ghost(true),
            ) {
                Ok(()) => {},
                Err(error) => {
                    return Err(error);
                },
            }
            let ghost image0 = self.image();
            proof {
                if sound {
                    lemma_root_handed(entry, image0, log0, b, min, h0, 2);
                    lemma_ready_root(image0, log0, b, min, h0, k, v);
                }
            }
            let no_children: Vec<Offset> = Vec::new();
            let no_keys: Vec<Key> = Vec::new();
            let empty_root = Node::new(NodeType::Internal(no_children, no_keys), true, None);
            proof {
                assert(offsets_view(no_children@) =~= Seq::empty());
                assert(keys_view(no_keys@) =~= Seq::empty());
                assert(round_trips(empty_root@));
            }
            let new_root_offset = match self.append_node(&empty_root) {
                Ok(offset) => offset,
                Err(error) => {
                    return Err(error);
                },
            };
            let ghost image1 = self.image();
            root.parent_offset = Some(Offset(new_root_offset.0));
            root.is_root = false;
            proof {
                if sound {
                    assert(round_trips(root@));
                    crate::tree_insert::lemma_split_round_trips(root@, b);
                }
            }
            let (median, sibling) = match root.split(self.b) {
                Ok(halves) => halves,
                Err(error) => {
                    return Err(error);
                },
            };
            match self.store_node(&root, &root_offset) {
                Ok(()) => {},
                Err(error) => {
                    return Err(error);
                },
            }
            let ghost image2 = self.image();
            let sibling_offset = match self.append_node(&sibling) {
                Ok(offset) => offset,
                Err(error) => {
                    return Err(error);
                },
            };
            let ghost image3 = self.image();
            let mut children: Vec<Offset> = Vec::new();
            children.push(Offset(root_offset.0));
            children.push(Offset(sibling_offset.0));
            let mut keys: Vec<Key> = Vec::new();
            keys.push(median);
            let new_root = Node::new(NodeType::Internal(children, keys), true, None);
            proof {
                assert(offsets_view(children@) =~= seq![root_offset.0, sibling_offset.0]);
                assert(keys_view(keys@) =~= seq![whole.split_median(b)]);
                if sound {
                    assert(round_trips(new_root@));
                }
            }
            match self.store_node(&new_root, &new_root_offset) {
                Ok(()) => {},
                Err(error) => {
                    return Err(error);
                },
            }
            let ghost image4 = self.image();
            self.height = Ghost((h0 + 1) as nat);
            proof {
                if sound {
                    assert(root_split_written(
                        image0,
                        image1,
                        image2,
                        image3,
                        image4,
                        b,
                        root_offset.0,
                        new_root_offset.0,
                        sibling_offset.0,
                        root@,
                        sibling@,
                        new_root@,
                    ));
                    lemma_root_split_ready(
                        image0,
                        image1,
                        image2,
                        image3,
                        image4,
                        log0,
                        b,
                        min,
                        h0,
                        new_root_offset.0,
                        sibling_offset.0,
                        root@,
                        sibling@,
                        new_root@,
                        k,
                        v,
                    );
                    if subtree_linked(entry, root_offset.0 as int, h0) {
                        lemma_links_root_split(
                            entry,
                            image0,
                            image1,
                            image2,
                            image3,
                            image4,
                            b,
                            min,
                            h0,
                            root_offset.0,
                            new_root_offset.0,
                            sibling_offset.0,
                            root@,
                            sibling@,
                            new_root@,
                        );
                    }
                    reveal(insert_ready);
                }
            }
            match self.insert_non_full(
                new_root,
                Offset(new_root_offset.0),
                kv,
                fuel,
                Ghost((h0 + 1) as nat),
                Ghost(None),
                Ghost(None),
                Ghost(true),
            ) {
                Ok(()) => {},
                Err(error) => {
                    return Err(error);
                },
            }
            // the length of the image fits a machine word
            let _len: usize = self.pager.len();
            let ghost offset_bytes = be_bytes(new_root_offset.0 as nat, 8);
            let _ = self.wal.set_root(new_root_offset);
            proof {
                if sound {
                    crate::wal::lemma_last_record_of_set(log0, new_root_offset.0);
                    crate::bytes::lemma_be_bytes_len(new_root_offset.0 as nat, 8);
                    lemma_root_split_descends(
                        image0,
                        image1,
                        image2,
                        image3,
                        image4,
                        b,
                        root_offset.0,
                        new_root_offset.0,
                        sibling_offset.0,
                        root@,
                        sibling@,
                        new_root@,
                        k,
                    );
                    lemma_insert_done(
                        image0,
                        log0,
                        h0,
                        image4,
                        self.image(),
                        self.log(),
                        (h0 + 1) as nat,
                        b,
                        min,
                        k,
                        v,
                    );
                }
            }
            Ok(())
        } else {
            match self.insert_non_full(
                root,
                Offset(root_offset.0),
                kv,
                fuel,
                Ghost(h0),
                Ghost(None),
                Ghost(None),
                Ghost(true),
            ) {
                Ok(()) => {},
                Err(error) => {
                    return Err(error);
                },
            }
            // the length of the image fits a machine word
            let _len: usize = self.pager.len();
            let _ = self.wal.set_root(root_offset);
            proof {
                if sound {
                    crate::wal::lemma_last_record_of_set(log0, root_offset.0);
                    crate::bytes::lemma_be_bytes_len(root_offset.0 as nat, 8);
                    reveal(insert_ready);
                    lemma_insert_done(
                        image0,
                        log0,
                        h0,
                        image0,
                        self.image(),
                        self.log(),
                        h0,
                        b,
                        min,
                        k,
                        v,
                    );
                }
            }
            Ok(())
        }
    }

    /// Puts `kv` into the subtree whose root `node` is, which is not full:
    /// into the leaf at the place that `find_pair` gives, below an internal
    /// node into the child that `child_index` picks. A child that is full is
    /// divided before the descent: its children that go to the sibling are
    /// told where the sibling will stand, the half that stays is written over
    /// the child, the sibling to a new page, and the node itself, with the
    /// sibling behind the child and the key that went up between them, over
    /// its own page. `fuel` bounds the number of levels.
    fn insert_non_full(
        &mut self,
        node: Node,
        node_offset: Offset,
        kv: KeyValuePair,
        fuel: usize,
        Ghost(h): Ghost<nat>,
        Ghost(lo): Ghost<Option<Seq<char>>>,
        Ghost(hi): Ghost<Option<Seq<char>>>,
        Ghost(root): Ghost<bool>,
    ) -> (res: Result<(), Error>)
        ensures
            final(self).log() == old(self).log(),
            final(self).branching() == old(self).branching(),
            final(self).height() == old(self).height(),
            final(self).fill() == old(self).fill(),
            insert_ready(
                old(self).image(),
                old(self).branching(),
                old(self).fill(),
                node_offset.0 as int,
                h,
                lo,
                hi,
                root,
                node@,
                kv.key@,
                kv.value@,
            ) && h <= fuel && old(self).image().len() + h * 4096 <= usize::MAX ==> res is Ok
                && inserted_below(
                old(self).image(),
                final(self).image(),
                old(self).branching(),
                old(self).fill(),
                node_offset.0 as int,
                h,
                lo,
                hi,
                root,
                kv.key@,
                kv.value@,
            ) && links_kept(old(self).image(), final(self).image(), node_offset.0 as int, h)
                && top_kept(
                old(self).image(),
                final(self).image(),
                old(self).branching(),
                node_offset.0 as int,
                h,
                kv.key@,
            ),
        decreases fuel,
    {
        let ghost image0 = self.image();
        let ghost b = self.branching();
        let ghost min = self.fill();
        let ghost off = node_offset.0 as int;
        let ghost k = kv.key@;
        let ghost v = kv.value@;
        let ghost ready = insert_ready(image0, b, min, off, h, lo, hi, root, node@, k, v) && h
            <= fuel && image0.len() + h * 4096 <= usize::MAX;
        let ghost before = node@;
        let Node { node_type, is_root, parent_offset } = node;
        match node_type {
            NodeType::Leaf(mut pairs) => {
                let ghost shown = pairs_view(pairs@);
                let ghost pairs0 = pairs@;
                proof {
                    if ready {
                        lemma_ready_leaf(image0, b, min, off, h, lo, hi, root, before, k, v);
                    }
                }
                let at = match find_pair(&pairs, kv.key.as_str()) {
                    Ok(at) => {
                        proof {
                            if ready {
                                assert(shown[at as int].0 == k);
                            }
                        }
                        return Err(Error::KeyAlreadyExists);
                    },
                    Err(at) => at,
                };
                pairs.insert(at, kv);
                let updated = Node { node_type: NodeType::Leaf(pairs), is_root, parent_offset };
                proof {
                    assert(pairs_view(pairs@) =~= shown.insert(at as int, (k, v)));
                    if ready {
                        lemma_ready_leaf_grown(
                            image0,
                            b,
                            min,
                            off,
                            h,
                            lo,
                            hi,
                            root,
                            before,
                            k,
                            v,
                            at as int,
                            updated@,
                        );
                    }
                }
                let res = self.store_node(&updated, &node_offset);
                proof {
                    if ready {
                        assert forall|m: int| 0 <= m < at implies key_lt(
                            (#[trigger] shown[m]).0,
                            k,
                        ) by {
                            assert(shown[m].0 == pairs0[m].key@);
                        }
                        assert forall|m: int| at <= m < shown.len() implies key_lt(
                            k,
                            (#[trigger] shown[m]).0,
                        ) by {
                            assert(shown[m].0 == pairs0[m].key@);
                        }
                        lemma_insert_leaf(
                            image0,
                            self.image(),
                            b,
                            min,
                            off,
                            h,
                            lo,
                            hi,
                            root,
                            before,
                            at as int,
                            k,
                            v,
                        );
                        lemma_links_leaf(image0, self.image(), off);
                        assert(!descends_whole(image0, b, off, k)) by {
                            reveal(insert_ready);
                        }
                    }
                }
                res
            },
            NodeType::Internal(mut children, mut keys) => {
                let ghost kids = offsets_view(children@);
                let ghost seps = keys_view(keys@);
                let idx = child_index(&keys, kv.key.as_str());
                proof {
                    if ready {
                        lemma_ready_internal(image0, b, min, off, h, lo, hi, root, before, k, v);
                    }
                }
                if idx >= children.len() || fuel == 0 {
                    return Err(Error::UnexpectedError);
                }
                let child_offset = Offset(children[idx].0);
                assert(kids[idx as int] == child_offset.0);
                let mut child = match self.load_node(&child_offset) {
                    Ok(child) => child,
                    Err(error) => {
                        return Err(error);
                    },
                };
                let full = match self.is_node_full(&child) {
                    Ok(full) => full,
                    Err(error) => {
                        return Err(error);
                    },
                };
                let ghost clo = child_lo(seps, lo, idx as int);
                let ghost chi = child_hi(seps, hi, idx as int);
                if full {
                    let ghost whole = child@;
                    let ghost entry = image0;
                    proof {
                        if ready {
                            lemma_child_hand_over_ready(
                                entry,
                                b,
                                min,
                                off,
                                h,
                                lo,
                                hi,
                                root,
                                before,
                                k,
                                v,
                            );
                        }
                    }
                    match self.hand_over(
                        &child,
                        1,
                        Ghost(child_offset.0 as int),
                        Ghost((h - 1) as nat),
                        Ghost(clo),
                        Ghost(chi),
                        Ghost(false),
                    ) {
                        Ok(()) => {},
                        Err(error) => {
                            return Err(error);
                        },
                    }
                    let ghost image0 = self.image();
                    proof {
                        if ready {
                            lemma_handed_ready(
                                entry,
                                image0,
                                b,
                                min,
                                off,
                                h,
                                lo,
                                hi,
                                root,
                                before,
                                k,
                                v,
                                1,
                            );
                            lemma_ready_internal(
                                image0,
                                b,
                                min,
                                off,
                                h,
                                lo,
                                hi,
                                root,
                                before,
                                k,
                                v,
                            );
                        }
                    }
                    let (median, sibling) = match child.split(self.b) {
                        Ok(halves) => halves,
                        Err(error) => {
                            return Err(error);
                        },
                    };
                    match self.store_node(&child, &child_offset) {
                        Ok(()) => {},
                        Err(error) => {
                            return Err(error);
                        },
                    }
                    let ghost image1 = self.image();
                    let sibling_offset = match self.append_node(&sibling) {
                        Ok(offset) => offset,
                        Err(error) => {
                            return Err(error);
                        },
                    };
                    let ghost image2 = self.image();
                    let goes_left = key_less_eq(kv.key.as_str(), median.0.as_str());
                    children.insert(idx + 1, Offset(sibling_offset.0));
                    keys.insert(idx, median);
                    let updated = Node {
                        node_type: NodeType::Internal(children, keys),
                        is_root,
                        parent_offset,
                    };
                    proof {
                        assert(offsets_view(children@) =~= kids.insert(
                            idx + 1,
                            sibling_offset.0,
                        ));
                        assert(keys_view(keys@) =~= seps.insert(idx as int, median@));
                        if ready {
                            lemma_internal_grown_round_trips(
                                before,
                                updated@,
                                idx as int,
                                sibling_offset.0,
                                median@,
                            );
                        }
                    }
                    match self.store_node(&updated, &node_offset) {
                        Ok(()) => {},
                        Err(error) => {
                            return Err(error);
                        },
                    }
                    let ghost image3 = self.image();
                    let ghost seps3 = updated@.node_type->Internal_1;
                    proof {
                        if ready {
                            assert(split_written(
                                image0,
                                image1,
                                image2,
                                image3,
                                b,
                                off,
                                before,
                                k,
                                sibling_offset.0,
                                child@,
                                sibling@,
                                updated@,
                            ));
                            lemma_split_target_ready(
                                image0,
                                image1,
                                image2,
                                image3,
                                b,
                                min,
                                off,
                                h,
                                lo,
                                hi,
                                root,
                                before,
                                k,
                                v,
                                sibling_offset.0,
                                child@,
                                sibling@,
                                updated@,
                            );
                        }
                    }
                    let ghost left = child@;
                    let ghost right = sibling@;
                    let res = if goes_left {
                        self.insert_non_full(
                            child,
                            child_offset,
                            kv,
                            fuel - 1,
                            Ghost((h - 1) as nat),
                            Ghost(child_lo(seps3, lo, idx as int)),
                            Ghost(child_hi(seps3, hi, idx as int)),
                            Ghost(false),
                        )
                    } else {
                        self.insert_non_full(
                            sibling,
                            sibling_offset,
                            kv,
                            fuel - 1,
                            Ghost((h - 1) as nat),
                            Ghost(child_lo(seps3, lo, idx + 1)),
                            Ghost(child_hi(seps3, hi, idx + 1)),
                            Ghost(false),
                        )
                    };
                    proof {
                        if ready {
                            if goes_left {
                                lemma_inserted_grows(
                                    image3,
                                    self.image(),
                                    b,
                                    min,
                                    child_offset.0 as int,
                                    (h - 1) as nat,
                                    child_lo(seps3, lo, idx as int),
                                    child_hi(seps3, hi, idx as int),
                                    false,
                                    k,
                                    v,
                                );
                            } else {
                                lemma_inserted_grows(
                                    image3,
                                    self.image(),
                                    b,
                                    min,
                                    sibling_offset.0 as int,
                                    (h - 1) as nat,
                                    child_lo(seps3, lo, idx + 1),
                                    child_hi(seps3, hi, idx + 1),
                                    false,
                                    k,
                                    v,
                                );
                            }
                            lemma_links_split(
                                entry,
                                image0,
                                image1,
                                image2,
                                image3,
                                self.image(),
                                b,
                                min,
                                off,
                                h,
                                lo,
                                hi,
                                root,
                                before,
                                k,
                                v,
                                sibling_offset.0,
                                left,
                                right,
                                updated@,
                                if goes_left {
                                    child_offset.0 as int
                                } else {
                                    sibling_offset.0 as int
                                },
                            );
                            lemma_split_target_done(
                                image0,
                                image1,
                                image2,
                                image3,
                                self.image(),
                                b,
                                min,
                                off,
                                h,
                                lo,
                                hi,
                                root,
                                before,
                                k,
                                v,
                                sibling_offset.0,
                                left,
                                right,
                                updated@,
                            );
                            assert(!descends_whole(entry, b, off, k)) by {
                                reveal(insert_ready);
                            }
                            lemma_handed_done(
                                entry,
                                image0,
                                self.image(),
                                b,
                                min,
                                off,
                                h,
                                lo,
                                hi,
                                root,
                                before,
                                k,
                                v,
                                1,
                            );
                        }
                    }
                    res
                } else {
                    let res = self.insert_non_full(
                        child,
                        child_offset,
                        kv,
                        fuel - 1,
                        Ghost((h - 1) as nat),
                        Ghost(clo),
                        Ghost(chi),
                        Ghost(false),
                    );
                    proof {
                        if ready {
                            lemma_inserted_grows(
                                image0,
                                self.image(),
                                b,
                                min,
                                child_offset.0 as int,
                                (h - 1) as nat,
                                clo,
                                chi,
                                false,
                                k,
                                v,
                            );
                            lemma_links_ascend(
                                image0,
                                self.image(),
                                b,
                                min,
                                off,
                                h,
                                lo,
                                hi,
                                root,
                                before,
                                k,
                                v,
                                child_offset.0 as int,
                            );
                            lemma_insert_ascend(
                                image0,
                                self.image(),
                                b,
                                min,
                                off,
                                h,
                                lo,
                                hi,
                                root,
                                before,
                                k,
                                v,
                            );
                            lemma_top_kept(
                                image0,
                                self.image(),
                                b,
                                min,
                                off,
                                h,
                                lo,
                                hi,
                                root,
                                before,
                                k,
                                v,
                            );
                        }
                    }
                    res
                }
            },
            NodeType::Unexpected => {
                proof {
                    if ready {
                        reveal(insert_ready);
                        reveal(subtree_ok);
                    }
                }
                Err(Error::UnexpectedError)
            },
        }
    }

    /// Whether `node` is no root and holds fewer than `b - 1` keys. Fails
    /// for a node of unknown kind and for a branching parameter outside its
    /// range.
    fn is_node_underflow(&self, node: &Node) -> (res: Result<bool, Error>)
        ensures
            res is Ok <==> 2 <= self.branching() <= MAX_BRANCHING_FACTOR && !(node@.node_type
                is Unexpected),
            res is Ok ==> res->Ok_0 == underflows(node@, self.branching()),
            res is Err ==> res->Err_0 == Error::UnexpectedError,
    {
        if self.b < 2 || self.b > MAX_BRANCHING_FACTOR {
            return Err(Error::UnexpectedError);
        }
        match &node.node_type {
            // A root cannot underflow: it may hold any number of keys.
            NodeType::Leaf(pairs) => Ok(pairs.len() < self.b - 1 && !node.is_root),
            NodeType::Internal(_, keys) => Ok(keys.len() < self.b - 1 && !node.is_root),
            NodeType::Unexpected => Err(Error::UnexpectedError),
        }
    }

    /// Whether two nodes are of one kind and fit into one node together.
    fn fits_together(&self, first: &Node, second: &Node) -> (res: bool)
        ensures
            2 <= self.branching() <= MAX_BRANCHING_FACTOR ==> res == fit_together(
                first@,
                second@,
                self.branching(),
            ),
    {
        if self.b < 2 || self.b > MAX_BRANCHING_FACTOR {
            return false;
        }
        match &first.node_type {
            NodeType::Leaf(first_pairs) => match &second.node_type {
                NodeType::Leaf(second_pairs) => first_pairs.len() <= 2 * self.b - 1
                    && second_pairs.len() <= 2 * self.b - 1 - first_pairs.len(),
                _ => false,
            },
            NodeType::Internal(first_offsets, _) => match &second.node_type {
                NodeType::Internal(second_offsets, _) => first_offsets.len() <= 2 * self.b
                    && second_offsets.len() <= 2 * self.b - first_offsets.len(),
                _ => false,
            },
            NodeType::Unexpected => false,
        }
    }

    /// Merges two nodes of one kind into one: the pairs of two leaves, or
    /// the children and the keys of two internal nodes, those of the first
    /// and then those of the second. Fails for nodes of two kinds and of
    /// unknown kind.
    fn merge(&self, first: Node, second: Node) -> (res: Result<Node, Error>)
        ensures
            res is Ok <==> !(merge_of(first@, second@).node_type is Unexpected),
            res is Ok ==> res->Ok_0@ == merge_of(first@, second@),
            res is Err ==> res->Err_0 == Error::UnexpectedError,
    {
        let Node { node_type: first_type, is_root, parent_offset } = first;
        let Node { node_type: second_type, is_root: _, parent_offset: _ } = second;
        match first_type {
            NodeType::Leaf(mut first_pairs) => {
                match second_type {
                    NodeType::Leaf(mut second_pairs) => {
                        let ghost first_shown = pairs_view(first_pairs@);
                        let ghost second_shown = pairs_view(second_pairs@);
                        first_pairs.append(&mut second_pairs);
                        assert(pairs_view(first_pairs@) =~= first_shown + second_shown);
                        Ok(Node { node_type: NodeType::Leaf(first_pairs), is_root, parent_offset })
                    },
                    _ => Err(Error::UnexpectedError),
                }
            },
            NodeType::Internal(mut first_offsets, mut first_keys) => {
                match second_type {
                    NodeType::Internal(mut second_offsets, mut second_keys) => {
                        let ghost c1 = offsets_view(first_offsets@);
                        let ghost c2 = offsets_view(second_offsets@);
                        let ghost s1 = keys_view(first_keys@);
                        let ghost s2 = keys_view(second_keys@);
                        first_keys.append(&mut second_keys);
                        first_offsets.append(&mut second_offsets);
                        assert(offsets_view(first_offsets@) =~= c1 + c2);
                        assert(keys_view(first_keys@) =~= s1 + s2);
                        Ok(
                            Node {
                                node_type: NodeType::Internal(first_offsets, first_keys),
                                is_root,
                                parent_offset,
                            },
                        )
                    },
                    _ => Err(Error::UnexpectedError),
                }
            },
            NodeType::Unexpected => Err(Error::UnexpectedError),
        }
    }

    /// Takes `key` out of the tree, mends the nodes that are left with too
    /// few keys, and appends the offset of the root to the root log. Where
    /// the root is left with one child, that child becomes the root, which
    /// makes the tree one level lower.
    ///
    /// On a sound tree the answer is `delete_outcome`. Where it is an error,
    /// image and log are what they were. Else the tree is sound again and
    /// stores what it stored but for `key`; every node but the root holds as
    /// many keys at least as before; every node names its parent where
    /// every node did; the log has one record more; and the
    /// pages hold what `left_by_delete` says: a root leaf its pairs without
    /// the pair of `key`, and, where the leaf of `key` and its neighbour were
    /// merged, a new page at the end of the old image both, which belongs to
    /// the tree and which their parent lists in place of the two.
    pub fn delete(&mut self, key: Key) -> (res: Result<(), Error>)
        ensures
            final(self).branching() == old(self).branching(),
            old(self).wf() ==> res == delete_outcome(old(self)@, old(self).image().len(), key@),
            old(self).wf() && res is Err ==> {
                &&& final(self).image() == old(self).image()
                &&& final(self).log() == old(self).log()
                &&& final(self).height() == old(self).height()
                &&& final(self).fill() == old(self).fill()
            },
            old(self).wf() && res is Ok ==> {
                &&& final(self).wf()
                &&& final(self)@ == old(self)@.remove(key@)
                &&& final(self).fill() == old(self).fill()
                &&& final(self).log() == old(self).log() + be_bytes(final(self).root() as nat, 8)
                &&& final(self).height() <= old(self).height()
                &&& old(self).linked() ==> final(self).linked()
                &&& old(self).image().len() <= final(self).image().len() <= old(
                    self,
                ).image().len() + old(self).height() * PAGE_SIZE
                &&& left_by_delete(
                    old(self).image(),
                    final(self).image(),
                    old(self).branching(),
                    old(self).root(),
                    old(self).height(),
                    key@,
                )
                &&& old(self).height() >= 1 && leaf_merge_due(
                    old(self).image(),
                    old(self).branching(),
                    leaf_parent(old(self).image(), old(self).root(), old(self).height(), key@),
                    key@,
                ) ==> in_subtree(
                    final(self).image(),
                    final(self).root(),
                    final(self).height(),
                    old(self).image().len() as int,
                )
            },
    {
        let ghost sound = self.wf();
        let ghost image0 = self.image();
        let ghost log0 = self.log();
        let ghost b = self.branching();
        let ghost min = self.fill();
        let ghost h0 = self.height();
        let ghost k = key@;
        let len: usize = self.pager.len();
        if len > (usize::MAX - 2 * PAGE_SIZE) / 2 {
            return Err(Error::UnexpectedError);
        }
        let fuel: usize = len / PAGE_SIZE;
        proof {
            if sound {
                lemma_delete_root_ready(image0, log0, b, min, h0, k);
                assert(image0.len() + h0 * 4096 <= usize::MAX) by (nonlinear_arith)
                    requires
                        (h0 + 1) * 4096 <= image0.len(),
                        2 * image0.len() + 2 * 4096 <= usize::MAX,
                ;
            }
        }
        let root_offset = match self.wal.get_root() {
            Ok(offset) => offset,
            Err(error) => {
                return Err(error);
            },
        };
        let root = match self.delete_key_from_subtree(
            &key,
            &root_offset,
            fuel,
            Ghost(min),
            Ghost(h0),
            Ghost(None),
            Ghost(None),
            Ghost(true),
        ) {
            Ok(root) => root,
            Err(error) => {
                return Err(error);
            },
        };
        let ghost image2 = self.image();
        let only_child: Option<Offset> = match &root.node_type {
            NodeType::Internal(children, _) => if children.len() == 1 {
                Some(Offset(children[0].0))
            } else {
                None
            },
            _ => None,
        };
        match only_child {
            Some(child_offset) => {
                let ghost kids = root@.node_type->Internal_0;
                assert(kids[0] == child_offset.0);
                let mut child = match self.load_node(&child_offset) {
                    Ok(child) => child,
                    Err(error) => {
                        proof {
                            if sound {
                                lemma_collapse_ready(
                                    image0,
                                    image2,
                                    b,
                                    root_offset.0 as int,
                                    h0,
                                    k,
                                    root@,
                                );
                            }
                        }
                        return Err(error);
                    },
                };
                let ghost lone = child@;
                child.is_root = true;
                child.parent_offset = None;
                proof {
                    if sound {
                        lemma_collapse_ready(
                            image0,
                            image2,
                            b,
                            root_offset.0 as int,
                            h0,
                            k,
                            child@,
                        );
                    }
                }
                match self.store_node(&child, &child_offset) {
                    Ok(()) => {},
                    Err(error) => {
                        return Err(error);
                    },
                }
                // the length of the image fits a machine word
                let _len: usize = self.pager.len();
                let _ = self.wal.set_root(Offset(child_offset.0));
                proof {
                    if sound {
                        crate::wal::lemma_last_record_of_set(log0, child_offset.0);
                        crate::bytes::lemma_be_bytes_len(child_offset.0 as nat, 8);
                        assert forall|p: int| p % 4096 == 0 implies type_at(self.image(), p)
                            == #[trigger] type_at(image2, p) by {
                            assert(node_at(image2, child_offset.0 as int) == Some(lone));
                            if p != child_offset.0 {
                                assert(node_at(self.image(), p) == node_at(image2, p));
                            }
                        }
                        if subtree_linked(image0, root_offset.0 as int, h0) {
                            assert forall|p: int|
                                p % 4096 == 0 && p != child_offset.0 implies #[trigger] node_at(
                                self.image(),
                                p,
                            ) == node_at(image2, p) by {}
                            lemma_deleted_sound(image0, image2, b, root_offset.0 as int, h0, k);
                            lemma_links_collapsed(
                                image2,
                                self.image(),
                                b,
                                root_offset.0 as int,
                                h0,
                                child_offset.0 as int,
                            );
                        }
                        lemma_delete_trace(image0, image2, b, root_offset.0 as int, h0, k);
                        lemma_deleted_sound(image0, image2, b, root_offset.0 as int, h0, k);
                        if in_subtree(image2, root_offset.0 as int, h0, image0.len() as int) {
                            lemma_below_collapsed(
                                image2,
                                self.image(),
                                b,
                                root_offset.0 as int,
                                h0,
                                image0.len() as int,
                            );
                        }
                        lemma_trace_retyped(
                            image0,
                            image2,
                            self.image(),
                            b,
                            min,
                            root_offset.0 as int,
                            h0,
                            k,
                        );
                        lemma_delete_collapsed(
                            image0,
                            log0,
                            h0,
                            image2,
                            self.image(),
                            self.log(),
                            b,
                            min,
                            k,
                            child@,
                        );
                        lemma_fills_collapsed(
                            image0,
                            image2,
                            self.image(),
                            b,
                            min,
                            root_offset.0 as int,
                            h0,
                            k,
                            child_offset.0 as int,
                            child@,
                        );
                        lemma_delete_filled(
                            self.image(),
                            self.log(),
                            b,
                            min,
                            (h0 - 1) as nat,
                        );
                    }
                }
                self.height = Ghost((h0 - 1) as nat);
                Ok(())
            },
            None => {
                // the length of the image fits a machine word
                let _len: usize = self.pager.len();
                let _ = self.wal.set_root(root_offset);
                proof {
                    if sound {
                        crate::wal::lemma_last_record_of_set(log0, root_offset.0);
                        crate::bytes::lemma_be_bytes_len(root_offset.0 as nat, 8);
                        assert(crate::tree::branches(node_at(image2, root_offset.0 as int))) by {
                            reveal(deleted_below);
                            assert(crate::delete_steps::settled(image2, root_offset.0 as int));
                        }
                        lemma_delete_trace(image0, image2, b, root_offset.0 as int, h0, k);
                        lemma_delete_done(image0, log0, h0, image2, self.log(), b, min, k);
                        lemma_delete_filled(image2, self.log(), b, min, h0);
                    }
                }
                Ok(())
            },
        }
    }

    /// Takes `key` out of the subtree at `offset`: out of the leaf into
    /// which the search for it descends, and mends on the way back every
    /// node below which it went, as `borrow_if_needed` says. Hands out the
    /// node at `offset` as it is then. Changes nothing where the subtree does
    /// not store the key. `fuel` bounds the number of levels.
    fn delete_key_from_subtree(
        &mut self,
        key: &Key,
        offset: &Offset,
        fuel: usize,
        Ghost(min): Ghost<int>,
        Ghost(h): Ghost<nat>,
        Ghost(lo): Ghost<Option<Seq<char>>>,
        Ghost(hi): Ghost<Option<Seq<char>>>,
        Ghost(root): Ghost<bool>,
    ) -> (res: Result<Node, Error>)
        ensures
            final(self).log() == old(self).log(),
            final(self).branching() == old(self).branching(),
            final(self).height() == old(self).height(),
            final(self).fill() == old(self).fill(),
            delete_ready(
                old(self).image(),
                old(self).branching(),
                offset.0 as int,
                h,
                lo,
                hi,
                root,
            ) && subtree_ok(
                old(self).image(),
                old(self).branching(),
                min,
                offset.0 as int,
                h,
                lo,
                hi,
                root,
            ) && 0 <= min <= old(self).branching() - 1 && (root ==> branches(
                node_at(old(self).image(), offset.0 as int),
            )) && h <= fuel && old(self).image().len() + h * 4096 <= usize::MAX ==> match res {
                Ok(node) => {
                    &&& subtree_holds(old(self).image(), offset.0 as int, h, key@)
                    &&& deleted_below(
                        old(self).image(),
                        final(self).image(),
                        old(self).branching(),
                        offset.0 as int,
                        h,
                        lo,
                        hi,
                        root,
                        key@,
                    )
                    &&& fills(final(self).image(), min, offset.0 as int, h)
                    &&& links_kept(old(self).image(), final(self).image(), offset.0 as int, h)
                    &&& node_at(final(self).image(), offset.0 as int) == Some(node@)
                    &&& delete_trace(
                        old(self).image(),
                        final(self).image(),
                        old(self).branching(),
                        offset.0 as int,
                        h,
                        key@,
                    )
                },
                Err(error) => {
                    &&& error == Error::KeyNotFound
                    &&& !subtree_holds(old(self).image(), offset.0 as int, h, key@)
                    &&& final(self).image() == old(self).image()
                },
            },
        decreases fuel,
    {
        let ghost image0 = self.image();
        let ghost b = self.branching();
        let ghost off = offset.0 as int;
        let ghost k = key@;
        let ghost ready = delete_ready(image0, b, off, h, lo, hi, root) && subtree_ok(
            image0,
            b,
            min,
            off,
            h,
            lo,
            hi,
            root,
        ) && 0 <= min <= b - 1 && (root ==> branches(node_at(image0, off))) && h <= fuel
            && image0.len() + h * 4096 <= usize::MAX;
        proof {
            if ready {
                reveal(delete_ready);
                reveal(subtree_ok);
            }
        }
        let node = match self.load_node(offset) {
            Ok(node) => node,
            Err(error) => {
                return Err(error);
            },
        };
        let ghost before = node@;
        let Node { node_type, is_root, parent_offset } = node;
        match node_type {
            NodeType::Leaf(mut pairs) => {
                let ghost shown = pairs_view(pairs@);
                let ghost pairs0 = pairs@;
                proof {
                    if ready {
                        lemma_gone_leaf(image0, b, off, h, lo, hi, root, before, k);
                    }
                }
                let at = match find_pair(&pairs, key.0.as_str()) {
                    Ok(at) => at,
                    Err(_) => {
                        proof {
                            if ready {
                                lemma_key_lt_irreflexive(k);
                                assert forall|j: int| 0 <= j < shown.len() implies (
                                #[trigger] shown[j]).0 != k by {
                                    assert(shown[j].0 == pairs0[j].key@);
                                }
                            }
                        }
                        return Err(Error::KeyNotFound);
                    },
                };
                pairs.remove(at);
                let updated = Node { node_type: NodeType::Leaf(pairs), is_root, parent_offset };
                proof {
                    assert(pairs_view(pairs@) =~= shown.remove(at as int));
                    if ready {
                        assert(shown[at as int].0 == k);
                        lemma_leaf_shrunk_round_trips(before, at as int, updated@);
                    }
                }
                match self.store_node(&updated, offset) {
                    Ok(()) => {},
                    Err(error) => {
                        return Err(error);
                    },
                }
                proof {
                    if ready {
                        lemma_delete_leaf(
                            image0,
                            self.image(),
                            b,
                            off,
                            h,
                            lo,
                            hi,
                            root,
                            before,
                            at as int,
                            k,
                        );
                        lemma_links_leaf(image0, self.image(), off);
                        assert(fills(self.image(), min, off, h)) by {
                            reveal(in_subtree);
                        }
                        lemma_trace_leaf(image0, self.image(), b, off, k, at as int);
                    }
                }
                Ok(updated)
            },
            NodeType::Internal(children, keys) => {
                let ghost kids = offsets_view(children@);
                let ghost seps = keys_view(keys@);
                let idx = child_index(&keys, key.0.as_str());
                proof {
                    if ready {
                        lemma_gone_internal(image0, b, off, h, lo, hi, root, before, k);
                        lemma_fills_descend(
                            image0,
                            b,
                            min,
                            off,
                            h,
                            lo,
                            hi,
                            root,
                            before,
                            idx as int,
                        );
                    }
                }
                if idx >= children.len() || fuel == 0 {
                    return Err(Error::UnexpectedError);
                }
                let child_offset = Offset(children[idx].0);
                assert(kids[idx as int] == child_offset.0);
                let child = match self.delete_key_from_subtree(
                    key,
                    &child_offset,
                    fuel - 1,
                    Ghost(min),
                    Ghost((h - 1) as nat),
                    Ghost(child_lo(seps, lo, idx as int)),
                    Ghost(child_hi(seps, hi, idx as int)),
                    Ghost(false),
                ) {
                    Ok(child) => child,
                    Err(error) => {
                        return Err(error);
                    },
                };
                let parent = Node {
                    node_type: NodeType::Internal(children, keys),
                    is_root,
                    parent_offset,
                };
                // the length of the image fits a machine word
                let _len: usize = self.pager.len();
                proof {
                    if ready {
                        reveal(delete_ready);
                        lemma_deleted_grows(
                            image0,
                            self.image(),
                            b,
                            child_offset.0 as int,
                            (h - 1) as nat,
                            child_lo(seps, lo, idx as int),
                            child_hi(seps, hi, idx as int),
                            false,
                            k,
                        );
                        lemma_links_delete_ascend(
                            image0,
                            self.image(),
                            b,
                            off,
                            h,
                            lo,
                            hi,
                            root,
                            before,
                            k,
                            child_offset.0 as int,
                        );
                        lemma_fills_ascend(
                            image0,
                            self.image(),
                            b,
                            min,
                            off,
                            h,
                            lo,
                            hi,
                            root,
                            before,
                            k,
                        );
                        lemma_delete_ascend(
                            image0,
                            self.image(),
                            b,
                            off,
                            h,
                            lo,
                            hi,
                            root,
                            before,
                            k,
                        );
                        assert(self.image().len() <= image0.len() + (h - 1) * 4096) by {
                            reveal(deleted_below);
                        }
                        assert(self.image().len() + 4096 <= usize::MAX) by (nonlinear_arith)
                            requires
                                self.image().len() <= image0.len() + (h - 1) * 4096,
                                image0.len() + h * 4096 <= usize::MAX,
                        ;
                        lemma_mend_start(
                            image0,
                            self.image(),
                            b,
                            min,
                            off,
                            h,
                            lo,
                            hi,
                            root,
                            k,
                            parent@,
                            idx as int,
                            child@,
                        );
                    }
                }
                let ghost image3 = self.image();
                let ghost lacking = child@;
                let res = self.borrow_if_needed(
                    parent,
                    offset,
                    idx,
                    child,
                    Ghost(image0),
                    Ghost(k),
                    Ghost(min),
                    Ghost(h),
                    Ghost(lo),
                    Ghost(hi),
                    Ghost(root),
                );
                proof {
                    if ready && res is Ok {
                        lemma_mended(
                            image0,
                            self.image(),
                            b,
                            min,
                            off,
                            h,
                            lo,
                            hi,
                            root,
                            k,
                            res->Ok_0@,
                        );
                        if h == 1 {
                            lemma_trace_above_leaves(
                                image0,
                                image3,
                                self.image(),
                                b,
                                min,
                                off,
                                lo,
                                hi,
                                root,
                                k,
                                before,
                                idx as int,
                                lacking,
                            );
                        } else {
                            lemma_trace_higher(
                                image0,
                                image3,
                                self.image(),
                                b,
                                min,
                                off,
                                h,
                                lo,
                                hi,
                                root,
                                k,
                                before,
                                idx as int,
                                lacking,
                            );
                        }
                    }
                }
                res
            },
            NodeType::Unexpected => Err(Error::UnexpectedError),
        }
    }

    /// Mends `child`, child `idx` of `parent`, after a key has been taken
    /// out below it. Where the child holds fewer than `b - 1` keys it is put
    /// together with the child before it, or with the child behind it where
    /// it is the first: the two are merged where they fit into one node, as
    /// `merge_children` says, and their entries are shared out in halves
    /// where they do not, as `share_children` says. Hands out the parent as
    /// it is then.
    fn borrow_if_needed(
        &mut self,
        parent: Node,
        parent_offset: &Offset,
        idx: usize,
        child: Node,
        Ghost(image0): Ghost<Seq<u8>>,
        Ghost(k): Ghost<Seq<char>>,
        Ghost(min): Ghost<int>,
        Ghost(h): Ghost<nat>,
        Ghost(lo): Ghost<Option<Seq<char>>>,
        Ghost(hi): Ghost<Option<Seq<char>>>,
        Ghost(root): Ghost<bool>,
    ) -> (res: Result<Node, Error>)
        ensures
            final(self).log() == old(self).log(),
            final(self).branching() == old(self).branching(),
            final(self).height() == old(self).height(),
            final(self).fill() == old(self).fill(),
            mend_ready(
                image0,
                old(self).image(),
                old(self).branching(),
                min,
                parent_offset.0 as int,
                h,
                lo,
                hi,
                root,
                k,
                parent@,
                idx as int,
                child@,
            ) ==> res is Ok && mended(
                image0,
                final(self).image(),
                old(self).branching(),
                min,
                parent_offset.0 as int,
                h,
                lo,
                hi,
                root,
                k,
                res->Ok_0@,
            ) && mend_trace(
                old(self).image(),
                final(self).image(),
                old(self).branching(),
                parent_offset.0 as int,
                idx as int,
            
            ) && (links_kept(image0, old(self).image(), parent_offset.0 as int, h) ==> links_kept(
                image0,
                final(self).image(),
                parent_offset.0 as int,
                h,
            )),
    {
        let ghost image3 = self.image();
        let ghost b = self.branching();
        let ghost off = parent_offset.0 as int;
        let ghost sound = mend_ready(
            image0,
            image3,
            b,
            min,
            off,
            h,
            lo,
            hi,
            root,
            k,
            parent@,
            idx as int,
            child@,
        );
        let ghost before = parent@;
        let ghost lacking = child@;
        proof {
            if sound {
                lemma_mend_nodes(
                    image0,
                    image3,
                    b,
                    min,
                    off,
                    h,
                    lo,
                    hi,
                    root,
                    k,
                    before,
                    idx as int,
                    lacking,
                );
                lemma_mend_ready(
                    image0,
                    image3,
                    b,
                    min,
                    off,
                    h,
                    lo,
                    hi,
                    root,
                    k,
                    before,
                    idx as int,
                    child@,
                );
            }
        }
        let underflow = match self.is_node_underflow(&child) {
            Ok(underflow) => underflow,
            Err(error) => {
                return Err(error);
            },
        };
        if !underflow {
            proof {
                if sound {
                    lemma_mend_trace_same(image3, b, off, idx as int);
                    lemma_mended_whole(
                        image0,
                        image3,
                        b,
                        min,
                        off,
                        h,
                        lo,
                        hi,
                        root,
                        k,
                        before,
                        idx as int,
                        child@,
                    );
                }
            }
            return Ok(parent);
        }
        let Node { node_type, is_root, parent_offset: grand_offset } = parent;
        let (children, keys) = match node_type {
            NodeType::Internal(children, keys) => (children, keys),
            NodeType::Leaf(pairs) => {
                return Err(Error::UnexpectedError);
            },
            NodeType::Unexpected => {
                return Err(Error::UnexpectedError);
            },
        };
        if idx >= children.len() || children.len() < 2 || keys.len() != children.len() - 1 {
            // there is no neighbour to put the child together with
            proof {
                if sound {
                    lemma_mend_trace_same(image3, b, off, idx as int);
                    lemma_mended_lonely(
                        image0,
                        image3,
                        b,
                        min,
                        off,
                        h,
                        lo,
                        hi,
                        root,
                        k,
                        before,
                        idx as int,
                        child@,
                    );
                }
            }
            return Ok(
                Node {
                    node_type: NodeType::Internal(children, keys),
                    is_root,
                    parent_offset: grand_offset,
                },
            );
        }
        let sibling_idx: usize = if idx > 0 {
            idx - 1
        } else {
            idx + 1
        };
        let low: usize = if idx < sibling_idx {
            idx
        } else {
            sibling_idx
        };
        proof {
            if sound {
                lemma_mend_sides(
                    image0,
                    image3,
                    b,
                    min,
                    off,
                    h,
                    lo,
                    hi,
                    root,
                    k,
                    before,
                    idx as int,
                    child@,
                    low as int,
                );
            }
        }
        let ghost kids = offsets_view(children@);
        let sibling_offset = Offset(children[sibling_idx].0);
        assert(kids[sibling_idx as int] == sibling_offset.0);
        let sibling = match self.load_node(&sibling_offset) {
            Ok(sibling) => sibling,
            Err(error) => {
                return Err(error);
            },
        };
        let (first, second) = if idx < sibling_idx {
            (child, sibling)
        } else {
            (sibling, child)
        };
        let updated = Node {
            node_type: NodeType::Internal(children, keys),
            is_root,
            parent_offset: grand_offset,
        };
        let ghost fit = fit_together(first@, second@, b);
        if self.fits_together(&first, &second) {
            let res = self.merge_children(
                updated,
                parent_offset,
                low,
                first,
                second,
                Ghost(image0),
                Ghost(k),
                Ghost(min),
                Ghost(h),
                Ghost(lo),
                Ghost(hi),
                Ghost(root),
                Ghost(kids[idx as int] as int),
            );
            proof {
                if sound {
                    lemma_mend_trace_merged(image3, self.image(), b, off, idx as int);
                }
            }
            res
        } else {
            let res = self.share_children(
                updated,
                parent_offset,
                low,
                first,
                second,
                Ghost(image0),
                Ghost(k),
                Ghost(min),
                Ghost(h),
                Ghost(lo),
                Ghost(hi),
                Ghost(root),
                Ghost(kids[idx as int] as int),
            );
            proof {
                if sound {
                    lemma_mend_trace_shared(image3, self.image(), b, off, idx as int);
                }
            }
            res
        }
    }

    /// Merges the children `low` and `low + 1` of `parent`, which are
    /// `first` and `second` and fit into one node: their children are told
    /// where the merged node will stand, the merged node goes to a new page,
    /// and the parent, with that page in place of the two and without the key
    /// between them, over its own page. The key between two internal nodes
    /// goes down between their keys. Hands out the parent as it is then.
    fn merge_children(
        &mut self,
        parent: Node,
        parent_offset: &Offset,
        low: usize,
        first: Node,
        second: Node,
        Ghost(image0): Ghost<Seq<u8>>,
        Ghost(k): Ghost<Seq<char>>,
        Ghost(min): Ghost<int>,
        Ghost(h): Ghost<nat>,
        Ghost(lo): Ghost<Option<Seq<char>>>,
        Ghost(hi): Ghost<Option<Seq<char>>>,
        Ghost(root): Ghost<bool>,
        Ghost(x): Ghost<int>,
    ) -> (res: Result<Node, Error>)
        ensures
            final(self).log() == old(self).log(),
            final(self).branching() == old(self).branching(),
            final(self).height() == old(self).height(),
            final(self).fill() == old(self).fill(),
            join_ready(
                image0,
                old(self).image(),
                old(self).branching(),
                min,
                parent_offset.0 as int,
                h,
                lo,
                hi,
                root,
                k,
                parent@,
                low as int,
                x,
                first@,
                second@,
            ) && fit_together(first@, second@, old(self).branching()) ==> res is Ok && mended(
                image0,
                final(self).image(),
                old(self).branching(),
                min,
                parent_offset.0 as int,
                h,
                lo,
                hi,
                root,
                k,
                res->Ok_0@,
            ) && merge_trace(
                old(self).image(),
                final(self).image(),
                parent_offset.0 as int,
                low as int,
            
            ) && (links_kept(image0, old(self).image(), parent_offset.0 as int, h) ==> links_kept(
                image0,
                final(self).image(),
                parent_offset.0 as int,
                h,
            )),
    {
        let ghost image3 = self.image();
        let ghost b = self.branching();
        let ghost off = parent_offset.0 as int;
        let ghost sound = join_ready(
            image0,
            image3,
            b,
            min,
            off,
            h,
            lo,
            hi,
            root,
            k,
            parent@,
            low as int,
            x,
            first@,
            second@,
        ) && fit_together(first@, second@, b);
        let ghost before = parent@;
        let ghost left = first@;
        let ghost right = second@;
        proof {
            if sound {
                lemma_join_ready(
                    image0,
                    image3,
                    b,
                    min,
                    off,
                    h,
                    lo,
                    hi,
                    root,
                    k,
                    before,
                    low as int,
                    x,
                    left,
                    right,
                );
            }
        }
        let Node { node_type, is_root, parent_offset: grand_offset } = parent;
        let (mut children, mut keys) = match node_type {
            NodeType::Internal(children, keys) => (children, keys),
            NodeType::Leaf(pairs) => {
                return Err(Error::UnexpectedError);
            },
            NodeType::Unexpected => {
                return Err(Error::UnexpectedError);
            },
        };
        if children.len() < 2 || low >= children.len() - 1 || low >= keys.len() {
            return Err(Error::UnexpectedError);
        }
        let ghost kids = offsets_view(children@);
        let ghost seps = keys_view(keys@);
        // the children of the two are told where the merged node will stand
        let first_entries = entries(&first);
        let second_entries = entries(&second);
        if first_entries > usize::MAX - second_entries {
            return Err(Error::UnexpectedError);
        }
        let merged_at: usize = self.pager.len();
        proof {
            if sound && left.node_type is Internal {
                lemma_join_relinkable(
                    image0,
                    image3,
                    b,
                    min,
                    off,
                    h,
                    lo,
                    hi,
                    root,
                    k,
                    before,
                    low as int,
                    x,
                    left,
                    right,
                );
            }
        }
        match self.hand_both(
            &first,
            &second,
            0,
            first_entries + second_entries,
            merged_at,
            Ghost(kids[low as int] as int),
            Ghost(kids[low + 1] as int),
        ) {
            Ok(()) => {},
            Err(error) => {
                return Err(error);
            },
        }
        let ghost entry3 = image3;
        let ghost image3 = self.image();
        proof {
            if sound {
                lemma_join_handed(
                    image0,
                    entry3,
                    image3,
                    b,
                    min,
                    off,
                    h,
                    lo,
                    hi,
                    root,
                    k,
                    before,
                    low as int,
                    x,
                    left,
                    right,
                    0,
                    first_entries + second_entries,
                    merged_at,
                );
                lemma_join_ready(
                    image0,
                    image3,
                    b,
                    min,
                    off,
                    h,
                    lo,
                    hi,
                    root,
                    k,
                    before,
                    low as int,
                    x,
                    left,
                    right,
                );
            }
        }
        let first = pull_down(first, &keys[low]);
        let merged = match self.merge(first, second) {
            Ok(merged) => merged,
            Err(error) => {
                return Err(error);
            },
        };
        let merged_offset = match self.append_node(&merged) {
            Ok(offset) => offset,
            Err(error) => {
                return Err(error);
            },
        };
        let ghost image4 = self.image();
        // the merged node takes the place of the two
        children.remove(low + 1);
        children.set(low, Offset(merged_offset.0));
        keys.remove(low);
        let updated = Node {
            node_type: NodeType::Internal(children, keys),
            is_root,
            parent_offset: grand_offset,
        };
        proof {
            assert(offsets_view(children@) =~= kids.remove(low + 1).update(
                low as int,
                merged_offset.0,
            ));
            assert(keys_view(keys@) =~= seps.remove(low as int));
            if sound {
                lemma_internal_shrunk_round_trips(before, low as int, merged_offset.0, updated@);
            }
        }
        match self.store_node(&updated, parent_offset) {
            Ok(()) => {},
            Err(error) => {
                return Err(error);
            },
        }
        proof {
            if sound {
                assert(merge_written(
                    image3,
                    image4,
                    self.image(),
                    b,
                    off,
                    before,
                    low as int,
                    merged_offset.0,
                    merged@,
                    updated@,
                ));
                lemma_merge_trace(
                    image3,
                    image4,
                    self.image(),
                    b,
                    off,
                    before,
                    low as int,
                    merged_offset.0,
                    merged@,
                    updated@,
                );
                lemma_merge_trace_handed(entry3, image3, self.image(), off, low as int);
                lemma_links_merge(
                    image0,
                    entry3,
                    image3,
                    image4,
                    self.image(),
                    b,
                    min,
                    off,
                    h,
                    lo,
                    hi,
                    root,
                    k,
                    before,
                    low as int,
                    x,
                    left,
                    right,
                    merged_offset.0,
                    merged@,
                    updated@,
                );
                lemma_mended_merge(
                    image0,
                    image3,
                    image4,
                    self.image(),
                    b,
                    min,
                    off,
                    h,
                    lo,
                    hi,
                    root,
                    k,
                    before,
                    low as int,
                    x,
                    left,
                    right,
                    merged_offset.0,
                    merged@,
                    updated@,
                );
            }
        }
        Ok(updated)
    }

    /// Shares out the entries of the children `low` and `low + 1` of
    /// `parent`, which are `first` and `second` and hold too much for one
    /// node: the children that change sides are told where their parent
    /// stands, the first half of what merging them gives is written over the
    /// first, the rest over the second, and the parent, with the key that
    /// goes up between them, over its own page. The key between two internal
    /// nodes goes down between their keys. Hands out the parent as it is
    /// then.
    fn share_children(
        &mut self,
        parent: Node,
        parent_offset: &Offset,
        low: usize,
        first: Node,
        second: Node,
        Ghost(image0): Ghost<Seq<u8>>,
        Ghost(k): Ghost<Seq<char>>,
        Ghost(min): Ghost<int>,
        Ghost(h): Ghost<nat>,
        Ghost(lo): Ghost<Option<Seq<char>>>,
        Ghost(hi): Ghost<Option<Seq<char>>>,
        Ghost(root): Ghost<bool>,
        Ghost(x): Ghost<int>,
    ) -> (res: Result<Node, Error>)
        ensures
            final(self).log() == old(self).log(),
            final(self).branching() == old(self).branching(),
            final(self).height() == old(self).height(),
            final(self).fill() == old(self).fill(),
            join_ready(
                image0,
                old(self).image(),
                old(self).branching(),
                min,
                parent_offset.0 as int,
                h,
                lo,
                hi,
                root,
                k,
                parent@,
                low as int,
                x,
                first@,
                second@,
            ) && !fit_together(first@, second@, old(self).branching()) ==> res is Ok && mended(
                image0,
                final(self).image(),
                old(self).branching(),
                min,
                parent_offset.0 as int,
                h,
                lo,
                hi,
                root,
                k,
                res->Ok_0@,
            ) && share_trace(
                old(self).image(),
                final(self).image(),
                parent_offset.0 as int,
                low as int,
            
            ) && (links_kept(image0, old(self).image(), parent_offset.0 as int, h) ==> links_kept(
                image0,
                final(self).image(),
                parent_offset.0 as int,
                h,
            )),
    {
        let ghost image3 = self.image();
        let ghost b = self.branching();
        let ghost off = parent_offset.0 as int;
        let ghost sound = join_ready(
            image0,
            image3,
            b,
            min,
            off,
            h,
            lo,
            hi,
            root,
            k,
            parent@,
            low as int,
            x,
            first@,
            second@,
        ) && !fit_together(first@, second@, b);
        let ghost before = parent@;
        let ghost left = first@;
        let ghost right = second@;
        proof {
            if sound {
                lemma_join_ready(
                    image0,
                    image3,
                    b,
                    min,
                    off,
                    h,
                    lo,
                    hi,
                    root,
                    k,
                    before,
                    low as int,
                    x,
                    left,
                    right,
                );
                lemma_join_share_ready(
                    image0,
                    image3,
                    b,
                    min,
                    off,
                    h,
                    lo,
                    hi,
                    root,
                    k,
                    before,
                    low as int,
                    x,
                    left,
                    right,
                );
            }
        }
        let Node { node_type, is_root, parent_offset: grand_offset } = parent;
        let (children, mut keys) = match node_type {
            NodeType::Internal(children, keys) => (children, keys),
            NodeType::Leaf(pairs) => {
                return Err(Error::UnexpectedError);
            },
            NodeType::Unexpected => {
                return Err(Error::UnexpectedError);
            },
        };
        if children.len() < 2 || low >= children.len() - 1 || low >= keys.len() {
            return Err(Error::UnexpectedError);
        }
        let ghost kids = offsets_view(children@);
        let ghost seps = keys_view(keys@);
        let first_entries = entries(&first);
        let second_entries = entries(&second);
        if first_entries > usize::MAX - second_entries {
            return Err(Error::UnexpectedError);
        }
        let half: usize = (first_entries + second_entries) / 2;
        // the children that change sides are told where their parent stands
        let (from, to, side): (usize, usize, usize) = if half < first_entries {
            (half, first_entries, children[low + 1].0)
        } else {
            (first_entries, half, children[low].0)
        };
        proof {
            assert(kids[low as int] == children@[low as int].0);
            assert(kids[low + 1] == children@[low + 1].0);
            if sound && left.node_type is Internal {
                lemma_join_relinkable(
                    image0,
                    image3,
                    b,
                    min,
                    off,
                    h,
                    lo,
                    hi,
                    root,
                    k,
                    before,
                    low as int,
                    x,
                    left,
                    right,
                );
            }
        }
        match self.hand_both(
            &first,
            &second,
            from,
            to,
            side,
            Ghost(kids[low as int] as int),
            Ghost(kids[low + 1] as int),
        ) {
            Ok(()) => {},
            Err(error) => {
                return Err(error);
            },
        }
        let ghost entry3 = image3;
        let ghost image3 = self.image();
        proof {
            if sound {
                lemma_join_handed(
                    image0,
                    entry3,
                    image3,
                    b,
                    min,
                    off,
                    h,
                    lo,
                    hi,
                    root,
                    k,
                    before,
                    low as int,
                    x,
                    left,
                    right,
                    from as int,
                    to as int,
                    side,
                );
                lemma_join_ready(
                    image0,
                    image3,
                    b,
                    min,
                    off,
                    h,
                    lo,
                    hi,
                    root,
                    k,
                    before,
                    low as int,
                    x,
                    left,
                    right,
                );
                lemma_join_share_ready(
                    image0,
                    image3,
                    b,
                    min,
                    off,
                    h,
                    lo,
                    hi,
                    root,
                    k,
                    before,
                    low as int,
                    x,
                    left,
                    right,
                );
            }
        }
        let first = pull_down(first, &keys[low]);
        let mut whole = match self.merge(first, second) {
            Ok(merged) => merged,
            Err(error) => {
                return Err(error);
            },
        };
        let (median, other) = match whole.split(half) {
            Ok(halves) => halves,
            Err(error) => {
                return Err(error);
            },
        };
        let first_offset = Offset(children[low].0);
        let second_offset = Offset(children[low + 1].0);
        assert(kids[low as int] == first_offset.0 && kids[low + 1] == second_offset.0);
        match self.store_node(&whole, &first_offset) {
            Ok(()) => {},
            Err(error) => {
                return Err(error);
            },
        }
        let ghost image4 = self.image();
        match self.store_node(&other, &second_offset) {
            Ok(()) => {},
            Err(error) => {
                return Err(error);
            },
        }
        let ghost image5 = self.image();
        keys.set(low, median);
        let updated = Node {
            node_type: NodeType::Internal(children, keys),
            is_root,
            parent_offset: grand_offset,
        };
        proof {
            let joint = joined(left, right, seps[low as int]);
            assert(offsets_view(children@) =~= kids);
            assert(keys_view(keys@) =~= seps.update(low as int, joint.split_median(half as int)));
            if sound {
                lemma_internal_rekeyed_round_trips(
                    before,
                    low as int,
                    joint.split_median(half as int),
                    updated@,
                );
            }
        }
        match self.store_node(&updated, parent_offset) {
            Ok(()) => {},
            Err(error) => {
                return Err(error);
            },
        }
        proof {
            if sound {
                assert(share_written(
                    image3,
                    image4,
                    image5,
                    self.image(),
                    b,
                    off,
                    before,
                    low as int,
                    half as int,
                    whole@,
                    other@,
                    updated@,
                ));
                lemma_share_trace(
                    image3,
                    image4,
                    image5,
                    self.image(),
                    b,
                    off,
                    before,
                    low as int,
                    half as int,
                    whole@,
                    other@,
                    updated@,
                );
                lemma_share_trace_handed(entry3, image3, self.image(), off, low as int);
                lemma_links_share(
                    image0,
                    entry3,
                    image3,
                    image4,
                    image5,
                    self.image(),
                    b,
                    min,
                    off,
                    h,
                    lo,
                    hi,
                    root,
                    k,
                    before,
                    low as int,
                    x,
                    left,
                    right,
                    half as int,
                    whole@,
                    other@,
                    updated@,
                );
                lemma_mended_share(
                    image0,
                    image3,
                    image4,
                    image5,
                    self.image(),
                    b,
                    min,
                    off,
                    h,
                    lo,
                    hi,
                    root,
                    k,
                    before,
                    low as int,
                    x,
                    left,
                    right,
                    half as int,
                    whole@,
                    other@,
                    updated@,
                );
            }
        }
        Ok(updated)
    }

    /// Lists the nodes of the tree from the root down: each node with its
    /// depth and its offset, before its children, and the children from the
    /// first to the last.
    pub fn print(&self) -> (res: Result<Vec<PrintedNode>, Error>)
        ensures
            self.wf() ==> {
                &&& res is Ok
                &&& listed(res->Ok_0@) == crate::laws::nodes_in_order(
                    self.image(),
                    self.root(),
                    self.height(),
                    0,
                )
                &&& listed_from(res->Ok_0@, self.image())
            },
    {
        proof {
            if self.wf() {
                reveal(subtree_ok);
                crate::tree::lemma_node_at_within(self.image(), self.root());
            }
        }
        let root_offset = match self.wal.get_root() {
            Ok(offset) => offset,
            Err(error) => {
                return Err(error);
            },
        };
        let fuel: usize = self.pager.len() / PAGE_SIZE;
        let mut out: Vec<PrintedNode> = Vec::new();
        let ghost empty = out@;
        match self.print_sub_tree(
            0,
            root_offset,
            fuel,
            &mut out,
            Ghost(self.height@),
            Ghost(None),
            Ghost(None),
            Ghost(true),
        ) {
            Ok(()) => {},
            Err(error) => {
                return Err(error);
            },
        }
        proof {
            if self.wf() {
                assert(listed(empty) =~= Seq::empty());
                assert(listed(out@) =~= crate::laws::nodes_in_order(
                    self.image(),
                    self.root(),
                    self.height(),
                    0,
                ));
            }
        }
        Ok(out)
    }

    /// Lists the nodes of the subtree at `offset` behind those that `out`
    /// holds: the node at `offset`, then its children from the first to the
    /// last, each with all that lies below it. `fuel` bounds the number of
    /// levels.
    fn print_sub_tree(
        &self,
        depth: usize,
        offset: Offset,
        fuel: usize,
        out: &mut Vec<PrintedNode>,
        Ghost(h): Ghost<nat>,
        Ghost(lo): Ghost<Option<Seq<char>>>,
        Ghost(hi): Ghost<Option<Seq<char>>>,
        Ghost(root): Ghost<bool>,
    ) -> (res: Result<(), Error>)
        ensures
            subtree_ok(
                self.image(),
                self.branching(),
                self.fill(),
                offset.0 as int,
                h,
                lo,
                hi,
                root,
            ) && h <= fuel && depth + h < usize::MAX ==> {
                &&& res is Ok
                &&& listed(final(out)@) == listed(old(out)@) + crate::laws::nodes_in_order(
                    self.image(),
                    offset.0 as int,
                    h,
                    depth as nat,
                )
                &&& listed_from(old(out)@, self.image()) ==> listed_from(
                    final(out)@,
                    self.image(),
                )
            },
        decreases fuel,
    {
        let ghost image = self.image();
        let ghost off = offset.0 as int;
        let ghost sound = subtree_ok(image, self.branching(), self.fill(), off, h, lo, hi, root)
            && h <= fuel && depth + h < usize::MAX;
        let ghost before = out@;
        proof {
            reveal(subtree_ok);
        }
        let node = match self.load_node(&offset) {
            Ok(node) => node,
            Err(error) => {
                return Err(error);
            },
        };
        let children: Vec<Offset> = match &node.node_type {
            NodeType::Internal(children, _) => crate::node_type::clone_offsets(children),
            _ => Vec::new(),
        };
        let ghost shown = node@;
        let ghost kids = offsets_view(children@);
        out.push(PrintedNode { depth, offset: Offset(offset.0), node });
        proof {
            assert(listed(out@) =~= listed(before) + seq![(depth as nat, off)]);
            if listed_from(before, image) && sound {
                assert forall|i: int| 0 <= i < out@.len() implies node_at(
                    image,
                    (#[trigger] out@[i]).offset.0 as int,
                ) == Some(out@[i].node@) by {
                    if i < before.len() {
                        assert(out@[i] == before[i]);
                    }
                }
            }
        }
        if children.len() == 0 {
            proof {
                if sound {
                    assert(crate::laws::nodes_in_order(image, off, h, depth as nat) =~= seq![
                        (depth as nat, off),
                    ]) by {
                        reveal_with_fuel(crate::laws::children_nodes, 2);
                    }
                }
            }
            return Ok(());
        }
        if fuel == 0 || depth == usize::MAX {
            return Err(Error::UnexpectedError);
        }
        let ghost seps = shown.node_type->Internal_1;
        let mut i: usize = 0;
        while i < children.len()
            invariant
                i <= children@.len(),
                fuel > 0,
                depth < usize::MAX,
                image == self.image(),
                off == offset.0 as int,
                before == old(out)@,
                kids == offsets_view(children@),
                sound ==> shown.node_type == NodeTypeView::Internal(kids, seps),
                sound ==> node_at(image, off) == Some(shown),
                sound == (subtree_ok(image, self.branching(), self.fill(), off, h, lo, hi, root)
                    && h <= fuel && depth + h < usize::MAX),
                sound ==> listed(out@) == listed(before) + seq![(depth as nat, off)]
                    + crate::laws::children_nodes(
                    image,
                    kids,
                    (h - 1) as nat,
                    (depth + 1) as nat,
                    i as nat,
                ),
                sound && listed_from(before, image) ==> listed_from(out@, image),
            decreases children@.len() - i,
        {
            let child = Offset(children[i].0);
            let ghost so_far = out@;
            proof {
                if sound {
                    reveal(subtree_ok);
                    assert(kids[i as int] == child.0);
                    assert(subtree_ok(
                        image,
                        self.branching(),
                        self.fill(),
                        kids[i as int] as int,
                        (h - 1) as nat,
                        child_lo(seps, lo, i as int),
                        child_hi(seps, hi, i as int),
                        false,
                    ));
                }
            }
            let below = self.print_sub_tree(
                depth + 1,
                child,
                fuel - 1,
                out,
                Ghost((h - 1) as nat),
                Ghost(child_lo(seps, lo, i as int)),
                Ghost(child_hi(seps, hi, i as int)),
                Ghost(false),
            );
            match below {
                Ok(()) => {},
                Err(error) => {
                    return Err(error);
                },
            }
            proof {
                if sound {
                    let g = (h - 1) as nat;
                    let d = (depth + 1) as nat;
                    assert(crate::laws::children_nodes(image, kids, g, d, (i + 1) as nat)
                        == crate::laws::children_nodes(image, kids, g, d, i as nat)
                        + crate::laws::nodes_in_order(image, kids[i as int] as int, g, d));
                    assert(listed(out@) =~= listed(before) + seq![(depth as nat, off)]
                        + crate::laws::children_nodes(image, kids, g, d, (i + 1) as nat));
                }
            }
            i += 1;
        }
        proof {
            if sound {
                reveal(subtree_ok);
                assert(listed(out@) =~= listed(before) + crate::laws::nodes_in_order(
                    image,
                    off,
                    h,
                    depth as nat,
                ));
            }
        }
        Ok(())
    }
}

} // verus!
