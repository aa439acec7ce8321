//! The tree as a mathematical object: what is under a pointer, what makes
//! a tree well formed, where a descriptor is routed, and what an insertion
//! does.

use vstd::prelude::*;
use vstd::multiset::Multiset;
use crate::data::has_nan;
use crate::database::EntryView;
use crate::node::{InternalNode, PagePointer};
use crate::record::RecordView;
use crate::scalar::{is_nan, le, lt, rank};

verus! {

/// The side of an internal node.
#[derive(Debug, Clone, Copy, PartialEq, Eq, Structural)]
pub enum Direction {
    Left,
    Right,
}

/// What a tree holds.
pub struct TreeView {
    /// The node table.
    pub nodes: Seq<InternalNode>,
    /// The records of every leaf page.
    pub pages: Seq<Seq<RecordView>>,
    /// The root.
    pub root: PagePointer,
    /// The entries of the content database.
    pub entries: Seq<EntryView>,
    /// Coordinates per descriptor.
    pub dim: nat,
    /// Slots per leaf page.
    pub capacity: nat,
}

/// The child of `node` on the side `arm`.
pub open spec fn child_of(node: InternalNode, arm: Direction) -> PagePointer {
    match arm {
        Direction::Left => node.left_child_pointer,
        Direction::Right => node.right_child_pointer,
    }
}

/// `node` with `child` on the side `arm`.
pub open spec fn with_child(node: InternalNode, arm: Direction, child: PagePointer) -> InternalNode {
    match arm {
        Direction::Left => InternalNode { left_child_pointer: child, ..node },
        Direction::Right => InternalNode { right_child_pointer: child, ..node },
    }
}

/// The side of `node` on which a descriptor belongs: left when its
/// coordinate on the node's axis is at most the node's value.
pub open spec fn side_of(node: InternalNode, d: Seq<u32>) -> Direction {
    if le(d[node.split_axis as int], node.split_value) {
        Direction::Left
    } else {
        Direction::Right
    }
}

/// A child of node `i` is a leaf or a node with a greater index.
pub open spec fn forward(nodes: Seq<InternalNode>, i: int, child: PagePointer) -> bool {
    match child {
        PagePointer::Node(j) => i < j < nodes.len(),
        PagePointer::Leaf(_) => true,
    }
}

/// Both children of node `i` point forward.
pub open spec fn node_forward(nodes: Seq<InternalNode>, i: int) -> bool {
    &&& 0 <= i < nodes.len()
    &&& forward(nodes, i, nodes[i].left_child_pointer)
    &&& forward(nodes, i, nodes[i].right_child_pointer)
}

/// A bound on the number of nodes on any path below `ptr`.
pub open spec fn height(nodes: Seq<InternalNode>, ptr: PagePointer) -> nat {
    match ptr {
        PagePointer::Node(i) => if i < nodes.len() {
            (nodes.len() - i) as nat
        } else {
            0
        },
        PagePointer::Leaf(_) => 0,
    }
}

/// The records in the leaves under `ptr`.
pub open spec fn records_under(
    nodes: Seq<InternalNode>,
    pages: Seq<Seq<RecordView>>,
    ptr: PagePointer,
) -> Multiset<RecordView>
    decreases height(nodes, ptr),
{
    match ptr {
        PagePointer::Leaf(p) => if p < pages.len() {
            pages[p as int].to_multiset()
        } else {
            Multiset::empty()
        },
        PagePointer::Node(i) => if node_forward(nodes, i as int) {
            records_under(nodes, pages, nodes[i as int].left_child_pointer).add(
                records_under(nodes, pages, nodes[i as int].right_child_pointer),
            )
        } else {
            Multiset::empty()
        },
    }
}

/// The indices of the leaves under `ptr`.
pub open spec fn leaves_under(nodes: Seq<InternalNode>, ptr: PagePointer) -> Set<int>
    decreases height(nodes, ptr),
{
    match ptr {
        PagePointer::Leaf(p) => set![p as int],
        PagePointer::Node(i) => if node_forward(nodes, i as int) {
            leaves_under(nodes, nodes[i as int].left_child_pointer).union(
                leaves_under(nodes, nodes[i as int].right_child_pointer),
            )
        } else {
            Set::empty()
        },
    }
}

/// The indices of the internal nodes under `ptr`, itself included.
pub open spec fn nodes_under(nodes: Seq<InternalNode>, ptr: PagePointer) -> Set<int>
    decreases height(nodes, ptr),
{
    match ptr {
        PagePointer::Leaf(_) => Set::empty(),
        PagePointer::Node(i) => if node_forward(nodes, i as int) {
            nodes_under(nodes, nodes[i as int].left_child_pointer).union(
                nodes_under(nodes, nodes[i as int].right_child_pointer),
            ).insert(i as int)
        } else {
            Set::empty()
        },
    }
}

/// A record that a tree of `dim` coordinates can hold.
pub open spec fn record_ok(r: RecordView, dim: nat) -> bool {
    r.descriptor.len() == dim && !has_nan(r.descriptor)
}

/// A leaf within its capacity whose records the tree can hold.
pub open spec fn leaf_ok(page: Seq<RecordView>, dim: nat, capacity: nat) -> bool {
    &&& page.len() <= capacity
    &&& forall|k: int| 0 <= k < page.len() ==> record_ok(#[trigger] page[k], dim)
}

/// The subtree under `ptr` is a k-d tree: every pointer has a target,
/// children point forward, the two sides of a node share no leaf, and
/// every record lies on its side of every node above it.
pub open spec fn subtree_ok(
    nodes: Seq<InternalNode>,
    pages: Seq<Seq<RecordView>>,
    ptr: PagePointer,
    dim: nat,
    capacity: nat,
) -> bool
    decreases height(nodes, ptr),
{
    match ptr {
        PagePointer::Leaf(p) => p < pages.len() && leaf_ok(pages[p as int], dim, capacity),
        PagePointer::Node(i) => {
            &&& node_forward(nodes, i as int)
            &&& nodes[i as int].split_axis < dim
            &&& !is_nan(nodes[i as int].split_value)
            &&& subtree_ok(nodes, pages, nodes[i as int].left_child_pointer, dim, capacity)
            &&& subtree_ok(nodes, pages, nodes[i as int].right_child_pointer, dim, capacity)
            &&& forall|r: RecordView| #[trigger]
                records_under(nodes, pages, nodes[i as int].left_child_pointer).count(r) > 0 ==> le(
                    r.descriptor[nodes[i as int].split_axis as int],
                    nodes[i as int].split_value,
                )
            &&& forall|r: RecordView| #[trigger]
                records_under(nodes, pages, nodes[i as int].right_child_pointer).count(r) > 0
                    ==> lt(
                    nodes[i as int].split_value,
                    r.descriptor[nodes[i as int].split_axis as int],
                )
            &&& leaves_under(nodes, nodes[i as int].left_child_pointer).disjoint(
                leaves_under(nodes, nodes[i as int].right_child_pointer),
            )
        },
    }
}

/// The records of a tree.
pub open spec fn tree_records(v: TreeView) -> Multiset<RecordView> {
    records_under(v.nodes, v.pages, v.root)
}

/// A well-formed tree: a fresh tree's root is leaf zero and its node table
/// is empty, any other root is node zero; the whole is a k-d tree; and the
/// content database has an entry for the index of every record.
pub open spec fn tree_ok(v: TreeView) -> bool {
    &&& 1 <= v.dim <= 256
    &&& match v.root {
        PagePointer::Leaf(p) => p == 0 && v.nodes.len() == 0,
        PagePointer::Node(i) => i == 0,
    }
    &&& subtree_ok(v.nodes, v.pages, v.root, v.dim, v.capacity)
    &&& forall|r: RecordView| #[trigger] tree_records(v).count(r) > 0 ==> r.index < v.entries.len()
}

/// Where a descent from `ptr` ends for the descriptor `d`: the leaf, and
/// the node and side from which the leaf was entered. `parent` is what
/// was passed on the way to `ptr`.
pub open spec fn route(
    nodes: Seq<InternalNode>,
    ptr: PagePointer,
    d: Seq<u32>,
    parent: Option<(usize, Direction)>,
) -> (usize, Option<(usize, Direction)>)
    decreases height(nodes, ptr),
{
    match ptr {
        PagePointer::Leaf(p) => (p, parent),
        PagePointer::Node(i) => if node_forward(nodes, i as int) {
            route(
                nodes,
                child_of(nodes[i as int], side_of(nodes[i as int], d)),
                d,
                Some((i, side_of(nodes[i as int], d))),
            )
        } else {
            (0, parent)
        },
    }
}

/// The coordinates on `axis` of a sequence of records.
pub open spec fn axis_values(records: Seq<RecordView>, axis: int) -> Seq<u32> {
    Seq::new(records.len(), |k: int| records[k].descriptor[axis])
}

/// `s` in ascending order: each number is put in after its equals.
pub open spec fn sorted(s: Seq<u32>) -> Seq<u32>
    decreases s.len(),
{
    if s.len() == 0 {
        Seq::empty()
    } else {
        let front = sorted(s.drop_last());
        front.insert(rank(front, s.last()) as int, s.last())
    }
}

/// The two middle entries of an ascending sequence; the same entry twice
/// when the length is odd.
pub open spec fn middle(s: Seq<u32>) -> (u32, u32) {
    if s.len() % 2 == 1 {
        (s[s.len() as int / 2], s[s.len() as int / 2])
    } else {
        (s[s.len() as int / 2 - 1], s[s.len() as int / 2])
    }
}

/// The median of `values`: the middle one of an odd number, the midpoint
/// of the two middle ones of an even number.
pub open spec fn median(values: Seq<u32>, mid: spec_fn(u32, u32) -> u32) -> u32 {
    let m = middle(sorted(values));
    if values.len() % 2 == 1 {
        m.0
    } else {
        mid(m.0, m.1)
    }
}

/// The records of `s` on one side of `value` on `axis`, in their order:
/// with `left`, those whose coordinate is at most `value`.
pub open spec fn bucket(s: Seq<RecordView>, axis: int, value: u32, left: bool) -> Seq<RecordView>
    decreases s.len(),
{
    if s.len() == 0 {
        Seq::empty()
    } else {
        let rest = bucket(s.drop_last(), axis, value, left);
        if le(s.last().descriptor[axis], value) == left {
            rest.push(s.last())
        } else {
            rest
        }
    }
}

/// A cut that leaves records on both sides.
pub open spec fn divides(s: Seq<RecordView>, axis: int, value: u32) -> bool {
    bucket(s, axis, value, true).len() > 0 && bucket(s, axis, value, false).len() > 0
}

/// The axis and value at which an overflowing leaf is cut: the axes are
/// tried in rotation from `start`, each with the median of the leaf on
/// it, and the first whose cut divides the leaf is taken. `None` when no
/// axis divides it.
pub open spec fn choose_cut(
    s: Seq<RecordView>,
    start: nat,
    dim: nat,
    mid: spec_fn(u32, u32) -> u32,
    tries: nat,
) -> Option<(usize, u32)>
    decreases dim - tries,
{
    if tries >= dim {
        None
    } else {
        let axis = ((start + tries) % dim) as int;
        let value = median(axis_values(s, axis), mid);
        if divides(s, axis, value) {
            Some((axis as usize, value))
        } else {
            choose_cut(s, start, dim, mid, tries + 1)
        }
    }
}

/// The axis with which the rotation starts below `parent`.
pub open spec fn first_axis(
    nodes: Seq<InternalNode>,
    parent: Option<(usize, Direction)>,
    dim: nat,
) -> nat {
    match parent {
        Some((i, _)) => ((nodes[i as int].split_axis + 1) % (dim as int)) as nat,
        None => 0,
    }
}

/// The tree after `r` is written into the leaf it is routed to.
pub open spec fn stored(v: TreeView, r: RecordView) -> TreeView {
    let p = route(v.nodes, v.root, r.descriptor, None).0 as int;
    TreeView { pages: v.pages.update(p, v.pages[p].push(r)), ..v }
}

/// The node table after the leaf `p`, entered from `parent`, is put under
/// a new node that cuts at `value` on `axis`, with a new leaf
/// `new_leaf` on its right.
pub open spec fn cut_nodes(
    nodes: Seq<InternalNode>,
    parent: Option<(usize, Direction)>,
    p: usize,
    new_leaf: usize,
    axis: usize,
    value: u32,
) -> Seq<InternalNode> {
    let fresh = InternalNode {
        left_child_pointer: PagePointer::Leaf(p),
        right_child_pointer: PagePointer::Leaf(new_leaf),
        split_axis: axis,
        split_value: value,
    };
    let above = PagePointer::Node(nodes.len() as usize);
    let grown = nodes.push(fresh);
    match parent {
        Some((i, arm)) => grown.update(i as int, with_child(grown[i as int], arm, above)),
        None => grown,
    }
}

/// The pages after the leaf `p` with `r` added is cut at `value` on
/// `axis`: the leaf keeps the left bucket and a new last page takes the
/// right one.
pub open spec fn cut_pages(
    pages: Seq<Seq<RecordView>>,
    p: int,
    r: RecordView,
    axis: int,
    value: u32,
) -> Seq<Seq<RecordView>> {
    pages.update(p, bucket(pages[p].push(r), axis, value, true)).push(
        bucket(pages[p].push(r), axis, value, false),
    )
}

/// The tree after the leaf that `r` is routed to is cut at `value` on
/// `axis`: the leaf keeps the left bucket, a new leaf takes the right
/// one, and a new node over both takes the leaf's place.
pub open spec fn cut(v: TreeView, r: RecordView, axis: usize, value: u32) -> TreeView {
    let found = route(v.nodes, v.root, r.descriptor, None);
    TreeView {
        nodes: cut_nodes(v.nodes, found.1, found.0, v.pages.len() as usize, axis, value),
        pages: cut_pages(v.pages, found.0 as int, r, axis as int, value),
        root: match found.1 {
            Some(_) => v.root,
            None => PagePointer::Node(v.nodes.len() as usize),
        },
        ..v
    }
}

/// The tree after `r` is inserted, or `None` when the leaf that `r` is
/// routed to is full and no axis divides it.
pub open spec fn inserted(v: TreeView, r: RecordView, mid: spec_fn(u32, u32) -> u32) -> Option<
    TreeView,
> {
    let found = route(v.nodes, v.root, r.descriptor, None);
    let p = found.0 as int;
    if v.pages[p].len() < v.capacity {
        Some(stored(v, r))
    } else {
        match choose_cut(v.pages[p].push(r), first_axis(v.nodes, found.1, v.dim), v.dim, mid, 0) {
            Some((axis, value)) => Some(cut(v, r, axis, value)),
            None => None,
        }
    }
}

} // verus!

verus! {

/// Every node of the table points forward at targets that exist, and the
/// root has a target: what a descent needs to end in a page.
pub open spec fn shape_ok(v: TreeView) -> bool {
    &&& 1 <= v.dim <= 256
    &&& v.capacity >= 1
    &&& v.pages.len() >= 1
    &&& match v.root {
        PagePointer::Leaf(p) => p < v.pages.len(),
        PagePointer::Node(i) => i < v.nodes.len(),
    }
    &&& forall|i: int| 0 <= i < v.nodes.len() ==> #[trigger] node_shaped(v.nodes, i, v.pages.len(), v.dim)
}

/// Node `i` points forward at targets that exist and cuts on an axis of
/// the tree.
pub open spec fn node_shaped(nodes: Seq<InternalNode>, i: int, pages: nat, dim: nat) -> bool {
    &&& node_forward(nodes, i)
    &&& nodes[i].split_axis < dim
    &&& targets_page(nodes[i].left_child_pointer, pages)
    &&& targets_page(nodes[i].right_child_pointer, pages)
}

/// A leaf pointer names one of `pages` pages.
pub open spec fn targets_page(child: PagePointer, pages: nat) -> bool {
    match child {
        PagePointer::Leaf(p) => p < pages,
        PagePointer::Node(_) => true,
    }
}

/// In a tree of sound shape a descent ends in a page, entered from a node
/// of the table.
pub proof fn lemma_route_shaped(
    v: TreeView,
    ptr: PagePointer,
    d: Seq<u32>,
    parent: Option<(usize, Direction)>,
)
    requires
        shape_ok(v),
        match ptr {
            PagePointer::Leaf(p) => p < v.pages.len(),
            PagePointer::Node(i) => i < v.nodes.len(),
        },
        match parent {
            Some((c, arm)) => c < v.nodes.len() && child_of(v.nodes[c as int], arm) == ptr,
            None => true,
        },
    ensures
        route(v.nodes, ptr, d, parent).0 < v.pages.len(),
        match route(v.nodes, ptr, d, parent).1 {
            Some((c, arm)) => c < v.nodes.len() && child_of(v.nodes[c as int], arm)
                == PagePointer::Leaf(route(v.nodes, ptr, d, parent).0),
            None => parent.is_none() && ptr == PagePointer::Leaf(route(v.nodes, ptr, d, parent).0),
        },
    decreases height(v.nodes, ptr),
{
    match ptr {
        PagePointer::Leaf(p) => {},
        PagePointer::Node(i) => {
            assert(node_shaped(v.nodes, i as int, v.pages.len(), v.dim));
            let arm = side_of(v.nodes[i as int], d);
            lemma_route_shaped(v, child_of(v.nodes[i as int], arm), d, Some((i, arm)));
        },
    }
}

} // verus!
