//! Why insertion keeps a tree well formed.

use vstd::prelude::*;
use vstd::seq_lib::{to_multiset_build, to_multiset_contains, to_multiset_len};
use crate::data::has_nan;
use crate::model::{
    bucket, child_of, cut, cut_nodes, cut_pages, divides, forward, height, leaf_ok, leaves_under,
    node_forward, record_ok, records_under, route, side_of, stored, subtree_ok, tree_ok,
    tree_records, with_child, Direction, TreeView,
};
use crate::node::{InternalNode, PagePointer};
use crate::record::RecordView;
use crate::scalar::{is_nan, le, lt};

verus! {

broadcast use vstd::multiset::group_multiset_axioms;

/// The other side.
pub open spec fn opposite(arm: Direction) -> Direction {
    match arm {
        Direction::Left => Direction::Right,
        Direction::Right => Direction::Left,
    }
}

/// Every leaf under a well-formed subtree is a page.
pub proof fn lemma_leaves_in_range(
    nodes: Seq<InternalNode>,
    pages: Seq<Seq<RecordView>>,
    ptr: PagePointer,
    dim: nat,
    capacity: nat,
)
    requires
        subtree_ok(nodes, pages, ptr, dim, capacity),
    ensures
        forall|q: int| leaves_under(nodes, ptr).contains(q) ==> 0 <= q < pages.len(),
    decreases height(nodes, ptr),
{
    match ptr {
        PagePointer::Leaf(p) => {},
        PagePointer::Node(i) => {
            lemma_leaves_in_range(nodes, pages, nodes[i as int].left_child_pointer, dim, capacity);
            lemma_leaves_in_range(
                nodes,
                pages,
                nodes[i as int].right_child_pointer,
                dim,
                capacity,
            );
        },
    }
}

/// Every record under a well-formed subtree has the tree's dimension and
/// only numbers as coordinates.
pub proof fn lemma_records_ok(
    nodes: Seq<InternalNode>,
    pages: Seq<Seq<RecordView>>,
    ptr: PagePointer,
    dim: nat,
    capacity: nat,
)
    requires
        subtree_ok(nodes, pages, ptr, dim, capacity),
    ensures
        forall|r: RecordView| #[trigger]
            records_under(nodes, pages, ptr).count(r) > 0 ==> record_ok(r, dim),
    decreases height(nodes, ptr),
{
    match ptr {
        PagePointer::Leaf(p) => {
            assert forall|r: RecordView| #[trigger]
                records_under(nodes, pages, ptr).count(r) > 0 implies record_ok(r, dim) by {
                to_multiset_contains(pages[p as int], r);
                let k = choose|k: int| 0 <= k < pages[p as int].len() && pages[p as int][k] == r;
                assert(record_ok(pages[p as int][k], dim));
            }
        },
        PagePointer::Node(i) => {
            let l = nodes[i as int].left_child_pointer;
            let r = nodes[i as int].right_child_pointer;
            lemma_records_ok(nodes, pages, l, dim, capacity);
            lemma_records_ok(nodes, pages, r, dim, capacity);
            assert forall|x: RecordView| #[trigger]
                records_under(nodes, pages, ptr).count(x) > 0 implies record_ok(x, dim) by {
                assert(records_under(nodes, pages, ptr).count(x) == records_under(
                    nodes,
                    pages,
                    l,
                ).count(x) + records_under(nodes, pages, r).count(x));
            }
        },
    }
}

/// A descent through a well-formed subtree ends in one of its leaves,
/// entered from one of its nodes.
pub proof fn lemma_route(
    nodes: Seq<InternalNode>,
    pages: Seq<Seq<RecordView>>,
    ptr: PagePointer,
    d: Seq<u32>,
    parent: Option<(usize, Direction)>,
    dim: nat,
    capacity: nat,
)
    requires
        subtree_ok(nodes, pages, ptr, dim, capacity),
    ensures
        leaves_under(nodes, ptr).contains(route(nodes, ptr, d, parent).0 as int),
        route(nodes, ptr, d, parent).0 < pages.len(),
        leaf_ok(pages[route(nodes, ptr, d, parent).0 as int], dim, capacity),
        match ptr {
            PagePointer::Leaf(_) => route(nodes, ptr, d, parent).1 == parent,
            PagePointer::Node(i) => {
                let found = route(nodes, ptr, d, parent);
                &&& found.1.is_some()
                &&& i <= found.1.unwrap().0 < nodes.len()
                &&& node_forward(nodes, found.1.unwrap().0 as int)
                &&& nodes[found.1.unwrap().0 as int].split_axis < dim
                &&& child_of(nodes[found.1.unwrap().0 as int], found.1.unwrap().1)
                    == PagePointer::Leaf(found.0)
            },
        },
    decreases height(nodes, ptr),
{
    match ptr {
        PagePointer::Leaf(p) => {},
        PagePointer::Node(i) => {
            let arm = side_of(nodes[i as int], d);
            lemma_route(
                nodes,
                pages,
                child_of(nodes[i as int], arm),
                d,
                Some((i, arm)),
                dim,
                capacity,
            );
        },
    }
}

/// The new state differs from the old one only at page `p`, at pages and
/// nodes past the old ends, and at one node that has leaf `p` as a child.
pub open spec fn grown_apart(
    nodes: Seq<InternalNode>,
    pages: Seq<Seq<RecordView>>,
    nodes2: Seq<InternalNode>,
    pages2: Seq<Seq<RecordView>>,
    p: usize,
    changed: Option<int>,
) -> bool {
    &&& nodes2.len() >= nodes.len()
    &&& pages2.len() >= pages.len()
    &&& forall|i: int| 0 <= i < nodes.len() && Some(i) != changed ==> #[trigger] nodes2[i] == nodes[i]
    &&& forall|q: int| 0 <= q < pages.len() && q != p ==> #[trigger] pages2[q] == pages[q]
    &&& match changed {
        Some(c) => 0 <= c < nodes.len() && (nodes[c].left_child_pointer == PagePointer::Leaf(p)
            || nodes[c].right_child_pointer == PagePointer::Leaf(p)),
        None => true,
    }
}

/// A subtree that does not hold leaf `p` is the same in the new state.
pub proof fn lemma_frame(
    nodes: Seq<InternalNode>,
    pages: Seq<Seq<RecordView>>,
    nodes2: Seq<InternalNode>,
    pages2: Seq<Seq<RecordView>>,
    ptr: PagePointer,
    dim: nat,
    capacity: nat,
    p: usize,
    changed: Option<int>,
)
    requires
        subtree_ok(nodes, pages, ptr, dim, capacity),
        !leaves_under(nodes, ptr).contains(p as int),
        grown_apart(nodes, pages, nodes2, pages2, p, changed),
    ensures
        subtree_ok(nodes2, pages2, ptr, dim, capacity),
        records_under(nodes2, pages2, ptr) == records_under(nodes, pages, ptr),
        leaves_under(nodes2, ptr) == leaves_under(nodes, ptr),
    decreases height(nodes, ptr),
{
    match ptr {
        PagePointer::Leaf(q) => {
            assert(q != p);
            assert(pages2[q as int] == pages[q as int]);
        },
        PagePointer::Node(i) => {
            let n = nodes[i as int];
            let l = n.left_child_pointer;
            let r = n.right_child_pointer;
            if changed == Some(i as int) {
                assert(leaves_under(nodes, PagePointer::Leaf(p)).contains(p as int));
                assert(false);
            }
            assert(nodes2[i as int] == n);
            lemma_frame(nodes, pages, nodes2, pages2, l, dim, capacity, p, changed);
            lemma_frame(nodes, pages, nodes2, pages2, r, dim, capacity, p, changed);
            assert(node_forward(nodes2, i as int));
        },
    }
}

/// Along the descent of `r`, writing `r` into its leaf keeps the subtree
/// well formed and adds `r` to its records.
pub proof fn lemma_path_stored(
    nodes: Seq<InternalNode>,
    pages: Seq<Seq<RecordView>>,
    ptr: PagePointer,
    r: RecordView,
    parent: Option<(usize, Direction)>,
    dim: nat,
    capacity: nat,
)
    requires
        subtree_ok(nodes, pages, ptr, dim, capacity),
        record_ok(r, dim),
        pages[route(nodes, ptr, r.descriptor, parent).0 as int].len() < capacity,
    ensures
        ({
            let p = route(nodes, ptr, r.descriptor, parent).0 as int;
            let pages2 = pages.update(p, pages[p].push(r));
            &&& subtree_ok(nodes, pages2, ptr, dim, capacity)
            &&& records_under(nodes, pages2, ptr) == records_under(nodes, pages, ptr).insert(r)
        }),
    decreases height(nodes, ptr),
{
    let found = route(nodes, ptr, r.descriptor, parent).0;
    let p = found as int;
    let pages2 = pages.update(p, pages[p].push(r));
    lemma_route(nodes, pages, ptr, r.descriptor, parent, dim, capacity);
    match ptr {
        PagePointer::Leaf(q) => {
            to_multiset_build(pages[p], r);
            assert(records_under(nodes, pages2, ptr) =~= records_under(nodes, pages, ptr).insert(r));
        },
        PagePointer::Node(i) => {
            let n = nodes[i as int];
            let arm = side_of(n, r.descriptor);
            let child = child_of(n, arm);
            let sibling = child_of(n, opposite(arm));
            lemma_route(nodes, pages, child, r.descriptor, Some((i, arm)), dim, capacity);
            lemma_path_stored(nodes, pages, child, r, Some((i, arm)), dim, capacity);
            assert(grown_apart(nodes, pages, nodes, pages2, found, None));
            lemma_frame(nodes, pages, nodes, pages2, sibling, dim, capacity, found, None);
            lemma_node_rebuilt(nodes, pages, nodes, pages2, i, r, arm, child, dim, capacity);
        },
    }
}

/// A node is well formed in the new state when the child on the side of
/// `r` has gained exactly `r`, the other child is as it was, and the leaves
/// of the two are still apart.
pub proof fn lemma_node_rebuilt(
    nodes: Seq<InternalNode>,
    pages: Seq<Seq<RecordView>>,
    nodes2: Seq<InternalNode>,
    pages2: Seq<Seq<RecordView>>,
    i: usize,
    r: RecordView,
    arm: Direction,
    child2: PagePointer,
    dim: nat,
    capacity: nat,
)
    requires
        i < nodes.len(),
        subtree_ok(nodes, pages, PagePointer::Node(i), dim, capacity),
        record_ok(r, dim),
        arm == side_of(nodes[i as int], r.descriptor),
        nodes2.len() >= nodes.len(),
        nodes2[i as int] == with_child(nodes[i as int], arm, child2),
        forward(nodes2, i as int, child2),
        subtree_ok(nodes2, pages2, child2, dim, capacity),
        records_under(nodes2, pages2, child2) == records_under(
            nodes,
            pages,
            child_of(nodes[i as int], arm),
        ).insert(r),
        subtree_ok(nodes2, pages2, child_of(nodes[i as int], opposite(arm)), dim, capacity),
        records_under(nodes2, pages2, child_of(nodes[i as int], opposite(arm))) == records_under(
            nodes,
            pages,
            child_of(nodes[i as int], opposite(arm)),
        ),
        leaves_under(nodes2, child_of(nodes[i as int], opposite(arm))) == leaves_under(
            nodes,
            child_of(nodes[i as int], opposite(arm)),
        ),
        leaves_under(nodes2, child2).disjoint(leaves_under(nodes, child_of(nodes[i as int], opposite(arm)))),
    ensures
        subtree_ok(nodes2, pages2, PagePointer::Node(i), dim, capacity),
        records_under(nodes2, pages2, PagePointer::Node(i)) == records_under(
            nodes,
            pages,
            PagePointer::Node(i),
        ).insert(r),
        leaves_under(nodes2, PagePointer::Node(i)) == leaves_under(nodes2, child2).union(
            leaves_under(nodes, child_of(nodes[i as int], opposite(arm))),
        ),
{
    let n = nodes[i as int];
    let n2 = nodes2[i as int];
    let axis = n.split_axis as int;
    let value = n.split_value;
    let sibling = child_of(n, opposite(arm));
    let old_child = child_of(n, arm);
    assert(!is_nan(r.descriptor[axis])) by {
        if is_nan(r.descriptor[axis]) {
            assert(has_nan(r.descriptor));
        }
    }
    assert(forward(nodes2, i as int, sibling));
    assert(node_forward(nodes2, i as int));
    match arm {
        Direction::Left => {
            assert(n2.left_child_pointer == child2);
            assert(n2.right_child_pointer == sibling);
            assert forall|x: RecordView| #[trigger]
                records_under(nodes2, pages2, child2).count(x) > 0 implies le(
                x.descriptor[axis],
                value,
            ) by {
                if x != r {
                    assert(records_under(nodes, pages, old_child).count(x) > 0);
                }
            }
            assert(records_under(nodes2, pages2, PagePointer::Node(i)) =~= records_under(
                nodes,
                pages,
                PagePointer::Node(i),
            ).insert(r));
            assert(leaves_under(nodes2, PagePointer::Node(i)) =~= leaves_under(
                nodes2,
                child2,
            ).union(leaves_under(nodes, sibling)));
        },
        Direction::Right => {
            assert(n2.right_child_pointer == child2);
            assert(n2.left_child_pointer == sibling);
            assert forall|x: RecordView| #[trigger]
                records_under(nodes2, pages2, child2).count(x) > 0 implies lt(
                value,
                x.descriptor[axis],
            ) by {
                if x != r {
                    assert(records_under(nodes, pages, old_child).count(x) > 0);
                }
            }
            assert(records_under(nodes2, pages2, PagePointer::Node(i)) =~= records_under(
                nodes,
                pages,
                PagePointer::Node(i),
            ).insert(r));
            assert(leaves_under(nodes2, PagePointer::Node(i)) =~= leaves_under(
                nodes2,
                child2,
            ).union(leaves_under(nodes, sibling)));
        },
    }
}

/// The two buckets of a cut hold the records of the leaf between them,
/// each on its side of the cut.
pub proof fn lemma_bucket(s: Seq<RecordView>, axis: int, value: u32, dim: nat)
    requires
        forall|k: int| 0 <= k < s.len() ==> record_ok(#[trigger] s[k], dim),
    ensures
        bucket(s, axis, value, true).to_multiset().add(bucket(s, axis, value, false).to_multiset())
            == s.to_multiset(),
        bucket(s, axis, value, true).len() + bucket(s, axis, value, false).len() == s.len(),
        forall|k: int|
            0 <= k < bucket(s, axis, value, true).len() ==> record_ok(
                #[trigger] bucket(s, axis, value, true)[k],
                dim,
            ) && le(bucket(s, axis, value, true)[k].descriptor[axis], value),
        forall|k: int|
            0 <= k < bucket(s, axis, value, false).len() ==> record_ok(
                #[trigger] bucket(s, axis, value, false)[k],
                dim,
            ) && !le(bucket(s, axis, value, false)[k].descriptor[axis], value),
    decreases s.len(),
{
    if s.len() == 0 {
        to_multiset_len(s);
        to_multiset_len(bucket(s, axis, value, true));
        to_multiset_len(bucket(s, axis, value, false));
        assert(bucket(s, axis, value, true).to_multiset().add(
            bucket(s, axis, value, false).to_multiset(),
        ) =~= s.to_multiset());
    } else {
        let front = s.drop_last();
        let x = s.last();
        assert forall|k: int| 0 <= k < front.len() implies record_ok(#[trigger] front[k], dim) by {
            assert(front[k] == s[k]);
        }
        lemma_bucket(front, axis, value, dim);
        let l = bucket(front, axis, value, true);
        let r = bucket(front, axis, value, false);
        assert(s =~= front.push(x));
        to_multiset_build(front, x);
        to_multiset_build(l, x);
        to_multiset_build(r, x);
        assert(record_ok(s[s.len() - 1], dim));
        if le(x.descriptor[axis], value) {
            assert(l.push(x).to_multiset().add(r.to_multiset()) =~= s.to_multiset());
        } else {
            assert(l.to_multiset().add(r.push(x).to_multiset()) =~= s.to_multiset());
        }
    }
}

/// The new node over the two buckets is a well-formed subtree that holds
/// the records of the cut leaf.
pub proof fn lemma_fresh_subtree(
    nodes: Seq<InternalNode>,
    pages: Seq<Seq<RecordView>>,
    nodes2: Seq<InternalNode>,
    p: usize,
    r: RecordView,
    axis: usize,
    value: u32,
    dim: nat,
    capacity: nat,
)
    requires
        p < pages.len(),
        leaf_ok(pages[p as int], dim, capacity),
        record_ok(r, dim),
        axis < dim,
        divides(pages[p as int].push(r), axis as int, value),
        nodes.len() < usize::MAX,
        pages.len() < usize::MAX,
        nodes2.len() == nodes.len() + 1,
        nodes2[nodes.len() as int] == (InternalNode {
            left_child_pointer: PagePointer::Leaf(p),
            right_child_pointer: PagePointer::Leaf(pages.len() as usize),
            split_axis: axis,
            split_value: value,
        }),
    ensures
        ({
            let above = PagePointer::Node(nodes.len() as usize);
            let pages2 = cut_pages(pages, p as int, r, axis as int, value);
            &&& subtree_ok(nodes2, pages2, above, dim, capacity)
            &&& records_under(nodes2, pages2, above) == pages[p as int].to_multiset().insert(r)
            &&& leaves_under(nodes2, above) == set![p as int, pages.len() as int]
        }),
{
    let above = PagePointer::Node(nodes.len() as usize);
    let pages2 = cut_pages(pages, p as int, r, axis as int, value);
    let all = pages[p as int].push(r);
    let l = bucket(all, axis as int, value, true);
    let rt = bucket(all, axis as int, value, false);
    lemma_bucket(all, axis as int, value, dim);
    to_multiset_build(pages[p as int], r);
    let fresh = nodes2[nodes.len() as int];
    reveal_with_fuel(leaves_under, 2);
    reveal_with_fuel(records_under, 2);
    reveal_with_fuel(subtree_ok, 2);
    assert(node_forward(nodes2, nodes.len() as int));
    assert(pages2[p as int] == l);
    assert(pages2[pages.len() as int] == rt);
    assert(le(l[0].descriptor[axis as int], value));
    assert(leaf_ok(l, dim, capacity));
    assert(leaf_ok(rt, dim, capacity));
    assert(records_under(nodes2, pages2, fresh.left_child_pointer) == l.to_multiset());
    assert(records_under(nodes2, pages2, fresh.right_child_pointer) == rt.to_multiset());
    assert forall|x: RecordView| #[trigger] l.to_multiset().count(x) > 0 implies le(
        x.descriptor[axis as int],
        value,
    ) by {
        to_multiset_contains(l, x);
        let k = choose|k: int| 0 <= k < l.len() && l[k] == x;
        assert(le(l[k].descriptor[axis as int], value));
    }
    assert forall|x: RecordView| #[trigger] rt.to_multiset().count(x) > 0 implies lt(
        value,
        x.descriptor[axis as int],
    ) by {
        to_multiset_contains(rt, x);
        let k = choose|k: int| 0 <= k < rt.len() && rt[k] == x;
        assert(record_ok(rt[k], dim));
        assert(!le(rt[k].descriptor[axis as int], value));
        if is_nan(x.descriptor[axis as int]) {
            assert(has_nan(x.descriptor));
        }
    }
    assert(leaves_under(nodes2, above) =~= set![p as int, pages.len() as int]);
}

/// Along the descent of `r`, cutting its leaf keeps the subtree well
/// formed, adds `r` to its records and the new page to its leaves.
pub proof fn lemma_path_cut(
    nodes: Seq<InternalNode>,
    pages: Seq<Seq<RecordView>>,
    i: usize,
    r: RecordView,
    parent: Option<(usize, Direction)>,
    axis: usize,
    value: u32,
    dim: nat,
    capacity: nat,
)
    requires
        subtree_ok(nodes, pages, PagePointer::Node(i), dim, capacity),
        record_ok(r, dim),
        axis < dim,
        divides(
            pages[route(nodes, PagePointer::Node(i), r.descriptor, parent).0 as int].push(r),
            axis as int,
            value,
        ),
        nodes.len() < usize::MAX,
        pages.len() < usize::MAX,
    ensures
        ({
            let ptr = PagePointer::Node(i);
            let found = route(nodes, ptr, r.descriptor, parent);
            let nodes2 = cut_nodes(nodes, found.1, found.0, pages.len() as usize, axis, value);
            let pages2 = cut_pages(pages, found.0 as int, r, axis as int, value);
            &&& subtree_ok(nodes2, pages2, ptr, dim, capacity)
            &&& records_under(nodes2, pages2, ptr) == records_under(nodes, pages, ptr).insert(r)
            &&& leaves_under(nodes2, ptr) == leaves_under(nodes, ptr).insert(pages.len() as int)
        }),
    decreases height(nodes, PagePointer::Node(i)),
{
    let ptr = PagePointer::Node(i);
    let found = route(nodes, ptr, r.descriptor, parent);
    let p = found.0;
    let nodes2 = cut_nodes(nodes, found.1, p, pages.len() as usize, axis, value);
    let pages2 = cut_pages(pages, p as int, r, axis as int, value);
    let n = nodes[i as int];
    let arm = side_of(n, r.descriptor);
    let child = child_of(n, arm);
    let sibling = child_of(n, opposite(arm));
    let above = PagePointer::Node(nodes.len() as usize);
    lemma_route(nodes, pages, ptr, r.descriptor, parent, dim, capacity);
    lemma_route(nodes, pages, child, r.descriptor, Some((i, arm)), dim, capacity);
    let c = found.1.unwrap().0;
    assert(grown_apart(nodes, pages, nodes2, pages2, p, Some(c as int)));
    lemma_frame(nodes, pages, nodes2, pages2, sibling, dim, capacity, p, Some(c as int));
    lemma_leaves_in_range(nodes, pages, sibling, dim, capacity);
    match child {
        PagePointer::Leaf(q) => {
            assert(q == p && c == i);
            lemma_fresh_subtree(nodes, pages, nodes2, p, r, axis, value, dim, capacity);
            assert(nodes2[i as int] == with_child(n, arm, above));
            lemma_node_rebuilt(nodes, pages, nodes2, pages2, i, r, arm, above, dim, capacity);
            assert(leaves_under(nodes2, ptr) =~= leaves_under(nodes, ptr).insert(
                pages.len() as int,
            ));
        },
        PagePointer::Node(j) => {
            lemma_path_cut(nodes, pages, j, r, Some((i, arm)), axis, value, dim, capacity);
            assert(c != i);
            assert(nodes2[i as int] == n);
            assert(nodes2[i as int] == with_child(n, arm, child));
            lemma_node_rebuilt(nodes, pages, nodes2, pages2, i, r, arm, child, dim, capacity);
            assert(leaves_under(nodes2, ptr) =~= leaves_under(nodes, ptr).insert(
                pages.len() as int,
            ));
        },
    }
}

/// Writing a record into the leaf it is routed to keeps a tree well
/// formed and adds the record to the tree's records.
pub proof fn theorem_stored(v: TreeView, r: RecordView)
    requires
        tree_ok(v),
        record_ok(r, v.dim),
        r.index < v.entries.len(),
        v.pages[route(v.nodes, v.root, r.descriptor, None).0 as int].len() < v.capacity,
    ensures
        tree_ok(stored(v, r)),
        tree_records(stored(v, r)) == tree_records(v).insert(r),
{
    lemma_path_stored(v.nodes, v.pages, v.root, r, None, v.dim, v.capacity);
    let after = stored(v, r);
    assert(subtree_ok(after.nodes, after.pages, after.root, after.dim, after.capacity));
    assert forall|x: RecordView| #[trigger] tree_records(after).count(x) > 0 implies x.index
        < after.entries.len() by {
        if x != r {
            assert(tree_records(v).count(x) > 0);
        }
    }
}

/// Cutting the leaf that a record is routed to, at a cut that divides it,
/// keeps a tree well formed and adds the record to the tree's records.
pub proof fn theorem_cut(v: TreeView, r: RecordView, axis: usize, value: u32)
    requires
        tree_ok(v),
        record_ok(r, v.dim),
        r.index < v.entries.len(),
        axis < v.dim,
        divides(
            v.pages[route(v.nodes, v.root, r.descriptor, None).0 as int].push(r),
            axis as int,
            value,
        ),
        v.nodes.len() < usize::MAX,
        v.pages.len() < usize::MAX,
    ensures
        tree_ok(cut(v, r, axis, value)),
        tree_records(cut(v, r, axis, value)) == tree_records(v).insert(r),
{
    let after = cut(v, r, axis, value);
    match v.root {
        PagePointer::Leaf(p) => {
            lemma_fresh_subtree(
                v.nodes,
                v.pages,
                after.nodes,
                0,
                r,
                axis,
                value,
                v.dim,
                v.capacity,
            );
            assert(after.root == PagePointer::Node(0));
        },
        PagePointer::Node(i) => {
            lemma_path_cut(v.nodes, v.pages, i, r, None, axis, value, v.dim, v.capacity);
            lemma_route(v.nodes, v.pages, v.root, r.descriptor, None, v.dim, v.capacity);
            assert(after.root == v.root);
        },
    }
    assert(subtree_ok(after.nodes, after.pages, after.root, after.dim, after.capacity));
    assert(tree_records(after) == tree_records(v).insert(r));
    assert forall|x: RecordView| #[trigger] tree_records(after).count(x) > 0 implies x.index
        < after.entries.len() by {
        if x != r {
            assert(tree_records(v).count(x) > 0);
        }
    }
}

/// The two buckets of a cut hold as many records as the leaf.
pub proof fn lemma_bucket_sizes(s: Seq<RecordView>, axis: int, value: u32)
    ensures
        bucket(s, axis, value, true).len() + bucket(s, axis, value, false).len() == s.len(),
    decreases s.len(),
{
    if s.len() > 0 {
        lemma_bucket_sizes(s.drop_last(), axis, value);
    }
}

} // verus!
