//! The nearest-neighbour query: a walk over the tree that visits the side
//! of each node on which the query lies first and the other side only when
//! the cut is nearer than the worst candidate found so far.

use vstd::prelude::*;
use std::collections::VecDeque;
use crate::data::{CompoundRecord, Descriptor};
use crate::database::{entry_readable, entry_slot, Database, EntryView};
use crate::error::Error;
use crate::model::{
    child_of, node_forward, node_shaped, shape_ok, side_of, Direction, TreeView,
};
use crate::node::{InternalNode, PagePointer};
use crate::page::record_views;
use crate::proofs::opposite;
use crate::record::RecordView;
use crate::scalar::{lt, scalar_le, scalar_lt};
use crate::top_hits::{empty_hit, Hit, TopHits};
use crate::tree::{NodeAction, Tree};

verus! {

/// A step that a query still has to take: a pointer, what to do with it,
/// and for a postponed side of a node which side it is.
pub type Task = (PagePointer, NodeAction, Option<Direction>);

/// The task to walk into `ptr`.
pub open spec fn descend(ptr: PagePointer) -> Task {
    (ptr, NodeAction::Descend, None)
}

/// The task to look at the side `arm` of node `i` again later.
pub open spec fn postponed(i: usize, arm: Direction) -> Task {
    (PagePointer::Node(i), NodeAction::CheckIgnoredBranch, Some(arm))
}

/// An upper bound on the steps that walking into `ptr` can take.
pub open spec fn weight(nodes: Seq<InternalNode>, ptr: PagePointer) -> nat
    decreases crate::model::height(nodes, ptr),
{
    match ptr {
        PagePointer::Leaf(_) => 1,
        PagePointer::Node(i) => if node_forward(nodes, i as int) {
            weight(nodes, nodes[i as int].left_child_pointer) + weight(
                nodes,
                nodes[i as int].right_child_pointer,
            ) + 2
        } else {
            1
        },
    }
}

/// An upper bound on the steps that a task can cause.
pub open spec fn task_weight(nodes: Seq<InternalNode>, t: Task) -> nat {
    match t {
        (ptr, NodeAction::Descend, _) => weight(nodes, ptr),
        (PagePointer::Node(i), NodeAction::CheckIgnoredBranch, Some(arm)) => if node_forward(
            nodes,
            i as int,
        ) {
            1 + weight(nodes, child_of(nodes[i as int], arm))
        } else {
            1
        },
        _ => 1,
    }
}

/// An upper bound on the steps that a queue of tasks can cause.
pub open spec fn queue_weight(nodes: Seq<InternalNode>, queue: Seq<Task>) -> nat
    decreases queue.len(),
{
    if queue.len() == 0 {
        0
    } else {
        task_weight(nodes, queue.last()) + queue_weight(nodes, queue.drop_last())
    }
}

/// The candidates that a leaf offers: each record at its distance from
/// the query.
pub open spec fn candidates(
    page: Seq<RecordView>,
    ptr: PagePointer,
    q: Seq<u32>,
    dist: spec_fn(Seq<u32>, Seq<u32>) -> u32,
) -> Seq<Hit> {
    Seq::new(
        page.len(),
        |k: int|
            Hit {
                distance: dist(q, page[k].descriptor),
                record: Some(page[k]),
                pointer: Some(ptr),
            },
    )
}

/// The distance of the last slot: the worst candidate kept.
pub open spec fn worst(hits: Seq<Hit>) -> u32 {
    hits.last().distance
}

/// Whether the walk has to enter the postponed side of `node`: the query
/// is nearer to the cut than to the worst candidate kept.
pub open spec fn must_visit(
    node: InternalNode,
    q: Seq<u32>,
    hits: Seq<Hit>,
    axis_dist: spec_fn(u32, u32) -> u32,
) -> bool {
    hits.len() > 0 && lt(axis_dist(q[node.split_axis as int], node.split_value), worst(hits))
}

/// The queue and the buffer after the first task of `queue` is carried
/// out. Walking into a leaf offers its records to the buffer. Walking into
/// a node puts the side of the query at the front and postpones the other
/// side to the back. A postponed side is put at the front if it has to be
/// visited, and dropped otherwise.
pub open spec fn step(
    v: TreeView,
    q: Seq<u32>,
    dist: spec_fn(Seq<u32>, Seq<u32>) -> u32,
    axis_dist: spec_fn(u32, u32) -> u32,
    queue: Seq<Task>,
    hits: Seq<Hit>,
) -> (Seq<Task>, Seq<Hit>) {
    let rest = queue.drop_first();
    match queue.first() {
        (PagePointer::Leaf(p), NodeAction::Descend, _) => (
            rest,
            crate::top_hits::offer_all(
                hits,
                candidates(v.pages[p as int], PagePointer::Leaf(p), q, dist),
            ),
        ),
        (PagePointer::Node(i), NodeAction::Descend, _) => {
            let near = side_of(v.nodes[i as int], q);
            (
                seq![descend(child_of(v.nodes[i as int], near))] + rest.push(
                    postponed(i, opposite(near)),
                ),
                hits,
            )
        },
        (PagePointer::Node(i), NodeAction::CheckIgnoredBranch, Some(arm)) => if must_visit(
            v.nodes[i as int],
            q,
            hits,
            axis_dist,
        ) {
            (seq![descend(child_of(v.nodes[i as int], arm))] + rest, hits)
        } else {
            (rest, hits)
        },
        _ => (rest, hits),
    }
}

/// The buffer when the queue has been worked off.
pub open spec fn run(
    v: TreeView,
    q: Seq<u32>,
    dist: spec_fn(Seq<u32>, Seq<u32>) -> u32,
    axis_dist: spec_fn(u32, u32) -> u32,
    queue: Seq<Task>,
    hits: Seq<Hit>,
) -> Seq<Hit>
    decreases queue_weight(v.nodes, queue),
{
    if queue.len() == 0 {
        hits
    } else {
        let next = step(v, q, dist, axis_dist, queue, hits);
        if queue_weight(v.nodes, next.0) < queue_weight(v.nodes, queue) {
            run(v, q, dist, axis_dist, next.0, next.1)
        } else {
            hits
        }
    }
}

/// The `k` nearest records to `q` that the walk finds, nearest first.
pub open spec fn nearest(
    v: TreeView,
    q: Seq<u32>,
    k: nat,
    dist: spec_fn(Seq<u32>, Seq<u32>) -> u32,
    axis_dist: spec_fn(u32, u32) -> u32,
) -> Seq<Hit> {
    run(v, q, dist, axis_dist, seq![descend(v.root)], Seq::new(k, |i: int| empty_hit()))
}

/// Every pointer in the queue has a target, and every postponed task
/// names a node and a side.
pub open spec fn queue_ok(v: TreeView, queue: Seq<Task>) -> bool {
    forall|k: int| 0 <= k < queue.len() ==> task_ok(v, #[trigger] queue[k])
}

/// The pointer of the task has a target, and a postponed task names a
/// node and a side.
pub open spec fn task_ok(v: TreeView, t: Task) -> bool {
    match t {
        (PagePointer::Leaf(p), NodeAction::Descend, _) => p < v.pages.len(),
        (PagePointer::Node(i), NodeAction::Descend, _) => i < v.nodes.len(),
        (PagePointer::Node(i), NodeAction::CheckIgnoredBranch, Some(_)) => i < v.nodes.len(),
        _ => false,
    }
}

pub proof fn lemma_queue_weight_push(nodes: Seq<InternalNode>, queue: Seq<Task>, t: Task)
    ensures
        queue_weight(nodes, queue.push(t)) == queue_weight(nodes, queue) + task_weight(nodes, t),
{
    assert(queue.push(t).drop_last() =~= queue);
}

pub proof fn lemma_queue_weight_front(nodes: Seq<InternalNode>, queue: Seq<Task>, t: Task)
    ensures
        queue_weight(nodes, seq![t] + queue) == queue_weight(nodes, queue) + task_weight(nodes, t),
    decreases queue.len(),
{
    if queue.len() == 0 {
        assert(seq![t] + queue =~= Seq::<Task>::empty().push(t));
        lemma_queue_weight_push(nodes, Seq::<Task>::empty(), t);
    } else {
        let front = queue.drop_last();
        assert((seq![t] + queue).drop_last() =~= seq![t] + front);
        assert((seq![t] + queue).last() == queue.last());
        lemma_queue_weight_front(nodes, front, t);
    }
}

pub proof fn lemma_queue_weight_drop_first(nodes: Seq<InternalNode>, queue: Seq<Task>)
    requires
        queue.len() > 0,
    ensures
        queue_weight(nodes, queue) == queue_weight(nodes, queue.drop_first()) + task_weight(
            nodes,
            queue.first(),
        ),
{
    assert(queue =~= seq![queue.first()] + queue.drop_first());
    lemma_queue_weight_front(nodes, queue.drop_first(), queue.first());
}

/// A step on a sound queue leaves a sound queue that weighs less.
pub proof fn lemma_step(
    v: TreeView,
    q: Seq<u32>,
    dist: spec_fn(Seq<u32>, Seq<u32>) -> u32,
    axis_dist: spec_fn(u32, u32) -> u32,
    queue: Seq<Task>,
    hits: Seq<Hit>,
)
    requires
        shape_ok(v),
        queue_ok(v, queue),
        queue.len() > 0,
    ensures
        queue_ok(v, step(v, q, dist, axis_dist, queue, hits).0),
        queue_weight(v.nodes, step(v, q, dist, axis_dist, queue, hits).0) < queue_weight(
            v.nodes,
            queue,
        ),
{
    let rest = queue.drop_first();
    let next = step(v, q, dist, axis_dist, queue, hits).0;
    lemma_queue_weight_drop_first(v.nodes, queue);
    assert(task_ok(v, queue[0]));
    assert forall|k: int| 0 <= k < rest.len() implies task_ok(v, #[trigger] rest[k]) by {
        assert(rest[k] == queue[k + 1]);
    }
    match queue.first() {
        (PagePointer::Leaf(p), NodeAction::Descend, _) => {},
        (PagePointer::Node(i), NodeAction::Descend, _) => {
            assert(node_shaped(v.nodes, i as int, v.pages.len(), v.dim));
            let near = side_of(v.nodes[i as int], q);
            let first = descend(child_of(v.nodes[i as int], near));
            let later = postponed(i, opposite(near));
            lemma_queue_weight_push(v.nodes, rest, later);
            lemma_queue_weight_front(v.nodes, rest.push(later), first);
            assert forall|k: int| 0 <= k < next.len() implies task_ok(v, #[trigger] next[k]) by {
                if k == 0 {
                } else if k < next.len() - 1 {
                    assert(next[k] == rest[k - 1]);
                } else {
                    assert(next[k] == later);
                }
            }
        },
        (PagePointer::Node(i), NodeAction::CheckIgnoredBranch, Some(arm)) => {
            assert(node_shaped(v.nodes, i as int, v.pages.len(), v.dim));
            if must_visit(v.nodes[i as int], q, hits, axis_dist) {
                let first = descend(child_of(v.nodes[i as int], arm));
                lemma_queue_weight_front(v.nodes, rest, first);
                assert forall|k: int| 0 <= k < next.len() implies task_ok(v, #[trigger] next[k]) by {
                    if k > 0 {
                        assert(next[k] == rest[k - 1]);
                    }
                }
            }
        },
        _ => {},
    }
}

/// Every used slot holds a record of the leaf page that its pointer
/// names, and every unused slot is as a new buffer has it.
pub open spec fn sourced(v: TreeView, hits: Seq<Hit>) -> bool {
    forall|i: int| 0 <= i < hits.len() ==> slot_sourced(v, #[trigger] hits[i])
}

/// A used slot holds a record of the leaf page that its pointer names; an
/// unused slot is as a new buffer has it.
pub open spec fn slot_sourced(v: TreeView, h: Hit) -> bool {
    match h.record {
        Some(r) => exists|p: usize|
            h.pointer == Some(PagePointer::Leaf(p)) && p < v.pages.len() && (
            #[trigger] v.pages[p as int]).contains(r),
        None => h == empty_hit(),
    }
}

/// Offering a slot that has its source keeps a buffer of such slots.
pub proof fn lemma_offer_sourced(v: TreeView, hits: Seq<Hit>, h: Hit)
    requires
        sourced(v, hits),
        slot_sourced(v, h),
    ensures
        sourced(v, crate::top_hits::offer(hits, h)),
{
    let after = crate::top_hits::offer(hits, h);
    if hits.len() > 0 && lt(h.distance, hits.last().distance) {
        crate::scalar::lemma_rank(crate::top_hits::distances_of(hits), h.distance);
        let at = crate::scalar::rank(crate::top_hits::distances_of(hits), h.distance) as int;
        assert forall|i: int| 0 <= i < after.len() implies slot_sourced(v, #[trigger] after[i]) by {
            if i < at {
                assert(after[i] == hits[i]);
            } else if i == at {
                assert(after[i] == h);
            } else {
                assert(after[i] == hits[i - 1]);
            }
        }
    }
}

/// `dist` is what the distance function computes.
pub open spec fn measures<F: Fn(&Descriptor, &Descriptor) -> u32>(
    f: F,
    dist: spec_fn(Seq<u32>, Seq<u32>) -> u32,
) -> bool {
    forall|a: Descriptor, b: Descriptor, r: u32|
        call_ensures(f, (&a, &b), r) ==> r == dist(a@, b@)
}

/// `axis_dist` is what the axis distance function computes.
pub open spec fn measures_axis<G: Fn(u32, u32) -> u32>(
    g: G,
    axis_dist: spec_fn(u32, u32) -> u32,
) -> bool {
    forall|a: u32, b: u32, r: u32| call_ensures(g, (a, b), r) ==> r == axis_dist(a, b)
}

/// The distance function takes any two descriptors of `dim` coordinates.
pub open spec fn takes_points<F: Fn(&Descriptor, &Descriptor) -> u32>(f: F, dim: nat) -> bool {
    forall|a: Descriptor, b: Descriptor|
        a@.len() == dim && b@.len() == dim ==> call_requires(f, (&a, &b))
}

impl Tree {
    /// Offers every record of leaf `index` to the buffer, at the distance
    /// that `distance` gives it from the query.
    fn scan_leaf<F: Fn(&Descriptor, &Descriptor) -> u32>(
        &self,
        index: usize,
        query_descriptor: &Descriptor,
        hits: &mut TopHits,
        distance: &F,
    )
        requires
            self.wf(),
            index < self@.pages.len(),
            old(hits).wf(),
            sourced(self@, old(hits)@),
            query_descriptor@.len() == self.config.desc_length,
            takes_points(*distance, self.config.desc_length as nat),
        ensures
            final(hits).wf(),
            final(hits).max_length == old(hits).max_length,
            sourced(self@, final(hits)@),
            forall|dist: spec_fn(Seq<u32>, Seq<u32>) -> u32|
                measures(*distance, dist) ==> final(hits)@ == crate::top_hits::offer_all(
                    old(hits)@,
                    candidates(
                        self@.pages[index as int],
                        PagePointer::Leaf(index),
                        query_descriptor@,
                        dist,
                    ),
                ),
    {
        proof {
            self.record_handler.lemma_wf();
        }
        let curr_pointer = PagePointer::Leaf(index);
        let page = match self.record_handler.get_record_page(&index) {
            Ok(page) => page,
            Err(_) => {
                proof {
                    assert(false);
                }
                return ;
            },
        };
        let records = page.get_records();
        let ghost held = self@.pages[index as int];
        let ghost start = hits@;
        let mut k: usize = 0;
        proof {
            assert(record_views(records@) == held);
            assert forall|dist: spec_fn(Seq<u32>, Seq<u32>) -> u32|
                measures(*distance, dist) implies hits@ == crate::top_hits::offer_all(
                start,
                candidates(held, curr_pointer, query_descriptor@, dist).subrange(0, 0),
            ) by {}
        }
        while k < records.len()
            invariant
                k <= records@.len(),
                hits.wf(),
                hits.max_length == old(hits).max_length,
                sourced(self@, hits@),
                held == self@.pages[index as int],
                index < self@.pages.len(),
                record_views(records@) == held,
                start == old(hits)@,
                curr_pointer == PagePointer::Leaf(index),
                query_descriptor@.len() == self.config.desc_length,
                takes_points(*distance, self.config.desc_length as nat),
                forall|j: int|
                    0 <= j < records@.len() ==> (#[trigger] records@[j]).wf() && records@[j].length
                        == self.config.desc_length,
                forall|dist: spec_fn(Seq<u32>, Seq<u32>) -> u32|
                    measures(*distance, dist) ==> hits@ == crate::top_hits::offer_all(
                        start,
                        candidates(held, curr_pointer, query_descriptor@, dist).subrange(
                            0,
                            k as int,
                        ),
                    ),
            decreases records@.len() - k,
        {
            let ghost before = hits@;
            proof {
                assert(records@[k as int].wf());
                assert(record_views(records@)[k as int] == records@[k as int]@);
            }
            let d: u32 = distance(query_descriptor, &records[k].descriptor);
            match hits.try_add(d, &records[k], &curr_pointer) {
                Ok(()) => {},
                Err(_) => {
                    return ;
                },
            }
            proof {
                let offered = Hit {
                    distance: d,
                    record: Some(records@[k as int]@),
                    pointer: Some(curr_pointer),
                };
                assert(held[k as int] == records@[k as int]@);
                assert(self@.pages[index as int].contains(records@[k as int]@));
                assert(slot_sourced(self@, offered));
                lemma_offer_sourced(self@, before, offered);
                assert forall|dist: spec_fn(Seq<u32>, Seq<u32>) -> u32|
                    measures(*distance, dist) implies hits@ == crate::top_hits::offer_all(
                    start,
                    candidates(held, curr_pointer, query_descriptor@, dist).subrange(0, k + 1),
                ) by {
                    let all = candidates(held, curr_pointer, query_descriptor@, dist);
                    let upto = all.subrange(0, k + 1);
                    assert(upto.drop_last() =~= all.subrange(0, k as int));
                    assert(upto.last() == all[k as int]);
                    assert(d == dist(query_descriptor@, records@[k as int].descriptor@));
                }
            }
            k += 1;
        }
        proof {
            assert forall|dist: spec_fn(Seq<u32>, Seq<u32>) -> u32|
                measures(*distance, dist) implies hits@ == crate::top_hits::offer_all(
                start,
                candidates(held, curr_pointer, query_descriptor@, dist),
            ) by {
                let all = candidates(held, curr_pointer, query_descriptor@, dist);
                assert(all.subrange(0, records@.len() as int) =~= all);
            }
        }
    }

    /// The `n` records nearest to the query that the walk over the tree
    /// finds, nearest first, in a buffer whose unused slots hold positive
    /// infinity. The distance between two descriptors and the distance
    /// between a coordinate and a cut are the caller's to compute.
    /// `DimensionMismatch` when the query is of another length than the
    /// tree's descriptors.
    pub fn get_top_hits<F: Fn(&Descriptor, &Descriptor) -> u32, G: Fn(u32, u32) -> u32>(
        &self,
        query_descriptor: &Descriptor,
        n: usize,
        distance: F,
        axis_distance: G,
    ) -> (r: Result<TopHits, Error>)
        requires
            self.wf(),
            takes_points(distance, self.config.desc_length as nat),
            forall|a: u32, b: u32| call_requires(axis_distance, (a, b)),
        ensures
            r.is_ok() <==> query_descriptor@.len() == self.config.desc_length,
            r.is_err() ==> r == Err::<TopHits, Error>(Error::DimensionMismatch),
            r.is_ok() ==> r.unwrap().wf() && r.unwrap().max_length == n && sourced(
                self@,
                r.unwrap()@,
            ),
            r.is_ok() ==> forall|
                dist: spec_fn(Seq<u32>, Seq<u32>) -> u32,
                axis_dist: spec_fn(u32, u32) -> u32,
            |
                measures(distance, dist) && measures_axis(axis_distance, axis_dist) ==> r.unwrap()@
                    == nearest(self@, query_descriptor@, n as nat, dist, axis_dist),
    {
        if query_descriptor.data.len() != self.config.desc_length {
            return Err(Error::DimensionMismatch);
        }
        let mut hits = TopHits::new(n);
        let mut nodes_to_check: VecDeque<Task> = VecDeque::new();
        nodes_to_check.push_front((self.root, NodeAction::Descend, None));
        let ghost v = self@;
        let ghost q = query_descriptor@;
        let ghost first = nodes_to_check@;
        let ghost empty = hits@;
        proof {
            assert(first =~= seq![descend(v.root)]);
            assert(task_ok(v, first[0]));
        }
        loop
            invariant
                self.wf(),
                v == self@,
                q == query_descriptor@,
                q.len() == self.config.desc_length,
                hits.wf(),
                hits.max_length == n,
                sourced(v, hits@),
                queue_ok(v, nodes_to_check@),
                takes_points(distance, self.config.desc_length as nat),
                forall|a: u32, b: u32| call_requires(axis_distance, (a, b)),
                first == seq![descend(v.root)],
                empty == Seq::new(n as nat, |i: int| empty_hit()),
                forall|
                    dist: spec_fn(Seq<u32>, Seq<u32>) -> u32,
                    axis_dist: spec_fn(u32, u32) -> u32,
                |
                    measures(distance, dist) && measures_axis(axis_distance, axis_dist) ==> run(
                        v,
                        q,
                        dist,
                        axis_dist,
                        nodes_to_check@,
                        hits@,
                    ) == run(v, q, dist, axis_dist, first, empty),
            decreases queue_weight(v.nodes, nodes_to_check@),
        {
            let ghost queue = nodes_to_check@;
            let ghost held = hits@;
            let curr_tup = match nodes_to_check.pop_front() {
                None => {
                    return Ok(hits);
                },
                Some(x) => x,
            };
            proof {
                assert(nodes_to_check@ =~= queue.drop_first());
                assert(curr_tup == queue.first());
                assert(task_ok(v, queue[0]));
                assert forall|
                    dist: spec_fn(Seq<u32>, Seq<u32>) -> u32,
                    axis_dist: spec_fn(u32, u32) -> u32,
                |
                    queue_weight(v.nodes, #[trigger] step(v, q, dist, axis_dist, queue, held).0)
                        < queue_weight(v.nodes, queue) by {
                    lemma_step(v, q, dist, axis_dist, queue, held);
                }
            }
            let (curr_pointer, action, direction) = curr_tup;
            match action {
                NodeAction::Descend => {
                    match curr_pointer {
                        PagePointer::Leaf(index) => {
                            self.scan_leaf(index, query_descriptor, &mut hits, &distance);
                        },
                        PagePointer::Node(index) => {
                            proof {
                                assert(node_shaped(v.nodes, index as int, v.pages.len(), v.dim));
                            }
                            let node: InternalNode = self.node_handler.store[index];
                            let this_value: u32 = query_descriptor.data[node.split_axis];
                            if scalar_le(this_value, node.split_value) {
                                nodes_to_check.push_front(
                                    (node.left_child_pointer, NodeAction::Descend, None),
                                );
                                nodes_to_check.push_back(
                                    (
                                        curr_pointer,
                                        NodeAction::CheckIgnoredBranch,
                                        Some(Direction::Right),
                                    ),
                                );
                            } else {
                                nodes_to_check.push_front(
                                    (node.right_child_pointer, NodeAction::Descend, None),
                                );
                                nodes_to_check.push_back(
                                    (
                                        curr_pointer,
                                        NodeAction::CheckIgnoredBranch,
                                        Some(Direction::Left),
                                    ),
                                );
                            }
                        },
                    }
                },
                NodeAction::CheckIgnoredBranch => {
                    match (curr_pointer, direction) {
                        (PagePointer::Node(index), Some(arm)) => {
                            proof {
                                assert(node_shaped(v.nodes, index as int, v.pages.len(), v.dim));
                            }
                            let node: InternalNode = self.node_handler.store[index];
                            if n > 0 {
                                let dist: u32 = axis_distance(
                                    query_descriptor.data[node.split_axis],
                                    node.split_value,
                                );
                                let threshold: u32 = hits.get_highest_dist();
                                if scalar_lt(dist, threshold) {
                                    let descend_pointer = match arm {
                                        Direction::Left => node.left_child_pointer,
                                        Direction::Right => node.right_child_pointer,
                                    };
                                    nodes_to_check.push_front(
                                        (descend_pointer, NodeAction::Descend, None),
                                    );
                                }
                            }
                        },
                        _ => {},
                    }
                },
            }
            proof {
                assert forall|
                    dist: spec_fn(Seq<u32>, Seq<u32>) -> u32,
                    axis_dist: spec_fn(u32, u32) -> u32,
                |
                    measures(distance, dist) && measures_axis(
                        axis_distance,
                        axis_dist,
                    ) implies nodes_to_check@ == step(v, q, dist, axis_dist, queue, held).0
                    && hits@ == step(v, q, dist, axis_dist, queue, held).1 by {
                    let next = step(v, q, dist, axis_dist, queue, held);
                    assert(nodes_to_check@ =~= next.0);
                }
                lemma_step_shape(v, q, queue, held, nodes_to_check@);
            }
        }
    }
}

/// Whatever the distances are, the queue after a step is the rest of the
/// queue, with at most one task put before it and one after it; so a queue
/// that some step could have left is sound and weighs less.
pub proof fn lemma_step_shape(
    v: TreeView,
    q: Seq<u32>,
    queue: Seq<Task>,
    hits: Seq<Hit>,
    after: Seq<Task>,
)
    requires
        shape_ok(v),
        queue_ok(v, queue),
        queue.len() > 0,
        after == step_queue(v, q, queue, true) || after == step_queue(v, q, queue, false),
    ensures
        queue_ok(v, after),
        queue_weight(v.nodes, after) < queue_weight(v.nodes, queue),
{
    let near_zero = |a: u32, b: u32| 0u32;
    let far = |a: u32, b: u32| 0x7f80_0000u32;
    let any = |a: Seq<u32>, b: Seq<u32>| 0u32;
    let some = seq![Hit { distance: 0x3f80_0000u32, record: None, pointer: None }];
    let none = Seq::<Hit>::empty();
    lemma_step(v, q, any, near_zero, queue, some);
    lemma_step(v, q, any, far, queue, none);
    assert(step(v, q, any, near_zero, queue, some).0 == step_queue(v, q, queue, true)) by {
        assert(lt(0u32, 0x3f80_0000u32));
        assert(some.last().distance == 0x3f80_0000u32);
    }
    assert(step(v, q, any, far, queue, none).0 == step_queue(v, q, queue, false));
}

/// The queue after the first task of `queue` is carried out, where
/// `visit` says whether a postponed side is entered.
pub open spec fn step_queue(v: TreeView, q: Seq<u32>, queue: Seq<Task>, visit: bool) -> Seq<Task> {
    let rest = queue.drop_first();
    match queue.first() {
        (PagePointer::Leaf(p), NodeAction::Descend, _) => rest,
        (PagePointer::Node(i), NodeAction::Descend, _) => {
            let near = side_of(v.nodes[i as int], q);
            seq![descend(child_of(v.nodes[i as int], near))] + rest.push(
                postponed(i, opposite(near)),
            )
        },
        (PagePointer::Node(i), NodeAction::CheckIgnoredBranch, Some(arm)) => if visit {
            seq![descend(child_of(v.nodes[i as int], arm))] + rest
        } else {
            rest
        },
        _ => rest,
    }
}

} // verus!

verus! {

/// A neighbour as callers see it.
pub struct Neighbor {
    pub distance: u32,
    pub smiles: Seq<char>,
    pub identifier: Seq<u8>,
    pub descriptor: Seq<u32>,
}

/// The neighbours of a query with what the content database holds of
/// each, nearest first.
#[derive(Debug)]
pub struct NearestNeighbors {
    pub distances: Vec<u32>,
    pub records: Vec<Option<CompoundRecord>>,
}

impl View for NearestNeighbors {
    type V = Seq<Neighbor>;

    open spec fn view(&self) -> Seq<Neighbor> {
        Seq::new(
            self.distances@.len(),
            |i: int|
                Neighbor {
                    distance: self.distances@[i],
                    smiles: self.records@[i].unwrap().smiles@,
                    identifier: self.records@[i].unwrap().compound_identifier@,
                    descriptor: self.records@[i].unwrap().descriptor@,
                },
        )
    }
}

/// What stops the lookup of one slot in a database file of `count`
/// entries: nothing for an unused slot.
pub open spec fn problem(h: Hit, file: Seq<u8>, count: nat) -> Option<Error> {
    match h.record {
        None => None,
        Some(r) => if r.index >= count {
            Some(Error::KeyNotFound)
        } else if !entry_readable(entry_slot(file, r.index as int)) {
            Some(Error::CorruptPage)
        } else {
            None
        },
    }
}

/// What stops the lookup of the first slot that cannot be looked up.
pub open spec fn lookup_error(hits: Seq<Hit>, file: Seq<u8>, count: nat) -> Option<Error>
    decreases hits.len(),
{
    if hits.len() == 0 {
        None
    } else {
        match problem(hits.first(), file, count) {
            Some(e) => Some(e),
            None => lookup_error(hits.drop_first(), file, count),
        }
    }
}

/// The used slots of a buffer, each with the entry of its record's index.
pub open spec fn neighbors_of(hits: Seq<Hit>, entries: Seq<EntryView>) -> Seq<Neighbor>
    decreases hits.len(),
{
    if hits.len() == 0 {
        Seq::empty()
    } else {
        let front = neighbors_of(hits.drop_last(), entries);
        match hits.last().record {
            Some(r) => front.push(
                Neighbor {
                    distance: hits.last().distance,
                    smiles: entries[r.index as int].smiles,
                    identifier: entries[r.index as int].identifier,
                    descriptor: r.descriptor,
                },
            ),
            None => front,
        }
    }
}

impl NearestNeighbors {
    /// As many distances as records, and every record is there.
    pub open spec fn wf(&self) -> bool {
        &&& self.distances@.len() == self.records@.len()
        &&& forall|i: int| 0 <= i < self.records@.len() ==> (#[trigger] self.records@[i]).is_some()
    }

    /// The used slots of the buffer with the SMILES text and identifier
    /// that the database holds for each. Unused slots are left out, so a
    /// query that finds nothing gives an empty result. `KeyNotFound` when
    /// a record's index is beyond the database, `CorruptPage` when its
    /// entry cannot be read: the error of the first slot that fails.
    pub fn from_top_hits(top_hits: TopHits, database: &Database) -> (r: Result<Self, Error>)
        requires
            top_hits.wf(),
            database.wf(),
        ensures
            match lookup_error(top_hits@, database.file@, database.num_entries as nat) {
                Some(e) => r == Err::<Self, Error>(e),
                None => r.is_ok() && r.unwrap().wf() && r.unwrap()@ == neighbors_of(
                    top_hits@,
                    database@,
                ),
            },
    {
        let mut distances: Vec<u32> = Vec::new();
        let mut records: Vec<Option<CompoundRecord>> = Vec::new();
        let ghost hits = top_hits@;
        let ghost file = database.file@;
        let ghost count = database.num_entries as nat;
        let mut i: usize = 0;
        proof {
            assert(hits.subrange(0, hits.len() as int) =~= hits);
        }
        while i < top_hits.max_length
            invariant
                i <= top_hits.max_length,
                top_hits.wf(),
                database.wf(),
                hits == top_hits@,
                file == database.file@,
                count == database.num_entries,
                lookup_error(hits, file, count) == lookup_error(
                    hits.subrange(i as int, hits.len() as int),
                    file,
                    count,
                ),
                distances@.len() == records@.len(),
                forall|j: int| 0 <= j < records@.len() ==> (#[trigger] records@[j]).is_some(),
                (NearestNeighbors { distances, records })@ == neighbors_of(
                    hits.subrange(0, i as int),
                    database@,
                ),
            decreases top_hits.max_length - i,
        {
            let ghost rest = hits.subrange(i as int, hits.len() as int);
            let ghost before = (NearestNeighbors { distances, records })@;
            proof {
                assert(rest.first() == hits[i as int]);
                assert(rest.drop_first() =~= hits.subrange(i + 1, hits.len() as int));
                let upto = hits.subrange(0, i + 1);
                assert(upto.drop_last() =~= hits.subrange(0, i as int));
                assert(upto.last() == hits[i as int]);
            }
            match &top_hits.records[i] {
                Some(record) => {
                    let database_record = match database.query(&record.index) {
                        Ok(found) => found,
                        Err(e) => {
                            return Err(e);
                        },
                    };
                    let compound_record = CompoundRecord {
                        smiles: database_record.smiles,
                        compound_identifier: database_record.identifier,
                        descriptor: record.descriptor.clone(),
                        length: record.length,
                    };
                    distances.push(top_hits.distances[i]);
                    records.push(Some(compound_record));
                    proof {
                        assert((NearestNeighbors { distances, records })@ =~= before.push(
                            Neighbor {
                                distance: hits[i as int].distance,
                                smiles: database@[record.index as int].smiles,
                                identifier: database@[record.index as int].identifier,
                                descriptor: record.descriptor@,
                            },
                        ));
                    }
                },
                None => {
                    proof {
                        assert((NearestNeighbors { distances, records })@ =~= before);
                    }
                },
            }
            i += 1;
        }
        proof {
            assert(hits.subrange(0, hits.len() as int) =~= hits);
        }
        Ok(NearestNeighbors { distances, records })
    }
}

impl Tree {
    /// The `n` records nearest to the query, nearest first, each with its
    /// SMILES text and identifier; fewer when the tree holds fewer. The
    /// distance between two descriptors and the distance between a
    /// coordinate and a cut are the caller's to compute.
    pub fn get_nearest_neighbors<F: Fn(&Descriptor, &Descriptor) -> u32, G: Fn(u32, u32) -> u32>(
        &self,
        query_descriptor: &Descriptor,
        n: usize,
        distance: F,
        axis_distance: G,
    ) -> (r: Result<NearestNeighbors, Error>)
        requires
            self.wf(),
            takes_points(distance, self.config.desc_length as nat),
            forall|a: u32, b: u32| call_requires(axis_distance, (a, b)),
        ensures
            query_descriptor@.len() != self.config.desc_length ==> r == Err::<
                NearestNeighbors,
                Error,
            >(Error::DimensionMismatch),
            r.is_ok() ==> r.unwrap().wf(),
            query_descriptor@.len() == self.config.desc_length ==> forall|
                dist: spec_fn(Seq<u32>, Seq<u32>) -> u32,
                axis_dist: spec_fn(u32, u32) -> u32,
            |
                measures(distance, dist) && measures_axis(axis_distance, axis_dist)
                    ==> (match lookup_error(
                    nearest(self@, query_descriptor@, n as nat, dist, axis_dist),
                    self.database.file@,
                    self.database.num_entries as nat,
                ) {
                    Some(e) => r == Err::<NearestNeighbors, Error>(e),
                    None => r.is_ok() && r.unwrap()@ == neighbors_of(
                        nearest(self@, query_descriptor@, n as nat, dist, axis_dist),
                        self@.entries,
                    ),
                }),
    {
        let top_hits = match self.get_top_hits(query_descriptor, n, distance, axis_distance) {
            Ok(hits) => hits,
            Err(e) => {
                return Err(e);
            },
        };
        NearestNeighbors::from_top_hits(top_hits, &self.database)
    }
}

} // verus!
