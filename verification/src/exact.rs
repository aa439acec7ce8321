//! Why the walk finds the nearest records: the buffer that a query returns
//! holds every record that is nearer than its last slot.

use vstd::prelude::*;
use vstd::multiset::Multiset;
use vstd::seq_lib::to_multiset_build;
use crate::data::has_nan;
use crate::model::{
    child_of, node_shaped, record_ok, records_under, shape_ok, side_of, subtree_ok, tree_ok,
    tree_records, Direction, TreeView,
};
use crate::node::PagePointer;
use crate::proofs::{lemma_records_ok, opposite};
use crate::query::{
    candidates, descend, lemma_step, must_visit, nearest, postponed, queue_ok, queue_weight, run,
    step, task_ok, worst, Task,
};
use crate::record::RecordView;
use crate::scalar::{ascending, is_nan, key, le, lemma_rank, lt, rank};
use crate::top_hits::{distances_of, empty_hit, lemma_offer, offer, offer_all, Hit};
use crate::tree::NodeAction;

verus! {

broadcast use vstd::multiset::group_multiset_axioms;

/// The number of slots that hold the record `r`.
pub open spec fn held(hits: Seq<Hit>, r: RecordView) -> nat
    decreases hits.len(),
{
    if hits.len() == 0 {
        0
    } else {
        held(hits.drop_last(), r) + if hits.last().record == Some(r) {
            1nat
        } else {
            0nat
        }
    }
}

/// The buffer is in order: distances ascend, every used slot holds its
/// record's distance from the query, which is below positive infinity, and
/// every unused slot holds positive infinity.
pub open spec fn orderly(hits: Seq<Hit>, q: Seq<u32>, dist: spec_fn(Seq<u32>, Seq<u32>) -> u32) -> bool {
    &&& ascending(distances_of(hits))
    &&& forall|i: int|
        0 <= i < hits.len() ==> (match (#[trigger] hits[i]).record {
            Some(r) => hits[i].distance == dist(q, r.descriptor) && lt(
                hits[i].distance,
                0x7f80_0000u32,
            ),
            None => hits[i].distance == 0x7f80_0000u32,
        })
}

/// The buffer holds the nearest of the records `all`: it is in order, it
/// holds no record more often than `all` does, and every record of `all`
/// that it does not hold as often as `all` does is not nearer than its last
/// slot.
pub open spec fn exact(
    hits: Seq<Hit>,
    all: Multiset<RecordView>,
    q: Seq<u32>,
    dist: spec_fn(Seq<u32>, Seq<u32>) -> u32,
) -> bool {
    &&& hits.len() >= 1
    &&& orderly(hits, q, dist)
    &&& forall|r: RecordView| #[trigger] held(hits, r) <= all.count(r)
    &&& forall|r: RecordView| #[trigger]
        all.count(r) <= held(hits, r) || !lt(dist(q, r.descriptor), worst(hits))
}

pub proof fn lemma_held_push(hits: Seq<Hit>, h: Hit, r: RecordView)
    ensures
        held(hits.push(h), r) == held(hits, r) + if h.record == Some(r) {
            1nat
        } else {
            0nat
        },
{
    assert(hits.push(h).drop_last() =~= hits);
}

pub proof fn lemma_held_insert(hits: Seq<Hit>, at: int, h: Hit, r: RecordView)
    requires
        0 <= at <= hits.len(),
    ensures
        held(hits.insert(at, h), r) == held(hits, r) + if h.record == Some(r) {
            1nat
        } else {
            0nat
        },
    decreases hits.len(),
{
    if at == hits.len() {
        assert(hits.insert(at, h) =~= hits.push(h));
        lemma_held_push(hits, h, r);
    } else {
        let grown = hits.insert(at, h);
        assert(grown.drop_last() =~= hits.drop_last().insert(at, h));
        assert(grown.last() == hits.last());
        lemma_held_insert(hits.drop_last(), at, h, r);
    }
}

/// A record that a buffer holds is in one of its slots.
pub proof fn lemma_held_somewhere(hits: Seq<Hit>, r: RecordView)
    requires
        held(hits, r) > 0,
    ensures
        exists|i: int| 0 <= i < hits.len() && (#[trigger] hits[i]).record == Some(r),
    decreases hits.len(),
{
    if hits.last().record == Some(r) {
        assert(hits[hits.len() - 1].record == Some(r));
    } else {
        lemma_held_somewhere(hits.drop_last(), r);
        let i = choose|i: int|
            0 <= i < hits.drop_last().len() && (#[trigger] hits.drop_last()[i]).record == Some(r);
        assert(hits[i].record == Some(r));
    }
}

/// A record in one slot is held at least once, and a record in two slots
/// at least twice.
pub proof fn lemma_held_at(hits: Seq<Hit>, r: RecordView, i: int, j: int)
    requires
        0 <= i <= j < hits.len(),
        hits[i].record == Some(r),
        hits[j].record == Some(r),
    ensures
        held(hits, r) >= 1,
        i < j ==> held(hits, r) >= 2,
    decreases hits.len(),
{
    if j == hits.len() - 1 {
        if i < j {
            let front = hits.drop_last();
            assert(front[i] == hits[i]);
            lemma_held_at(front, r, i, i);
        }
    } else {
        let front = hits.drop_last();
        assert(front[i] == hits[i]);
        assert(front[j] == hits[j]);
        lemma_held_at(front, r, i, j);
    }
}

/// Offering a record at its distance keeps the buffer exact for the
/// records offered so far.
pub proof fn lemma_offer_exact(
    hits: Seq<Hit>,
    done: Multiset<RecordView>,
    x: RecordView,
    ptr: PagePointer,
    q: Seq<u32>,
    dist: spec_fn(Seq<u32>, Seq<u32>) -> u32,
)
    requires
        exact(hits, done, q, dist),
    ensures
        exact(
            offer(hits, Hit { distance: dist(q, x.descriptor), record: Some(x), pointer: Some(ptr) }),
            done.insert(x),
            q,
            dist,
        ),
{
    let h = Hit { distance: dist(q, x.descriptor), record: Some(x), pointer: Some(ptr) };
    let after = offer(hits, h);
    let grown = done.insert(x);
    let d = distances_of(hits);
    lemma_offer(hits, h);
    assert(d[hits.len() - 1] == hits.last().distance);
    assert(!is_nan(worst(hits)));
    assert(distances_of(after)[after.len() - 1] == after.last().distance);
    assert(!is_nan(worst(after)));
    if lt(h.distance, hits.last().distance) {
        lemma_rank(d, h.distance);
        let at = rank(d, h.distance) as int;
        let wide = hits.insert(at, h);
        assert(after == wide.drop_last());
        assert(wide.last() == hits.last());
        assert forall|i: int| 0 <= i < after.len() implies (match (#[trigger] after[i]).record {
            Some(r) => after[i].distance == dist(q, r.descriptor) && lt(
                after[i].distance,
                0x7f80_0000u32,
            ),
            None => after[i].distance == 0x7f80_0000u32,
        }) by {
            if i < at {
                assert(after[i] == hits[i]);
            } else if i == at {
                assert(after[i] == h);
                assert(key(hits.last().distance) <= key(0x7f80_0000u32)) by {
                    let last = hits[hits.len() - 1];
                    match last.record {
                        Some(r) => {},
                        None => {},
                    }
                }
            } else {
                assert(after[i] == hits[i - 1]);
            }
        }
        assert forall|r: RecordView| #[trigger] held(after, r) <= grown.count(r) by {
            lemma_held_insert(hits, at, h, r);
            assert(held(hits, r) <= done.count(r));
        }
        assert forall|r: RecordView| #[trigger]
            grown.count(r) <= held(after, r) || !lt(dist(q, r.descriptor), worst(after)) by {
            lemma_held_insert(hits, at, h, r);
            assert(held(hits, r) <= done.count(r));
            if hits.last().record == Some(r) {
                assert(hits[hits.len() - 1].distance == dist(q, r.descriptor));
            } else if done.count(r) <= held(hits, r) {
            } else {
                assert(!lt(dist(q, r.descriptor), worst(hits)));
            }
        }
    } else {
        assert forall|r: RecordView| #[trigger] held(after, r) <= grown.count(r) by {
            assert(held(hits, r) <= done.count(r));
        }
        assert forall|r: RecordView| #[trigger]
            grown.count(r) <= held(after, r) || !lt(dist(q, r.descriptor), worst(after)) by {
            if r != x {
                assert(done.count(r) <= held(hits, r) || !lt(
                    dist(q, r.descriptor),
                    worst(hits),
                ));
            }
        }
    }
}

/// Offering the records of a leaf keeps the buffer exact for the records
/// offered so far.
pub proof fn lemma_scan_exact(
    hits: Seq<Hit>,
    done: Multiset<RecordView>,
    page: Seq<RecordView>,
    ptr: PagePointer,
    q: Seq<u32>,
    dist: spec_fn(Seq<u32>, Seq<u32>) -> u32,
)
    requires
        exact(hits, done, q, dist),
    ensures
        exact(
            offer_all(hits, candidates(page, ptr, q, dist)),
            done.add(page.to_multiset()),
            q,
            dist,
        ),
    decreases page.len(),
{
    let found = candidates(page, ptr, q, dist);
    if page.len() == 0 {
        vstd::seq_lib::to_multiset_len(page);
        assert(done.add(page.to_multiset()) =~= done);
    } else {
        let front = page.drop_last();
        let x = page.last();
        lemma_scan_exact(hits, done, front, ptr, q, dist);
        assert(found.drop_last() =~= candidates(front, ptr, q, dist));
        assert(found.last() == Hit {
            distance: dist(q, x.descriptor),
            record: Some(x),
            pointer: Some(ptr),
        });
        lemma_offer_exact(
            offer_all(hits, candidates(front, ptr, q, dist)),
            done.add(front.to_multiset()),
            x,
            ptr,
            q,
            dist,
        );
        assert(page =~= front.push(x));
        to_multiset_build(front, x);
        assert(done.add(front.to_multiset()).insert(x) =~= done.add(page.to_multiset()));
    }
}

/// The records that a task can still bring to the buffer.
pub open spec fn task_records(v: TreeView, t: Task) -> Multiset<RecordView> {
    match t {
        (ptr, NodeAction::Descend, _) => records_under(v.nodes, v.pages, ptr),
        (PagePointer::Node(i), NodeAction::CheckIgnoredBranch, Some(arm)) => records_under(
            v.nodes,
            v.pages,
            child_of(v.nodes[i as int], arm),
        ),
        _ => Multiset::empty(),
    }
}

/// The records that the tasks of a queue can still bring to the buffer.
pub open spec fn pending(v: TreeView, queue: Seq<Task>) -> Multiset<RecordView>
    decreases queue.len(),
{
    if queue.len() == 0 {
        Multiset::empty()
    } else {
        pending(v, queue.drop_last()).add(task_records(v, queue.last()))
    }
}

/// The subtree of the task is a k-d tree, and a postponed side is the
/// side of its node on which the query does not lie.
pub open spec fn task_sound(v: TreeView, q: Seq<u32>, t: Task) -> bool {
    match t {
        (ptr, NodeAction::Descend, _) => subtree_ok(v.nodes, v.pages, ptr, v.dim, v.capacity),
        (PagePointer::Node(i), NodeAction::CheckIgnoredBranch, Some(arm)) => subtree_ok(
            v.nodes,
            v.pages,
            PagePointer::Node(i),
            v.dim,
            v.capacity,
        ) && arm == opposite(side_of(v.nodes[i as int], q)),
        _ => false,
    }
}

/// Every task of the queue is sound.
pub open spec fn queue_sound(v: TreeView, q: Seq<u32>, queue: Seq<Task>) -> bool {
    forall|k: int| 0 <= k < queue.len() ==> task_sound(v, q, #[trigger] queue[k])
}

/// The query and a record lie on different sides of the cut.
pub open spec fn across(q: Seq<u32>, x: Seq<u32>, axis: int, value: u32) -> bool {
    le(q[axis], value) != le(x[axis], value)
}

/// What pruning rests on: for a record across a cut from the query, the
/// distance from the query to the cut is a number, and the record is not
/// nearer to the query than the cut is.
pub open spec fn cut_bounds(
    dist: spec_fn(Seq<u32>, Seq<u32>) -> u32,
    axis_dist: spec_fn(u32, u32) -> u32,
    q: Seq<u32>,
    dim: nat,
) -> bool {
    forall|x: Seq<u32>, axis: int, value: u32|
        0 <= axis < dim && !is_nan(value) && x.len() == dim && !has_nan(x) && #[trigger] across(
            q,
            x,
            axis,
            value,
        ) ==> !is_nan(axis_dist(q[axis], value)) && !lt(
            dist(q, x),
            axis_dist(q[axis], value),
        )
}

pub proof fn lemma_pending_push(v: TreeView, queue: Seq<Task>, t: Task)
    ensures
        pending(v, queue.push(t)) == pending(v, queue).add(task_records(v, t)),
{
    assert(queue.push(t).drop_last() =~= queue);
}

pub proof fn lemma_pending_front(v: TreeView, queue: Seq<Task>, t: Task)
    ensures
        pending(v, seq![t] + queue) == pending(v, queue).add(task_records(v, t)),
    decreases queue.len(),
{
    if queue.len() == 0 {
        assert(seq![t] + queue =~= Seq::<Task>::empty().push(t));
        lemma_pending_push(v, Seq::<Task>::empty(), t);
    } else {
        let front = queue.drop_last();
        assert((seq![t] + queue).drop_last() =~= seq![t] + front);
        assert((seq![t] + queue).last() == queue.last());
        lemma_pending_front(v, front, t);
        assert(pending(v, front).add(task_records(v, t)).add(task_records(v, queue.last()))
            =~= pending(v, front).add(task_records(v, queue.last())).add(task_records(v, t)));
    }
}

pub proof fn lemma_pending_drop_first(v: TreeView, queue: Seq<Task>)
    requires
        queue.len() > 0,
    ensures
        pending(v, queue) == pending(v, queue.drop_first()).add(task_records(v, queue.first())),
{
    assert(queue =~= seq![queue.first()] + queue.drop_first());
    lemma_pending_front(v, queue.drop_first(), queue.first());
}

/// Working a sound queue off leaves a buffer that is exact for the
/// records of the queue's tasks and those dealt with before.
pub proof fn theorem_run(
    v: TreeView,
    q: Seq<u32>,
    dist: spec_fn(Seq<u32>, Seq<u32>) -> u32,
    axis_dist: spec_fn(u32, u32) -> u32,
    queue: Seq<Task>,
    hits: Seq<Hit>,
    done: Multiset<RecordView>,
)
    requires
        shape_ok(v),
        queue_ok(v, queue),
        queue_sound(v, q, queue),
        q.len() == v.dim,
        cut_bounds(dist, axis_dist, q, v.dim),
        exact(hits, done, q, dist),
    ensures
        exact(run(v, q, dist, axis_dist, queue, hits), pending(v, queue).add(done), q, dist),
    decreases queue_weight(v.nodes, queue),
{
    if queue.len() == 0 {
        assert(pending(v, queue).add(done) =~= done);
    } else {
        let next = step(v, q, dist, axis_dist, queue, hits);
        let rest = queue.drop_first();
        lemma_step(v, q, dist, axis_dist, queue, hits);
        lemma_pending_drop_first(v, queue);
        assert(task_ok(v, queue[0]));
        assert(task_sound(v, q, queue[0]));
        assert forall|k: int| 0 <= k < rest.len() implies task_sound(v, q, #[trigger] rest[k]) by {
            assert(rest[k] == queue[k + 1]);
        }
        match queue.first() {
            (PagePointer::Leaf(p), NodeAction::Descend, _) => {
                let ptr = PagePointer::Leaf(p);
                lemma_scan_exact(hits, done, v.pages[p as int], ptr, q, dist);
                let grown = done.add(v.pages[p as int].to_multiset());
                theorem_run(v, q, dist, axis_dist, next.0, next.1, grown);
                assert(pending(v, rest).add(grown) =~= pending(v, queue).add(done));
            },
            (PagePointer::Node(i), NodeAction::Descend, _) => {
                assert(node_shaped(v.nodes, i as int, v.pages.len(), v.dim));
                let node = v.nodes[i as int];
                let near = side_of(node, q);
                let first = descend(child_of(node, near));
                let later = postponed(i, opposite(near));
                assert forall|k: int| 0 <= k < next.0.len() implies task_sound(
                    v,
                    q,
                    #[trigger] next.0[k],
                ) by {
                    if k == 0 {
                    } else if k < next.0.len() - 1 {
                        assert(next.0[k] == rest[k - 1]);
                    } else {
                        assert(next.0[k] == later);
                    }
                }
                theorem_run(v, q, dist, axis_dist, next.0, next.1, done);
                lemma_pending_push(v, rest, later);
                lemma_pending_front(v, rest.push(later), first);
                match near {
                    Direction::Left => {},
                    Direction::Right => {},
                }
                assert(pending(v, next.0) =~= pending(v, queue));
            },
            (PagePointer::Node(i), NodeAction::CheckIgnoredBranch, Some(arm)) => {
                assert(node_shaped(v.nodes, i as int, v.pages.len(), v.dim));
                let node = v.nodes[i as int];
                let far = child_of(node, arm);
                if must_visit(node, q, hits, axis_dist) {
                    let first = descend(far);
                    assert forall|k: int| 0 <= k < next.0.len() implies task_sound(
                        v,
                        q,
                        #[trigger] next.0[k],
                    ) by {
                        if k > 0 {
                            assert(next.0[k] == rest[k - 1]);
                        }
                    }
                    theorem_run(v, q, dist, axis_dist, next.0, next.1, done);
                    lemma_pending_front(v, rest, first);
                    assert(pending(v, next.0) =~= pending(v, queue));
                } else {
                    let pruned = records_under(v.nodes, v.pages, far);
                    let grown = done.add(pruned);
                    lemma_records_ok(v.nodes, v.pages, far, v.dim, v.capacity);
                    let axis = node.split_axis as int;
                    let value = node.split_value;
                    assert(distances_of(hits)[hits.len() - 1] == worst(hits));
                    assert forall|r: RecordView| #[trigger]
                        grown.count(r) <= held(hits, r) || !lt(
                            dist(q, r.descriptor),
                            worst(hits),
                        ) by {
                        if pruned.count(r) > 0 {
                            assert(record_ok(r, v.dim));
                            assert(across(q, r.descriptor, axis, value)) by {
                                match arm {
                                    Direction::Left => {},
                                    Direction::Right => {
                                        if is_nan(r.descriptor[axis]) {
                                            assert(has_nan(r.descriptor));
                                        }
                                    },
                                }
                            }
                        } else {
                            assert(done.count(r) <= held(hits, r) || !lt(
                                dist(q, r.descriptor),
                                worst(hits),
                            ));
                        }
                    }
                    assert forall|r: RecordView| #[trigger] held(hits, r) <= grown.count(r) by {
                        assert(held(hits, r) <= done.count(r));
                    }
                    theorem_run(v, q, dist, axis_dist, next.0, next.1, grown);
                    assert(pending(v, rest).add(grown) =~= pending(v, queue).add(done));
                }
            },
            _ => {},
        }
    }
}

/// A buffer of unused slots is exact for no records.
pub proof fn lemma_empty_exact(k: nat, q: Seq<u32>, dist: spec_fn(Seq<u32>, Seq<u32>) -> u32)
    requires
        k >= 1,
    ensures
        exact(Seq::new(k, |i: int| empty_hit()), Multiset::empty(), q, dist),
{
    let hits = Seq::new(k, |i: int| empty_hit());
    assert forall|r: RecordView| #[trigger] held(hits, r) == 0 by {
        lemma_held_none(hits, r);
    }
}

pub proof fn lemma_held_none(hits: Seq<Hit>, r: RecordView)
    requires
        forall|i: int| 0 <= i < hits.len() ==> (#[trigger] hits[i]).record.is_none(),
    ensures
        held(hits, r) == 0,
    decreases hits.len(),
{
    if hits.len() > 0 {
        let front = hits.drop_last();
        assert forall|i: int| 0 <= i < front.len() implies (#[trigger] front[i]).record.is_none() by {
            assert(front[i] == hits[i]);
        }
        lemma_held_none(front, r);
        assert(hits[hits.len() - 1].record.is_none());
    }
}

/// The buffer that a query on a well-formed tree returns is exact for the
/// records of the tree: it holds every record that is nearer to the query
/// than its last slot, each at its distance, nearest first.
pub proof fn law_exact(
    v: TreeView,
    q: Seq<u32>,
    k: nat,
    dist: spec_fn(Seq<u32>, Seq<u32>) -> u32,
    axis_dist: spec_fn(u32, u32) -> u32,
)
    requires
        tree_ok(v),
        shape_ok(v),
        q.len() == v.dim,
        k >= 1,
        cut_bounds(dist, axis_dist, q, v.dim),
    ensures
        exact(nearest(v, q, k, dist, axis_dist), tree_records(v), q, dist),
{
    let queue = seq![descend(v.root)];
    let hits = Seq::new(k, |i: int| empty_hit());
    lemma_empty_exact(k, q, dist);
    assert(task_ok(v, queue[0]));
    assert(task_sound(v, q, queue[0]));
    theorem_run(v, q, dist, axis_dist, queue, hits, Multiset::empty());
    assert(queue =~= Seq::<Task>::empty().push(descend(v.root)));
    lemma_pending_push(v, Seq::<Task>::empty(), descend(v.root));
    assert(pending(v, Seq::<Task>::empty()) =~= Multiset::<RecordView>::empty());
    assert(pending(v, queue).add(Multiset::empty()) =~= tree_records(v));
}

/// The buffer that a scan of all records returns is exact for them.
pub proof fn law_linear_scan_exact(
    records: Seq<RecordView>,
    ptr: PagePointer,
    q: Seq<u32>,
    k: nat,
    dist: spec_fn(Seq<u32>, Seq<u32>) -> u32,
)
    requires
        k >= 1,
    ensures
        exact(
            offer_all(Seq::new(k, |i: int| empty_hit()), candidates(records, ptr, q, dist)),
            records.to_multiset(),
            q,
            dist,
        ),
{
    lemma_empty_exact(k, q, dist);
    lemma_scan_exact(
        Seq::new(k, |i: int| empty_hit()),
        Multiset::empty(),
        records,
        ptr,
        q,
        dist,
    );
    assert(Multiset::<RecordView>::empty().add(records.to_multiset()) =~= records.to_multiset());
}

/// Offering keeps the number of slots.
pub proof fn lemma_offer_all_len(hits: Seq<Hit>, found: Seq<Hit>)
    ensures
        offer_all(hits, found).len() == hits.len(),
    decreases found.len(),
{
    if found.len() > 0 {
        let before = offer_all(hits, found.drop_last());
        lemma_offer_all_len(hits, found.drop_last());
        lemma_rank(distances_of(before), found.last().distance);
    }
}

/// Working a queue off keeps the number of slots.
pub proof fn lemma_run_len(
    v: TreeView,
    q: Seq<u32>,
    dist: spec_fn(Seq<u32>, Seq<u32>) -> u32,
    axis_dist: spec_fn(u32, u32) -> u32,
    queue: Seq<Task>,
    hits: Seq<Hit>,
)
    ensures
        run(v, q, dist, axis_dist, queue, hits).len() == hits.len(),
    decreases queue_weight(v.nodes, queue),
{
    if queue.len() > 0 {
        let next = step(v, q, dist, axis_dist, queue, hits);
        if queue_weight(v.nodes, next.0) < queue_weight(v.nodes, queue) {
            lemma_run_len(v, q, dist, axis_dist, next.0, next.1);
            match queue.first() {
                (PagePointer::Leaf(p), NodeAction::Descend, _) => {
                    lemma_offer_all_len(
                        hits,
                        candidates(v.pages[p as int], PagePointer::Leaf(p), q, dist),
                    );
                },
                _ => {},
            }
        }
    }
}

} // verus!
