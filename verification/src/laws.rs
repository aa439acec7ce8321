//! What holds of the tree as a whole.

use vstd::prelude::*;
use vstd::multiset::Multiset;
use crate::bytes::{be_value, lemma_be_value_of_bytes, lemma_pow256_values};
use crate::database::{lemma_entry_roundtrip, storable_text, EntryView};
use crate::exact::{
    cut_bounds, exact, held, law_exact, law_linear_scan_exact, lemma_held_at,
    lemma_held_somewhere,
};
use crate::io::{is_node_file, is_page_file, lemma_node_file_roundtrip, page_slot};
use crate::model::{
    height, inserted, node_shaped, nodes_under, records_under, shape_ok, subtree_ok, tree_ok,
    tree_records, TreeView,
};
use crate::node::{InternalNode, PagePointer};
use crate::query::{candidates, nearest, worst};
use crate::record::RecordView;
use crate::scalar::{key, le, lt};
use crate::top_hits::{distances_of, empty_hit, offer_all, Hit};
use crate::tree::{next_record, openable, opened_view, with_entry, Tree};

verus! {

broadcast use vstd::multiset::group_multiset_axioms;

/// Every node under a well-formed subtree heads a well-formed subtree.
pub proof fn lemma_member_subtree(
    nodes: Seq<InternalNode>,
    pages: Seq<Seq<RecordView>>,
    ptr: PagePointer,
    i: usize,
    dim: nat,
    capacity: nat,
)
    requires
        subtree_ok(nodes, pages, ptr, dim, capacity),
        nodes_under(nodes, ptr).contains(i as int),
    ensures
        subtree_ok(nodes, pages, PagePointer::Node(i), dim, capacity),
    decreases height(nodes, ptr),
{
    match ptr {
        PagePointer::Leaf(_) => {},
        PagePointer::Node(j) => {
            if i != j {
                let l = nodes[j as int].left_child_pointer;
                let r = nodes[j as int].right_child_pointer;
                if nodes_under(nodes, l).contains(i as int) {
                    lemma_member_subtree(nodes, pages, l, i, dim, capacity);
                } else {
                    lemma_member_subtree(nodes, pages, r, i, dim, capacity);
                }
            }
        },
    }
}

/// In a well-formed tree, for every internal node that the root reaches,
/// every record under the node's left child has a coordinate on the node's
/// axis of at most the node's value, and every record under its right
/// child a greater one.
pub proof fn law_structural(v: TreeView, i: usize, r: RecordView)
    requires
        tree_ok(v),
        nodes_under(v.nodes, v.root).contains(i as int),
    ensures
        records_under(v.nodes, v.pages, v.nodes[i as int].left_child_pointer).count(r) > 0 ==> le(
            r.descriptor[v.nodes[i as int].split_axis as int],
            v.nodes[i as int].split_value,
        ),
        records_under(v.nodes, v.pages, v.nodes[i as int].right_child_pointer).count(r) > 0
            ==> lt(
            v.nodes[i as int].split_value,
            r.descriptor[v.nodes[i as int].split_axis as int],
        ),
{
    lemma_member_subtree(v.nodes, v.pages, v.root, i, v.dim, v.capacity);
}

/// An insertion puts the compound's SMILES text and identifier into the
/// content database under the index that it gives the record, and leaves
/// the entries that were there as they were. It holds of text that the
/// entry can give back: ASCII, at most a hundred characters, not ending in
/// the zero character.
pub proof fn law_index_identity(
    v: TreeView,
    smiles: Seq<char>,
    identifier: Seq<u8>,
    descriptor: Seq<u32>,
)
    requires
        storable_text(smiles),
        identifier.len() == 30,
        v.entries.len() <= u64::MAX,
    ensures
        with_entry(v, smiles, identifier).entries[next_record(v, descriptor).index as int] == (
        EntryView { smiles, identifier }),
        forall|i: int|
            0 <= i < v.entries.len() ==> with_entry(v, smiles, identifier).entries[i]
                == v.entries[i],
{
    lemma_entry_roundtrip(smiles, identifier);
}

/// A tree whose pages are all stored is read back from its files as the
/// tree it is.
pub proof fn law_reopen(t: Tree, node_image: Seq<u8>, page_image: Seq<u8>)
    requires
        t.wf(),
        tree_ok(t@),
        t.record_handler.flushed(),
        is_node_file(node_image, t@.nodes),
        is_page_file(
            page_image,
            t.record_handler.next_free_index as nat,
            t.config.record_page_length as nat,
            t.record_handler.stored(),
        ),
    ensures
        openable(t.config, node_image, page_image, t.database.file@),
        opened_view(t.config, node_image, page_image, t.database.file@) == t@,
{
    let v = t@;
    let w = opened_view(t.config, node_image, page_image, t.database.file@);
    t.record_handler.lemma_wf();
    assert forall|i: int| 0 <= i < v.nodes.len() implies (#[trigger] v.nodes[i]).split_axis
        < 256 by {
        assert(node_shaped(v.nodes, i, v.pages.len(), v.dim));
    }
    assert(t.node_handler.store@.len() == t.node_handler.store.len());
    lemma_node_file_roundtrip(node_image, v.nodes);
    lemma_pow256_values();
    lemma_be_value_of_bytes(t.record_handler.next_free_index as nat, 8);
    let length = t.config.record_page_length as nat;
    let dim = t.config.desc_length as nat;
    assert(be_value(page_image.subrange(0, 8)) == t.record_handler.next_free_index);
    assert(w.pages =~= v.pages) by {
        assert forall|i: int| 0 <= i < v.pages.len() implies w.pages[i] == v.pages[i] by {
            assert(page_slot(page_image, i, length as int) == t.record_handler.stored()[i]);
        }
    }
    assert(w.nodes == v.nodes);
    assert(w.entries == v.entries);
    assert(w.root == v.root);
    assert(w == v);
    assert forall|i: int|
        0 <= i < be_value(page_image.subrange(0, 8)) implies crate::page::page_readable(
        #[trigger] page_slot(page_image, i, length as int),
        length,
        dim,
    ) by {
        assert(page_slot(page_image, i, length as int) == t.record_handler.stored()[i]);
    }
}

/// What a query returns and what an insertion does depend on what the
/// tree holds, not on how much of it is cached: two trees that hold the
/// same, whatever their cache ceilings are, answer a query alike and are
/// alike after the same insertion.
pub proof fn law_cache_transparent(
    a: Tree,
    b: Tree,
    q: Seq<u32>,
    k: nat,
    dist: spec_fn(Seq<u32>, Seq<u32>) -> u32,
    axis_dist: spec_fn(u32, u32) -> u32,
    r: RecordView,
    mid: spec_fn(u32, u32) -> u32,
)
    requires
        a@ == b@,
    ensures
        nearest(a@, q, k, dist, axis_dist) == nearest(b@, q, k, dist, axis_dist),
        inserted(a@, r, mid) == inserted(b@, r, mid),
{
}

/// No record occurs twice, and no two records are at the same distance
/// from the query.
pub open spec fn no_ties(
    all: Multiset<RecordView>,
    q: Seq<u32>,
    dist: spec_fn(Seq<u32>, Seq<u32>) -> u32,
) -> bool {
    &&& forall|r: RecordView| #[trigger] all.count(r) <= 1
    &&& forall|r1: RecordView, r2: RecordView|
        #![trigger all.count(r1), all.count(r2)]
        all.count(r1) > 0 && all.count(r2) > 0 && r1 != r2 ==> key(dist(q, r1.descriptor)) != key(
            dist(q, r2.descriptor),
        )
}

/// Two slots hold the same record at the same distance.
pub open spec fn same_slot(a: Hit, b: Hit) -> bool {
    a.distance == b.distance && a.record == b.record
}

proof fn lemma_not_below(
    h1: Seq<Hit>,
    h2: Seq<Hit>,
    all: Multiset<RecordView>,
    q: Seq<u32>,
    dist: spec_fn(Seq<u32>, Seq<u32>) -> u32,
    i: int,
)
    requires
        exact(h1, all, q, dist),
        exact(h2, all, q, dist),
        h1.len() == h2.len(),
        no_ties(all, q, dist),
        0 <= i < h1.len(),
        forall|j: int| 0 <= j < i ==> same_slot(#[trigger] h1[j], h2[j]),
    ensures
        key(h1[i].distance) >= key(h2[i].distance),
{
    let a = h1[i];
    let b = h2[i];
    let last = h2.len() - 1;
    assert(distances_of(h1)[i] == a.distance);
    assert(distances_of(h2)[i] == b.distance);
    assert(distances_of(h2)[last] == worst(h2));
    if key(a.distance) < key(b.distance) {
        match a.record {
            None => {
                match b.record {
                    Some(_) => {},
                    None => {},
                }
            },
            Some(r) => {
                lemma_held_at(h1, r, i, i);
                assert(held(h1, r) <= all.count(r));
                assert(lt(dist(q, r.descriptor), worst(h2)));
                assert(all.count(r) <= held(h2, r) || !lt(dist(q, r.descriptor), worst(h2)));
                lemma_held_somewhere(h2, r);
                let j = choose|j: int| 0 <= j < h2.len() && (#[trigger] h2[j]).record == Some(r);
                assert(distances_of(h2)[j] == h2[j].distance);
                assert(h2[j].distance == dist(q, r.descriptor));
                if j >= i {
                    assert(key(distances_of(h2)[i]) <= key(distances_of(h2)[j]));
                    assert(false);
                }
                assert(same_slot(h1[j], h2[j]));
                lemma_held_at(h1, r, j, i);
                assert(false);
            },
        }
    }
}

/// Without ties there is one exact buffer: two buffers of one length that
/// are exact for the same records hold the same records at the same
/// distances, slot by slot.
pub proof fn law_unique(
    h1: Seq<Hit>,
    h2: Seq<Hit>,
    all: Multiset<RecordView>,
    q: Seq<u32>,
    dist: spec_fn(Seq<u32>, Seq<u32>) -> u32,
    n: int,
)
    requires
        exact(h1, all, q, dist),
        exact(h2, all, q, dist),
        h1.len() == h2.len(),
        no_ties(all, q, dist),
        0 <= n <= h1.len(),
    ensures
        forall|i: int| 0 <= i < n ==> same_slot(#[trigger] h1[i], h2[i]),
    decreases n,
{
    if n > 0 {
        law_unique(h1, h2, all, q, dist, n - 1);
        let i = n - 1;
        lemma_not_below(h1, h2, all, q, dist, i);
        assert forall|j: int| 0 <= j < i implies same_slot(#[trigger] h2[j], h1[j]) by {
            assert(same_slot(h1[j], h2[j]));
        }
        lemma_not_below(h2, h1, all, q, dist, i);
        let a = h1[i];
        let b = h2[i];
        match (a.record, b.record) {
            (Some(r1), Some(r2)) => {
                lemma_held_at(h1, r1, i, i);
                lemma_held_at(h2, r2, i, i);
                assert(held(h1, r1) <= all.count(r1));
                assert(held(h2, r2) <= all.count(r2));
                if r1 != r2 {
                    assert(all.count(r1) > 0 && all.count(r2) > 0);
                    assert(false);
                }
            },
            (None, None) => {},
            _ => {},
        }
    }
}

/// The records that a query finds do not depend on the order in which the
/// records were inserted: two well-formed trees that hold the same
/// records answer a query with the same records at the same distances,
/// provided that no two records are at the same distance from the query.
pub proof fn law_order_invariant(
    v1: TreeView,
    v2: TreeView,
    q: Seq<u32>,
    k: nat,
    dist: spec_fn(Seq<u32>, Seq<u32>) -> u32,
    axis_dist: spec_fn(u32, u32) -> u32,
)
    requires
        tree_ok(v1),
        shape_ok(v1),
        tree_ok(v2),
        shape_ok(v2),
        v1.dim == v2.dim,
        tree_records(v1) == tree_records(v2),
        q.len() == v1.dim,
        k >= 1,
        cut_bounds(dist, axis_dist, q, v1.dim),
        no_ties(tree_records(v1), q, dist),
    ensures
        nearest(v1, q, k, dist, axis_dist).len() == nearest(v2, q, k, dist, axis_dist).len(),
        forall|i: int|
            0 <= i < nearest(v1, q, k, dist, axis_dist).len() ==> same_slot(
                #[trigger] nearest(v1, q, k, dist, axis_dist)[i],
                nearest(v2, q, k, dist, axis_dist)[i],
            ),
{
    let h1 = nearest(v1, q, k, dist, axis_dist);
    let h2 = nearest(v2, q, k, dist, axis_dist);
    law_exact(v1, q, k, dist, axis_dist);
    law_exact(v2, q, k, dist, axis_dist);
    lemma_nearest_len(v1, q, k, dist, axis_dist);
    lemma_nearest_len(v2, q, k, dist, axis_dist);
    law_unique(h1, h2, tree_records(v1), q, dist, h1.len() as int);
}

/// A query finds what a scan of all records finds: the same records at the
/// same distances, provided that no two records are at the same distance
/// from the query.
pub proof fn law_matches_linear_scan(
    v: TreeView,
    records: Seq<RecordView>,
    ptr: PagePointer,
    q: Seq<u32>,
    k: nat,
    dist: spec_fn(Seq<u32>, Seq<u32>) -> u32,
    axis_dist: spec_fn(u32, u32) -> u32,
)
    requires
        tree_ok(v),
        shape_ok(v),
        records.to_multiset() == tree_records(v),
        q.len() == v.dim,
        k >= 1,
        cut_bounds(dist, axis_dist, q, v.dim),
        no_ties(tree_records(v), q, dist),
    ensures
        forall|i: int|
            0 <= i < k ==> same_slot(
                #[trigger] nearest(v, q, k, dist, axis_dist)[i],
                offer_all(Seq::new(k, |i: int| empty_hit()), candidates(records, ptr, q, dist))[i],
            ),
{
    let h1 = nearest(v, q, k, dist, axis_dist);
    let h2 = offer_all(Seq::new(k, |i: int| empty_hit()), candidates(records, ptr, q, dist));
    law_exact(v, q, k, dist, axis_dist);
    law_linear_scan_exact(records, ptr, q, k, dist);
    lemma_nearest_len(v, q, k, dist, axis_dist);
    crate::exact::lemma_offer_all_len(
        Seq::new(k, |i: int| empty_hit()),
        candidates(records, ptr, q, dist),
    );
    law_unique(h1, h2, tree_records(v), q, dist, k as int);
}

/// A query returns as many slots as were asked for.
pub proof fn lemma_nearest_len(
    v: TreeView,
    q: Seq<u32>,
    k: nat,
    dist: spec_fn(Seq<u32>, Seq<u32>) -> u32,
    axis_dist: spec_fn(u32, u32) -> u32,
)
    ensures
        nearest(v, q, k, dist, axis_dist).len() == k,
{
    crate::exact::lemma_run_len(
        v,
        q,
        dist,
        axis_dist,
        seq![crate::query::descend(v.root)],
        Seq::new(k, |i: int| empty_hit()),
    );
}

/// A tree that holds one record, in its root leaf, answers a query for
/// one neighbour with that record at its distance from the query, as long
/// as that distance is below positive infinity.
pub proof fn law_single_record(
    v: TreeView,
    r: RecordView,
    q: Seq<u32>,
    dist: spec_fn(Seq<u32>, Seq<u32>) -> u32,
    axis_dist: spec_fn(u32, u32) -> u32,
)
    requires
        v.root == PagePointer::Leaf(0),
        v.pages.len() >= 1,
        v.pages[0] == seq![r],
        lt(dist(q, r.descriptor), 0x7f80_0000u32),
    ensures
        nearest(v, q, 1, dist, axis_dist) == seq![
            Hit {
                distance: dist(q, r.descriptor),
                record: Some(r),
                pointer: Some(PagePointer::Leaf(0)),
            },
        ],
{
    let queue = seq![crate::query::descend(v.root)];
    let start = Seq::new(1, |i: int| empty_hit());
    let found = candidates(v.pages[0], PagePointer::Leaf(0), q, dist);
    let next = crate::query::step(v, q, dist, axis_dist, queue, start);
    reveal_with_fuel(crate::query::run, 2);
    reveal_with_fuel(crate::query::queue_weight, 2);
    reveal_with_fuel(offer_all, 2);
    reveal_with_fuel(crate::scalar::rank, 2);
    assert(queue.drop_first() =~= Seq::<crate::query::Task>::empty());
    assert(queue.drop_last() =~= Seq::<crate::query::Task>::empty());
    assert(next.0 =~= Seq::<crate::query::Task>::empty());
    assert(found.len() == 1);
    assert(found.drop_last() =~= Seq::<Hit>::empty());
    assert(distances_of(start) =~= seq![0x7f80_0000u32]);
    assert(next.1 == crate::top_hits::offer(start, found[0]));
    assert(crate::top_hits::offer(start, found[0]) =~= seq![found[0]]);
}

/// The first record that a fresh tree takes in is the nearest neighbour of
/// its own descriptor: after the insertion, a query for one neighbour of
/// that descriptor returns the record, under the index that the insertion
/// gave it, at the distance of the descriptor from itself. With
/// `law_reopen`, the same holds after the tree was flushed and read back.
pub proof fn law_first_record_found(
    fresh: TreeView,
    smiles: Seq<char>,
    identifier: Seq<u8>,
    descriptor: Seq<u32>,
    mid: spec_fn(u32, u32) -> u32,
    dist: spec_fn(Seq<u32>, Seq<u32>) -> u32,
    axis_dist: spec_fn(u32, u32) -> u32,
)
    requires
        fresh.nodes.len() == 0,
        fresh.pages == seq![Seq::<RecordView>::empty()],
        fresh.root == PagePointer::Leaf(0),
        fresh.capacity >= 1,
        lt(dist(descriptor, descriptor), 0x7f80_0000u32),
    ensures
        inserted(with_entry(fresh, smiles, identifier), next_record(fresh, descriptor), mid).is_some(),
        nearest(
            inserted(
                with_entry(fresh, smiles, identifier),
                next_record(fresh, descriptor),
                mid,
            ).unwrap(),
            descriptor,
            1,
            dist,
            axis_dist,
        ) == seq![
            Hit {
                distance: dist(descriptor, descriptor),
                record: Some(next_record(fresh, descriptor)),
                pointer: Some(PagePointer::Leaf(0)),
            },
        ],
{
    let base = with_entry(fresh, smiles, identifier);
    let r = next_record(fresh, descriptor);
    let after = inserted(base, r, mid);
    assert(crate::model::route(base.nodes, base.root, r.descriptor, None).0 == 0);
    assert(base.pages[0].len() == 0);
    assert(after == Some(crate::model::stored(base, r)));
    assert(after.unwrap().pages[0] =~= seq![r]);
    law_single_record(after.unwrap(), r, descriptor, dist, axis_dist);
}

} // verus!
