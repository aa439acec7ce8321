//! The buffer of the best candidates found so far by a query.

use vstd::prelude::*;
use crate::error::Error;
use crate::node::PagePointer;
use crate::record::{RecordView, TreeRecord};
use crate::scalar::{
    ascending, find_rank, is_nan, key, lemma_insert_at_rank_ascending, lemma_rank, lt, rank,
    scalar_lt, INFINITY,
};

verus! {

/// One slot of the buffer: a distance, and the record found at that
/// distance with the leaf it was found in. An unused slot holds positive
/// infinity and no record.
pub struct Hit {
    pub distance: u32,
    pub record: Option<RecordView>,
    pub pointer: Option<PagePointer>,
}

/// The unused slot.
pub open spec fn empty_hit() -> Hit {
    Hit { distance: 0x7f80_0000u32, record: None, pointer: None }
}

/// The distances of a buffer.
pub open spec fn distances_of(hits: Seq<Hit>) -> Seq<u32> {
    Seq::new(hits.len(), |i: int| hits[i].distance)
}

/// The buffer after `h` is offered: when `h` is nearer than the last
/// slot, it is put in after the slots that are not farther than it, and
/// the last slot falls out.
pub open spec fn offer(hits: Seq<Hit>, h: Hit) -> Seq<Hit> {
    if hits.len() > 0 && lt(h.distance, hits.last().distance) {
        hits.insert(rank(distances_of(hits), h.distance) as int, h).drop_last()
    } else {
        hits
    }
}

/// The buffer after each of `found` is offered in turn at its distance.
pub open spec fn offer_all(hits: Seq<Hit>, found: Seq<Hit>) -> Seq<Hit>
    decreases found.len(),
{
    if found.len() == 0 {
        hits
    } else {
        offer(offer_all(hits, found.drop_last()), found.last())
    }
}

/// Offering keeps the length, keeps the distances ascending, and never
/// makes the last distance greater.
pub proof fn lemma_offer(hits: Seq<Hit>, h: Hit)
    requires
        ascending(distances_of(hits)),
    ensures
        offer(hits, h).len() == hits.len(),
        ascending(distances_of(offer(hits, h))),
        hits.len() > 0 ==> key(offer(hits, h).last().distance) <= key(hits.last().distance),
{
    let d = distances_of(hits);
    if hits.len() > 0 && lt(h.distance, hits.last().distance) {
        lemma_rank(d, h.distance);
        let r = rank(d, h.distance) as int;
        assert(d[hits.len() - 1] == hits.last().distance);
        assert(r < hits.len());
        lemma_insert_at_rank_ascending(d, h.distance);
        let grown = d.insert(r, h.distance);
        let after = offer(hits, h);
        assert(distances_of(after) =~= grown.drop_last());
        assert forall|i: int, j: int| 0 <= i <= j < after.len() implies key(
            distances_of(after)[i],
        ) <= key(distances_of(after)[j]) by {
            assert(distances_of(after)[i] == grown[i]);
            assert(distances_of(after)[j] == grown[j]);
        }
        assert forall|i: int| 0 <= i < after.len() implies !is_nan(
            #[trigger] distances_of(after)[i],
        ) by {
            assert(distances_of(after)[i] == grown[i]);
        }
        assert(after.last().distance == grown[hits.len() - 1]);
        assert(grown[hits.len() as int] == d[hits.len() - 1]);
        assert(key(grown[hits.len() - 1]) <= key(grown[hits.len() as int]));
    } else {
        if hits.len() > 0 {
            assert(distances_of(hits)[hits.len() - 1] == hits.last().distance);
        }
    }
}

/// The `max_length` best candidates, nearest first.
#[derive(Debug)]
pub struct TopHits {
    pub max_length: usize,
    pub distances: Vec<u32>,
    pub records: Vec<Option<TreeRecord>>,
    pub pointers: Vec<Option<PagePointer>>,
}

/// What an optional record holds.
pub open spec fn record_view(r: Option<TreeRecord>) -> Option<RecordView> {
    match r {
        Some(r) => Some(r@),
        None => None,
    }
}

impl View for TopHits {
    type V = Seq<Hit>;

    open spec fn view(&self) -> Seq<Hit> {
        Seq::new(
            self.max_length as nat,
            |i: int|
                Hit {
                    distance: self.distances@[i],
                    record: record_view(self.records@[i]),
                    pointer: self.pointers@[i],
                },
        )
    }
}

impl TopHits {
    /// The three columns have `max_length` entries and the distances
    /// ascend.
    pub open spec fn wf(&self) -> bool {
        &&& self.distances@.len() == self.max_length
        &&& self.records@.len() == self.max_length
        &&& self.pointers@.len() == self.max_length
        &&& ascending(self.distances@)
    }

    /// A buffer of `max_length` unused slots.
    pub fn new(max_length: usize) -> (hits: Self)
        ensures
            hits.wf(),
            hits.max_length == max_length,
            hits@ == Seq::new(max_length as nat, |i: int| empty_hit()),
    {
        let mut distances: Vec<u32> = Vec::new();
        let mut records: Vec<Option<TreeRecord>> = Vec::new();
        let mut pointers: Vec<Option<PagePointer>> = Vec::new();
        let mut i: usize = 0;
        while i < max_length
            invariant
                i <= max_length,
                distances@.len() == i,
                records@.len() == i,
                pointers@.len() == i,
                forall|j: int| 0 <= j < i ==> distances@[j] == INFINITY,
                forall|j: int| 0 <= j < i ==> records@[j].is_none(),
                forall|j: int| 0 <= j < i ==> pointers@[j].is_none(),
            decreases max_length - i,
        {
            distances.push(INFINITY);
            records.push(None);
            pointers.push(None);
            i += 1;
        }
        let hits = TopHits { max_length, distances, records, pointers };
        proof {
            assert(hits@ =~= Seq::new(max_length as nat, |i: int| empty_hit()));
        }
        hits
    }

    /// Puts a candidate that is nearer than the last slot in at its place.
    fn _add(&mut self, distance: u32, record: &TreeRecord, page_pointer: &PagePointer)
        requires
            old(self).wf(),
            old(self).max_length > 0,
            lt(distance, old(self).distances@[old(self).max_length - 1]),
        ensures
            final(self).wf(),
            final(self).max_length == old(self).max_length,
            final(self)@ == offer(
                old(self)@,
                Hit { distance, record: Some(record@), pointer: Some(*page_pointer) },
            ),
    {
        let ghost before = self@;
        let ghost h = Hit { distance, record: Some(record@), pointer: Some(*page_pointer) };
        let insert_index: usize = find_rank(&self.distances, distance);
        proof {
            assert(distances_of(before) =~= self.distances@);
            assert(before.last().distance == self.distances@[self.max_length - 1]);
            lemma_offer(before, h);
        }
        self.distances.insert(insert_index, distance);
        self.records.insert(insert_index, Some(record.clone()));
        self.pointers.insert(insert_index, Some(*page_pointer));
        self.distances.truncate(self.max_length);
        self.records.truncate(self.max_length);
        self.pointers.truncate(self.max_length);
        proof {
            assert(self@ =~= offer(before, h));
            assert(self.distances@ =~= distances_of(offer(before, h)));
        }
    }

    /// Offers a candidate to the buffer.
    pub fn try_add(&mut self, distance: u32, record: &TreeRecord, page_pointer: &PagePointer) -> (r:
        Result<(), Error>)
        requires
            old(self).wf(),
        ensures
            r.is_ok(),
            final(self).wf(),
            final(self).max_length == old(self).max_length,
            final(self)@ == offer(
                old(self)@,
                Hit { distance, record: Some(record@), pointer: Some(*page_pointer) },
            ),
    {
        if self.max_length == 0 {
            return Ok(());
        }
        let worst_best_distance = self.get_highest_dist();
        if scalar_lt(distance, worst_best_distance) {
            self._add(distance, record, page_pointer);
        }
        Ok(())
    }

    /// The distance in the last slot: the greatest in the buffer.
    pub fn get_highest_dist(&self) -> (d: u32)
        requires
            self.wf(),
            self.max_length > 0,
        ensures
            d == self@.last().distance,
            forall|i: int| 0 <= i < self@.len() ==> key((#[trigger] self@[i]).distance) <= key(d),
    {
        self.distances[self.max_length - 1]
    }
}

} // verus!
