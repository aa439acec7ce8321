//! The leaf pager's page cache: pages by index, evicted oldest first.

use vstd::prelude::*;
use std::collections::HashMap;
use std::collections::VecDeque;
use crate::page::RecordPage;

verus! {

broadcast use vstd::std_specs::hash::group_hash_axioms;

/// Pages by page index, with the order in which indices entered.
pub struct PageCache {
    map: HashMap<usize, RecordPage>,
    order: VecDeque<usize>,
}

impl View for PageCache {
    type V = Map<usize, RecordPage>;

    closed spec fn view(&self) -> Map<usize, RecordPage> {
        self.map@
    }
}

impl PageCache {
    /// Every cached index is in the entry order.
    pub closed spec fn wf(&self) -> bool {
        forall|k: usize| self.map@.contains_key(k) ==> self.order@.contains(k)
    }

    /// The indices in the order in which they entered the cache. An index
    /// that has left the cache by name stays in it until its turn comes.
    pub closed spec fn queue(&self) -> Seq<usize> {
        self.order@
    }

    /// An empty cache.
    pub fn new() -> (c: Self)
        ensures
            c.wf(),
            c@ == Map::<usize, RecordPage>::empty(),
            c.queue() == Seq::<usize>::empty(),
    {
        PageCache { map: HashMap::new(), order: VecDeque::new() }
    }

    /// Pages held.
    pub fn len(&self) -> (n: usize)
        ensures
            n == self@.len(),
            self@.dom().finite(),
    {
        self.map.len()
    }

    /// The page cached under `key`, if any.
    pub fn get(&self, key: usize) -> (r: Option<&RecordPage>)
        ensures
            r.is_some() <==> self@.contains_key(key),
            r.is_some() ==> *r.unwrap() == self@[key],
    {
        self.map.get(&key)
    }

    /// Caches `page` under `key`, in place of what was cached there.
    pub fn insert(&mut self, key: usize, page: RecordPage)
        requires
            old(self).wf(),
        ensures
            final(self).wf(),
            final(self)@ == old(self)@.insert(key, page),
            final(self)@.dom().finite(),
            final(self)@.len() == old(self)@.len() + (if old(self)@.contains_key(key) {
                0int
            } else {
                1int
            }),
            final(self).queue() == (if old(self)@.contains_key(key) {
                old(self).queue()
            } else {
                old(self).queue().push(key)
            }),
    {
        proof {
            vstd::std_specs::hash::axiom_hashmap_view_finite_dom(old(self).map);
        }
        let had = self.map.contains_key(&key);
        self.map.insert(key, page);
        proof {
            if had {
                assert forall|k: usize| self.map@.contains_key(k) implies self.order@.contains(
                    k,
                ) by {
                    assert(old(self).map@.contains_key(k));
                }
            }
        }
        if !had {
            self.order.push_back(key);
            proof {
                let before = old(self).order@;
                assert(self.order@ =~= before.push(key));
                assert forall|k: usize| self.map@.contains_key(k) implies self.order@.contains(
                    k,
                ) by {
                    if k == key {
                        assert(self.order@[before.len() as int] == key);
                    } else {
                        assert(old(self).map@.contains_key(k));
                        assert(before.contains(k));
                        let i = choose|i: int| 0 <= i < before.len() && before[i] == k;
                        assert(self.order@[i] == k);
                    }
                }
            }
        }
    }

    /// Drops the page cached under `key` and returns it.
    pub fn remove(&mut self, key: usize) -> (r: Option<RecordPage>)
        requires
            old(self).wf(),
        ensures
            final(self).wf(),
            final(self)@ == old(self)@.remove(key),
            r.is_some() <==> old(self)@.contains_key(key),
            r.is_some() ==> r.unwrap() == old(self)@[key] && final(self)@.len() + 1 == old(self)@.len(),
            final(self)@.dom().finite(),
    {
        proof {
            vstd::std_specs::hash::axiom_hashmap_view_finite_dom(old(self).map);
        }
        self.map.remove(&key)
    }

    /// Drops the page that has been cached longest and returns it with its
    /// index; `None` when the cache is empty. The indices before it in the
    /// entry order, which had left the cache by name, leave the order too.
    pub fn pop_oldest(&mut self) -> (r: Option<(usize, RecordPage)>)
        requires
            old(self).wf(),
        ensures
            final(self).wf(),
            r.is_none() ==> old(self)@ == Map::<usize, RecordPage>::empty() && final(self)@ == old(self)@,
            r.is_some() ==> old(self)@.contains_key(r.unwrap().0)
                && r.unwrap().1 == old(self)@[r.unwrap().0]
                && final(self)@ == old(self)@.remove(r.unwrap().0)
                && final(self)@.len() + 1 == old(self)@.len(),
            final(self)@.dom().finite(),
            r.is_some() ==> exists|n: int|
                0 <= n < old(self).queue().len() && #[trigger] old(self).queue()[n] == r.unwrap().0
                    && (forall|j: int| 0 <= j < n ==> !old(self)@.contains_key(old(self).queue()[j]))
                    && final(self).queue() == old(self).queue().subrange(
                    n + 1,
                    old(self).queue().len() as int,
                ),
    {
        proof {
            vstd::std_specs::hash::axiom_hashmap_view_finite_dom(old(self).map);
        }
        let ghost mut skipped: int = 0;
        proof {
            assert(self.order@ =~= old(self).order@.subrange(0, old(self).order@.len() as int));
        }
        loop
            invariant
                self.wf(),
                self.map@ == old(self).map@,
                0 <= skipped <= old(self).order@.len(),
                self.order@ == old(self).order@.subrange(skipped, old(self).order@.len() as int),
                forall|j: int| 0 <= j < skipped ==> !old(self).map@.contains_key(old(self).order@[j]),
            decreases self.order@.len(),
        {
            let ghost before = self.order@;
            let ghost held = self.map@;
            match self.order.pop_front() {
                None => {
                    proof {
                        assert forall|k: usize| !self.map@.contains_key(k) by {
                            if self.map@.contains_key(k) {
                                assert(before.contains(k));
                            }
                        }
                        assert(self.map@ =~= Map::<usize, RecordPage>::empty());
                    }
                    return None;
                },
                Some(key) => {
                    let found = self.map.remove(&key);
                    proof {
                        assert forall|k: usize| self.map@.contains_key(k) implies self.order@.contains(
                            k,
                        ) by {
                            assert(held.contains_key(k));
                            assert(before.contains(k));
                            let i = choose|i: int| 0 <= i < before.len() && before[i] == k;
                            assert(k != key);
                            assert(i != 0);
                            assert(self.order@[i - 1] == k);
                        }
                    }
                    proof {
                        assert(key == old(self).order@[skipped]);
                        assert(self.order@ =~= old(self).order@.subrange(
                            skipped + 1,
                            old(self).order@.len() as int,
                        ));
                    }
                    match found {
                        Some(page) => {
                            proof {
                                let n = skipped;
                                assert(0 <= n < old(self).queue().len() && old(self).queue()[n]
                                    == key && (forall|j: int|
                                    0 <= j < n ==> !old(self)@.contains_key(old(self).queue()[j]))
                                    && self.queue() == old(self).queue().subrange(
                                    n + 1,
                                    old(self).queue().len() as int,
                                ));
                            }
                            return Some((key, page));
                        },
                        None => {
                            proof {
                                assert(self.map@ =~= held);
                                skipped = skipped + 1;
                            }
                        },
                    }
                },
            }
        }
    }
}

} // verus!
