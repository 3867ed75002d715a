//! An in-memory key-value store of records, keyed by synthetic positions.

use crate::storage::{in_place, Error, Position, Record, Storage};
use std::collections::HashMap;
use vstd::prelude::*;

verus! {

broadcast use vstd::std_specs::hash::group_hash_axioms;

/// Records in a hash map. The end of the store is one more than the number
/// of its records, so the k-th record put at the end stands at position k.
pub struct MemKVS<S: Record> {
    kvs: HashMap<Position, S>,
}

impl<S: Record> MemKVS<S> {
    /// The map behind the store, values by their views.
    pub closed spec fn contents(&self) -> Map<Position, S::V> {
        Map::new(|p: Position| self.kvs@.contains_key(p), |p: Position| self.kvs@[p]@)
    }

    /// Number of records held.
    pub closed spec fn count(&self) -> nat {
        self.kvs@.len()
    }

    /// One more than the number of records, as far as positions reach.
    pub open spec fn next(&self) -> Position {
        if self.count() < Position::MAX {
            (self.count() + 1) as Position
        } else {
            Position::MAX
        }
    }

    /// An empty store.
    pub fn new() -> (s: Self)
        ensures
            s.contents() == Map::<Position, S::V>::empty(),
            s.count() == 0,
            s.inv(),
            s.sequential(),
    {
        let s = Self::with_kvs(HashMap::new());
        assert(s.contents() =~= Map::<Position, S::V>::empty());
        s
    }

    /// A store over an existing map. It is in order, as the operations of
    /// a storage need it, where the map holds no key beyond the number of
    /// its keys.
    pub fn with_kvs(kvs: HashMap<Position, S>) -> (s: Self)
        ensures
            s.count() == kvs@.len(),
            s.contents() == Map::new(
                |p: Position| kvs@.contains_key(p),
                |p: Position| kvs@[p]@,
            ),
    {
        Self { kvs }
    }

    /// What the store is as a storage: its records are the map's, its
    /// first position is 1, its end is one more than the number of its
    /// records, and its last record is the one whose position is that
    /// number.
    pub proof fn lemma_view(&self)
        ensures
            self.records() == self.contents(),
            self.end() == self.next(),
            self.origin() == 1,
            self.contents().dom().finite(),
            self.count() == self.contents().dom().len(),
    {
        assert(self.contents().dom() =~= self.kvs@.dom());
    }

    /// A store over no records is empty, ends at 1 and has no last record.
    pub proof fn lemma_empty(&self)
        requires
            self.count() == 0,
        ensures
            self.records() == Map::<Position, S::V>::empty(),
            self.end() == 1,
            self.tail() is None,
            self.inv(),
            self.sequential(),
    {
        assert(self.kvs@.dom().finite());
        assert(self.kvs@.dom().len() == 0);
        assert(forall|p: Position| !self.kvs@.dom().contains(p)) by {
            if exists|p: Position| self.kvs@.dom().contains(p) {
                let p = choose|p: Position| self.kvs@.dom().contains(p);
                vstd::set_lib::lemma_set_empty_equivalency_len(self.kvs@.dom());
            }
        }
        assert(self.contents() =~= Map::<Position, S::V>::empty());
    }

    /// Number of records held.
    pub fn len(&self) -> (n: usize)
        ensures
            n == self.count(),
    {
        self.kvs.len()
    }

    /// The end of the store.
    fn limit(&self) -> (end: Position)
        ensures
            end == self.next(),
    {
        let n = self.kvs.len() as u64;
        if n < u64::MAX {
            n + 1
        } else {
            u64::MAX
        }
    }

    /// Gives the map back.
    pub fn into_kvs(self) -> (kvs: HashMap<Position, S>)
        ensures
            kvs@.len() == self.count(),
            self.contents() == Map::new(
                |p: Position| kvs@.contains_key(p),
                |p: Position| kvs@[p]@,
            ),
    {
        self.kvs
    }
}

impl<S: Record> Storage<S> for MemKVS<S> {
    open spec fn records(&self) -> Map<Position, S::V> {
        self.contents()
    }

    open spec fn origin(&self) -> Position {
        1
    }

    open spec fn end(&self) -> Position {
        self.next()
    }

    open spec fn tail(&self) -> Option<Position> {
        if self.count() >= 1 && self.count() <= Position::MAX && self.contents().contains_key(
            self.count() as Position,
        ) {
            Some(self.count() as Position)
        } else {
            None
        }
    }

    open spec fn inv(&self) -> bool {
        forall|p: Position| #[trigger] self.contents().contains_key(p) ==> p < self.next()
    }

    open spec fn accepts(&self, position: Position, data: S::V) -> bool {
        self.count() + 1 < Position::MAX
    }

    open spec fn reliable(&self) -> bool {
        true
    }

    open spec fn sequential(&self) -> bool {
        forall|p: Position| #[trigger] self.contents().contains_key(p) <==> 1 <= p <= self.count()
    }

    proof fn lemma_bounds(&self) {
    }

    fn first(&self) -> (r: Result<(Option<S>, Position), Error>) {
        let end = self.limit();
        match self.kvs.get(&1) {
            Some(x) => Ok((Some(x.duplicate()), end)),
            None => Ok((None, end)),
        }
    }

    fn last(&self) -> (r: Result<(Option<S>, Position), Error>) {
        let end = self.limit();
        let n = self.kvs.len() as u64;
        if n == 0 {
            return Ok((None, end));
        }
        match self.kvs.get(&n) {
            Some(x) => Ok((Some(x.duplicate()), end)),
            None => Ok((None, end)),
        }
    }

    fn put(&mut self, position: Position, data: &S) -> (r: Result<Position, Error>) {
        let n = self.kvs.len() as u64;
        if n >= u64::MAX - 1 {
            return Err(Error::Capacity);
        }
        let ghost before = self.kvs@;
        assert(before.dom().finite());
        self.kvs.insert(position, data.duplicate());
        proof {
            assert(self.kvs@.dom() =~= before.dom().insert(position));
            assert(self.contents() =~= old(self).contents().insert(position, data@));
            assert(old(self).contents().contains_key(position) == before.dom().contains(position));
            assert(self.kvs@.len() == self.kvs@.dom().len());
            assert(before.len() == before.dom().len());
            let held = before.dom().contains(position);
            assert(self.count() == if held {
                old(self).count()
            } else {
                old(self).count() + 1
            });
            if in_place(old(self).records(), old(self).end(), position) {
                assert(!held ==> position == old(self).count() + 1);
                assert forall|p: Position| #[trigger]
                    self.contents().contains_key(p) implies p < self.next() by {
                    if p != position {
                        assert(old(self).contents().contains_key(p));
                    }
                }
                if old(self).sequential() {
                    assert forall|p: Position| #[trigger]
                        self.contents().contains_key(p) <==> 1 <= p <= self.count() by {
                        if p != position {
                            assert(old(self).contents().contains_key(p) == self.contents().contains_key(
                                p,
                            ));
                        }
                    }
                }
                if self.sequential() {
                    assert forall|p: Position| #[trigger]
                        old(self).contents().contains_key(p) <==> 1 <= p <= old(self).count() by {
                        assert(self.contents().contains_key(p) <==> 1 <= p <= self.count());
                        if p != position {
                            assert(old(self).contents().contains_key(p) == self.contents().contains_key(
                                p,
                            ));
                        } else {
                            assert(self.contents().contains_key(position));
                        }
                    }
                }
            }
        }
        Ok(self.limit())
    }

    fn positions(&self) -> (r: Result<Vec<Position>, Error>) {
        let mut list: Vec<Position> = Vec::new();
        let end = self.limit();
        let mut p: Position = 1;
        while p < end
            invariant
                1 <= p <= end || end == 0,
                end == self.next(),
                forall|i: int, j: int|
                    0 <= i < j < list@.len() ==> #[trigger] list@[i] < #[trigger] list@[j],
                forall|i: int|
                    0 <= i < list@.len() ==> 1 <= #[trigger] list@[i] < p
                        && self.contents().contains_key(list@[i]),
                forall|q: Position|
                    1 <= q < p && #[trigger] self.contents().contains_key(q) ==> list@.contains(q),
            decreases end - p,
        {
            if self.kvs.contains_key(&p) {
                let ghost before = list@;
                list.push(p);
                assert forall|q: Position|
                    1 <= q < p + 1 && #[trigger] self.contents().contains_key(
                        q,
                    ) implies list@.contains(q) by {
                    if q == p {
                        assert(list@[before.len() as int] == p);
                    } else {
                        let w = choose|w: int| 0 <= w < before.len() && before[w] == q;
                        assert(list@[w] == q);
                    }
                }
            }
            p = p + 1;
        }
        Ok(list)
    }

    fn read(&self, position: Position) -> (r: Result<S, Error>) {
        match self.kvs.get(&position) {
            Some(x) => Ok(x.duplicate()),
            None => Err(Error::Corruption { position }),
        }
    }
}

} // verus!
