//! The storage capability that the log and the perfect tree are built on:
//! records addressed by stable positions.

use vstd::prelude::*;

verus! {

/// Where a record stands in a storage.
pub type Position = u64;

/// One-based index of an appended entry.
pub type Index = u64;

/// What can go wrong in the core.
#[derive(Clone, Copy, Debug, PartialEq, Eq, Structural)]
pub enum Error {
    /// The underlying device failed.
    Io,
    /// A stored record failed its magic or checksum test, or the records do
    /// not fit together.
    Corruption { position: Position },
    /// A payload could not be decoded.
    Serialization,
    /// A position or length would not fit the machine word.
    Capacity,
    /// An internal rule was broken; the operation was abandoned.
    Invariant,
}

/// A value that can be stored: it has a mathematical view and can be copied
/// without changing that view.
pub trait Record: View + Sized {
    /// A copy with the same view.
    fn duplicate(&self) -> (copy: Self)
        ensures
            copy@ == self@,
    ;
}

/// Whether `list` holds, in ascending order, the positions from `origin` to
/// below `end` at which `records` has a record.
pub open spec fn listed<V>(
    list: Seq<Position>,
    records: Map<Position, V>,
    origin: Position,
    end: Position,
) -> bool {
    &&& forall|i: int, j: int| 0 <= i < j < list.len() ==> #[trigger] list[i] < #[trigger] list[j]
    &&& forall|i: int|
        0 <= i < list.len() ==> origin <= #[trigger] list[i] < end && records.contains_key(list[i])
    &&& forall|p: Position|
        origin <= p < end && #[trigger] records.contains_key(p) ==> list.contains(p)
}

/// There is one list of the positions of the records between two bounds.
pub proof fn lemma_listed_unique<V>(
    a: Seq<Position>,
    b: Seq<Position>,
    records: Map<Position, V>,
    origin: Position,
    end: Position,
)
    requires
        listed(a, records, origin, end),
        listed(b, records, origin, end),
    ensures
        a == b,
    decreases a.len(),
{
    if a.len() == 0 {
        if b.len() > 0 {
            assert(records.contains_key(b[0]));
            assert(a.contains(b[0]));
        }
        assert(a =~= b);
    } else {
        let top = a.last();
        assert(records.contains_key(top));
        assert(b.contains(top));
        let w = choose|w: int| 0 <= w < b.len() && b[w] == top;
        if w < b.len() - 1 {
            let over = b[b.len() - 1];
            assert(b[w] < over);
            assert(records.contains_key(over));
            assert(a.contains(over));
            let v = choose|v: int| 0 <= v < a.len() && a[v] == over;
            if v < a.len() - 1 {
                assert(a[v] < a[a.len() - 1]);
            }
        }
        let a2 = a.drop_last();
        let b2 = b.drop_last();
        assert forall|p: Position| origin <= p < top && #[trigger] records.contains_key(
            p,
        ) implies a2.contains(p) by {
            assert(a.contains(p));
            let v = choose|v: int| 0 <= v < a.len() && a[v] == p;
            assert(a2[v] == p);
        }
        assert forall|p: Position| origin <= p < top && #[trigger] records.contains_key(
            p,
        ) implies b2.contains(p) by {
            assert(b.contains(p));
            let v = choose|v: int| 0 <= v < b.len() && b[v] == p;
            assert(b2[v] == p);
        }
        assert forall|i: int| 0 <= i < a2.len() implies origin <= #[trigger] a2[i] < top
            && records.contains_key(a2[i]) by {
            assert(a[i] < a[a.len() - 1]);
        }
        assert forall|i: int| 0 <= i < b2.len() implies origin <= #[trigger] b2[i] < top
            && records.contains_key(b2[i]) by {
            assert(b[i] < b[b.len() - 1]);
        }
        lemma_listed_unique(a2, b2, records, origin, top);
        assert(a =~= a2.push(top));
        assert(b =~= b2.push(top));
    }
}

/// Whether `position` is where a store with the given records and end is
/// meant to be put to: its end, or the place of a record that it holds.
pub open spec fn in_place<V>(records: Map<Position, V>, end: Position, position: Position) -> bool {
    position == end || records.contains_key(position)
}

/// A store of records of one type. New records are put at `end()`; a record
/// already stored may be replaced in place.
pub trait Storage<T: Record>: Sized {
    /// The records held, by position.
    spec fn records(&self) -> Map<Position, T::V>;

    /// The position of the earliest record, or where it will stand.
    spec fn origin(&self) -> Position;

    /// The position at which the next new record will stand.
    spec fn end(&self) -> Position;

    /// The position at which the most recent record stands, where one is known.
    spec fn tail(&self) -> Option<Position>;

    /// The invariant of the store, which every operation needs and keeps.
    spec fn inv(&self) -> bool;

    /// Whether a `put` of `data` at `position` succeeds.
    spec fn accepts(&self, position: Position, data: T::V) -> bool;

    /// Whether reads of this store never fail on records that it holds.
    spec fn reliable(&self) -> bool;

    /// Whether the positions of this store are consecutive integers: a
    /// record put at the end moves the end on by one, and the store takes
    /// every record at its end and in place of a record that it holds.
    spec fn sequential(&self) -> bool;

    /// The end is not before the origin, and no record stands at the end
    /// or beyond it.
    proof fn lemma_bounds(&self)
        requires
            self.inv(),
        ensures
            self.origin() <= self.end(),
            forall|p: Position| #[trigger] self.records().contains_key(p) ==> p < self.end(),
    ;

    /// The earliest record, if there is one, and `end()`.
    fn first(&self) -> (r: Result<(Option<T>, Position), Error>)
        requires
            self.inv(),
        ensures
            self.reliable() ==> r is Ok,
            r matches Ok((record, position)) ==> {
                &&& position == self.end()
                &&& record is Some <==> self.records().contains_key(self.origin())
                &&& record matches Some(x) ==> x@ == self.records()[self.origin()]
            },
    ;

    /// The most recent record, if there is one, and `end()`.
    fn last(&self) -> (r: Result<(Option<T>, Position), Error>)
        requires
            self.inv(),
        ensures
            self.reliable() ==> r is Ok,
            r matches Ok((record, position)) ==> {
                &&& position == self.end()
                &&& match self.tail() {
                    Some(p) => {
                        &&& self.records().contains_key(p)
                        &&& record matches Some(x) && x@ == self.records()[p]
                    },
                    None => record is None,
                }
            },
    ;

    /// Stores `data` at `position` and returns the new `end()`. A failed put
    /// leaves the store as it was. The store is meant to be put to at its
    /// end, or in place of a record that it holds: of a put elsewhere only
    /// the records and the end are told, and the invariant may be lost.
    fn put(&mut self, position: Position, data: &T) -> (r: Result<Position, Error>)
        requires
            old(self).inv(),
        ensures
            r is Err || in_place(old(self).records(), old(self).end(), position)
                ==> final(self).inv(),
            old(self).accepts(position, data@) ==> r is Ok,
            old(self).sequential() && in_place(old(self).records(), old(self).end(), position)
                && old(self).end() < Position::MAX ==> r is Ok,
            final(self).origin() == old(self).origin(),
            final(self).reliable() == old(self).reliable(),
            match r {
                Ok(next) => {
                    &&& final(self).records() == old(self).records().insert(position, data@)
                    &&& final(self).end() == next
                    &&& next >= old(self).end()
                    &&& in_place(old(self).records(), old(self).end(), position) ==> {
                        &&& next > position
                        &&& final(self).sequential() == old(self).sequential()
                        &&& old(self).sequential() ==> next == if position == old(self).end() {
                            (position + 1) as Position
                        } else {
                            old(self).end()
                        }
                    }
                },
                Err(_) => {
                    &&& final(self).records() == old(self).records()
                    &&& final(self).end() == old(self).end()
                    &&& final(self).tail() == old(self).tail()
                    &&& final(self).sequential() == old(self).sequential()
                },
            },
    ;

    /// The positions of the records from `origin()` to below `end()`, in
    /// ascending order.
    fn positions(&self) -> (r: Result<Vec<Position>, Error>)
        requires
            self.inv(),
        ensures
            self.reliable() ==> r is Ok,
            r matches Ok(list) ==> listed(list@, self.records(), self.origin(), self.end()),
    ;

    /// The record at `position`.
    fn read(&self, position: Position) -> (r: Result<T, Error>)
        requires
            self.inv(),
        ensures
            self.reliable() && self.records().contains_key(position) ==> r is Ok,
            r matches Ok(x) ==> self.records().contains_key(position) && x@
                == self.records()[position],
    ;
}

/// A record with a byte form: what is written can be read back.
pub trait Serializable: Record {
    /// The bytes that stand for a value.
    spec fn spec_bytes(v: Self::V) -> Seq<u8>;

    /// Whether a value has a byte form: its lengths fit their fields.
    spec fn storable(v: Self::V) -> bool;

    /// Whether a value may stand at `position`.
    spec fn placed(v: Self::V, position: Position) -> bool;

    /// The value that `bytes` stand for when read at `position`, where
    /// they stand for one.
    spec fn spec_read(bytes: Seq<u8>, position: Position) -> Option<Self::V>;

    /// Whether the value may stand at `position`.
    fn is_placed(&self, position: Position) -> (r: bool)
        ensures
            r == Self::placed(self@, position),
    ;

    /// Appends the bytes of the value to `w` and returns their number. A
    /// value that is not storable is refused.
    fn write(&self, w: &mut Vec<u8>) -> (r: Result<usize, Error>)
        ensures
            match r {
                Ok(n) => Self::storable(self@) && final(w)@ == old(w)@ + Self::spec_bytes(self@)
                    && n == Self::spec_bytes(self@).len(),
                Err(e) => !Self::storable(self@) && e == Error::Serialization,
            },
    ;

    /// The value that `bytes` stand for when read at `position`.
    fn read(bytes: &[u8], position: Position) -> (r: Result<Self, Error>)
        ensures
            match r {
                Ok(x) => Self::spec_read(bytes@, position) == Some(x@),
                Err(e) => Self::spec_read(bytes@, position) is None && e == Error::Serialization,
            },
    ;

    /// Reading the bytes of a storable value at its place gives the value.
    proof fn lemma_round_trip(v: Self::V, position: Position)
        requires
            Self::storable(v),
            Self::placed(v, position),
        ensures
            Self::spec_read(Self::spec_bytes(v), position) == Some(v),
    ;
}

} // verus!
