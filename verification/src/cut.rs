//! The log as a component under test: a log over a storage that a factory
//! makes, filled with and checked against the values of a function of the
//! index.

use crate::entry::Entry;
use crate::log::{
    converge, converged, holds_log, is_fresh, is_occupied, openable, opened, spec_found, Slate,
};
use crate::memkvs::MemKVS;
use crate::storage::{Error, Index, Position, Storage};
use std::collections::HashMap;
use vstd::bytes::spec_u64_to_le_bytes;
use vstd::prelude::*;

verus! {

/// Whether `storage` holds no record and a log can be begun on it where
/// `dependable` says that it does not fail.
pub open spec fn blank<S: Storage<Entry>>(storage: S, dependable: bool) -> bool {
    &&& storage.inv()
    &&& is_fresh(storage.records(), storage.origin())
    &&& !is_occupied(storage.records(), storage.origin(), storage.end())
    &&& dependable ==> openable(storage)
}

/// Keeps the storage that a component under test runs on. The factory has
/// one storage. It hands it out and has it given back, so that what was
/// written through the storage is found in it when it is handed out
/// again; while the storage is out, the factory has none.
pub trait StorageFactory<S: Storage<Entry>>: Sized {
    /// The storage that the factory keeps, as it was last given back or
    /// cleared; nothing while the storage is out.
    spec fn kept(&self) -> Option<S>;

    /// Whether this factory does not fail: it hands out its storage when
    /// it has it, can be cleared, and has an alternate of the same kind.
    spec fn dependable(&self) -> bool;

    /// The name under which results for this kind of storage are filed.
    spec fn spec_name() -> Seq<char>;

    /// The name under which results for this kind of storage are filed.
    fn name() -> (name: String)
        ensures
            name@ == Self::spec_name(),
    ;

    /// Hands out the storage. A factory whose storage is out refuses with
    /// `Invariant`.
    fn new_storage(&mut self) -> (r: Result<S, Error>)
        ensures
            final(self).dependable() == old(self).dependable(),
            match r {
                Ok(storage) => old(self).kept() == Some(storage) && final(self).kept() is None
                    && storage.inv(),
                Err(e) => final(self).kept() == old(self).kept() && (old(self).kept() is None
                    ==> e == Error::Invariant),
            },
            old(self).dependable() && old(self).kept() is Some ==> r is Ok,
    ;

    /// Takes the storage back, with all that was written through it.
    fn give_back(&mut self, storage: S)
        requires
            storage.inv(),
        ensures
            final(self).kept() == Some(storage),
            final(self).dependable() == old(self).dependable(),
    ;

    /// The number of bytes that the storage takes on its device.
    fn storage_size(&self) -> (r: Result<u64, Error>)
        ensures
            self.dependable() ==> r is Ok,
    ;

    /// Removes what the storage of this factory has stored: the factory
    /// then keeps a storage without records, whether its storage was out
    /// or not.
    fn clear(&mut self) -> (r: Result<(), Error>)
        ensures
            final(self).dependable() == old(self).dependable(),
            old(self).dependable() ==> r is Ok,
            r is Ok ==> (final(self).kept() matches Some(storage) && blank(
                storage,
                final(self).dependable(),
            )),
    ;

    /// Another factory of the same kind, with a storage of its own that
    /// holds no record.
    fn alternate(&self) -> (r: Result<Self, Error>)
        ensures
            r matches Ok(other) ==> other.dependable() == self.dependable(),
            r matches Ok(other) ==> (other.kept() matches Some(storage) && blank(
                storage,
                other.dependable(),
            )),
            self.dependable() ==> r is Ok,
    ;
}

/// Whether a store in memory holds no record, ends at position 1 and takes
/// consecutive positions.
pub open spec fn fresh(storage: MemKVS<Entry>) -> bool {
    &&& blank(storage, true)
    &&& storage.count() == 0
    &&& storage.end() == 1
    &&& storage.sequential()
}

/// Keeps a store in memory.
pub struct MemKVSFactory {
    store: Option<MemKVS<Entry>>,
    capacity: usize,
}

impl MemKVSFactory {
    #[verifier::type_invariant]
    spec fn valid(&self) -> bool {
        self.store matches Some(storage) ==> storage.inv()
    }

    /// The number of records that the store has room for at the start.
    pub closed spec fn capacity(&self) -> usize {
        self.capacity
    }

    /// A store without records, with room for `capacity` of them.
    fn empty_store(capacity: usize) -> (storage: MemKVS<Entry>)
        ensures
            fresh(storage),
    {
        let storage = MemKVS::with_kvs(HashMap::with_capacity(capacity));
        proof {
            storage.lemma_view();
            storage.lemma_empty();
        }
        storage
    }

    /// A factory whose store has room for `capacity` records and holds
    /// none.
    pub fn new(capacity: usize) -> (f: Self)
        ensures
            f.capacity() == capacity,
            (f.kept() matches Some(storage) && fresh(storage)),
    {
        MemKVSFactory { store: Some(Self::empty_store(capacity)), capacity }
    }
}

impl StorageFactory<MemKVS<Entry>> for MemKVSFactory {
    closed spec fn kept(&self) -> Option<MemKVS<Entry>> {
        self.store
    }

    open spec fn dependable(&self) -> bool {
        true
    }

    open spec fn spec_name() -> Seq<char> {
        "slate-memkvs"@
    }

    fn name() -> (name: String) {
        "slate-memkvs".to_owned()
    }

    fn new_storage(&mut self) -> (r: Result<MemKVS<Entry>, Error>) {
        proof {
            use_type_invariant(&*self);
        }
        let mut taken = MemKVSFactory { store: None, capacity: self.capacity };
        std::mem::swap(self, &mut taken);
        match taken.store {
            Some(storage) => Ok(storage),
            None => Err(Error::Invariant),
        }
    }

    fn give_back(&mut self, storage: MemKVS<Entry>) {
        self.store = Some(storage);
    }

    fn storage_size(&self) -> (r: Result<u64, Error>)
        ensures
            r == Ok::<u64, Error>(0),
    {
        Ok(0)
    }

    fn clear(&mut self) -> (r: Result<(), Error>)
        ensures
            r is Ok,
            final(self).capacity() == old(self).capacity(),
            (final(self).kept() matches Some(storage) && fresh(storage)),
    {
        self.store = Some(Self::empty_store(self.capacity));
        Ok(())
    }

    fn alternate(&self) -> (r: Result<Self, Error>)
        ensures
            (r matches Ok(f) && f.capacity() == self.capacity() && (f.kept() matches Some(
                storage,
            ) && fresh(storage))),
    {
        Ok(MemKVSFactory::new(self.capacity))
    }
}

/// Whether a call of `values` on `i` may return the number whose
/// little-endian bytes are `bytes`.
pub open spec fn given<V: Fn(u64) -> u64>(values: &V, i: u64, bytes: Seq<u8>) -> bool {
    exists|v: u64| #[trigger] values.ensures((i,), v) && bytes == spec_u64_to_le_bytes(v)
}

/// Whether the payloads from number `from` up to `to` are the values that
/// `values` gives for their indices.
pub open spec fn filled<V: Fn(u64) -> u64>(
    payloads: Seq<Seq<u8>>,
    from: int,
    to: int,
    values: &V,
) -> bool {
    forall|x: int| from <= x < to ==> given(values, (x + 1) as u64, #[trigger] payloads[x])
}

/// Whether the log accepts the bytes of whatever `values` gives for `i`.
pub open spec fn takes<S: Storage<Entry>, V: Fn(u64) -> u64>(log: Slate<S>, values: &V, i: u64) -> bool {
    forall|v: u64| #[trigger] values.ensures((i,), v) ==> log.accepts(spec_u64_to_le_bytes(v))
}

/// The eight little-endian bytes of `v`.
pub fn value_bytes(v: u64) -> (bytes: Vec<u8>)
    ensures
        bytes@ == spec_u64_to_le_bytes(v),
{
    let mut bytes: Vec<u8> = Vec::new();
    crate::codec::put_u64(&mut bytes, v);
    bytes
}

/// Whether two byte strings are the same.
pub fn same_bytes(a: &Vec<u8>, b: &Vec<u8>) -> (same: bool)
    ensures
        same == (a@ == b@),
{
    if a.len() != b.len() {
        return false;
    }
    let mut x: usize = 0;
    while x < a.len()
        invariant
            x <= a@.len() == b@.len(),
            forall|y: int| 0 <= y < x ==> a@[y] == b@[y],
        decreases a@.len() - x,
    {
        if a[x] != b[x] {
            return false;
        }
        x += 1;
    }
    assert(a@ =~= b@);
    true
}

/// Appends entries to `log` until it has `n`, entry `i` holding the bytes
/// of `values(i)`. An append that fails ends the run; the entries appended
/// before it stay.
pub fn fill_log<S: Storage<Entry>, V: Fn(u64) -> u64>(log: &mut Slate<S>, n: Index, values: &V) -> (r:
    Result<(), Error>)
    requires
        old(log).wf(),
        old(log).size() <= n,
        forall|i: u64| #[trigger] values.requires((i,)),
    ensures
        final(log).wf(),
        final(log).extends(old(log)),
        final(log).reliable() == old(log).reliable(),
        filled(final(log).payloads(), old(log).size() as int, final(log).size() as int, values),
        final(log).sequential() == old(log).sequential(),
        final(log).origin() == old(log).origin(),
        old(log).tidy() ==> final(log).tidy(),
        final(log).size() <= n,
        r is Ok ==> final(log).size() == n,
        old(log).sequential() && old(log).end() + (n - old(log).size()) <= Position::MAX ==> r
            is Ok,
        old(log).size() == n ==> r is Ok,
        old(log).size() + 1 == n && takes(*old(log), values, n) ==> r is Ok,
        old(log).sequential() ==> final(log).end() == old(log).end() + (final(log).size() - old(
            log,
        ).size()),
{
    let ghost start = *log;
    proof {
        start.lemma_sizes();
        assert(start.payloads().subrange(0, start.size() as int) =~= start.payloads());
        assert(start.positions().subrange(0, start.size() as int) =~= start.positions());
    }
    while log.n() < n
        invariant
            log.wf(),
            start == *old(log),
            start.wf(),
            start.size() <= log.size() <= n,
            log.extends(&start),
            log.reliable() == start.reliable(),
            log.sequential() == start.sequential(),
            start.sequential() ==> log.end() == start.end() + (log.size() - start.size()),
            log.size() == start.size() ==> takes(*log, values, n) == takes(start, values, n),
            log.origin() == start.origin(),
            start.tidy() ==> log.tidy(),
            filled(log.payloads(), start.size() as int, log.size() as int, values),
            forall|i: u64| #[trigger] values.requires((i,)),
        decreases n - log.size(),
    {
        let i = log.n() + 1;
        let v = values(i);
        let bytes = value_bytes(v);
        let ghost before = *log;
        match log.append(bytes.as_slice()) {
            Ok(_) => {},
            Err(e) => {
                return Err(e);
            },
        }
        proof {
            before.lemma_sizes();
            log.lemma_sizes();
            assert(log.payloads().subrange(0, start.size() as int) =~= before.payloads().subrange(
                0,
                start.size() as int,
            ));
            assert(log.positions().subrange(0, start.size() as int)
                =~= before.positions().subrange(0, start.size() as int));
            assert forall|x: int| start.size() <= x < log.size() implies given(
                values,
                (x + 1) as u64,
                #[trigger] log.payloads()[x],
            ) by {
                if x < before.size() {
                    assert(log.payloads()[x] == before.payloads()[x]);
                } else {
                    assert(values.ensures((i,), v));
                }
            }
        }
    }
    Ok(())
}

/// Whether entry `i` of `log` holds the bytes of `values(i)`.
pub fn check_entry<S: Storage<Entry>, V: Fn(u64) -> u64>(log: &Slate<S>, i: Index, values: &V) -> (r:
    Result<bool, Error>)
    requires
        log.wf(),
        1 <= i <= log.size(),
        values.requires((i,)),
    ensures
        log.reliable() ==> r is Ok,
        r matches Ok(true) ==> given(values, i, log.payloads()[i - 1]),
        r matches Ok(false) ==> exists|v: u64| #[trigger]
            values.ensures((i,), v) && log.payloads()[i - 1] != spec_u64_to_le_bytes(v),
{
    let found = match log.get(i) {
        Ok(Some(data)) => data,
        Ok(None) => {
            return Err(Error::Invariant);
        },
        Err(e) => {
            return Err(e);
        },
    };
    let v = values(i);
    let expected = value_bytes(v);
    let same = same_bytes(&found, &expected);
    proof {
        assert(values.ensures((i,), v));
    }
    Ok(same)
}

/// A log on a storage of one factory.
pub struct SlateCUT<S: Storage<Entry>, F: StorageFactory<S>> {
    factory: F,
    slate: Slate<S>,
}

impl<S: Storage<Entry>, F: StorageFactory<S>> SlateCUT<S, F> {
    /// The log under test.
    pub closed spec fn log(&self) -> Slate<S> {
        self.slate
    }

    /// The factory that made its storage.
    pub closed spec fn factory(&self) -> F {
        self.factory
    }

    /// A log with cache level 0 on the storage of `factory`, which holds
    /// what was last written through it. A dependable factory that has its
    /// storage always gives one that a log can be opened on; a factory
    /// whose storage is out is refused with `Invariant`.
    pub fn new(factory: F) -> (r: Result<Self, Error>)
        ensures
            r matches Ok(cut) ==> cut.log().wf() && cut.factory().kept() is None
                && cut.factory().dependable() == factory.dependable(),
            r matches Ok(cut) ==> (factory.kept() matches Some(storage) && opened(
                storage,
                cut.log(),
            )),
            r matches Ok(cut) ==> cut.log().spec_cache().spec_level() == 0 && cut.log().tidy(),
            factory.kept() is None ==> r matches Err(Error::Invariant),
            factory.dependable() && (factory.kept() matches Some(storage) && openable(storage))
                ==> r is Ok,
    {
        let mut factory = factory;
        let storage = match factory.new_storage() {
            Ok(storage) => storage,
            Err(e) => {
                return Err(e);
            },
        };
        let ghost handed = storage;
        match Slate::with_cache_level(storage, 0) {
            Ok(slate) => {
                proof {
                    Slate::lemma_opened_tidy(handed, slate);
                }
                Ok(SlateCUT { factory, slate })
            },
            Err(e) => Err(e),
        }
    }

    /// Ends the component: gives the storage back to the factory and
    /// returns the factory, which then keeps all that the log wrote.
    pub fn into_factory(self) -> (factory: F)
        requires
            self.log().wf(),
        ensures
            factory.dependable() == self.factory().dependable(),
            (factory.kept() matches Some(storage) && storage.inv() && storage.records()
                == self.log().records() && storage.end() == self.log().end() && storage.origin()
                == self.log().origin() && storage.reliable() == self.log().reliable()),
    {
        let mut factory = self.factory;
        let storage = self.slate.into_storage();
        factory.give_back(storage);
        factory
    }

    /// The name under which results for this component are filed.
    pub fn implementation(&self) -> (name: String)
        ensures
            name@ == F::spec_name(),
    {
        F::name()
    }

    /// Number of entries in the log.
    pub fn n(&self) -> (n: Index)
        ensures
            n == self.log().size(),
    {
        self.slate.n()
    }

    /// Appends entries until the log has `n`, entry `i` holding the bytes
    /// of `values(i)`, and returns the size of the storage. An append that
    /// fails ends the run; the entries appended before it stay.
    pub fn append<V: Fn(u64) -> u64>(&mut self, n: Index, values: V) -> (r: Result<u64, Error>)
        requires
            old(self).log().wf(),
            old(self).log().size() <= n,
            forall|i: u64| #[trigger] values.requires((i,)),
        ensures
            final(self).log().wf(),
            final(self).factory() == old(self).factory(),
            final(self).log().extends(&old(self).log()),
            filled(
                final(self).log().payloads(),
                old(self).log().size() as int,
                final(self).log().size() as int,
                &values,
            ),
            final(self).log().reliable() == old(self).log().reliable(),
            final(self).log().origin() == old(self).log().origin(),
            old(self).log().tidy() ==> final(self).log().tidy(),
            final(self).log().size() <= n,
            r is Ok ==> final(self).log().size() == n,
            old(self).factory().dependable() && old(self).log().sequential() && old(
                self,
            ).log().end() + (n - old(self).log().size()) <= Position::MAX ==> r is Ok,
            old(self).factory().dependable() && old(self).log().size() == n ==> r is Ok,
            old(self).factory().dependable() && old(self).log().size() + 1 == n && takes(
                old(self).log(),
                &values,
                n,
            ) ==> r is Ok,
            final(self).log().sequential() == old(self).log().sequential(),
            old(self).log().sequential() ==> final(self).log().end() == old(self).log().end() + (
            final(self).log().size() - old(self).log().size()),
    {
        match fill_log(&mut self.slate, n, &values) {
            Ok(()) => {},
            Err(e) => {
                return Err(e);
            },
        }
        self.factory.storage_size()
    }

    /// Appends entries until the log has `n`, entry `i` holding the bytes
    /// of `values(i)`.
    pub fn prepare<V: Fn(u64) -> u64>(&mut self, n: Index, values: V) -> (r: Result<(), Error>)
        requires
            old(self).log().wf(),
            old(self).log().size() <= n,
            forall|i: u64| #[trigger] values.requires((i,)),
        ensures
            final(self).log().wf(),
            final(self).factory() == old(self).factory(),
            final(self).log().extends(&old(self).log()),
            filled(
                final(self).log().payloads(),
                old(self).log().size() as int,
                final(self).log().size() as int,
                &values,
            ),
            final(self).log().reliable() == old(self).log().reliable(),
            final(self).log().origin() == old(self).log().origin(),
            old(self).log().tidy() ==> final(self).log().tidy(),
            final(self).log().size() <= n,
            r is Ok ==> final(self).log().size() == n,
            old(self).log().sequential() && old(self).log().end() + (n - old(self).log().size())
                <= Position::MAX ==> r is Ok,
            old(self).log().size() == n ==> r is Ok,
            old(self).log().size() + 1 == n && takes(old(self).log(), &values, n) ==> r is Ok,
            final(self).log().sequential() == old(self).log().sequential(),
            old(self).log().sequential() ==> final(self).log().end() == old(self).log().end() + (
            final(self).log().size() - old(self).log().size()),
    {
        fill_log(&mut self.slate, n, &values)
    }

    /// Empties the storage and starts a new log on it: the factory is
    /// cleared and asked for its storage, and the log is opened on that.
    /// Where a step fails, the log stays as it was.
    pub fn clear(&mut self) -> (r: Result<(), Error>)
        ensures
            r is Ok ==> final(self).log().wf() && final(self).log().size() == 0,
            r is Ok ==> final(self).factory().kept() is None,
            r is Ok ==> final(self).log().spec_cache().spec_level() == 0 && final(self).log().tidy(),
            r is Err ==> final(self).log() == old(self).log(),
            final(self).factory().dependable() == old(self).factory().dependable(),
            old(self).factory().dependable() ==> r is Ok,
    {
        match self.factory.clear() {
            Ok(()) => {},
            Err(e) => {
                return Err(e);
            },
        }
        let storage = match self.factory.new_storage() {
            Ok(storage) => storage,
            Err(e) => {
                return Err(e);
            },
        };
        let ghost handed = storage;
        match Slate::with_cache_level(storage, 0) {
            Ok(slate) => {
                proof {
                    Slate::lemma_opened_tidy(handed, slate);
                }
                self.slate = slate;
                Ok(())
            },
            Err(e) => Err(e),
        }
    }

    /// Gives the log the cache level `cache_level`, and fills its cache
    /// anew if that is not the level it has.
    pub fn set_cache_level(&mut self, cache_level: usize) -> (r: Result<(), Error>)
        requires
            old(self).log().wf(),
        ensures
            final(self).log().wf(),
            final(self).factory() == old(self).factory(),
            final(self).log().size() == old(self).log().size(),
            final(self).log().payloads() == old(self).log().payloads(),
            final(self).log().tidy() == old(self).log().tidy(),
            old(self).log().reliable() ==> r is Ok,
            r is Ok ==> final(self).log().spec_cache().spec_level() == cache_level,
            old(self).log().spec_cache().spec_level() == cache_level ==> r is Ok,
            old(self).log().spec_cache().spec_level() == cache_level ==> final(self).log() == old(
                self,
            ).log(),
    {
        if self.slate.cache().level() != cache_level {
            self.slate.cache_level(cache_level)
        } else {
            Ok(())
        }
    }

    /// Whether entry `i` holds the bytes of `values(i)`.
    pub fn get<V: Fn(u64) -> u64>(&self, i: Index, values: V) -> (r: Result<bool, Error>)
        requires
            self.log().wf(),
            1 <= i <= self.log().size(),
            values.requires((i,)),
        ensures
            self.log().reliable() ==> r is Ok,
            r matches Ok(true) ==> given(&values, i, self.log().payloads()[i - 1]),
            r matches Ok(false) ==> exists|v: u64| #[trigger]
                values.ensures((i,), v) && self.log().payloads()[i - 1] != spec_u64_to_le_bytes(
                    v,
                ),
    {
        check_entry(&self.slate, i, &values)
    }

    /// An entry in which this log and the log of `other` differ, found by
    /// the convergence procedure; nothing where their roots are the same.
    pub fn prove(&self, other: &Self) -> (r: Result<Option<u64>, Error>)
        requires
            self.log().wf(),
            other.log().wf(),
        ensures
            self.log().size() != other.log().size() ==> r matches Err(Error::Invariant),
            self.log().size() == other.log().size() && self.log().reliable()
                && other.log().reliable() ==> r is Ok,
            r matches Ok(found) ==> self.log().size() == other.log().size() && exists|rounds: u8|
                #[trigger] converged(
                    self.log().payloads(),
                    other.log().payloads(),
                    self.log().size() as nat,
                    found,
                    rounds,
                ),
            r matches Ok(found) ==> found == spec_found(
                self.log().payloads(),
                other.log().payloads(),
                self.log().size() as nat,
            ),
    {
        match converge(&self.slate, &other.slate) {
            Ok((found, _)) => Ok(found),
            Err(e) => Err(e),
        }
    }

    /// A component of the same kind on a storage of its own: a new log on
    /// the storage of the factory's alternate.
    pub fn alternate(&self) -> (r: Result<Self, Error>)
        ensures
            r matches Ok(cut) ==> cut.log().wf() && cut.log().size() == 0 && cut.factory().kept()
                is None,
            r matches Ok(cut) ==> cut.factory().dependable() == self.factory().dependable()
                && cut.log().spec_cache().spec_level() == 0 && cut.log().tidy(),
            self.factory().dependable() ==> r is Ok,
    {
        match self.factory.alternate() {
            Ok(factory) => Self::new(factory),
            Err(e) => Err(e),
        }
    }
}

/// What a log wrote through the storage of a factory is found again: the
/// log that is opened on the storage, when the factory hands it out after
/// it was given back, has the entries that the first log had.
pub proof fn lemma_found_again<S: Storage<Entry>, F: StorageFactory<S>>(
    first: SlateCUT<S, F>,
    factory: F,
    second: SlateCUT<S, F>,
)
    requires
        first.log().wf(),
        first.log().tidy(),
        factory.kept() matches Some(storage) && storage.records() == first.log().records()
            && storage.end() == first.log().end() && storage.origin() == first.log().origin()
            && opened(storage, second.log()),
    ensures
        second.log().size() == first.log().size(),
        second.log().payloads() == first.log().payloads(),
{
    let storage = factory.kept().unwrap();
    let a = (first.log().payloads(), first.log().places());
    let b = (second.log().payloads(), second.log().places());
    first.log().lemma_sizes();
    second.log().lemma_sizes();
    assert(storage.origin() <= a.1[0] < storage.end() && storage.records().contains_key(a.1[0]));
    assert(is_occupied(storage.records(), storage.origin(), storage.end()));
    crate::recovery::lemma_log_unique(
        storage.records(),
        storage.origin(),
        storage.end(),
        a,
        b,
    );
}

} // verus!
