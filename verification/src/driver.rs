//! Drivers of the measurements: what each run does to the log, apart from
//! taking the time.

use crate::block::BlockStorage;
use crate::cut::same_bytes;
use crate::device::MemoryDevice;
use crate::entry::Entry;
use crate::formula::{access_distance_limits, buckets_hold, in_bucket, spec_access_distance};
use crate::log::Slate;
use crate::memkvs::MemKVS;
use crate::mixer::{payload, spec_payload};
use crate::storage::{Error, Index, Position, Storage};
use vstd::prelude::*;

verus! {

/// Whether the payloads from number `from` up to `to` are the mixed values
/// of their indices.
pub open spec fn mixed(payloads: Seq<Seq<u8>>, from: int, to: int) -> bool {
    forall|x: int| from <= x < to ==> #[trigger] payloads[x] == spec_payload((x + 1) as u64)
}

/// Appends entries until the log has `n`, entry `i` holding the mixed value
/// of `i`. A log that has `n` entries or more stays as it is.
pub fn ensure<S: Storage<Entry>>(db: &mut Slate<S>, n: Index) -> (r: Result<(), Error>)
    requires
        old(db).wf(),
    ensures
        final(db).wf(),
        final(db).extends(old(db)),
        final(db).reliable() == old(db).reliable(),
        final(db).sequential() == old(db).sequential(),
        mixed(final(db).payloads(), old(db).size() as int, final(db).size() as int),
        final(db).size() == old(db).size() || (old(db).size() < n && final(db).size() <= n),
        r is Ok ==> final(db).size() == if old(db).size() < n {
            n
        } else {
            old(db).size()
        },
        old(db).sequential() && old(db).end() + (n - old(db).size()) <= Position::MAX ==> r is Ok,
        old(db).size() >= n ==> r is Ok,
        old(db).size() + 1 == n && old(db).accepts(spec_payload(n)) ==> r is Ok,
        old(db).sequential() ==> final(db).end() == old(db).end() + (final(db).size() - old(
            db,
        ).size()),
{
    let ghost start = *db;
    proof {
        start.lemma_sizes();
        assert(start.payloads().subrange(0, start.size() as int) =~= start.payloads());
        assert(start.positions().subrange(0, start.size() as int) =~= start.positions());
    }
    while db.n() < n
        invariant
            db.wf(),
            start.wf(),
            start == *old(db),
            start.size() <= db.size(),
            start.size() < n ==> db.size() <= n,
            start.size() >= n ==> db.size() == start.size(),
            db.extends(&start),
            mixed(db.payloads(), start.size() as int, db.size() as int),
            db.sequential() == start.sequential(),
            db.reliable() == start.reliable(),
            start.sequential() ==> db.end() == start.end() + (db.size() - start.size()),
            db.size() == start.size() ==> db.accepts(spec_payload(n)) == start.accepts(
                spec_payload(n),
            ),
        decreases n - db.size(),
    {
        let bytes = payload(db.n() + 1);
        let ghost before = *db;
        match db.append(bytes.as_slice()) {
            Ok(_) => {},
            Err(e) => {
                return Err(e);
            },
        }
        proof {
            before.lemma_sizes();
            db.lemma_sizes();
            assert(db.payloads().subrange(0, start.size() as int) =~= before.payloads().subrange(
                0,
                start.size() as int,
            ));
            assert(db.positions().subrange(0, start.size() as int)
                =~= before.positions().subrange(0, start.size() as int));
            assert forall|x: int| start.size() <= x < db.size() implies #[trigger] db.payloads()[x]
                == spec_payload((x + 1) as u64) by {
                if x < before.size() {
                    assert(db.payloads()[x] == before.payloads()[x]);
                }
            }
        }
    }
    Ok(())
}

/// Appends `n` entries, the `i`-th of them holding the mixed value of `i`.
pub fn append_series<S: Storage<Entry>>(db: &mut Slate<S>, n: u64) -> (r: Result<(), Error>)
    requires
        old(db).wf(),
    ensures
        final(db).wf(),
        final(db).extends(old(db)),
        final(db).reliable() == old(db).reliable(),
        final(db).sequential() == old(db).sequential(),
        final(db).size() <= old(db).size() + n,
        forall|x: int|
            0 <= x < final(db).size() - old(db).size() ==> #[trigger] final(db).payloads()[old(
                db,
            ).size() + x] == spec_payload((x + 1) as u64),
        r is Ok ==> final(db).size() == old(db).size() + n,
        old(db).sequential() && old(db).size() + n <= Index::MAX && old(db).end() + n
            <= Position::MAX ==> r is Ok,
        n == 0 ==> r is Ok,
        n == 1 && old(db).size() < Index::MAX && old(db).accepts(spec_payload(1)) ==> r is Ok,
        old(db).sequential() ==> final(db).end() == old(db).end() + (final(db).size() - old(
            db,
        ).size()),
{
    let ghost start = *db;
    proof {
        start.lemma_sizes();
        assert(start.payloads().subrange(0, start.size() as int) =~= start.payloads());
        assert(start.positions().subrange(0, start.size() as int) =~= start.positions());
    }
    let mut i: u64 = 0;
    while i < n
        invariant
            db.wf(),
            start.wf(),
            start == *old(db),
            i <= n,
            db.size() == start.size() + i,
            db.extends(&start),
            db.sequential() == start.sequential(),
            db.reliable() == start.reliable(),
            start.sequential() ==> db.end() == start.end() + i,
            i == 0 ==> db.accepts(spec_payload(1)) == start.accepts(spec_payload(1)),
            forall|x: int|
                0 <= x < i ==> #[trigger] db.payloads()[start.size() + x] == spec_payload(
                    (x + 1) as u64,
                ),
        decreases n - i,
    {
        let bytes = payload(i + 1);
        let ghost before = *db;
        match db.append(bytes.as_slice()) {
            Ok(_) => {},
            Err(e) => {
                return Err(e);
            },
        }
        proof {
            before.lemma_sizes();
            db.lemma_sizes();
            assert(db.payloads().subrange(0, start.size() as int) =~= before.payloads().subrange(
                0,
                start.size() as int,
            ));
            assert(db.positions().subrange(0, start.size() as int)
                =~= before.positions().subrange(0, start.size() as int));
            assert forall|x: int| 0 <= x < i + 1 implies #[trigger] db.payloads()[start.size() + x]
                == spec_payload((x + 1) as u64) by {
                if x < i {
                    assert(db.payloads()[start.size() + x] == before.payloads()[start.size()
                        + x]);
                }
            }
        }
        i = i + 1;
    }
    Ok(())
}

/// Whether entry `i` of the log holds the mixed value of `i`.
pub fn run_query<S: Storage<Entry>>(db: &Slate<S>, i: Index) -> (r: Result<bool, Error>)
    requires
        db.wf(),
        1 <= i <= db.size(),
    ensures
        db.reliable() ==> r is Ok,
        r matches Ok(ok) ==> ok == (db.payloads()[i - 1] == spec_payload(i)),
{
    let snapshot = db.snapshot();
    match snapshot.get(db, i) {
        Ok(Some(data)) => {
            let expected = payload(i);
            Ok(same_bytes(&data, &expected))
        },
        Ok(None) => Err(Error::Invariant),
        Err(e) => Err(e),
    }
}

/// Brings the log to `n` entries and says how much of the storage the
/// first `n` entries take: the position of entry `n + 1` where the log has
/// more than `n` entries, else nothing, and the whole storage counts.
pub fn volume<S: Storage<Entry>>(db: &mut Slate<S>, n: Index) -> (r: Result<Option<Position>, Error>)
    requires
        old(db).wf(),
    ensures
        final(db).wf(),
        final(db).extends(old(db)),
        mixed(final(db).payloads(), old(db).size() as int, final(db).size() as int),
        final(db).size() == old(db).size() || (old(db).size() < n && final(db).size() <= n),
        r matches Ok(found) ==> match found {
            Some(p) => n < final(db).size() && p == final(db).positions()[n as int],
            None => final(db).size() == n,
        },
        old(db).sequential() && old(db).reliable() && old(db).end() + (n - old(db).size())
            <= Position::MAX ==> r is Ok,
{
    match ensure(db, n) {
        Ok(()) => {},
        Err(e) => {
            return Err(e);
        },
    }
    if db.n() == n {
        Ok(None)
    } else {
        match db.read_entry(n + 1) {
            Ok(Some((position, _))) => Ok(Some(position)),
            Ok(None) => Err(Error::Invariant),
            Err(e) => Err(e),
        }
    }
}

/// The points of a scale without repetitions: each point where it comes
/// first.
pub open spec fn spec_distinct(points: Seq<u64>) -> Seq<u64>
    decreases points.len(),
{
    if points.len() == 0 {
        Seq::empty()
    } else {
        let before = spec_distinct(points.drop_last());
        if before.contains(points.last()) {
            before
        } else {
            before.push(points.last())
        }
    }
}

/// The distinct points are the points, and none of them comes twice.
pub proof fn lemma_distinct(points: Seq<u64>)
    ensures
        forall|x: u64|
            #![trigger spec_distinct(points).contains(x)]
            #![trigger points.contains(x)]
            spec_distinct(points).contains(x) <==> points.contains(x),
        forall|i: int, j: int|
            0 <= i < j < spec_distinct(points).len() ==> spec_distinct(points)[i] != spec_distinct(
                points,
            )[j],
        spec_distinct(points).len() <= points.len(),
    decreases points.len(),
{
    let out = spec_distinct(points);
    if points.len() > 0 {
        let shorter = points.drop_last();
        let before = spec_distinct(shorter);
        let last = points.last();
        lemma_distinct(shorter);
        assert forall|x: u64| out.contains(x) <==> points.contains(x) by {
            if out.contains(x) {
                let w = choose|w: int| 0 <= w < out.len() && out[w] == x;
                if w < before.len() {
                    assert(before[w] == x);
                    assert(before.contains(x));
                    let v = choose|v: int| 0 <= v < shorter.len() && shorter[v] == x;
                    assert(points[v] == x);
                } else {
                    assert(points[points.len() - 1] == x);
                }
            }
            if points.contains(x) {
                let v = choose|v: int| 0 <= v < points.len() && points[v] == x;
                if v < shorter.len() {
                    assert(shorter[v] == x);
                    assert(before.contains(x));
                    let w = choose|w: int| 0 <= w < before.len() && before[w] == x;
                    assert(out[w] == x);
                } else if before.contains(last) {
                } else {
                    assert(out[before.len() as int] == x);
                }
            }
        }
        assert forall|i: int, j: int| 0 <= i < j < out.len() implies out[i] != out[j] by {
            if j == before.len() {
                assert(before[i] == out[i]);
                assert(before.contains(out[i]));
            } else {
                assert(before[i] == out[i] && before[j] == out[j]);
            }
        }
    }
}

/// The points of a scale without repetitions, each where it comes first.
pub fn distinct(points: &Vec<u64>) -> (out: Vec<u64>)
    ensures
        out@ == spec_distinct(points@),
        forall|x: u64| out@.contains(x) <==> points@.contains(x),
        forall|i: int, j: int| 0 <= i < j < out@.len() ==> out@[i] != out@[j],
{
    proof {
        lemma_distinct(points@);
    }
    let mut out: Vec<u64> = Vec::new();
    let mut t: usize = 0;
    assert(points@.subrange(0, 0) =~= Seq::<u64>::empty());
    while t < points.len()
        invariant
            t <= points@.len(),
            out@ == spec_distinct(points@.subrange(0, t as int)),
        decreases points@.len() - t,
    {
        let x = points[t];
        let mut seen = false;
        let mut u: usize = 0;
        while u < out.len()
            invariant
                u <= out@.len(),
                seen == exists|w: int| 0 <= w < u && out@[w] == x,
            decreases out@.len() - u,
        {
            if out[u] == x {
                seen = true;
            }
            u += 1;
        }
        proof {
            assert(points@.subrange(0, t + 1).drop_last() =~= points@.subrange(0, t as int));
            assert(points@.subrange(0, t + 1).last() == x);
        }
        if !seen {
            out.push(x);
        }
        t += 1;
    }
    assert(points@.subrange(0, t as int) =~= points@);
    out
}

/// Whether `x` is the point of its access distance in the log of `n`
/// entries: the least index at that distance, or with `worst` the
/// greatest.
pub open spec fn is_limit(worst: bool, x: Index, n: nat) -> bool {
    &&& 1 <= x <= n
    &&& forall|k: nat|
        1 <= k <= n && #[trigger] spec_access_distance(k, n) == spec_access_distance(x as nat, n)
            ==> if worst {
            k <= x
        } else {
            x <= k
        }
}

/// Whether one of `points` has the access distance `d` in the log of `n`
/// entries.
pub open spec fn has_point(points: Seq<Index>, n: nat, d: nat) -> bool {
    exists|i: int| 0 <= i < points.len() && spec_access_distance(#[trigger] points[i] as nat, n) == d
}

/// The points at which the log of `max_n` entries is measured in its best
/// case or, with `worst`, in its worst: for each access distance that
/// occurs, the least index at that distance or the greatest, in the order
/// of the distances.
pub fn gauge_points(worst: bool, max_n: Index) -> (out: Vec<Index>)
    ensures
        forall|i: int| 0 <= i < out@.len() ==> is_limit(worst, #[trigger] out@[i], max_n as nat),
        forall|i: int, j: int|
            0 <= i < j < out@.len() ==> spec_access_distance(
                #[trigger] out@[i] as nat,
                max_n as nat,
            ) < spec_access_distance(#[trigger] out@[j] as nat, max_n as nat),
        forall|i: int, j: int| 0 <= i < j < out@.len() ==> out@[i] != out@[j],
        forall|k: nat|
            1 <= k <= max_n ==> has_point(out@, max_n as nat, #[trigger] spec_access_distance(
                k,
                max_n as nat,
            )),
{
    let (upper, lower) = access_distance_limits(max_n);
    let ghost n = max_n as nat;
    let mut out: Vec<Index> = Vec::new();
    let mut d: usize = 0;
    while d < upper.len()
        invariant
            d <= upper@.len(),
            n == max_n,
            buckets_hold(upper@, lower@, n, n),
            forall|i: int|
                0 <= i < out@.len() ==> is_limit(worst, #[trigger] out@[i], n)
                    && spec_access_distance(out@[i] as nat, n) < d,
            forall|i: int, j: int|
                0 <= i < j < out@.len() ==> spec_access_distance(#[trigger] out@[i] as nat, n)
                    < spec_access_distance(#[trigger] out@[j] as nat, n),
            forall|k: nat|
                1 <= k <= n && spec_access_distance(k, n) < d ==> has_point(
                    out@,
                    n,
                    #[trigger] spec_access_distance(k, n),
                ),
        decreases upper@.len() - d,
    {
        let low = lower[d];
        let high = upper[d];
        let ghost before = out@;
        if low <= high {
            let x = if worst {
                high
            } else {
                low
            };
            proof {
                assert(in_bucket(upper@, lower@, d as int, x as nat));
                assert forall|k: nat|
                    1 <= k <= n && #[trigger] spec_access_distance(k, n) == spec_access_distance(
                        x as nat,
                        n,
                    ) implies if worst {
                    k <= x
                } else {
                    x <= k
                } by {
                    assert(in_bucket(upper@, lower@, d as int, k));
                }
            }
            out.push(x);
            proof {
                assert forall|k: nat|
                    1 <= k <= n && spec_access_distance(k, n) < d + 1 implies has_point(
                    out@,
                    n,
                    #[trigger] spec_access_distance(k, n),
                ) by {
                    if spec_access_distance(k, n) < d {
                        assert(has_point(before, n, spec_access_distance(k, n)));
                        let i = choose|i: int|
                            0 <= i < before.len() && spec_access_distance(
                                #[trigger] before[i] as nat,
                                n,
                            ) == spec_access_distance(k, n);
                        assert(out@[i] == before[i]);
                    } else {
                        assert(out@[before.len() as int] == x);
                    }
                }
            }
        } else {
            proof {
                assert forall|k: nat|
                    1 <= k <= n && spec_access_distance(k, n) < d + 1 implies has_point(
                    out@,
                    n,
                    #[trigger] spec_access_distance(k, n),
                ) by {
                    if spec_access_distance(k, n) == d {
                        assert(in_bucket(upper@, lower@, d as int, k));
                    }
                }
            }
        }
        d += 1;
    }
    out
}

/// Measures appends to a log in memory.
pub struct MemoryAppendDriver {}

impl MemoryAppendDriver {
    /// A driver with no run under way.
    pub fn new() -> Self {
        MemoryAppendDriver {  }
    }

    /// An empty log on a device in memory with room set aside for `max_n`
    /// entries of 60 bytes, for at most 2^20 entries.
    pub fn setup(&mut self, max_n: Index) -> (r: Result<
        Slate<BlockStorage<MemoryDevice, Entry>>,
        Error,
    >)
        ensures
            r matches Ok(db) ==> db.wf() && db.size() == 0,
            r is Ok,
    {
        let capacity: usize = if max_n > 0x10_0000 {
            60 * 0x10_0000
        } else {
            60 * (max_n as usize)
        };
        Slate::new_on_memory_with_capacity(capacity)
    }

    /// Appends `n` entries of mixed values.
    pub fn run<S: Storage<Entry>>(&mut self, db: &mut Slate<S>, n: u64) -> (r: Result<(), Error>)
        requires
            old(db).wf(),
        ensures
            final(db).wf(),
            final(db).extends(old(db)),
            final(db).size() <= old(db).size() + n,
            forall|x: int|
                0 <= x < final(db).size() - old(db).size() ==> #[trigger] final(db).payloads()[old(
                    db,
                ).size() + x] == spec_payload((x + 1) as u64),
            r is Ok ==> final(db).size() == old(db).size() + n,
            old(db).sequential() && old(db).size() + n <= Index::MAX && old(db).end() + n
                <= Position::MAX ==> r is Ok,
            n == 0 ==> r is Ok,
            n == 1 && old(db).size() < Index::MAX && old(db).accepts(spec_payload(1)) ==> r
                is Ok,
            old(db).sequential() ==> final(db).end() == old(db).end() + (final(db).size() - old(
                db,
            ).size()),
    {
        append_series(db, n)
    }
}

/// Measures appends to a log in a file.
pub struct FileAppendDriver {
    /// The file of the run under way.
    pub path: Option<String>,
}

impl FileAppendDriver {
    /// A driver with no run under way.
    pub fn new() -> (d: Self)
        ensures
            d.path is None,
    {
        FileAppendDriver { path: None }
    }

    /// Appends `n` entries of mixed values.
    pub fn run<S: Storage<Entry>>(&mut self, db: &mut Slate<S>, n: u64) -> (r: Result<(), Error>)
        requires
            old(db).wf(),
        ensures
            final(db).wf(),
            final(db).extends(old(db)),
            final(db).size() <= old(db).size() + n,
            forall|x: int|
                0 <= x < final(db).size() - old(db).size() ==> #[trigger] final(db).payloads()[old(
                    db,
                ).size() + x] == spec_payload((x + 1) as u64),
            r is Ok ==> final(db).size() == old(db).size() + n,
            old(db).sequential() && old(db).size() + n <= Index::MAX && old(db).end() + n
                <= Position::MAX ==> r is Ok,
            n == 0 ==> r is Ok,
            n == 1 && old(db).size() < Index::MAX && old(db).accepts(spec_payload(1)) ==> r
                is Ok,
            old(db).sequential() ==> final(db).end() == old(db).end() + (final(db).size() - old(
                db,
            ).size()),
    {
        append_series(db, n)
    }
}

/// Measures appends to a log in an external key-value store.
pub struct RocksDBAppendDriver {
    /// The directory of the run under way.
    pub dir: Option<String>,
}

impl RocksDBAppendDriver {
    /// A driver with no run under way.
    pub fn new() -> (d: Self)
        ensures
            d.dir is None,
    {
        RocksDBAppendDriver { dir: None }
    }

    /// Appends `n` entries of mixed values.
    pub fn run<S: Storage<Entry>>(&mut self, db: &mut Slate<S>, n: u64) -> (r: Result<(), Error>)
        requires
            old(db).wf(),
        ensures
            final(db).wf(),
            final(db).extends(old(db)),
            final(db).size() <= old(db).size() + n,
            forall|x: int|
                0 <= x < final(db).size() - old(db).size() ==> #[trigger] final(db).payloads()[old(
                    db,
                ).size() + x] == spec_payload((x + 1) as u64),
            r is Ok ==> final(db).size() == old(db).size() + n,
            old(db).sequential() && old(db).size() + n <= Index::MAX && old(db).end() + n
                <= Position::MAX ==> r is Ok,
            n == 0 ==> r is Ok,
            n == 1 && old(db).size() < Index::MAX && old(db).accepts(spec_payload(1)) ==> r
                is Ok,
            old(db).sequential() ==> final(db).end() == old(db).end() + (final(db).size() - old(
                db,
            ).size()),
    {
        append_series(db, n)
    }
}

/// Measures queries on a log in memory.
pub struct MemKVSQueryDriver {}

impl MemKVSQueryDriver {
    /// A driver with no run under way.
    pub fn new() -> Self {
        MemKVSQueryDriver {  }
    }

    /// A log in memory with `max_n` entries of mixed values.
    pub fn setup(&mut self, max_n: Index) -> (r: Result<Slate<MemKVS<Entry>>, Error>)
        ensures
            r matches Ok(db) ==> db.wf() && db.size() == max_n && mixed(
                db.payloads(),
                0,
                max_n as int,
            ),
            r matches Ok(db) ==> db.sequential() && db.reliable() && db.end() == max_n + 2,
            max_n < Index::MAX - 1 ==> r is Ok,
    {
        let storage = MemKVS::new();
        proof {
            storage.lemma_view();
            storage.lemma_empty();
        }
        let mut db = match Slate::new(storage) {
            Ok(db) => db,
            Err(e) => {
                return Err(e);
            },
        };
        match ensure(&mut db, max_n) {
            Ok(()) => Ok(db),
            Err(e) => Err(e),
        }
    }

    /// Whether entry `i` holds the mixed value of `i`.
    pub fn run<S: Storage<Entry>>(&mut self, db: &Slate<S>, i: u64) -> (r: Result<bool, Error>)
        requires
            db.wf(),
            1 <= i <= db.size(),
        ensures
            db.reliable() ==> r is Ok,
            r matches Ok(ok) ==> ok == (db.payloads()[i - 1] == spec_payload(i)),
    {
        run_query(db, i)
    }
}

/// Measures queries on a log in a file.
pub struct FileQueryDriver {
    /// The file of the run under way.
    pub path: Option<String>,
}

impl FileQueryDriver {
    /// A driver with no run under way.
    pub fn new() -> (d: Self)
        ensures
            d.path is None,
    {
        FileQueryDriver { path: None }
    }

    /// Whether entry `i` holds the mixed value of `i`.
    pub fn run<S: Storage<Entry>>(&mut self, db: &Slate<S>, i: u64) -> (r: Result<bool, Error>)
        requires
            db.wf(),
            1 <= i <= db.size(),
        ensures
            db.reliable() ==> r is Ok,
            r matches Ok(ok) ==> ok == (db.payloads()[i - 1] == spec_payload(i)),
    {
        run_query(db, i)
    }
}

/// Measures queries on a log in an external key-value store.
pub struct RocksDBQueryDriver {
    /// The directory of the run under way.
    pub dir: Option<String>,
}

impl RocksDBQueryDriver {
    /// A driver with no run under way.
    pub fn new() -> (d: Self)
        ensures
            d.dir is None,
    {
        RocksDBQueryDriver { dir: None }
    }

    /// Whether entry `i` holds the mixed value of `i`.
    pub fn run<S: Storage<Entry>>(&mut self, db: &Slate<S>, i: u64) -> (r: Result<bool, Error>)
        requires
            db.wf(),
            1 <= i <= db.size(),
        ensures
            db.reliable() ==> r is Ok,
            r matches Ok(ok) ==> ok == (db.payloads()[i - 1] == spec_payload(i)),
    {
        run_query(db, i)
    }
}

/// Measures how much of a file the first entries of a log take.
pub struct FileVolumeDriver {
    /// The file of the run under way.
    pub path: Option<String>,
}

impl FileVolumeDriver {
    /// A driver with no run under way.
    pub fn new() -> (d: Self)
        ensures
            d.path is None,
    {
        FileVolumeDriver { path: None }
    }

    /// Brings the log to `n` entries; the position of entry `n + 1` where
    /// there is one, else nothing.
    pub fn run<S: Storage<Entry>>(&mut self, db: &mut Slate<S>, n: u64) -> (r: Result<
        Option<Position>,
        Error,
    >)
        requires
            old(db).wf(),
        ensures
            final(db).wf(),
            final(db).extends(old(db)),
            mixed(final(db).payloads(), old(db).size() as int, final(db).size() as int),
            final(db).size() == old(db).size() || (old(db).size() < n && final(db).size() <= n),
            r matches Ok(found) ==> match found {
                Some(p) => n < final(db).size() && p == final(db).positions()[n as int],
                None => final(db).size() == n,
            },
            old(db).sequential() && old(db).reliable() && old(db).end() + (n - old(db).size())
                <= Position::MAX ==> r is Ok,
    {
        volume(db, n)
    }
}

/// Measures queries on a log in a file at one cache level.
pub struct FileCacheDriver {
    level: usize,
}

impl FileCacheDriver {
    /// The cache level of this driver.
    pub closed spec fn spec_level(&self) -> usize {
        self.level
    }

    /// A driver for queries at cache level `level`.
    pub fn new(level: usize) -> (d: Self)
        ensures
            d.spec_level() == level,
    {
        FileCacheDriver { level }
    }

    /// The cache level of this driver.
    pub fn level(&self) -> (level: usize)
        ensures
            level == self.spec_level(),
    {
        self.level
    }

    /// Whether entry `i` holds the mixed value of `i`.
    pub fn run<S: Storage<Entry>>(&mut self, db: &Slate<S>, i: u64) -> (r: Result<bool, Error>)
        requires
            db.wf(),
            1 <= i <= db.size(),
        ensures
            db.reliable() ==> r is Ok,
            r matches Ok(ok) ==> ok == (db.payloads()[i - 1] == spec_payload(i)),
    {
        run_query(db, i)
    }
}

} // verus!
