//! Crash recovery: what opening a device gives when the records on it end
//! in bytes that are no record.

use crate::block::{
    broken_at, cut_at, framed_at, last_of, lemma_frame_in_prefix, lemma_frame_stable,
    lemma_rows_agree, lemma_whole_is_unbroken, length_at, record_ok, records_ok, valid_record_at,
    whole,
};
use crate::block::BlockStorage;
use crate::device::Device;
use crate::entry::{lemma_entry_prefix, spec_entry, Entry, EntryView};
use crate::log::{holds_log, is_occupied, opened, stored, Slate};
use crate::storage::{lemma_listed_unique, listed, Position, Serializable, Storage};
use vstd::prelude::*;

verus! {

/// Whether the records `w` fill the first `p` bytes and the reading stops
/// there: `p` is the end of the bytes, or no valid record stands at `p`.
pub open spec fn stops_at<T: Serializable>(
    bytes: Seq<u8>,
    p: int,
    w: (Seq<Position>, Map<Position, T::V>),
) -> bool {
    &&& 0 <= p <= bytes.len()
    &&& p <= Position::MAX
    &&& records_ok::<T>(bytes.subrange(0, p), w.0, w.1)
    &&& p < bytes.len() ==> !valid_record_at::<T>(bytes, p, last_of(w.0))
}

/// The reading of records does not stop at two places.
pub proof fn lemma_stop_order<T: Serializable>(
    bytes: Seq<u8>,
    p: int,
    a: (Seq<Position>, Map<Position, T::V>),
    q: int,
    b: (Seq<Position>, Map<Position, T::V>),
)
    requires
        stops_at::<T>(bytes, p, a),
        stops_at::<T>(bytes, q, b),
        p <= q,
    ensures
        p == q,
{
    if p < q {
        let longer = bytes.subrange(0, q);
        assert(records_ok::<T>(longer, b.0, b.1));
        assert(whole::<T>(longer));
        assert(longer.subrange(0, p) =~= bytes.subrange(0, p));
        if valid_record_at::<T>(longer, p, last_of(a.0)) {
            lemma_frame_in_prefix(bytes, q, p);
        }
        assert(cut_at::<T>(longer, p as Position, a));
        assert(broken_at::<T>(longer, p as Position));
        lemma_whole_is_unbroken::<T>(longer, p as Position);
    }
}

/// Bytes are read as records in one way only: two rows of records that
/// fill the same bytes are the same row, with the same values.
pub proof fn lemma_rows_same<T: Serializable>(
    bytes: Seq<u8>,
    a: (Seq<Position>, Map<Position, T::V>),
    b: (Seq<Position>, Map<Position, T::V>),
)
    requires
        records_ok::<T>(bytes, a.0, a.1),
        records_ok::<T>(bytes, b.0, b.1),
    ensures
        a.0 == b.0,
        a.1 == b.1,
{
    let n = bytes.len() as int;
    assert(bytes.subrange(0, n) =~= bytes);
    if a.0.len() < b.0.len() {
        lemma_rows_agree::<T>(bytes, n, n, b, a, b.0.len() - 1);
    }
    if b.0.len() < a.0.len() {
        lemma_rows_agree::<T>(bytes, n, n, a, b, a.0.len() - 1);
    }
    assert(a.0.len() == b.0.len());
    assert forall|i: int| 0 <= i < a.0.len() implies a.0[i] == b.0[i] by {
        lemma_rows_agree::<T>(bytes, n, n, a, b, i);
    }
    assert(a.0 =~= b.0);
    assert forall|p: Position|
        (#[trigger] a.1.contains_key(p)) == b.1.contains_key(p) && (a.1.contains_key(p) ==> a.1[p]
            == b.1[p]) by {
        if a.1.contains_key(p) {
            assert(a.0.contains(p));
            let i = choose|i: int| 0 <= i < a.0.len() && a.0[i] == p;
            assert(record_ok::<T>(bytes, a.0, a.1, i));
            assert(record_ok::<T>(bytes, b.0, b.1, i));
        }
        if b.1.contains_key(p) {
            assert(b.0.contains(p));
            let i = choose|i: int| 0 <= i < b.0.len() && b.0[i] == p;
            assert(record_ok::<T>(bytes, a.0, a.1, i));
            assert(record_ok::<T>(bytes, b.0, b.1, i));
        }
    }
    assert(a.1.dom() =~= b.1.dom());
    assert(a.1 =~= b.1);
}

/// The reading of records stops at one place only, with one row of records
/// read.
pub proof fn lemma_stop_unique<T: Serializable>(
    bytes: Seq<u8>,
    p: int,
    a: (Seq<Position>, Map<Position, T::V>),
    q: int,
    b: (Seq<Position>, Map<Position, T::V>),
)
    requires
        stops_at::<T>(bytes, p, a),
        stops_at::<T>(bytes, q, b),
    ensures
        p == q,
        a.0 == b.0,
        a.1 == b.1,
{
    if p <= q {
        lemma_stop_order::<T>(bytes, p, a, q, b);
    } else {
        lemma_stop_order::<T>(bytes, q, b, p, a);
    }
    lemma_rows_same::<T>(bytes.subrange(0, p), a, b);
}

/// Whether `s` is what opening `device` with recovery gives: the storage
/// of the records that were read, on the bytes up to where the reading
/// stopped.
pub open spec fn recovered<D: Device, T: Serializable>(device: D, s: BlockStorage<D, T>) -> bool {
    &&& s.wf()
    &&& s.limit() <= device.bytes().len()
    &&& s.bytes() == device.bytes().subrange(0, s.limit() as int)
    &&& s.limit() < device.bytes().len() ==> !valid_record_at::<T>(
        device.bytes(),
        s.limit() as int,
        last_of(s.starts()),
    )
}

/// Where a device holds the records `w` up to `p` and no valid record at
/// `p`, opening it with recovery gives the storage of exactly those
/// records, which ends at `p`.
pub proof fn lemma_recovered<D: Device, T: Serializable>(
    device: D,
    s: BlockStorage<D, T>,
    p: Position,
    w: (Seq<Position>, Map<Position, T::V>),
)
    requires
        recovered(device, s),
        cut_at::<T>(device.bytes(), p, w),
    ensures
        s.limit() == p,
        s.starts() == w.0,
        s.values() == w.1,
{
    let bytes = device.bytes();
    assert(stops_at::<T>(bytes, p as int, w));
    assert(stops_at::<T>(bytes, s.limit() as int, (s.starts(), s.values())));
    lemma_stop_unique::<T>(bytes, p as int, w, s.limit() as int, (s.starts(), s.values()));
}

/// The records before the last fill the bytes before it.
pub proof fn lemma_drop_last_record<T: Serializable>(
    bytes: Seq<u8>,
    starts: Seq<Position>,
    values: Map<Position, T::V>,
)
    requires
        records_ok::<T>(bytes, starts, values),
        starts.len() >= 1,
    ensures
        starts.last() + 20 <= bytes.len(),
        records_ok::<T>(
            bytes.subrange(0, starts.last() as int),
            starts.drop_last(),
            values.remove(starts.last()),
        ),
        last_of(starts.drop_last()) == crate::block::back_at(bytes, starts.last() as int),
{
    let k = starts.len() as int;
    let p = starts.last() as int;
    let front = bytes.subrange(0, p);
    let fewer = starts.drop_last();
    let rest = values.remove(starts.last());
    assert(record_ok::<T>(bytes, starts, values, k - 1));
    if k == 1 {
        assert(starts[0] == 0);
        assert(front.len() == 0);
    } else {
        assert(record_ok::<T>(bytes, starts, values, k - 2));
    }
    assert forall|i: int| 0 <= i < fewer.len() implies #[trigger] record_ok::<T>(
        front,
        fewer,
        rest,
        i,
    ) by {
        assert(record_ok::<T>(bytes, starts, values, i));
        let at = starts[i] as int;
        assert(starts[i] < starts[k - 1]);
        if i + 1 < k - 1 {
            assert(starts[i + 1] < starts[k - 1]);
        }
        assert(at + 20 + length_at(bytes, at) == starts[i + 1]);
        assert(bytes.subrange(at, at + 20 + length_at(bytes, at)) =~= front.subrange(
            at,
            at + 20 + length_at(bytes, at),
        ));
        lemma_frame_stable(bytes, front, at);
        assert(fewer[i] == starts[i]);
        if i > 0 {
            assert(fewer[i - 1] == starts[i - 1]);
        }
        if i + 1 < fewer.len() {
            assert(fewer[i + 1] == starts[i + 1]);
        }
    }
    assert forall|q: Position| #[trigger] rest.contains_key(q) implies fewer.contains(q) by {
        assert(starts.contains(q));
        let i = choose|i: int| 0 <= i < starts.len() && starts[i] == q;
        assert(fewer[i] == q);
    }
    assert forall|i: int, j: int| 0 <= i < j < fewer.len() implies #[trigger] fewer[i]
        < #[trigger] fewer[j] by {
        assert(starts[i] < starts[j]);
    }
}

/// Whether `bad` is `good` with some of its last three bytes changed.
pub open spec fn tail_corrupted(good: Seq<u8>, bad: Seq<u8>) -> bool {
    &&& bad.len() == good.len()
    &&& forall|i: int| 0 <= i < good.len() - 3 ==> #[trigger] bad[i] == good[i]
    &&& bad != good
}

/// Where some of the last three bytes of the last record are changed, the
/// records before it stand as they stood and no valid record stands in its
/// place: the change is in the checksum, which then fits no longer.
pub proof fn lemma_corrupt_tail<T: Serializable>(
    good: Seq<u8>,
    bad: Seq<u8>,
    starts: Seq<Position>,
    values: Map<Position, T::V>,
)
    requires
        records_ok::<T>(good, starts, values),
        starts.len() >= 1,
        tail_corrupted(good, bad),
    ensures
        cut_at::<T>(bad, starts.last(), (starts.drop_last(), values.remove(starts.last()))),
{
    let k = starts.len() as int;
    let p = starts.last() as int;
    let len = length_at(good, p);
    lemma_drop_last_record::<T>(good, starts, values);
    assert(record_ok::<T>(good, starts, values, k - 1));
    assert(good.len() == p + 20 + len);
    assert(bad.subrange(0, p) =~= good.subrange(0, p));
    assert(bad.subrange(p + 4, p + 8) =~= good.subrange(p + 4, p + 8));
    assert(length_at(bad, p) == len);
    if framed_at(bad, p) {
        assert(bad.subrange(p, p + 16 + len) =~= good.subrange(p, p + 16 + len));
        let mine = bad.subrange(p + 16 + len, p + 20 + len);
        let theirs = good.subrange(p + 16 + len, p + 20 + len);
        assert(mine == theirs);
        assert forall|i: int| 0 <= i < good.len() implies bad[i] == good[i] by {
            if i >= good.len() - 3 {
                assert(bad[i] == mine[i - (p + 16 + len)]);
                assert(good[i] == theirs[i - (p + 16 + len)]);
            }
        }
        assert(bad =~= good);
    }
}

/// Records hold one log only: its payloads and the positions of its
/// records are told by the records.
pub proof fn lemma_log_unique(
    records: Map<Position, EntryView>,
    origin: Position,
    end: Position,
    a: (Seq<Seq<u8>>, Seq<Position>),
    b: (Seq<Seq<u8>>, Seq<Position>),
)
    requires
        holds_log(records, origin, end, a),
        holds_log(records, origin, end, b),
    ensures
        a.0 == b.0,
        a.1 == b.1,
{
    lemma_listed_unique(a.1, b.1, records, origin, end);
    let pa = a.1.subrange(1, a.1.len() as int);
    let pb = b.1.subrange(1, b.1.len() as int);
    assert(pa == pb);
    assert forall|x: int| 0 <= x < a.0.len() implies a.0[x] == b.0[x] by {
        let i = (x + 1) as nat;
        assert(records.contains_key(pa[i - 1]));
        assert(records[pa[i - 1]] == spec_entry(a.0, pa, i));
        assert(records.contains_key(pb[i - 1]));
        assert(records[pb[i - 1]] == spec_entry(b.0, pb, i));
        assert(spec_entry(a.0, pa, i).data == a.0[x]);
        assert(spec_entry(b.0, pb, i).data == b.0[x]);
    }
    assert(a.0 =~= b.0);
}

/// Records that hold a log hold, without the last of them, the log
/// without its last entry.
pub proof fn lemma_log_without_last(
    records: Map<Position, EntryView>,
    origin: Position,
    end: Position,
    w: (Seq<Seq<u8>>, Seq<Position>),
)
    requires
        holds_log(records, origin, end, w),
        w.0.len() >= 1,
    ensures
        holds_log(
            records.remove(w.1.last()),
            origin,
            w.1.last(),
            (w.0.drop_last(), w.1.drop_last()),
        ),
        is_occupied(records.remove(w.1.last()), origin, w.1.last()),
{
    let last = w.1.last();
    let rest = records.remove(last);
    let fewer = w.1.drop_last();
    let shorter = w.0.drop_last();
    let n = w.0.len() as int;
    let positions = w.1.subrange(1, w.1.len() as int);
    let places = fewer.subrange(1, fewer.len() as int);
    assert(places =~= positions.drop_last());
    assert(w.1[0] < w.1[n]);
    assert(fewer[0] == w.1[0]);
    assert(rest.contains_key(w.1[0]));
    assert forall|i: int, j: int| 0 <= i < j < fewer.len() implies #[trigger] fewer[i]
        < #[trigger] fewer[j] by {
        assert(w.1[i] < w.1[j]);
    }
    assert forall|i: int| 0 <= i < fewer.len() implies origin <= #[trigger] fewer[i] < last
        && rest.contains_key(fewer[i]) by {
        assert(w.1[i] < w.1[n]);
        assert(origin <= w.1[i] && records.contains_key(w.1[i]));
    }
    assert forall|p: Position| origin <= p < last && #[trigger] rest.contains_key(
        p,
    ) implies fewer.contains(p) by {
        assert(records.contains_key(p));
        assert(origin <= w.1[n] < end);
        assert(w.1.contains(p));
        let x = choose|x: int| 0 <= x < w.1.len() && w.1[x] == p;
        assert(fewer[x] == p);
    }
    assert(listed(fewer, rest, origin, last));
    assert forall|i: nat| 1 <= i <= shorter.len() implies rest.contains_key(
        #[trigger] places[i - 1],
    ) && rest[places[i - 1]] == spec_entry(shorter, places, i) by {
        assert(places[i - 1] == positions[i - 1]);
        assert(records.contains_key(positions[i - 1]));
        assert(positions[i - 1] == w.1[i as int]);
        assert(w.1[i as int] < w.1[n]);
        lemma_entry_prefix(shorter, places, w.0, positions, i);
    }
    assert(stored(rest, shorter, places, shorter.len()));
}

/// Crash recovery. A device held the records of a log of at least one
/// entry, and then some of the last three bytes of the last record were
/// changed. Opening the device with recovery, and the log on the storage
/// that this gives, gives the log without its last entry: it has one entry
/// fewer, and each entry has the payload that it had.
pub proof fn lemma_crash_recovery<D: Device>(
    good: Seq<u8>,
    starts: Seq<Position>,
    values: Map<Position, EntryView>,
    payloads: Seq<Seq<u8>>,
    device: D,
    storage: BlockStorage<D, Entry>,
    log: Slate<BlockStorage<D, Entry>>,
)
    requires
        records_ok::<Entry>(good, starts, values),
        holds_log(values, 0, good.len() as Position, (payloads, starts)),
        good.len() <= Position::MAX,
        payloads.len() >= 1,
        tail_corrupted(good, device.bytes()),
        recovered(device, storage),
        opened(storage, log),
    ensures
        log.size() == payloads.len() - 1,
        log.payloads() == payloads.drop_last(),
        storage.limit() == starts.last(),
{
    let last = starts.last();
    let rest = values.remove(last);
    let fewer = starts.drop_last();
    lemma_corrupt_tail::<Entry>(good, device.bytes(), starts, values);
    lemma_recovered::<D, Entry>(device, storage, last, (fewer, rest));
    storage.lemma_view();
    lemma_log_without_last(values, 0, good.len() as Position, (payloads, starts));
    assert(is_occupied(storage.records(), storage.origin(), storage.end()));
    lemma_log_unique(
        rest,
        0,
        last,
        (payloads.drop_last(), fewer),
        (log.payloads(), log.places()),
    );
}

} // verus!
