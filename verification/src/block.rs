//! Block storage: records framed on a block device. Each record is a magic
//! number, the length of its payload, the payload, the position of the
//! record before it, and a checksum over all of that.

use crate::codec::{get_u32, get_u64, put_bytes, put_u32, put_u64};
use crate::device::Device;
use crate::formula::reversed;
use crate::hash::blake3_digest;
use crate::storage::{Error, Position, Serializable, Storage};
use vstd::bytes::{
    lemma_auto_spec_u32_to_from_le_bytes, lemma_auto_spec_u64_to_from_le_bytes,
    spec_u32_from_le_bytes, spec_u32_to_le_bytes, spec_u64_from_le_bytes, spec_u64_to_le_bytes,
};
use vstd::prelude::*;
use vstd::slice::slice_subrange;

verus! {

/// The four bytes that every record begins with.
pub open spec fn magic() -> Seq<u8> {
    seq![0x53u8, 0x4cu8, 0x54u8, 0x31u8]
}

/// The bytes that a record takes besides its payload.
pub const FRAME_EXTRA: usize = 20;

/// The checksum of the bytes of a record before it: the first four bytes
/// of their digest.
pub open spec fn spec_checksum(body: Seq<u8>) -> Seq<u8> {
    Seq::new(4, |i: int| blake3_digest(body)[i])
}

/// A record without its checksum.
pub open spec fn spec_body(payload: Seq<u8>, back: Position) -> Seq<u8> {
    magic() + spec_u32_to_le_bytes(payload.len() as u32) + payload + spec_u64_to_le_bytes(back)
}

/// The bytes of the record with the given payload whose predecessor stands
/// at `back`.
pub open spec fn spec_frame(payload: Seq<u8>, back: Position) -> Seq<u8> {
    spec_body(payload, back) + spec_checksum(spec_body(payload, back))
}

/// The payload length that the record at `pos` declares.
pub open spec fn length_at(bytes: Seq<u8>, pos: int) -> int {
    spec_u32_from_le_bytes(bytes.subrange(pos + 4, pos + 8)) as int
}

/// The payload of the record at `pos`.
pub open spec fn payload_at(bytes: Seq<u8>, pos: int) -> Seq<u8> {
    bytes.subrange(pos + 8, pos + 8 + length_at(bytes, pos))
}

/// The back-pointer of the record at `pos`.
pub open spec fn back_at(bytes: Seq<u8>, pos: int) -> Position {
    spec_u64_from_le_bytes(
        bytes.subrange(pos + 8 + length_at(bytes, pos), pos + 16 + length_at(bytes, pos)),
    )
}

/// Whether a well-formed record stands at `pos`: the magic number, a
/// length within the bytes, and a checksum that fits.
pub open spec fn framed_at(bytes: Seq<u8>, pos: int) -> bool {
    &&& 0 <= pos
    &&& pos + 20 <= bytes.len()
    &&& bytes.subrange(pos, pos + 4) == magic()
    &&& pos + 20 + length_at(bytes, pos) <= bytes.len()
    &&& bytes.subrange(pos + 16 + length_at(bytes, pos), pos + 20 + length_at(bytes, pos))
        == spec_checksum(bytes.subrange(pos, pos + 16 + length_at(bytes, pos)))
}

/// Where the bytes hold `spec_frame(payload, back)` from `pos` on, a
/// well-formed record with that payload and back-pointer stands at `pos`.
pub proof fn lemma_frame_stands(bytes: Seq<u8>, pos: int, payload: Seq<u8>, back: Position)
    requires
        0 <= pos,
        payload.len() <= u32::MAX,
        pos + 20 + payload.len() <= bytes.len(),
        bytes.subrange(pos, pos + 20 + payload.len()) == spec_frame(payload, back),
    ensures
        framed_at(bytes, pos),
        length_at(bytes, pos) == payload.len(),
        payload_at(bytes, pos) == payload,
        back_at(bytes, pos) == back,
{
    lemma_auto_spec_u32_to_from_le_bytes();
    lemma_auto_spec_u64_to_from_le_bytes();
    let len = payload.len() as int;
    let frame = spec_frame(payload, back);
    let body = spec_body(payload, back);
    assert(body.len() == 16 + len);
    assert(frame.len() == 20 + len);
    assert(bytes.subrange(pos + 4, pos + 8) =~= frame.subrange(4, 8));
    assert(frame.subrange(4, 8) =~= spec_u32_to_le_bytes(payload.len() as u32));
    assert(length_at(bytes, pos) == len);
    assert(bytes.subrange(pos, pos + 4) =~= frame.subrange(0, 4));
    assert(frame.subrange(0, 4) =~= magic());
    assert(bytes.subrange(pos + 8, pos + 8 + len) =~= frame.subrange(8, 8 + len));
    assert(frame.subrange(8, 8 + len) =~= payload);
    assert(bytes.subrange(pos + 8 + len, pos + 16 + len) =~= frame.subrange(8 + len, 16 + len));
    assert(frame.subrange(8 + len, 16 + len) =~= spec_u64_to_le_bytes(back));
    assert(bytes.subrange(pos, pos + 16 + len) =~= frame.subrange(0, 16 + len));
    assert(frame.subrange(0, 16 + len) =~= body);
    assert(bytes.subrange(pos + 16 + len, pos + 20 + len) =~= frame.subrange(16 + len, 20 + len));
    assert(frame.subrange(16 + len, 20 + len) =~= spec_checksum(body));
}

/// A record is what it is by its own bytes: where two byte strings agree
/// on the bytes of a record of one, the other holds the same record.
pub proof fn lemma_frame_stable(a: Seq<u8>, b: Seq<u8>, pos: int)
    requires
        framed_at(a, pos),
        pos + 20 + length_at(a, pos) <= b.len(),
        a.subrange(pos, pos + 20 + length_at(a, pos)) == b.subrange(
            pos,
            pos + 20 + length_at(a, pos),
        ),
    ensures
        framed_at(b, pos),
        length_at(b, pos) == length_at(a, pos),
        payload_at(b, pos) == payload_at(a, pos),
        back_at(b, pos) == back_at(a, pos),
{
    let len = length_at(a, pos);
    let fa = a.subrange(pos, pos + 20 + len);
    let fb = b.subrange(pos, pos + 20 + len);
    assert(a.subrange(pos + 4, pos + 8) =~= fa.subrange(4, 8));
    assert(b.subrange(pos + 4, pos + 8) =~= fb.subrange(4, 8));
    assert(a.subrange(pos, pos + 4) =~= fa.subrange(0, 4));
    assert(b.subrange(pos, pos + 4) =~= fb.subrange(0, 4));
    assert(a.subrange(pos + 8, pos + 8 + len) =~= fa.subrange(8, 8 + len));
    assert(b.subrange(pos + 8, pos + 8 + len) =~= fb.subrange(8, 8 + len));
    assert(a.subrange(pos + 8 + len, pos + 16 + len) =~= fa.subrange(8 + len, 16 + len));
    assert(b.subrange(pos + 8 + len, pos + 16 + len) =~= fb.subrange(8 + len, 16 + len));
    assert(a.subrange(pos, pos + 16 + len) =~= fa.subrange(0, 16 + len));
    assert(b.subrange(pos, pos + 16 + len) =~= fb.subrange(0, 16 + len));
    assert(a.subrange(pos + 16 + len, pos + 20 + len) =~= fa.subrange(16 + len, 20 + len));
    assert(b.subrange(pos + 16 + len, pos + 20 + len) =~= fb.subrange(16 + len, 20 + len));
}

/// The four checksum bytes of `body`.
pub fn checksum(body: &[u8]) -> (sum: Vec<u8>)
    ensures
        sum@ == spec_checksum(body@),
{
    let digest = crate::hash::Hash::from_bytes(body);
    let mut sum: Vec<u8> = Vec::new();
    let mut k: usize = 0;
    while k < 4
        invariant
            k <= 4,
            digest@ == blake3_digest(body@),
            digest@.len() == 32,
            sum@.len() == k,
            forall|x: int| 0 <= x < k ==> sum@[x] == blake3_digest(body@)[x],
        decreases 4 - k,
    {
        sum.push(digest.value[k]);
        k += 1;
    }
    assert(sum@ =~= spec_checksum(body@));
    sum
}

/// The bytes of the record with the given payload and back-pointer.
pub fn build_frame(payload: &[u8], back: Position) -> (frame: Vec<u8>)
    requires
        payload@.len() <= u32::MAX,
    ensures
        frame@ == spec_frame(payload@, back),
        frame@.len() == payload@.len() + 20,
{
    proof {
        lemma_auto_spec_u32_to_from_le_bytes();
        lemma_auto_spec_u64_to_from_le_bytes();
    }
    let mut frame: Vec<u8> = Vec::new();
    frame.push(0x53);
    frame.push(0x4c);
    frame.push(0x54);
    frame.push(0x31);
    assert(frame@ =~= magic());
    put_u32(&mut frame, payload.len() as u32);
    put_bytes(&mut frame, payload);
    put_u64(&mut frame, back);
    assert(frame@ =~= spec_body(payload@, back));
    let sum = checksum(frame.as_slice());
    put_bytes(&mut frame, sum.as_slice());
    frame
}

/// Whether `frame` is, from its first byte to its last, one well-formed
/// record.
pub fn check_frame(frame: &[u8]) -> (ok: bool)
    ensures
        ok == (framed_at(frame@, 0) && frame@.len() == 20 + length_at(frame@, 0)),
{
    let total = frame.len();
    if total < 20 {
        return false;
    }
    if frame[0] != 0x53 || frame[1] != 0x4c || frame[2] != 0x54 || frame[3] != 0x31 {
        assert(frame@.subrange(0, 4)[0] == frame@[0]);
        assert(frame@.subrange(0, 4)[1] == frame@[1]);
        assert(frame@.subrange(0, 4)[2] == frame@[2]);
        assert(frame@.subrange(0, 4)[3] == frame@[3]);
        return false;
    }
    assert(frame@.subrange(0, 4) =~= magic());
    let len = match get_u32(frame, 4) {
        Some(len) => len as usize,
        None => {
            return false;
        },
    };
    if total - 20 != len {
        return false;
    }
    let sum = checksum(slice_subrange(frame, 0, 16 + len));
    let mut k: usize = 0;
    while k < 4
        invariant
            k <= 4,
            total == frame@.len() == 20 + len,
            len == length_at(frame@, 0),
            sum@ == spec_checksum(frame@.subrange(0, 16 + len)),
            frame@.subrange(0, 4) == magic(),
            sum@.len() == 4,
            forall|x: int| 0 <= x < k ==> sum@[x] == frame@[16 + len + x],
        decreases 4 - k,
    {
        if sum[k] != frame[16 + len + k] {
            assert(frame@.subrange(16 + len, 20 + len)[k as int] == frame@[16 + len + k]);
            return false;
        }
        k += 1;
    }
    assert(frame@.subrange(16 + len, 20 + len) =~= sum@);
    true
}

/// The position of the record before record number `i`; 0 for the first.
pub open spec fn back_of(starts: Seq<Position>, i: int) -> Position {
    if i == 0 {
        0
    } else {
        starts[i - 1]
    }
}

/// Where `position` stands in the ascending `starts`, if it does.
pub fn find(starts: &Vec<Position>, position: Position) -> (found: Option<usize>)
    requires
        forall|i: int, j: int| 0 <= i < j < starts@.len() ==> starts@[i] < starts@[j],
    ensures
        match found {
            Some(i) => i < starts@.len() && starts@[i as int] == position,
            None => !starts@.contains(position),
        },
{
    let mut low: usize = 0;
    let mut high: usize = starts.len();
    while low < high
        invariant
            low <= high <= starts@.len(),
            forall|i: int, j: int| 0 <= i < j < starts@.len() ==> starts@[i] < starts@[j],
            forall|i: int| 0 <= i < low ==> starts@[i] < position,
            forall|i: int| high <= i < starts@.len() ==> starts@[i] > position,
        decreases high - low,
    {
        let mid = low + (high - low) / 2;
        let at = starts[mid];
        if at == position {
            return Some(mid);
        } else if at < position {
            low = mid + 1;
        } else {
            high = mid;
        }
    }
    assert forall|i: int| 0 <= i < starts@.len() implies starts@[i] != position by {}
    None
}

/// Whether record number `i` is in order: well-formed, pointing back at
/// the record before it, holding the payload of its value, and ending
/// where the next record begins or the bytes end.
pub open spec fn record_ok<T: Serializable>(
    bytes: Seq<u8>,
    starts: Seq<Position>,
    values: Map<Position, T::V>,
    i: int,
) -> bool {
    let p = starts[i] as int;
    &&& framed_at(bytes, p)
    &&& back_at(bytes, p) == back_of(starts, i)
    &&& values.contains_key(starts[i])
    &&& T::spec_read(payload_at(bytes, p), starts[i]) == Some(values[starts[i]])
    &&& if i + 1 < starts.len() {
        starts[i + 1] == p + 20 + length_at(bytes, p)
    } else {
        bytes.len() == p + 20 + length_at(bytes, p)
    }
}

/// Whether `bytes` hold the records that begin at `starts`, one after the
/// other from position 0 to the end, with the values `values`.
pub open spec fn records_ok<T: Serializable>(
    bytes: Seq<u8>,
    starts: Seq<Position>,
    values: Map<Position, T::V>,
) -> bool {
    &&& starts.len() == 0 ==> bytes.len() == 0
    &&& starts.len() > 0 ==> starts[0] == 0
    &&& forall|i: int, j: int|
        0 <= i < j < starts.len() ==> #[trigger] starts[i] < #[trigger] starts[j]
    &&& forall|i: int| 0 <= i < starts.len() ==> #[trigger] record_ok::<T>(bytes, starts, values, i)
    &&& forall|p: Position| #[trigger] values.contains_key(p) ==> starts.contains(p)
}

/// Records that are in order stay so when a record is appended.
pub proof fn lemma_append_keeps<T: Serializable>(
    before: Seq<u8>,
    starts: Seq<Position>,
    values: Map<Position, T::V>,
    payload: Seq<u8>,
    v: T::V,
)
    requires
        records_ok::<T>(before, starts, values),
        payload.len() <= u32::MAX,
        before.len() + 20 + payload.len() <= Position::MAX,
        T::spec_read(payload, before.len() as Position) == Some(v),
    ensures
        records_ok::<T>(
            before + spec_frame(
                payload,
                if starts.len() == 0 {
                    0
                } else {
                    starts.last()
                },
            ),
            starts.push(before.len() as Position),
            values.insert(before.len() as Position, v),
        ),
{
    let back = if starts.len() == 0 {
        0
    } else {
        starts.last()
    };
    let position = before.len() as Position;
    let frame = spec_frame(payload, back);
    let after = before + frame;
    let starts2 = starts.push(position);
    let values2 = values.insert(position, v);
    let n = starts.len() as int;
    lemma_auto_spec_u32_to_from_le_bytes();
    lemma_auto_spec_u64_to_from_le_bytes();
    assert(frame.len() == 20 + payload.len());
    assert(after.subrange(position as int, position + 20 + payload.len()) =~= frame);
    lemma_frame_stands(after, position as int, payload, back);
    assert forall|i: int| 0 <= i < starts2.len() implies #[trigger] record_ok::<T>(
        after,
        starts2,
        values2,
        i,
    ) by {
        if i < n {
            let p = starts[i] as int;
            assert(record_ok::<T>(before, starts, values, i));
            assert(record_ok::<T>(before, starts, values, n - 1));
            if i + 1 < n {
                assert(starts[i + 1] <= starts[n - 1]);
                assert(starts2[i + 1] == starts[i + 1]);
            }
            assert(p + 20 + length_at(before, p) <= before.len());
            assert(before.subrange(p, p + 20 + length_at(before, p)) =~= after.subrange(
                p,
                p + 20 + length_at(before, p),
            ));
            lemma_frame_stable(before, after, p);
            assert(starts2[i] == starts[i]);
            assert(starts[i] < position) by {
                assert(framed_at(before, p));
            }
        }
    }
    assert forall|i: int, j: int| 0 <= i < j < starts2.len() implies #[trigger] starts2[i]
        < #[trigger] starts2[j] by {
        if j == n {
            assert(record_ok::<T>(before, starts, values, i));
            assert(framed_at(before, starts[i] as int));
        }
    }
    assert forall|p: Position| #[trigger] values2.contains_key(p) implies starts2.contains(p) by {
        if p == position {
            assert(starts2[n] == position);
        } else {
            assert(values.contains_key(p));
            let w = choose|w: int| 0 <= w < starts.len() && starts[w] == p;
            assert(starts2[w] == p);
        }
    }
    if n > 0 {
        assert(starts2[0] == starts[0]);
    }
}

/// Records that are in order stay so when one of them is replaced by a
/// record of the same length.
pub proof fn lemma_replace_keeps<T: Serializable>(
    before: Seq<u8>,
    after: Seq<u8>,
    starts: Seq<Position>,
    values: Map<Position, T::V>,
    idx: int,
    payload: Seq<u8>,
    v: T::V,
)
    requires
        records_ok::<T>(before, starts, values),
        0 <= idx < starts.len(),
        payload.len() == length_at(before, starts[idx] as int),
        T::spec_read(payload, starts[idx]) == Some(v),
        after == before.subrange(0, starts[idx] as int) + spec_frame(
            payload,
            back_of(starts, idx),
        ) + before.subrange(starts[idx] + 20 + payload.len(), before.len() as int),
    ensures
        records_ok::<T>(after, starts, values.insert(starts[idx], v)),
        after.len() == before.len(),
{
    let position = starts[idx];
    let back = back_of(starts, idx);
    let frame = spec_frame(payload, back);
    let values2 = values.insert(position, v);
    let len = payload.len() as int;
    lemma_auto_spec_u32_to_from_le_bytes();
    lemma_auto_spec_u64_to_from_le_bytes();
    lemma_length_bound(before, position as int);
    assert(record_ok::<T>(before, starts, values, idx));
    assert(frame.len() == 20 + len);
    assert(after.len() == before.len());
    assert(after.subrange(position as int, position + 20 + len) =~= frame);
    lemma_frame_stands(after, position as int, payload, back);
    assert forall|i: int| 0 <= i < starts.len() implies #[trigger] record_ok::<T>(
        after,
        starts,
        values2,
        i,
    ) by {
        assert(record_ok::<T>(before, starts, values, i));
        if i != idx {
            let p = starts[i] as int;
            if i < idx {
                if i + 1 < idx {
                    assert(starts[i + 1] < starts[idx]);
                }
            } else {
                if idx + 1 < i {
                    assert(starts[idx + 1] < starts[i]);
                }
            }
            assert(before.subrange(p, p + 20 + length_at(before, p)) =~= after.subrange(
                p,
                p + 20 + length_at(before, p),
            ));
            lemma_frame_stable(before, after, p);
        }
    }
    assert forall|p: Position| #[trigger] values2.contains_key(p) implies starts.contains(p) by {
        if p == position {
            assert(starts[idx] == position);
        }
    }
}

/// A payload length is at most the greatest 32-bit number.
pub proof fn lemma_length_bound(bytes: Seq<u8>, pos: int)
    ensures
        0 <= length_at(bytes, pos) <= u32::MAX,
{
}

/// A well-formed record that fills its bytes is the frame of its payload
/// and its back-pointer.
pub proof fn lemma_frame_is(frame: Seq<u8>)
    requires
        framed_at(frame, 0),
        frame.len() == 20 + length_at(frame, 0),
    ensures
        frame == spec_frame(payload_at(frame, 0), back_at(frame, 0)),
        payload_at(frame, 0).len() == length_at(frame, 0),
{
    lemma_auto_spec_u32_to_from_le_bytes();
    lemma_auto_spec_u64_to_from_le_bytes();
    let len = length_at(frame, 0);
    let payload = payload_at(frame, 0);
    let back = back_at(frame, 0);
    let body = spec_body(payload, back);
    assert(spec_u32_to_le_bytes(payload.len() as u32) == frame.subrange(4, 8));
    assert(spec_u64_to_le_bytes(back) == frame.subrange(8 + len, 16 + len));
    assert(body =~= frame.subrange(0, 16 + len));
    assert(frame =~= body + spec_checksum(body));
}

/// The bytes of a record say the same read on their own as read in
/// their place.
pub proof fn lemma_frame_shift(bytes: Seq<u8>, pos: int, frame: Seq<u8>)
    requires
        0 <= pos,
        frame.len() >= 20,
        pos + frame.len() <= bytes.len(),
        frame == bytes.subrange(pos, pos + frame.len()),
    ensures
        length_at(frame, 0) == length_at(bytes, pos),
        frame.len() == 20 + length_at(bytes, pos) ==> {
            &&& framed_at(frame, 0) == framed_at(bytes, pos)
            &&& payload_at(frame, 0) == payload_at(bytes, pos)
            &&& back_at(frame, 0) == back_at(bytes, pos)
        },
        frame.len() < 20 + length_at(bytes, pos) ==> !framed_at(frame, 0),
{
    assert(frame.subrange(4, 8) =~= bytes.subrange(pos + 4, pos + 8));
    let len = length_at(bytes, pos);
    if frame.len() == 20 + len {
        assert(frame.subrange(0, 4) =~= bytes.subrange(pos, pos + 4));
        assert(frame.subrange(8, 8 + len) =~= bytes.subrange(pos + 8, pos + 8 + len));
        assert(frame.subrange(8 + len, 16 + len) =~= bytes.subrange(pos + 8 + len, pos + 16 + len));
        assert(frame.subrange(0, 16 + len) =~= bytes.subrange(pos, pos + 16 + len));
        assert(frame.subrange(16 + len, 20 + len) =~= bytes.subrange(
            pos + 16 + len,
            pos + 20 + len,
        ));
    }
}

/// Whether a record that can be taken into the storage stands at `pos`:
/// well-formed, pointing back at `back`, with a payload that stands for a
/// value.
pub open spec fn valid_record_at<T: Serializable>(bytes: Seq<u8>, pos: int, back: Position) -> bool {
    &&& framed_at(bytes, pos)
    &&& back_at(bytes, pos) == back
    &&& T::spec_read(payload_at(bytes, pos), pos as Position) is Some
}

/// Whether the bytes before `position` are the records `w`, one after the
/// other, and no valid record follows them at `position`.
pub open spec fn cut_at<T: Serializable>(
    bytes: Seq<u8>,
    position: Position,
    w: (Seq<Position>, Map<Position, T::V>),
) -> bool {
    &&& position < bytes.len()
    &&& records_ok::<T>(bytes.subrange(0, position as int), w.0, w.1)
    &&& !valid_record_at::<T>(bytes, position as int, last_of(w.0))
}

/// Whether the bytes are records in order up to `position` and no valid
/// record stands there.
pub open spec fn broken_at<T: Serializable>(bytes: Seq<u8>, position: Position) -> bool {
    exists|w: (Seq<Position>, Map<Position, T::V>)| cut_at::<T>(bytes, position, w)
}

/// Whether the bytes are records in order from the first byte to the last.
pub open spec fn whole<T: Serializable>(bytes: Seq<u8>) -> bool {
    exists|w: (Seq<Position>, Map<Position, T::V>)| #[trigger] records_ok::<T>(bytes, w.0, w.1)
}

/// A record that stands within the first `p` bytes stands in the bytes as
/// a whole, with the same length, payload and back-pointer.
pub proof fn lemma_frame_in_prefix(bytes: Seq<u8>, p: int, pos: int)
    requires
        0 <= p <= bytes.len(),
        framed_at(bytes.subrange(0, p), pos),
    ensures
        framed_at(bytes, pos),
        length_at(bytes, pos) == length_at(bytes.subrange(0, p), pos),
        payload_at(bytes, pos) == payload_at(bytes.subrange(0, p), pos),
        back_at(bytes, pos) == back_at(bytes.subrange(0, p), pos),
{
    let a = bytes.subrange(0, p);
    let len = length_at(a, pos);
    assert(a.subrange(pos, pos + 20 + len) =~= bytes.subrange(pos, pos + 20 + len));
    lemma_frame_stable(a, bytes, pos);
}

/// Records are read in one way only: of two rows of records that fill the
/// first `p` and the first `q` bytes, the shorter begins the longer.
pub proof fn lemma_rows_agree<T: Serializable>(
    bytes: Seq<u8>,
    p: int,
    q: int,
    a: (Seq<Position>, Map<Position, T::V>),
    b: (Seq<Position>, Map<Position, T::V>),
    i: int,
)
    requires
        0 <= p <= q <= bytes.len(),
        records_ok::<T>(bytes.subrange(0, p), a.0, a.1),
        records_ok::<T>(bytes.subrange(0, q), b.0, b.1),
        0 <= i < a.0.len(),
    ensures
        i < b.0.len(),
        a.0[i] == b.0[i],
    decreases i,
{
    let front = bytes.subrange(0, p);
    let longer = bytes.subrange(0, q);
    assert(record_ok::<T>(front, a.0, a.1, i));
    if i == 0 {
        assert(record_ok::<T>(front, a.0, a.1, 0));
    } else {
        lemma_rows_agree::<T>(bytes, p, q, a, b, i - 1);
        let s = a.0[i - 1] as int;
        assert(record_ok::<T>(front, a.0, a.1, i - 1));
        assert(record_ok::<T>(longer, b.0, b.1, i - 1));
        lemma_frame_in_prefix(bytes, p, s);
        lemma_frame_in_prefix(bytes, q, s);
    }
}

/// Bytes that are records from the first to the last are broken nowhere.
pub proof fn lemma_whole_is_unbroken<T: Serializable>(bytes: Seq<u8>, position: Position)
    requires
        whole::<T>(bytes),
    ensures
        !broken_at::<T>(bytes, position),
{
    if broken_at::<T>(bytes, position) {
        let b = choose|w: (Seq<Position>, Map<Position, T::V>)| #[trigger]
            records_ok::<T>(bytes, w.0, w.1);
        let a = choose|w: (Seq<Position>, Map<Position, T::V>)| cut_at::<T>(bytes, position, w);
        let p = position as int;
        let q = bytes.len() as int;
        let front = bytes.subrange(0, p);
        assert(bytes.subrange(0, q) =~= bytes);
        let k = a.0.len() as int;
        if k == 0 {
            assert(record_ok::<T>(bytes, b.0, b.1, 0));
        } else {
            lemma_rows_agree::<T>(bytes, p, q, a, b, k - 1);
            let s = a.0[k - 1] as int;
            assert(record_ok::<T>(front, a.0, a.1, k - 1));
            assert(record_ok::<T>(bytes, b.0, b.1, k - 1));
            lemma_frame_in_prefix(bytes, p, s);
            assert(k < b.0.len());
            assert(record_ok::<T>(bytes, b.0, b.1, k));
        }
    }
}

/// The position of the last of the records that begin at `starts`; 0 where
/// there is none.
pub open spec fn last_of(starts: Seq<Position>) -> Position {
    if starts.len() == 0 {
        0
    } else {
        starts.last()
    }
}

/// Records of one type framed on a block device.
pub struct BlockStorage<D: Device, T: Serializable> {
    device: D,
    starts: Vec<Position>,
    end: Position,
    values: Ghost<Map<Position, T::V>>,
}

impl<D: Device, T: Serializable> BlockStorage<D, T> {
    /// The bytes on the device.
    pub closed spec fn bytes(&self) -> Seq<u8> {
        self.device.bytes()
    }

    /// Where the records begin, in the order in which they were put.
    pub closed spec fn starts(&self) -> Seq<Position> {
        self.starts@
    }

    /// The values of the records, by position.
    pub closed spec fn values(&self) -> Map<Position, T::V> {
        self.values@
    }

    /// The device behind the storage.
    pub closed spec fn spec_device(&self) -> D {
        self.device
    }

    /// The position after the last record.
    pub closed spec fn limit(&self) -> Position {
        self.end
    }

    /// The invariant: the device holds the records one after the other from
    /// position 0 to its end, each well-formed, each pointing back at the
    /// one before it, each with a payload that stands for its value.
    pub open spec fn wf(&self) -> bool {
        &&& self.limit() == self.bytes().len()
        &&& records_ok::<T>(self.bytes(), self.starts(), self.values())
    }

    /// What the storage is as a storage: its records are its values, it
    /// begins at 0 and ends at its limit, and it is as reliable as its
    /// device.
    pub proof fn lemma_view(&self)
        ensures
            self.records() == self.values(),
            self.origin() == 0,
            self.end() == self.limit(),
            self.tail() == if self.starts().len() == 0 {
                None
            } else {
                Some(self.starts().last())
            },
            self.reliable() == self.spec_device().reliable(),
            self.inv() == self.wf(),
    {
    }

    /// A record that fits is accepted at the end of a storage on a reliable
    /// device with room for it.
    pub proof fn lemma_accepts_at_end(&self, data: T::V)
        requires
            self.wf(),
            T::storable(data),
            T::placed(data, self.limit()),
            T::spec_bytes(data).len() <= u32::MAX,
            self.spec_device().reliable(),
            self.limit() + 20 + T::spec_bytes(data).len() <= self.spec_device().limit(),
            self.limit() + 20 + T::spec_bytes(data).len() <= Position::MAX,
        ensures
            self.accepts(self.limit(), data),
    {
    }

    /// The number of records.
    pub fn count(&self) -> (n: usize)
        ensures
            n == self.starts().len(),
    {
        self.starts.len()
    }

    /// Gives the device back.
    pub fn into_device(self) -> (device: D)
        ensures
            device == self.spec_device(),
    {
        self.device
    }

    /// The device behind the storage.
    pub fn device(&self) -> (device: &D)
        ensures
            *device == self.spec_device(),
    {
        &self.device
    }

    /// A storage on an empty device.
    pub fn new(device: D) -> (r: Result<Self, Error>)
        ensures
            r matches Ok(s) ==> s.wf() && s.spec_device() == device && s.starts().len() == 0
                && s.values() == Map::<Position, T::V>::empty(),
            device.reliable() && device.bytes().len() == 0 ==> r is Ok,
            device.reliable() && device.bytes().len() > 0 ==> r is Err,
    {
        let total = match device.len() {
            Ok(total) => total,
            Err(e) => {
                return Err(e);
            },
        };
        if total != 0 {
            return Err(Error::Invariant);
        }
        Ok(BlockStorage { device, starts: Vec::new(), end: 0, values: Ghost(Map::empty()) })
    }

    /// Whether a valid record stands at `pos` on the device, and if so,
    /// where it ends.
    fn take_record(device: &D, total: u64, pos: u64, back: u64) -> (r: Result<Option<u64>, Error>)
        requires
            total == device.bytes().len(),
            pos < total,
        ensures
            device.reliable() && total <= usize::MAX ==> r is Ok,
            r matches Ok(found) ==> match found {
                Some(next) => valid_record_at::<T>(device.bytes(), pos as int, back) && next == pos
                    + 20 + length_at(device.bytes(), pos as int) && next <= total,
                None => !valid_record_at::<T>(device.bytes(), pos as int, back),
            },
    {
        let ghost bytes = device.bytes();
        if total - pos < 20 {
            return Ok(None);
        }
        let header = match device.read_exact(pos, 8) {
            Ok(header) => header,
            Err(e) => {
                return Err(e);
            },
        };
        let len = match get_u32(header.as_slice(), 4) {
            Some(len) => len as u64,
            None => {
                return Ok(None);
            },
        };
        proof {
            assert(header@.subrange(4, 8) =~= bytes.subrange(pos + 4, pos + 8));
        }
        if total - pos - 20 < len {
            return Ok(None);
        }
        if len > (usize::MAX - 20) as u64 {
            return Err(Error::Capacity);
        }
        let flen = (20 + len) as usize;
        let frame = match device.read_exact(pos, flen) {
            Ok(frame) => frame,
            Err(e) => {
                return Err(e);
            },
        };
        proof {
            lemma_frame_shift(bytes, pos as int, frame@);
        }
        if !check_frame(frame.as_slice()) {
            return Ok(None);
        }
        let at = (8 + len) as usize;
        match get_u64(frame.as_slice(), at) {
            Some(found) => if found != back {
                return Ok(None);
            },
            None => {
                return Ok(None);
            },
        }
        let payload = slice_subrange(frame.as_slice(), 8, at);
        match T::read(payload, pos) {
            Ok(_) => Ok(Some(pos + 20 + len)),
            Err(_) => Ok(None),
        }
    }

    /// Opens the storage that `device` holds, reading its records from the
    /// first on. With `recover`, the device is cut off before the first
    /// record that is not valid; without, such a record is an error.
    pub fn open(device: D, recover: bool) -> (r: Result<Self, Error>)
        ensures
            device.reliable() && device.bytes().len() <= usize::MAX && recover ==> r is Ok,
            device.reliable() && device.bytes().len() <= usize::MAX && !recover ==> (r is Ok
                <==> whole::<T>(device.bytes())),
            r matches Ok(s) ==> crate::recovery::recovered(device, s),
            match r {
                Ok(s) => {
                    &&& s.wf()
                    &&& s.limit() <= device.bytes().len()
                    &&& s.bytes() == device.bytes().subrange(0, s.limit() as int)
                    &&& s.spec_device().reliable() == device.reliable()
                    &&& s.spec_device().limit() == device.limit()
                    &&& s.limit() < device.bytes().len() ==> recover && !valid_record_at::<T>(
                        device.bytes(),
                        s.limit() as int,
                        last_of(s.starts()),
                    )
                },
                Err(e) => device.reliable() && device.bytes().len() <= usize::MAX ==> !recover
                    && exists|position: Position|
                    e == (Error::Corruption { position }) && #[trigger] broken_at::<T>(
                        device.bytes(),
                        position,
                    ),
            },
    {
        let mut dev = device;
        let ghost bytes = device.bytes();
        let total = match dev.len() {
            Ok(total) => total,
            Err(e) => {
                return Err(e);
            },
        };
        let mut starts: Vec<Position> = Vec::new();
        let ghost mut values: Map<Position, T::V> = Map::empty();
        let mut pos: u64 = 0;
        let mut back: u64 = 0;
        let mut valid = true;
        assert(bytes.subrange(0, 0) =~= Seq::<u8>::empty());
        while pos < total && valid
            invariant
                dev == device,
                device.bytes() == bytes,
                total == bytes.len(),
                pos <= total,
                back == last_of(starts@),
                records_ok::<T>(bytes.subrange(0, pos as int), starts@, values),
                !valid ==> pos < total && !valid_record_at::<T>(bytes, pos as int, back),
            decreases
                    total - pos + (if valid {
                        1int
                    } else {
                        0int
                    }),
        {
            match Self::take_record(&dev, total, pos, back) {
                Err(e) => {
                    return Err(e);
                },
                Ok(None) => {
                    valid = false;
                },
                Ok(Some(next)) => {
                    proof {
                        let prefix = bytes.subrange(0, pos as int);
                        let frame = bytes.subrange(pos as int, next as int);
                        lemma_frame_shift(bytes, pos as int, frame);
                        lemma_frame_is(frame);
                        let payload = payload_at(bytes, pos as int);
                        let v = T::spec_read(payload, pos).unwrap();
                        lemma_length_bound(bytes, pos as int);
                        lemma_append_keeps::<T>(prefix, starts@, values, payload, v);
                        assert(prefix + frame =~= bytes.subrange(0, next as int));
                        values = values.insert(pos, v);
                    }
                    starts.push(pos);
                    back = pos;
                    pos = next;
                },
            }
        }
        if pos < total {
            if !recover {
                proof {
                    assert(cut_at::<T>(bytes, pos, (starts@, values)));
                    assert(broken_at::<T>(device.bytes(), pos));
                    if whole::<T>(bytes) {
                        lemma_whole_is_unbroken::<T>(bytes, pos);
                    }
                }
                return Err(Error::Corruption { position: pos });
            }
            match dev.truncate(pos) {
                Ok(()) => {},
                Err(e) => {
                    return Err(e);
                },
            }
        }
        assert(bytes.subrange(0, total as int) =~= bytes);
        assert(pos == total ==> records_ok::<T>(bytes, (starts@, values).0, (starts@, values).1));
        Ok(BlockStorage { device: dev, starts, end: pos, values: Ghost(values) })
    }

    /// The positions of the records from the last to the first, found by
    /// following the back-pointers on the device.
    pub fn walk_back(&self) -> (r: Result<Vec<Position>, Error>)
        requires
            self.wf(),
        ensures
            self.spec_device().reliable() ==> r is Ok,
            r matches Ok(found) ==> found@ == reversed(self.starts()),
    {
        let mut found: Vec<Position> = Vec::new();
        let n = self.starts.len();
        if n == 0 {
            assert(found@ =~= reversed(self.starts()));
            return Ok(found);
        }
        let mut cur = self.starts[n - 1];
        let ghost mut idx: int = n - 1;
        loop
            invariant
                self.wf(),
                n == self.starts().len(),
                0 <= idx < n,
                cur == self.starts()[idx],
                found@.len() == n - 1 - idx,
                forall|x: int| 0 <= x < found@.len() ==> found@[x] == self.starts()[n - 1 - x],
            decreases idx,
        {
            found.push(cur);
            proof {
                assert(record_ok::<T>(self.bytes(), self.starts(), self.values(), idx));
                assert(record_ok::<T>(self.bytes(), self.starts(), self.values(), n - 1));
                if idx + 1 < n {
                    if idx + 1 < n - 1 {
                        assert(self.starts()[idx + 1] < self.starts()[n - 1]);
                    }
                }
                lemma_length_bound(self.bytes(), cur as int);
            }
            if cur == 0 {
                proof {
                    if idx > 0 {
                        assert(self.starts()[0] < self.starts()[idx]);
                    }
                    assert(found@ =~= reversed(self.starts()));
                }
                return Ok(found);
            }
            let header = match self.device.read_exact(cur + 4, 4) {
                Ok(header) => header,
                Err(e) => {
                    return Err(e);
                },
            };
            let len = match get_u32(header.as_slice(), 0) {
                Some(len) => len as u64,
                None => {
                    return Err(Error::Invariant);
                },
            };
            assert(header@.subrange(0, 4) =~= self.bytes().subrange(cur + 4, cur + 8));
            let pointer = match self.device.read_exact(cur + 8 + len, 8) {
                Ok(pointer) => pointer,
                Err(e) => {
                    return Err(e);
                },
            };
            let back = match get_u64(pointer.as_slice(), 0) {
                Some(back) => back,
                None => {
                    return Err(Error::Invariant);
                },
            };
            assert(pointer@.subrange(0, 8) =~= self.bytes().subrange(cur + 8 + len, cur + 16 + len));
            proof {
                if idx == 0 {
                    assert(self.starts()[0] == 0);
                }
                idx = idx - 1;
            }
            cur = back;
        }
    }

    /// The length of the payload of record number `idx`, from where the
    /// next record begins.
    fn payload_len(&self, idx: usize) -> (len: usize)
        requires
            self.wf(),
            idx < self.starts().len(),
        ensures
            len == length_at(self.bytes(), self.starts()[idx as int] as int),
            self.starts()[idx as int] + 20 + len <= self.bytes().len(),
    {
        let position = self.starts[idx];
        let count = self.starts.len();
        let next = if idx < count - 1 {
            self.starts[idx + 1]
        } else {
            self.end
        };
        proof {
            assert(record_ok::<T>(self.bytes(), self.starts(), self.values(), idx as int));
            lemma_length_bound(self.bytes(), position as int);
        }
        (next - position - 20) as usize
    }

    /// The value of record number `idx`.
    fn read_at(&self, idx: usize) -> (r: Result<T, Error>)
        requires
            self.wf(),
            idx < self.starts().len(),
        ensures
            self.spec_device().reliable() ==> r is Ok,
            r matches Ok(x) ==> x@ == self.values()[self.starts()[idx as int]],
    {
        let position = self.starts[idx];
        let len = self.payload_len(idx);
        proof {
            assert(record_ok::<T>(self.bytes(), self.starts(), self.values(), idx as int));
        }
        let payload = match self.device.read_exact(position + 8, len) {
            Ok(payload) => payload,
            Err(e) => {
                return Err(e);
            },
        };
        assert(payload@ == payload_at(self.bytes(), position as int));
        match T::read(payload.as_slice(), position) {
            Ok(x) => Ok(x),
            Err(e) => Err(e),
        }
    }

    /// Appends a record with the given payload, which stands for `v`.
    fn append_record(&mut self, payload: &Vec<u8>, Ghost(v): Ghost<T::V>) -> (r: Result<
        Position,
        Error,
    >)
        requires
            old(self).wf(),
            payload@.len() <= u32::MAX,
            T::spec_read(payload@, old(self).limit()) == Some(v),
        ensures
            final(self).wf(),
            final(self).spec_device().reliable() == old(self).spec_device().reliable(),
            final(self).spec_device().limit() == old(self).spec_device().limit(),
            old(self).spec_device().reliable() && old(self).limit() + 20 + payload@.len() <= old(
                self,
            ).spec_device().limit() && old(self).limit() + 20 + payload@.len() <= Position::MAX
                ==> r is Ok,
            match r {
                Ok(next) => {
                    &&& final(self).values() == old(self).values().insert(old(self).limit(), v)
                    &&& final(self).starts() == old(self).starts().push(old(self).limit())
                    &&& final(self).limit() == next
                    &&& next == old(self).limit() + 20 + payload@.len()
                },
                Err(_) => {
                    &&& final(self).values() == old(self).values()
                    &&& final(self).starts() == old(self).starts()
                    &&& final(self).limit() == old(self).limit()
                    &&& final(self).bytes() == old(self).bytes()
                },
            },
    {
        let n = self.starts.len();
        let position = self.end;
        let back = if n == 0 {
            0
        } else {
            self.starts[n - 1]
        };
        let frame = build_frame(payload.as_slice(), back);
        let next = match self.end.checked_add(frame.len() as u64) {
            Some(next) => next,
            None => {
                return Err(Error::Capacity);
            },
        };
        proof {
            lemma_append_keeps::<T>(self.device.bytes(), self.starts@, self.values@, payload@, v);
        }
        match self.device.append(frame.as_slice()) {
            Ok(_) => {},
            Err(e) => {
                return Err(e);
            },
        }
        self.starts.push(position);
        self.end = next;
        self.values = Ghost(self.values@.insert(position, v));
        Ok(next)
    }

    /// Replaces record number `idx` by one with the given payload of the
    /// same length, which stands for `v`.
    fn replace_record(&mut self, idx: usize, payload: &Vec<u8>, Ghost(v): Ghost<T::V>) -> (r:
        Result<Position, Error>)
        requires
            old(self).wf(),
            idx < old(self).starts().len(),
            payload@.len() == length_at(
                old(self).bytes(),
                old(self).starts()[idx as int] as int,
            ),
            T::spec_read(payload@, old(self).starts()[idx as int]) == Some(v),
        ensures
            final(self).wf(),
            final(self).spec_device().reliable() == old(self).spec_device().reliable(),
            final(self).spec_device().limit() == old(self).spec_device().limit(),
            final(self).starts() == old(self).starts(),
            final(self).limit() == old(self).limit(),
            old(self).spec_device().reliable() ==> r is Ok,
            match r {
                Ok(next) => final(self).values() == old(self).values().insert(
                    old(self).starts()[idx as int],
                    v,
                ) && next == old(self).limit(),
                Err(_) => final(self).values() == old(self).values() && final(self).bytes() == old(
                    self,
                ).bytes(),
            },
    {
        let position = self.starts[idx];
        let back = if idx == 0 {
            0
        } else {
            self.starts[idx - 1]
        };
        proof {
            lemma_length_bound(self.device.bytes(), position as int);
            assert(record_ok::<T>(self.device.bytes(), self.starts@, self.values@, idx as int));
        }
        let frame = build_frame(payload.as_slice(), back);
        let ghost before = self.device.bytes();
        match self.device.write(position, frame.as_slice()) {
            Ok(()) => {},
            Err(e) => {
                return Err(e);
            },
        }
        proof {
            lemma_replace_keeps::<T>(
                before,
                self.device.bytes(),
                self.starts@,
                self.values@,
                idx as int,
                payload@,
                v,
            );
        }
        self.values = Ghost(self.values@.insert(position, v));
        Ok(self.end)
    }
}

impl<D: Device, T: Serializable> Storage<T> for BlockStorage<D, T> {
    closed spec fn records(&self) -> Map<Position, T::V> {
        self.values@
    }

    open spec fn origin(&self) -> Position {
        0
    }

    closed spec fn end(&self) -> Position {
        self.end
    }

    closed spec fn tail(&self) -> Option<Position> {
        if self.starts@.len() == 0 {
            None
        } else {
            Some(self.starts@.last())
        }
    }

    open spec fn inv(&self) -> bool {
        self.wf()
    }

    closed spec fn accepts(&self, position: Position, data: T::V) -> bool {
        &&& T::storable(data)
        &&& T::placed(data, position)
        &&& T::spec_bytes(data).len() <= u32::MAX
        &&& self.device.reliable()
        &&& if position == self.end {
            self.end + 20 + T::spec_bytes(data).len() <= self.device.limit() && self.end + 20
                + T::spec_bytes(data).len() <= Position::MAX
        } else {
            self.starts@.contains(position) && length_at(self.device.bytes(), position as int)
                == T::spec_bytes(data).len()
        }
    }

    closed spec fn reliable(&self) -> bool {
        self.device.reliable()
    }

    open spec fn sequential(&self) -> bool {
        false
    }

    proof fn lemma_bounds(&self) {
        assert forall|p: Position| #[trigger] self.records().contains_key(p) implies p
            < self.end() by {
            assert(self.starts().contains(p));
            let i = choose|i: int| 0 <= i < self.starts().len() && self.starts()[i] == p;
            assert(record_ok::<T>(self.bytes(), self.starts(), self.values(), i));
        }
    }

    fn first(&self) -> (r: Result<(Option<T>, Position), Error>) {
        if self.starts.len() == 0 {
            assert(!self.starts@.contains(0));
            return Ok((None, self.end));
        }
        assert(record_ok::<T>(self.bytes(), self.starts(), self.values(), 0));
        match self.read_at(0) {
            Ok(x) => Ok((Some(x), self.end)),
            Err(e) => Err(e),
        }
    }

    fn last(&self) -> (r: Result<(Option<T>, Position), Error>) {
        let n = self.starts.len();
        if n == 0 {
            return Ok((None, self.end));
        }
        assert(record_ok::<T>(self.bytes(), self.starts(), self.values(), n - 1));
        match self.read_at(n - 1) {
            Ok(x) => Ok((Some(x), self.end)),
            Err(e) => Err(e),
        }
    }

    fn positions(&self) -> (r: Result<Vec<Position>, Error>) {
        let mut list: Vec<Position> = Vec::new();
        let mut i: usize = 0;
        while i < self.starts.len()
            invariant
                i <= self.starts@.len(),
                list@ == self.starts@.subrange(0, i as int),
            decreases self.starts@.len() - i,
        {
            list.push(self.starts[i]);
            assert(self.starts@.subrange(0, i + 1) =~= self.starts@.subrange(0, i as int).push(
                self.starts@[i as int],
            ));
            i += 1;
        }
        proof {
            assert(list@ =~= self.starts@);
            assert forall|x: int| 0 <= x < list@.len() implies 0 <= #[trigger] list@[x] < self.end
                && self.values@.contains_key(list@[x]) by {
                assert(record_ok::<T>(self.bytes(), self.starts(), self.values(), x));
            }
        }
        Ok(list)
    }

    fn read(&self, position: Position) -> (r: Result<T, Error>) {
        match find(&self.starts, position) {
            Some(idx) => {
                assert(record_ok::<T>(self.bytes(), self.starts(), self.values(), idx as int));
                self.read_at(idx)
            },
            None => Err(Error::Corruption { position }),
        }
    }

    fn put(&mut self, position: Position, data: &T) -> (r: Result<Position, Error>) {
        let mut payload: Vec<u8> = Vec::new();
        match data.write(&mut payload) {
            Ok(_) => {},
            Err(e) => {
                return Err(e);
            },
        }
        assert(payload@ =~= T::spec_bytes(data@));
        if !data.is_placed(position) {
            return Err(Error::Invariant);
        }
        if payload.len() > u32::MAX as usize {
            return Err(Error::Capacity);
        }
        proof {
            T::lemma_round_trip(data@, position);
        }
        if position == self.end {
            self.append_record(&payload, Ghost(data@))
        } else {
            let idx = match find(&self.starts, position) {
                Some(idx) => idx,
                None => {
                    return Err(Error::Invariant);
                },
            };
            let len = self.payload_len(idx);
            if len != payload.len() {
                return Err(Error::Invariant);
            }
            proof {
                assert(record_ok::<T>(self.bytes(), self.starts(), self.values(), idx as int));
                let last = self.starts().len() - 1;
                assert(record_ok::<T>(self.bytes(), self.starts(), self.values(), last));
            }
            self.replace_record(idx, &payload, Ghost(data@))
        }
    }
}

} // verus!
