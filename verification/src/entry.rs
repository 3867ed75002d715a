//! The record that one append stores: the leaf over the user's bytes and
//! the interior nodes that the append introduces.

use crate::codec::{copy_bytes, get_bytes, get_u32, get_u64, put_bytes, put_u32, put_u64, put_u8};
use crate::formula::{ctz, pow2};
use crate::hash::{blake3_digest, spec_combine};
use crate::storage::{Error, Index, Position, Record, Serializable};
use vstd::bytes::{
    lemma_auto_spec_u32_to_from_le_bytes, lemma_auto_spec_u64_to_from_le_bytes,
    spec_u32_from_le_bytes, spec_u32_to_le_bytes, spec_u64_from_le_bytes, spec_u64_to_le_bytes,
};
use vstd::prelude::*;

verus! {

/// An interior node as it is stored: its level, its hash, and where the
/// records of its two children stand.
#[derive(Clone, Copy, Debug)]
pub struct Branch {
    pub j: u8,
    pub hash: crate::hash::Hash,
    pub left: Position,
    pub right: Position,
}

/// The mathematical content of a `Branch`.
pub struct BranchView {
    pub j: u8,
    pub hash: Seq<u8>,
    pub left: Position,
    pub right: Position,
}

impl View for Branch {
    type V = BranchView;

    open spec fn view(&self) -> BranchView {
        BranchView { j: self.j, hash: self.hash@, left: self.left, right: self.right }
    }
}

/// The stored unit of the log: entry `i` with its payload, the hash of the
/// payload, and the interior nodes `(i, 1)` to `(i, ctz(i))`.
#[derive(Debug)]
pub struct Entry {
    pub i: Index,
    pub leaf: crate::hash::Hash,
    pub data: Vec<u8>,
    pub inodes: Vec<Branch>,
}

/// The mathematical content of an `Entry`.
pub struct EntryView {
    pub i: Index,
    pub leaf: Seq<u8>,
    pub data: Seq<u8>,
    pub inodes: Seq<BranchView>,
}

impl View for Entry {
    type V = EntryView;

    open spec fn view(&self) -> EntryView {
        EntryView {
            i: self.i,
            leaf: self.leaf@,
            data: self.data@,
            inodes: Seq::new(self.inodes@.len(), |t: int| self.inodes@[t]@),
        }
    }
}

impl Record for Entry {
    fn duplicate(&self) -> (copy: Entry) {
        let mut inodes: Vec<Branch> = Vec::new();
        let mut t: usize = 0;
        while t < self.inodes.len()
            invariant
                t <= self.inodes@.len(),
                inodes@.len() == t,
                forall|x: int| 0 <= x < t ==> inodes@[x] == self.inodes@[x],
            decreases self.inodes@.len() - t,
        {
            inodes.push(self.inodes[t]);
            t += 1;
        }
        let copy = Entry { i: self.i, leaf: self.leaf, data: copy_bytes(&self.data), inodes };
        assert(copy@.inodes == self@.inodes);
        copy
    }
}

/// The version of the layout of the log's records.
pub const SCHEMA_VERSION: u32 = 1;

/// The metadata record of a log: the record of index 0, whose payload is
/// the schema version in four little-endian bytes.
pub open spec fn spec_meta_entry() -> EntryView {
    EntryView {
        i: 0,
        leaf: blake3_digest(spec_u32_to_le_bytes(SCHEMA_VERSION)),
        data: spec_u32_to_le_bytes(SCHEMA_VERSION),
        inodes: Seq::empty(),
    }
}

impl Branch {
    /// Whether two stored nodes are the same.
    pub fn same(&self, other: &Branch) -> (r: bool)
        ensures
            r == (self@ == other@),
    {
        self.j == other.j && self.left == other.left && self.right == other.right
            && self.hash.same(&other.hash)
    }
}

impl Entry {
    /// The metadata record of a log.
    pub fn metadata() -> (e: Entry)
        ensures
            e@ == spec_meta_entry(),
            spec_entry_storable(e@),
            spec_entry_bytes(e@).len() == 48,
    {
        let mut data: Vec<u8> = Vec::new();
        put_u32(&mut data, SCHEMA_VERSION);
        let leaf = crate::hash::Hash::from_bytes(data.as_slice());
        let e = Entry { i: 0, leaf, data, inodes: Vec::new() };
        proof {
            lemma_auto_spec_u32_to_from_le_bytes();
            lemma_auto_spec_u64_to_from_le_bytes();
            assert(e@.inodes =~= Seq::<BranchView>::empty());
            assert(e.data@ =~= spec_u32_to_le_bytes(SCHEMA_VERSION));
            assert(spec_inodes_bytes(e@.inodes) =~= Seq::<u8>::empty());
        }
        e
    }

    /// Whether two entries are the same.
    pub fn same(&self, other: &Entry) -> (r: bool)
        ensures
            r == (self@ == other@),
    {
        if self.i != other.i || !self.leaf.same(&other.leaf) || self.data.len()
            != other.data.len() || self.inodes.len() != other.inodes.len() {
            proof {
                if self.inodes@.len() != other.inodes@.len() {
                    assert(self@.inodes.len() != other@.inodes.len());
                }
            }
            return false;
        }
        let mut x: usize = 0;
        while x < self.data.len()
            invariant
                x <= self.data@.len() == other.data@.len(),
                forall|y: int| 0 <= y < x ==> self.data@[y] == other.data@[y],
            decreases self.data@.len() - x,
        {
            if self.data[x] != other.data[x] {
                return false;
            }
            x += 1;
        }
        assert(self.data@ =~= other.data@);
        let mut t: usize = 0;
        while t < self.inodes.len()
            invariant
                t <= self.inodes@.len() == other.inodes@.len(),
                forall|y: int| 0 <= y < t ==> self.inodes@[y]@ == other.inodes@[y]@,
            decreases self.inodes@.len() - t,
        {
            if !self.inodes[t].same(&other.inodes[t]) {
                assert(self@.inodes[t as int] != other@.inodes[t as int]);
                return false;
            }
            t += 1;
        }
        assert(self@.inodes =~= other@.inodes);
        true
    }

    /// The hash of the node `(i, j)` where this entry holds it: the leaf
    /// for level 0, else the interior node of that level.
    pub fn hash_at(&self, j: u8) -> (h: Option<crate::hash::Hash>)
        ensures
            match h {
                Some(h) => j <= self@.inodes.len() && h@ == spec_hash_at(self@, j as nat),
                None => j > self@.inodes.len(),
            },
    {
        if j == 0 {
            Some(self.leaf)
        } else if (j as usize) <= self.inodes.len() {
            Some(self.inodes[(j - 1) as usize].hash)
        } else {
            None
        }
    }
}

/// The hash that an entry holds for level `j`.
pub open spec fn spec_hash_at(entry: EntryView, j: nat) -> Seq<u8> {
    if j == 0 {
        entry.leaf
    } else {
        entry.inodes[j - 1].hash
    }
}

/// The hash of the node `(i, j)` of the log with the given payloads: for a
/// leaf the digest of the payload, else the combination of the left child
/// `(i - 2^(j-1), j - 1)` and the right child `(i, j - 1)`.
pub open spec fn node_hash(payloads: Seq<Seq<u8>>, i: nat, j: nat) -> Seq<u8>
    decreases j,
{
    if j == 0 {
        blake3_digest(payloads[i - 1])
    } else {
        spec_combine(
            node_hash(payloads, (i - pow2((j - 1) as nat)) as nat, (j - 1) as nat),
            node_hash(payloads, i, (j - 1) as nat),
        )
    }
}

/// The entry that the log with the given payloads stores for index `i`,
/// where `positions[i - 1]` is the position of the record of entry `i`.
pub open spec fn spec_entry(payloads: Seq<Seq<u8>>, positions: Seq<Position>, i: nat) -> EntryView {
    EntryView {
        i: i as Index,
        leaf: blake3_digest(payloads[i - 1]),
        data: payloads[i - 1],
        inodes: Seq::new(
            ctz(i),
            |t: int|
                BranchView {
                    j: (t + 1) as u8,
                    hash: node_hash(payloads, i, (t + 1) as nat),
                    left: positions[i - pow2(t as nat) - 1],
                    right: positions[i - 1],
                },
        ),
    }
}

/// The hash of a node depends only on the payloads of the leaves under it.
pub proof fn lemma_node_hash_prefix(a: Seq<Seq<u8>>, b: Seq<Seq<u8>>, i: nat, j: nat)
    requires
        pow2(j) <= i <= a.len() <= b.len(),
        forall|x: int| 0 <= x < a.len() ==> a[x] == b[x],
    ensures
        node_hash(a, i, j) == node_hash(b, i, j),
    decreases j,
{
    if j > 0 {
        let half = pow2((j - 1) as nat);
        crate::formula::lemma_pow2_monotone(0, (j - 1) as nat);
        lemma_node_hash_prefix(a, b, (i - half) as nat, (j - 1) as nat);
        lemma_node_hash_prefix(a, b, i, (j - 1) as nat);
    } else {
        assert(pow2(0) == 1);
    }
}

/// The entry stored for index `i` depends only on the payloads and
/// positions up to `i`.
pub proof fn lemma_entry_prefix(
    a: Seq<Seq<u8>>,
    pa: Seq<Position>,
    b: Seq<Seq<u8>>,
    pb: Seq<Position>,
    i: nat,
)
    requires
        1 <= i <= a.len() <= b.len(),
        a.len() == pa.len(),
        b.len() == pb.len(),
        forall|x: int| 0 <= x < a.len() ==> a[x] == b[x] && pa[x] == pb[x],
    ensures
        spec_entry(a, pa, i) == spec_entry(b, pb, i),
{
    crate::formula::lemma_ctz_divides(i);
    let ea = spec_entry(a, pa, i);
    let eb = spec_entry(b, pb, i);
    assert(ea.inodes.len() == eb.inodes.len());
    assert forall|t: int| 0 <= t < ea.inodes.len() implies ea.inodes[t] == eb.inodes[t] by {
        crate::formula::lemma_pow2_monotone((t + 1) as nat, ctz(i));
        crate::formula::lemma_pow2_strict(t as nat, ctz(i));
        lemma_node_hash_prefix(a, b, i, (t + 1) as nat);
    }
    assert(ea.inodes == eb.inodes);
}

/// The bytes of a stored interior node: the level in one byte, the hash,
/// then the positions of the left and the right child in eight
/// little-endian bytes each.
pub open spec fn spec_branch_bytes(b: BranchView) -> Seq<u8> {
    seq![b.j] + b.hash + spec_u64_to_le_bytes(b.left) + spec_u64_to_le_bytes(b.right)
}

/// The interior node that 49 bytes stand for.
pub open spec fn spec_branch_read(bytes: Seq<u8>) -> BranchView {
    BranchView {
        j: bytes[0],
        hash: bytes.subrange(1, 33),
        left: spec_u64_from_le_bytes(bytes.subrange(33, 41)),
        right: spec_u64_from_le_bytes(bytes.subrange(41, 49)),
    }
}

/// The bytes of interior nodes, one after the other.
pub open spec fn spec_inodes_bytes(inodes: Seq<BranchView>) -> Seq<u8>
    decreases inodes.len(),
{
    if inodes.len() == 0 {
        Seq::empty()
    } else {
        spec_inodes_bytes(inodes.drop_last()) + spec_branch_bytes(inodes.last())
    }
}

/// The bytes of an entry: the index in eight little-endian bytes, the hash
/// of the leaf, the length of the user's bytes in four, the user's bytes,
/// then the interior nodes.
pub open spec fn spec_entry_bytes(v: EntryView) -> Seq<u8> {
    spec_u64_to_le_bytes(v.i) + v.leaf + spec_u32_to_le_bytes(v.data.len() as u32) + v.data
        + spec_inodes_bytes(v.inodes)
}

/// The entry that `bytes` stand for.
pub open spec fn spec_entry_read(bytes: Seq<u8>) -> Option<EntryView> {
    if bytes.len() < 44 {
        None
    } else {
        let len = spec_u32_from_le_bytes(bytes.subrange(40, 44)) as int;
        if bytes.len() < 44 + len || (bytes.len() - 44 - len) % 49 != 0 {
            None
        } else {
            let rest = bytes.subrange(44 + len, bytes.len() as int);
            Some(
                EntryView {
                    i: spec_u64_from_le_bytes(bytes.subrange(0, 8)),
                    leaf: bytes.subrange(8, 40),
                    data: bytes.subrange(44, 44 + len),
                    inodes: Seq::new(
                        (rest.len() / 49) as nat,
                        |t: int| spec_branch_read(rest.subrange(49 * t, 49 * t + 49)),
                    ),
                },
            )
        }
    }
}

/// Whether an entry has a byte form: the hashes have 32 bytes and the
/// length of the user's bytes fits four bytes.
pub open spec fn spec_entry_storable(v: EntryView) -> bool {
    &&& v.leaf.len() == 32
    &&& v.data.len() <= u32::MAX
    &&& forall|t: int| 0 <= t < v.inodes.len() ==> (#[trigger] v.inodes[t]).hash.len() == 32
}

/// The bytes of interior nodes are 49 for each, and each node can be read
/// back from its 49.
pub proof fn lemma_inodes_bytes(inodes: Seq<BranchView>)
    requires
        forall|t: int| 0 <= t < inodes.len() ==> (#[trigger] inodes[t]).hash.len() == 32,
    ensures
        spec_inodes_bytes(inodes).len() == 49 * inodes.len(),
        forall|t: int|
            0 <= t < inodes.len() ==> spec_branch_read(
                #[trigger] spec_inodes_bytes(inodes).subrange(49 * t, 49 * t + 49),
            ) == inodes[t],
    decreases inodes.len(),
{
    lemma_auto_spec_u64_to_from_le_bytes();
    if inodes.len() > 0 {
        let before = inodes.drop_last();
        let last = inodes.last();
        lemma_inodes_bytes(before);
        let all = spec_inodes_bytes(inodes);
        let head = spec_inodes_bytes(before);
        let tail = spec_branch_bytes(last);
        assert(tail.len() == 49);
        assert forall|t: int| 0 <= t < inodes.len() implies spec_branch_read(
            #[trigger] all.subrange(49 * t, 49 * t + 49),
        ) == inodes[t] by {
            if t < before.len() {
                assert(all.subrange(49 * t, 49 * t + 49) =~= head.subrange(49 * t, 49 * t + 49));
                assert(before[t] == inodes[t]);
            } else {
                let part = all.subrange(49 * t, 49 * t + 49);
                assert(part =~= tail);
                assert(tail.subrange(1, 33) =~= last.hash);
                assert(tail.subrange(33, 41) =~= spec_u64_to_le_bytes(last.left));
                assert(tail.subrange(41, 49) =~= spec_u64_to_le_bytes(last.right));
            }
        }
    }
}

impl Branch {
    /// Appends the 49 bytes of the node to `w`.
    pub fn write(&self, w: &mut Vec<u8>)
        ensures
            final(w)@ == old(w)@ + spec_branch_bytes(self@),
    {
        put_u8(w, self.j);
        self.hash.put(w);
        put_u64(w, self.left);
        put_u64(w, self.right);
        assert(w@ =~= old(w)@ + spec_branch_bytes(self@));
    }

    /// The node in the 49 bytes of `bytes` from `at` on.
    pub fn read(bytes: &[u8], at: usize) -> (b: Option<Branch>)
        ensures
            match b {
                Some(b) => at + 49 <= bytes@.len() && b@ == spec_branch_read(
                    bytes@.subrange(at as int, at + 49),
                ),
                None => at + 49 > bytes@.len(),
            },
    {
        if bytes.len() < 49 || at > bytes.len() - 49 {
            return None;
        }
        let ghost part = bytes@.subrange(at as int, at + 49);
        let j = bytes[at];
        let hash = match crate::hash::Hash::from_slice(bytes, at + 1) {
            Some(hash) => hash,
            None => {
                return None;
            },
        };
        match (get_u64(bytes, at + 33), get_u64(bytes, at + 41)) {
            (Some(left), Some(right)) => {
                proof {
                    assert(part.subrange(1, 33) =~= bytes@.subrange(at + 1, at + 33));
                    assert(part.subrange(33, 41) =~= bytes@.subrange(at + 33, at + 41));
                    assert(part.subrange(41, 49) =~= bytes@.subrange(at + 41, at + 49));
                }
                Some(Branch { j, hash, left, right })
            },
            _ => None,
        }
    }
}

impl Serializable for Entry {
    open spec fn spec_bytes(v: EntryView) -> Seq<u8> {
        spec_entry_bytes(v)
    }

    open spec fn storable(v: EntryView) -> bool {
        spec_entry_storable(v)
    }

    open spec fn placed(v: EntryView, position: Position) -> bool {
        true
    }

    open spec fn spec_read(bytes: Seq<u8>, position: Position) -> Option<EntryView> {
        spec_entry_read(bytes)
    }

    fn is_placed(&self, position: Position) -> (r: bool) {
        true
    }

    fn write(&self, w: &mut Vec<u8>) -> (r: Result<usize, Error>) {
        if self.data.len() > u32::MAX as usize {
            return Err(Error::Serialization);
        }
        let start = w.len();
        put_u64(w, self.i);
        self.leaf.put(w);
        put_u32(w, self.data.len() as u32);
        put_bytes(w, self.data.as_slice());
        let ghost head = w@;
        let ghost views = self@.inodes;
        let mut t: usize = 0;
        assert(spec_inodes_bytes(views.subrange(0, 0)) =~= Seq::<u8>::empty());
        while t < self.inodes.len()
            invariant
                t <= self.inodes@.len() == views.len(),
                views == self@.inodes,
                w@ == head + spec_inodes_bytes(views.subrange(0, t as int)),
            decreases self.inodes@.len() - t,
        {
            self.inodes[t].write(w);
            proof {
                let next = views.subrange(0, t + 1);
                assert(next.drop_last() =~= views.subrange(0, t as int));
                assert(next.last() == self.inodes@[t as int]@);
            }
            t += 1;
        }
        proof {
            assert(views.subrange(0, views.len() as int) =~= views);
            assert(w@ =~= old(w)@ + spec_entry_bytes(self@));
            assert forall|x: int| 0 <= x < self@.inodes.len() implies (#[trigger] self@.inodes[x]).hash.len()
                == 32 by {
                assert(self@.inodes[x] == self.inodes@[x]@);
            }
        }
        Ok(w.len() - start)
    }

    fn read(bytes: &[u8], position: Position) -> (r: Result<Entry, Error>) {
        let i = match get_u64(bytes, 0) {
            Some(i) => i,
            None => {
                return Err(Error::Serialization);
            },
        };
        let leaf = match crate::hash::Hash::from_slice(bytes, 8) {
            Some(leaf) => leaf,
            None => {
                return Err(Error::Serialization);
            },
        };
        let len = match get_u32(bytes, 40) {
            Some(len) => len as usize,
            None => {
                return Err(Error::Serialization);
            },
        };
        let total = bytes.len();
        if total - 44 < len || (total - 44 - len) % 49 != 0 {
            return Err(Error::Serialization);
        }
        let data = match get_bytes(bytes, 44, len) {
            Some(data) => data,
            None => {
                return Err(Error::Serialization);
            },
        };
        let first = 44 + len;
        let count = (total - first) / 49;
        let ghost rest = bytes@.subrange(first as int, total as int);
        let mut inodes: Vec<Branch> = Vec::new();
        let mut t: usize = 0;
        while t < count
            invariant
                t <= count,
                first + 49 * count == total == bytes@.len(),
                rest == bytes@.subrange(first as int, total as int),
                inodes@.len() == t,
                forall|x: int|
                    0 <= x < t ==> (#[trigger] inodes@[x])@ == spec_branch_read(
                        rest.subrange(49 * x, 49 * x + 49),
                    ),
            decreases count - t,
        {
            match Branch::read(bytes, first + 49 * t) {
                Some(b) => {
                    assert(rest.subrange(49 * t, 49 * t + 49) =~= bytes@.subrange(
                        first + 49 * t,
                        first + 49 * t + 49,
                    ));
                    inodes.push(b);
                },
                None => {
                    return Err(Error::Serialization);
                },
            }
            t += 1;
        }
        let entry = Entry { i, leaf, data, inodes };
        proof {
            let parsed = spec_entry_read(bytes@).unwrap();
            assert(entry@.inodes =~= parsed.inodes);
        }
        Ok(entry)
    }

    proof fn lemma_round_trip(v: EntryView, position: Position) {
        lemma_auto_spec_u64_to_from_le_bytes();
        lemma_auto_spec_u32_to_from_le_bytes();
        lemma_inodes_bytes(v.inodes);
        let bytes = spec_entry_bytes(v);
        let tail = spec_inodes_bytes(v.inodes);
        assert(bytes.subrange(0, 8) =~= spec_u64_to_le_bytes(v.i));
        assert(bytes.subrange(8, 40) =~= v.leaf);
        assert(bytes.subrange(40, 44) =~= spec_u32_to_le_bytes(v.data.len() as u32));
        assert(bytes.subrange(44, 44 + v.data.len() as int) =~= v.data);
        let rest = bytes.subrange(44 + v.data.len() as int, bytes.len() as int);
        assert(rest =~= tail);
        assert(bytes.len() == 44 + v.data.len() + 49 * v.inodes.len());
        let parsed = spec_entry_read(bytes).unwrap();
        assert(parsed.inodes =~= v.inodes);
    }
}

} // verus!
