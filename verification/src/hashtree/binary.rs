//! A perfect binary hash tree of fixed height, stored level by level: after
//! the metadata record comes the root, then the two nodes of level 1, and so
//! on down to the leaves.

use crate::codec::{
    copy_bytes, get_bytes, get_u32, get_u64, get_u8, put_bytes, put_u32, put_u64, put_u8,
};
use crate::formula::{
    lemma_pow2_64, lemma_pow2_adds, lemma_pow2_fits, lemma_pow2_monotone, pow2, pow2e,
};
use crate::hash::{blake3_digest, spec_combine};
use crate::hashtree::creation::{
    holds_values, lemma_sequenced_places, places, sequenced_values, yields,
};
use crate::hashtree::HashTree;
use crate::memkvs::MemKVS;
use crate::mixer::{payload, spec_payload};
use crate::storage::{Error, Index, Position, Record, Serializable, Storage};
use std::collections::HashMap;
use std::collections::VecDeque;
use vstd::bytes::{
    lemma_auto_spec_u32_to_from_le_bytes, lemma_auto_spec_u64_to_from_le_bytes,
    spec_u32_from_le_bytes, spec_u32_to_le_bytes, spec_u64_from_le_bytes, spec_u64_to_le_bytes,
};
use vstd::prelude::*;

verus! {

broadcast use vstd::std_specs::hash::group_hash_axioms;

/// What a node holds besides its hash: a payload, or the places of its two
/// children.
#[derive(Debug)]
pub enum NodeKind {
    Leaf { data: Vec<u8> },
    Branch { left: Position, right: Position },
}

/// The mathematical content of a `NodeKind`.
pub enum KindView {
    Leaf { data: Seq<u8> },
    Branch { left: Position, right: Position },
}

impl View for NodeKind {
    type V = KindView;

    open spec fn view(&self) -> KindView {
        match self {
            NodeKind::Leaf { data } => KindView::Leaf { data: data@ },
            NodeKind::Branch { left, right } => KindView::Branch { left: *left, right: *right },
        }
    }
}

/// One node of the tree as it is stored.
#[derive(Debug)]
pub struct Node {
    /// Where the node stands in the storage.
    pub position: Position,
    /// Serial number in level order: the root is 1, the children of `i` are
    /// `2i` and `2i + 1`. The metadata record carries 0.
    pub index: u64,
    pub hash: crate::hash::Hash,
    pub kind: NodeKind,
}

/// The mathematical content of a `Node`.
pub struct NodeView {
    pub position: Position,
    pub index: u64,
    pub hash: Seq<u8>,
    pub kind: KindView,
}

impl View for Node {
    type V = NodeView;

    open spec fn view(&self) -> NodeView {
        NodeView {
            position: self.position,
            index: self.index,
            hash: self.hash@,
            kind: self.kind@,
        }
    }
}

impl Node {
    /// A leaf that holds `data`; its hash is the digest of `data`.
    pub fn new_leaf(position: u64, index: u64, data: Vec<u8>) -> (node: Node)
        ensures
            node@ == (NodeView {
                position,
                index,
                hash: blake3_digest(data@),
                kind: KindView::Leaf { data: data@ },
            }),
    {
        let hash = crate::hash::Hash::from_bytes(data.as_slice());
        Node { position, index, hash, kind: NodeKind::Leaf { data } }
    }

    /// A branch with the given hash and children.
    pub fn new_internal(position: u64, index: u64, hash: crate::hash::Hash, left: Position, right: Position) -> (node: Node)
        ensures
            node@ == (NodeView {
                position,
                index,
                hash: hash@,
                kind: KindView::Branch { left, right },
            }),
    {
        Node { position, index, hash, kind: NodeKind::Branch { left, right } }
    }

    /// Whether the node holds a payload.
    pub fn is_leaf(&self) -> (r: bool)
        ensures
            r == (self@.kind is Leaf),
    {
        match self.kind {
            NodeKind::Leaf { .. } => true,
            NodeKind::Branch { .. } => false,
        }
    }
}

impl Record for Node {
    fn duplicate(&self) -> (copy: Node) {
        let kind = match &self.kind {
            NodeKind::Leaf { data } => NodeKind::Leaf { data: copy_bytes(data) },
            NodeKind::Branch { left, right } => NodeKind::Branch { left: *left, right: *right },
        };
        Node { position: self.position, index: self.index, hash: self.hash, kind }
    }
}

/// The bytes of a node: the serial number in eight little-endian bytes,
/// the hash, one byte that is 1 for a leaf and 0 for a branch, then for a
/// leaf the length of the payload in four bytes and the payload, for a
/// branch the positions of the two children in eight bytes each.
pub open spec fn spec_node_bytes(v: NodeView) -> Seq<u8> {
    spec_u64_to_le_bytes(v.index) + v.hash + (match v.kind {
        KindView::Leaf { data } => seq![1u8] + spec_u32_to_le_bytes(data.len() as u32) + data,
        KindView::Branch { left, right } => seq![0u8] + spec_u64_to_le_bytes(left)
            + spec_u64_to_le_bytes(right),
    })
}

/// The node that `bytes` stand for.
pub open spec fn spec_node_read(bytes: Seq<u8>, position: Position) -> Option<NodeView> {
    if bytes.len() < 41 {
        None
    } else {
        let index = spec_u64_from_le_bytes(bytes.subrange(0, 8));
        let hash = bytes.subrange(8, 40);
        if bytes[40] != 0 {
            if bytes.len() < 45 {
                None
            } else {
                let len = spec_u32_from_le_bytes(bytes.subrange(41, 45));
                if bytes.len() != 45 + len {
                    None
                } else {
                    Some(
                        NodeView {
                            position,
                            index,
                            hash,
                            kind: KindView::Leaf { data: bytes.subrange(45, 45 + len) },
                        },
                    )
                }
            }
        } else {
            if bytes.len() != 57 {
                None
            } else {
                Some(
                    NodeView {
                        position,
                        index,
                        hash,
                        kind: KindView::Branch {
                            left: spec_u64_from_le_bytes(bytes.subrange(41, 49)),
                            right: spec_u64_from_le_bytes(bytes.subrange(49, 57)),
                        },
                    },
                )
            }
        }
    }
}

impl Serializable for Node {
    open spec fn spec_bytes(v: NodeView) -> Seq<u8> {
        spec_node_bytes(v)
    }

    open spec fn storable(v: NodeView) -> bool {
        &&& v.hash.len() == 32
        &&& v.kind matches KindView::Leaf { data } ==> data.len() <= u32::MAX
    }

    open spec fn placed(v: NodeView, position: Position) -> bool {
        v.position == position
    }

    open spec fn spec_read(bytes: Seq<u8>, position: Position) -> Option<NodeView> {
        spec_node_read(bytes, position)
    }

    fn is_placed(&self, position: Position) -> (r: bool) {
        self.position == position
    }

    fn write(&self, w: &mut Vec<u8>) -> (r: Result<usize, Error>) {
        if let NodeKind::Leaf { data } = &self.kind {
            if data.len() > u32::MAX as usize {
                return Err(Error::Serialization);
            }
        }
        proof {
            lemma_auto_spec_u64_to_from_le_bytes();
            lemma_auto_spec_u32_to_from_le_bytes();
        }
        let start = w.len();
        put_u64(w, self.index);
        self.hash.put(w);
        match &self.kind {
            NodeKind::Leaf { data } => {
                put_u8(w, 1);
                put_u32(w, data.len() as u32);
                put_bytes(w, data.as_slice());
                assert(w@ =~= old(w)@ + spec_node_bytes(self@));
            },
            NodeKind::Branch { left, right } => {
                put_u8(w, 0);
                put_u64(w, *left);
                put_u64(w, *right);
                assert(w@ =~= old(w)@ + spec_node_bytes(self@));
            },
        }
        Ok(w.len() - start)
    }

    fn read(bytes: &[u8], position: Position) -> (r: Result<Node, Error>) {
        let index = match get_u64(bytes, 0) {
            Some(index) => index,
            None => {
                return Err(Error::Serialization);
            },
        };
        let hash = match crate::hash::Hash::from_slice(bytes, 8) {
            Some(hash) => hash,
            None => {
                return Err(Error::Serialization);
            },
        };
        let flag = match get_u8(bytes, 40) {
            Some(flag) => flag,
            None => {
                return Err(Error::Serialization);
            },
        };
        if flag != 0 {
            let len = match get_u32(bytes, 41) {
                Some(len) => len as usize,
                None => {
                    return Err(Error::Serialization);
                },
            };
            if bytes.len() - 45 != len {
                return Err(Error::Serialization);
            }
            match get_bytes(bytes, 45, len) {
                Some(data) => Ok(Node { position, index, hash, kind: NodeKind::Leaf { data } }),
                None => Err(Error::Serialization),
            }
        } else {
            if bytes.len() != 57 {
                return Err(Error::Serialization);
            }
            match (get_u64(bytes, 41), get_u64(bytes, 49)) {
                (Some(left), Some(right)) => Ok(
                    Node { position, index, hash, kind: NodeKind::Branch { left, right } },
                ),
                _ => Err(Error::Serialization),
            }
        }
    }

    proof fn lemma_round_trip(v: NodeView, position: Position) {
        lemma_auto_spec_u64_to_from_le_bytes();
        lemma_auto_spec_u32_to_from_le_bytes();
        let bytes = spec_node_bytes(v);
        assert(bytes.subrange(0, 8) =~= spec_u64_to_le_bytes(v.index));
        assert(bytes.subrange(8, 40) =~= v.hash);
        match v.kind {
            KindView::Leaf { data } => {
                assert(bytes[40] == 1u8);
                assert(bytes.subrange(41, 45) =~= spec_u32_to_le_bytes(data.len() as u32));
                assert(bytes.subrange(45, 45 + data.len() as int) =~= data);
            },
            KindView::Branch { left, right } => {
                assert(bytes[40] == 0u8);
                assert(bytes.subrange(41, 49) =~= spec_u64_to_le_bytes(left));
                assert(bytes.subrange(49, 57) =~= spec_u64_to_le_bytes(right));
            },
        }
    }
}

/// How a lookup in, or the making of, a tree can fail.
#[derive(Debug)]
pub enum BinaryHashTreeError {
    /// The device behind the storage failed.
    IoError,
    /// The storage reported an error.
    SlateError(Error),
    /// What the storage holds is not a tree, or the arguments describe none.
    InvalidData(String),
    /// No node stands at this position.
    NodeNotFound(u64),
}

/// The level of the node with serial number `index`: the root has level 0.
pub open spec fn spec_level(index: nat) -> nat
    decreases index,
{
    if index <= 1 {
        0
    } else {
        1 + spec_level(index / 2)
    }
}

/// A node's serial number lies between the power of its level and the next.
pub proof fn lemma_level_bounds(index: nat)
    requires
        index >= 1,
    ensures
        pow2(spec_level(index)) <= index < pow2(spec_level(index) + 1),
    decreases index,
{
    if index > 1 {
        lemma_level_bounds(index / 2);
    } else {
        reveal_with_fuel(pow2, 2);
    }
}

/// The level is the only exponent whose power brackets the serial number.
pub proof fn lemma_level_unique(index: nat, level: nat)
    requires
        pow2(level) <= index < pow2(level + 1),
    ensures
        spec_level(index) == level,
{
    lemma_level_bounds(index);
    let l = spec_level(index);
    if l < level {
        lemma_pow2_monotone(l + 1, level);
    } else if l > level {
        lemma_pow2_monotone(level + 1, l);
    }
}

/// Level and one-based place within the level of the node with serial
/// number `index`.
pub fn index_to_level_position(index: u64) -> (r: (u8, u64))
    requires
        index > 0,
    ensures
        r.0 == spec_level(index as nat),
        r.0 < 64,
        r.1 == index - pow2(r.0 as nat) + 1,
{
    let mut level: u8 = 0;
    let mut bound: u64 = 1;
    while index / 2 >= bound
        invariant
            level < 64,
            bound == pow2(level as nat),
            1 <= bound <= index,
        decreases index - bound,
    {
        proof {
            lemma_pow2_64();
            assert(level < 63);
        }
        bound = bound * 2;
        level = level + 1;
    }
    proof {
        lemma_level_unique(index as nat, level as nat);
    }
    (level, index - bound + 1)
}

/// One-based number of the leaf with serial number `index` in a tree of the
/// given height.
pub fn index_to_leaf_number(index: u64, height: u8) -> (k: u64)
    requires
        1 <= height <= 64,
        index >= pow2((height - 1) as nat),
    ensures
        k == index + 1 - pow2((height - 1) as nat),
{
    proof {
        lemma_pow2_fits((height - 1) as nat);
    }
    let leaf_start_index = pow2e(height - 1);
    index - leaf_start_index + 1
}

/// The first leaf that lies in the right half of the subtree under the
/// node with serial number `index`.
pub open spec fn spec_boundary(height: nat, index: nat) -> nat {
    let level = spec_level(index);
    let leaves = pow2((height - level - 1) as nat);
    ((index - pow2(level)) * leaves + 1 + leaves / 2) as nat
}

/// Whether leaf `k` lies in the left half of the subtree under `node`,
/// which must stand above the leaf level.
pub fn move_left(height: u8, node: &Node, k: Index) -> (left: bool)
    requires
        height <= 64,
        node.index > 0,
        spec_level(node.index as nat) + 1 < height,
    ensures
        left == (k < spec_boundary(height as nat, node.index as nat)),
{
    let (level, position_in_level) = index_to_level_position(node.index);
    let subtree_depth = height - level - 1;
    let leaves_per_subtree = pow2e(subtree_depth);
    proof {
        lemma_level_bounds(node.index as nat);
        lemma_pow2_adds(level as nat, subtree_depth as nat);
        lemma_pow2_fits((height - 1) as nat);
        lemma_pow2_fits(subtree_depth as nat);
        let a = (position_in_level - 1) as int;
        let b = leaves_per_subtree as int;
        let c = pow2(level as nat) as int;
        assert(a * b + b <= c * b) by (nonlinear_arith)
            requires
                0 <= a < c,
                0 < b,
        ;
    }
    let first_leaf = (position_in_level - 1) * leaves_per_subtree + 1;
    let boundary = first_leaf + (leaves_per_subtree / 2);
    k < boundary
}

/// The bytes of a metadata record: the root's position in eight
/// little-endian bytes, then the height in one.
pub open spec fn spec_meta_bytes(root: Position, height: u8) -> Seq<u8> {
    spec_u64_to_le_bytes(root).push(height)
}

/// What the first record of a tree's storage tells: where the root stands
/// and how many levels the tree has.
#[derive(Clone, Copy, Debug)]
pub struct MetaInfo {
    pub root: Position,
    pub height: u8,
}

impl MetaInfo {
    /// Appends the metadata bytes to `w` and returns their number.
    pub fn write(&self, w: &mut Vec<u8>) -> (n: usize)
        ensures
            final(w)@ == old(w)@ + spec_meta_bytes(self.root, self.height),
            n == 9,
    {
        put_u64(w, self.root);
        put_u8(w, self.height);
        assert(w@ == old(w)@ + spec_meta_bytes(self.root, self.height));
        9
    }

    /// Reads metadata from the first nine bytes of `bytes`.
    pub fn read(bytes: &[u8]) -> (r: Result<MetaInfo, Error>)
        ensures
            match r {
                Ok(meta) => bytes@.len() >= 9 && meta.root == spec_u64_from_le_bytes(
                    bytes@.subrange(0, 8),
                ) && meta.height == bytes@[8],
                Err(e) => bytes@.len() < 9 && e == Error::Serialization,
            },
    {
        let root = match get_u64(bytes, 0) {
            Some(root) => root,
            None => {
                return Err(Error::Serialization);
            },
        };
        match get_u8(bytes, 8) {
            Some(height) => Ok(MetaInfo { root, height }),
            None => Err(Error::Serialization),
        }
    }
}

/// Reading what was written gives the metadata back.
pub proof fn lemma_meta_round_trip(root: Position, height: u8)
    ensures
        spec_meta_bytes(root, height).len() == 9,
        spec_u64_from_le_bytes(spec_meta_bytes(root, height).subrange(0, 8)) == root,
        spec_meta_bytes(root, height)[8] == height,
{
    lemma_auto_spec_u64_to_from_le_bytes();
    assert(spec_meta_bytes(root, height).subrange(0, 8) == spec_u64_to_le_bytes(root));
}

/// The hash of the node with serial number `index` in the tree of the given
/// height over `leaves`.
pub open spec fn tree_hash(leaves: Seq<Seq<u8>>, height: nat, index: nat) -> Seq<u8>
    decreases pow2(height) - index,
{
    if index == 0 || index >= pow2(height) || height == 0 {
        Seq::empty()
    } else if index >= pow2((height - 1) as nat) {
        blake3_digest(leaves[index - pow2((height - 1) as nat)])
    } else {
        spec_combine(
            tree_hash(leaves, height, 2 * index),
            tree_hash(leaves, height, 2 * index + 1),
        )
    }
}

/// The node that a tree over `leaves` stores for serial number `index`
/// when `pos` gives each node's position by its serial number.
pub open spec fn expected_node(
    leaves: Seq<Seq<u8>>,
    height: nat,
    pos: Seq<Position>,
    index: nat,
) -> NodeView {
    NodeView {
        position: pos[index as int],
        index: index as u64,
        hash: tree_hash(leaves, height, index),
        kind: if index >= pow2((height - 1) as nat) {
            KindView::Leaf { data: leaves[index - pow2((height - 1) as nat)] }
        } else {
            KindView::Branch { left: pos[(2 * index) as int], right: pos[(2 * index + 1) as int] }
        },
    }
}

/// The metadata record of a tree: a leaf with serial number 0 whose payload
/// is the metadata bytes.
pub open spec fn meta_node(origin: Position, root: Position, height: u8) -> NodeView {
    NodeView {
        position: origin,
        index: 0,
        hash: blake3_digest(spec_meta_bytes(root, height)),
        kind: KindView::Leaf { data: spec_meta_bytes(root, height) },
    }
}

/// Whether `records` hold the tree of the given height over `leaves`, node
/// `i` standing at `pos[i]`: the metadata first, then every node in the
/// order of its serial number, which is level by level.
pub open spec fn holds_tree(
    records: Map<Position, NodeView>,
    origin: Position,
    height: u8,
    leaves: Seq<Seq<u8>>,
    pos: Seq<Position>,
) -> bool {
    &&& 1 <= height <= 64
    &&& leaves.len() == pow2((height - 1) as nat)
    &&& pos.len() == pow2(height as nat)
    &&& records.contains_key(origin)
    &&& records[origin] == meta_node(origin, pos[1], height)
    &&& origin < pos[1]
    &&& forall|i: nat|
        1 <= i < pow2(height as nat) ==> records.contains_key(#[trigger] pos[i as int])
            && records[pos[i as int]] == expected_node(leaves, height as nat, pos, i)
    &&& forall|i: nat, j: nat|
        1 <= i < j < pow2(height as nat) ==> #[trigger] pos[i as int] < #[trigger] pos[j as int]
}

/// Whether `records` hold the tree over `w.0` at the positions `w.1`, with
/// the root at `root`.
pub open spec fn holds_tree_at(
    records: Map<Position, NodeView>,
    origin: Position,
    height: u8,
    root: Position,
    w: (Seq<Seq<u8>>, Seq<Position>),
) -> bool {
    holds_tree(records, origin, height, w.0, w.1) && w.1[1] == root
}

/// Whether `p` is the position of one of the first `count` nodes.
pub open spec fn in_first(pos: Seq<Position>, count: int, p: Position) -> bool {
    exists|i: int| 1 <= i <= count && #[trigger] pos[i] == p
}

/// Whether `held` are the positions of the first `count` nodes.
pub open spec fn holds_first(held: Set<Position>, pos: Seq<Position>, count: int) -> bool {
    forall|p: Position| held.contains(p) <==> in_first(pos, count, p)
}

/// The number of nodes that a cache with the given limit holds of a tree
/// of the given height: the limit, but at least one and at most all.
pub open spec fn spec_cached_count(limit: usize, height: u8) -> int {
    let wanted = if limit == 0 {
        1int
    } else {
        limit as int
    };
    if wanted <= pow2(height as nat) - 1 {
        wanted
    } else {
        pow2(height as nat) - 1
    }
}

/// A cache that holds the first `held` nodes holds the first `held + 1`
/// once the next node is taken in, which it did not hold before.
pub proof fn lemma_cache_step(
    before: Set<Position>,
    after: Set<Position>,
    pos: Seq<Position>,
    height: u8,
    held: int,
)
    requires
        0 <= held,
        held + 1 < pow2(height as nat),
        pos.len() == pow2(height as nat),
        forall|i: nat, j: nat|
            1 <= i < j < pow2(height as nat) ==> #[trigger] pos[i as int] < #[trigger] pos[j as int],
        holds_first(before, pos, held),
        after == before.insert(pos[held + 1]),
    ensures
        holds_first(after, pos, held + 1),
        !before.contains(pos[held + 1]),
{
    let position = pos[held + 1];
    if before.contains(position) {
        let i = choose|i: int| 1 <= i <= held && #[trigger] pos[i] == position;
        assert(pos[i as nat as int] < pos[(held + 1) as nat as int]);
    }
    assert forall|p: Position| after.contains(p) <==> in_first(pos, held + 1, p) by {
        if p == position {
            assert(1 <= held + 1 <= held + 1 && pos[held + 1] == p);
        } else if before.contains(p) {
            let i = choose|i: int| 1 <= i <= held && #[trigger] pos[i] == p;
            assert(1 <= i <= held + 1 && pos[i] == p);
        } else if in_first(pos, held + 1, p) {
            let i = choose|i: int| 1 <= i <= held + 1 && #[trigger] pos[i] == p;
            if i <= held {
                assert(in_first(pos, held, p));
            }
        }
    }
}

/// A line of the nodes after the first `held` is, once its first node has
/// left it and, where children were queued, the two children of that node
/// have joined it, a line of the nodes after the first `held + 1`.
pub proof fn lemma_queue_step(
    queued: Seq<Position>,
    queue: Seq<Position>,
    pos: Seq<Position>,
    height: u8,
    held: int,
    pushed: bool,
)
    requires
        0 <= held,
        queued.len() > 0,
        forall|x: int| 0 <= x < queued.len() ==> #[trigger] queued[x] == pos[held + 1 + x],
        pushed ==> queued.len() == held + 1 && queue == queued.subrange(
            1,
            queued.len() as int,
        ).push(pos[2 * (held + 1)]).push(pos[2 * (held + 1) + 1]),
        !pushed ==> queue == queued.subrange(1, queued.len() as int),
    ensures
        forall|x: int| 0 <= x < queue.len() ==> #[trigger] queue[x] == pos[held + 2 + x],
{
    assert forall|x: int| 0 <= x < queue.len() implies #[trigger] queue[x] == pos[held + 2 + x] by {
        if x < queued.len() - 1 {
            assert(queue[x] == queued[x + 1]);
        }
    }
}

/// What the filling of the cache ends with is the number of nodes that the
/// limit and the height give.
pub proof fn lemma_cached_count(
    limit: usize,
    height: u8,
    held: int,
    queued: int,
    regime: int,
    done: bool,
)
    requires
        1 <= height <= 64,
        0 <= queued,
        held + queued <= pow2(height as nat) - 1,
        done ==> held >= 1 && (held == limit || queued == 0),
        !done ==> queued > 0 && held == pow2(height as nat) - 1,
        held <= limit || held <= 1,
        regime == 0 || regime == 1 || regime == 2,
        regime == 0 ==> queued == held + 1,
        regime == 1 ==> held + queued > limit,
        regime == 2 ==> held + queued == pow2(height as nat) - 1,
    ensures
        held == spec_cached_count(limit, height),
{
}

/// What a descent from the node at `position` towards leaf `k` finds within
/// `fuel` further steps: the payload of the leaf it ends at, or nothing
/// where a record is missing or is no node of a tree of this height.
pub open spec fn walk(
    records: Map<Position, NodeView>,
    height: u8,
    position: Position,
    k: Index,
    fuel: nat,
) -> Option<Seq<u8>>
    decreases fuel,
{
    if !records.contains_key(position) {
        None
    } else {
        match records[position].kind {
            KindView::Leaf { data } => Some(data),
            KindView::Branch { left, right } => {
                let index = records[position].index;
                if fuel == 0 || index == 0 || spec_level(index as nat) + 1 >= height {
                    None
                } else if k < spec_boundary(height as nat, index as nat) {
                    walk(records, height, left, k, (fuel - 1) as nat)
                } else {
                    walk(records, height, right, k, (fuel - 1) as nat)
                }
            },
        }
    }
}

/// First leaf under the node with serial number `index`.
pub open spec fn first_leaf(height: nat, index: nat) -> nat {
    let level = spec_level(index);
    ((index - pow2(level)) * pow2((height - level - 1) as nat) + 1) as nat
}

/// Last leaf under the node with serial number `index`.
pub open spec fn last_leaf(height: nat, index: nat) -> nat {
    let level = spec_level(index);
    ((index - pow2(level) + 1) * pow2((height - level - 1) as nat)) as nat
}

/// The two children of a node above the leaf level split its leaves at the
/// boundary, and a node of the leaf level covers its own leaf alone.
pub proof fn lemma_children_split(height: nat, index: nat)
    requires
        1 <= index < pow2(height),
        1 <= height,
    ensures
        spec_level(index) < height,
        first_leaf(height, index) <= last_leaf(height, index) <= pow2((height - 1) as nat),
        1 <= first_leaf(height, index),
        index >= pow2((height - 1) as nat) ==> first_leaf(height, index) == index - pow2(
            (height - 1) as nat,
        ) + 1 && last_leaf(height, index) == first_leaf(height, index) && spec_level(index) + 1
            == height,
        index < pow2((height - 1) as nat) ==> {
            &&& spec_level(index) + 1 < height
            &&& 2 * index + 1 < pow2(height)
            &&& spec_level(2 * index) == spec_level(index) + 1
            &&& spec_level(2 * index + 1) == spec_level(index) + 1
            &&& first_leaf(height, 2 * index) == first_leaf(height, index)
            &&& last_leaf(height, 2 * index) + 1 == spec_boundary(height, index)
            &&& first_leaf(height, 2 * index + 1) == spec_boundary(height, index)
            &&& last_leaf(height, 2 * index + 1) == last_leaf(height, index)
        },
{
    lemma_level_bounds(index);
    let l = spec_level(index);
    if l >= height {
        lemma_pow2_monotone(height, l);
    }
    let depth = (height - l - 1) as nat;
    let span = pow2(depth);
    let off = (index - pow2(l)) as int;
    lemma_pow2_monotone(0, depth);
    lemma_pow2_adds(l, depth);
    assert(pow2(l) * span == pow2((height - 1) as nat));
    let width = pow2(l) as int;
    assert(off * span + span <= width * span && 0 <= off * span) by (nonlinear_arith)
        requires
            0 <= off < width,
            0 < span,
    ;
    assert((off + 1) * span == off * span + span) by (nonlinear_arith);
    if index >= pow2((height - 1) as nat) {
        if l + 1 < height {
            lemma_pow2_monotone(l + 1, (height - 1) as nat);
        }
        assert(depth == 0);
        assert(off * 1 == off) by (nonlinear_arith);
    } else {
        if l + 1 >= height {
            assert(l + 1 == height);
        }
        assert(spec_level(2 * index) == l + 1);
        assert((2 * index + 1) / 2 == index);
        assert(spec_level(2 * index + 1) == l + 1);
        let half = pow2((depth - 1) as nat);
        assert(span == 2 * half);
        assert(pow2(l + 1) == 2 * pow2(l));
        assert((2 * off) * half == off * span) by (nonlinear_arith)
            requires
                span == 2 * half,
        ;
        assert((2 * off + 1) * half == off * span + half) by (nonlinear_arith)
            requires
                span == 2 * half,
        ;
        assert((2 * off + 2) * half == (off + 1) * span) by (nonlinear_arith)
            requires
                span == 2 * half,
        ;
        assert(span / 2 == half);
    }
}

/// In storage that holds a tree, the descent from the node with serial
/// number `index` towards a leaf under it finds that leaf's payload.
pub proof fn lemma_descent_finds(
    records: Map<Position, NodeView>,
    origin: Position,
    height: u8,
    leaves: Seq<Seq<u8>>,
    pos: Seq<Position>,
    index: nat,
    k: Index,
    fuel: nat,
)
    requires
        holds_tree(records, origin, height, leaves, pos),
        1 <= index < pow2(height as nat),
        first_leaf(height as nat, index) <= k <= last_leaf(height as nat, index),
        fuel + spec_level(index) + 1 >= height,
    ensures
        walk(records, height, pos[index as int], k, fuel) == Some(leaves[k - 1]),
    decreases pow2(height as nat) - index,
{
    lemma_children_split(height as nat, index);
    lemma_pow2_64();
    lemma_pow2_monotone(height as nat, 64);
    assert(records.contains_key(pos[index as int]));
    assert(records[pos[index as int]] == expected_node(leaves, height as nat, pos, index));
    if index < pow2((height - 1) as nat) {
        if k < spec_boundary(height as nat, index) {
            lemma_descent_finds(records, origin, height, leaves, pos, 2 * index, k, (fuel - 1) as nat);
        } else {
            lemma_descent_finds(
                records,
                origin,
                height,
                leaves,
                pos,
                2 * index + 1,
                k,
                (fuel - 1) as nat,
            );
        }
    }
}

/// A lookup in storage that holds the tree over `leaves` finds, for every
/// leaf number, that leaf's payload.
pub proof fn lemma_tree_lookup(
    records: Map<Position, NodeView>,
    origin: Position,
    height: u8,
    leaves: Seq<Seq<u8>>,
    pos: Seq<Position>,
    k: Index,
)
    requires
        holds_tree(records, origin, height, leaves, pos),
        1 <= k <= pow2((height - 1) as nat),
    ensures
        walk(records, height, pos[1], k, height as nat) == Some(leaves[k - 1]),
{
    lemma_pow2_monotone(0, height as nat);
    lemma_pow2_monotone(1, height as nat);
    reveal_with_fuel(pow2, 2);
    assert(spec_level(1) == 0);
    assert(0 * pow2((height - 1) as nat) == 0) by (nonlinear_arith);
    assert(1 * pow2((height - 1) as nat) == pow2((height - 1) as nat)) by (nonlinear_arith);
    lemma_descent_finds(records, origin, height, leaves, pos, 1, k, height as nat);
}

/// The root position and height that the metadata record at `origin`
/// tells, where there is such a record and it names a height from 1 to 64.
pub open spec fn stored_meta(records: Map<Position, NodeView>, origin: Position) -> Option<
    (Position, u8),
> {
    if !records.contains_key(origin) {
        None
    } else {
        match records[origin].kind {
            KindView::Leaf { data } => if data.len() >= 9 && 1 <= data[8] <= 64 {
                Some((spec_u64_from_le_bytes(data.subrange(0, 8)), data[8]))
            } else {
                None
            },
            KindView::Branch { .. } => None,
        }
    }
}

/// Nodes kept in memory, by position.
pub struct Cache {
    cache: HashMap<u64, Node>,
}

impl Cache {
    /// The cached nodes by position.
    pub closed spec fn nodes(&self) -> Map<Position, NodeView> {
        Map::new(|p: Position| self.cache@.contains_key(p), |p: Position| self.cache@[p]@)
    }

    /// Whether every cached node is the record that `records` hold at its
    /// position.
    pub open spec fn agrees(&self, records: Map<Position, NodeView>) -> bool {
        forall|p: Position| #[trigger]
            self.nodes().contains_key(p) ==> records.contains_key(p) && self.nodes()[p]
                == records[p]
    }

    /// Number of nodes held.
    pub fn len(&self) -> (n: usize)
        ensures
            n == self.nodes().dom().len(),
    {
        assert(self.nodes().dom() =~= self.cache@.dom());
        self.cache.len()
    }

    /// The cached node at `position`, if there is one.
    pub fn get(&self, position: u64) -> (r: Option<&Node>)
        ensures
            match r {
                Some(node) => self.nodes().contains_key(position) && node@
                    == self.nodes()[position],
                None => !self.nodes().contains_key(position),
            },
    {
        self.cache.get(&position)
    }
}

/// A perfect binary hash tree in a storage, with its top nodes cached.
pub struct BinaryHashTree<S: Storage<Node>> {
    storage: S,
    root: Position,
    height: u8,
    cache: Cache,
}

impl<S: Storage<Node>> BinaryHashTree<S> {
    #[verifier::type_invariant]
    spec fn valid(&self) -> bool {
        &&& 1 <= self.height <= 64
        &&& self.storage.inv()
        &&& self.cache.agrees(self.storage.records())
    }

    /// The records of the storage behind the tree.
    pub closed spec fn records(&self) -> Map<Position, NodeView> {
        self.storage.records()
    }

    /// Position of the metadata record.
    pub closed spec fn origin(&self) -> Position {
        self.storage.origin()
    }

    /// Position of the root.
    pub closed spec fn root(&self) -> Position {
        self.root
    }

    /// Number of levels.
    pub closed spec fn height(&self) -> u8 {
        self.height
    }

    /// Whether reads of the storage behind the tree never fail.
    pub closed spec fn reliable(&self) -> bool {
        self.storage.reliable()
    }

    /// The nodes kept in memory.
    pub closed spec fn cached(&self) -> Map<Position, NodeView> {
        self.cache.nodes()
    }

    /// The payload that a lookup of leaf `k` finds, if it finds one.
    pub open spec fn found(&self, k: Index) -> Option<Seq<u8>> {
        walk(self.records(), self.height(), self.root(), k, self.height() as nat)
    }

    /// Whether `storage` holds some tree of the given height whose root
    /// stands at `root`.
    pub open spec fn stores_tree(storage: &S, height: u8, root: Position) -> bool {
        exists|w: (Seq<Seq<u8>>, Seq<Position>)|
            holds_tree_at(storage.records(), storage.origin(), height, root, w)
    }

    /// The tree that `storage` is taken to hold where it holds one.
    pub open spec fn spec_tree(storage: &S, height: u8, root: Position) -> (Seq<Seq<u8>>, Seq<
        Position,
    >) {
        choose|w: (Seq<Seq<u8>>, Seq<Position>)|
            holds_tree_at(storage.records(), storage.origin(), height, root, w)
    }

    /// Reads nodes from the root on, level by level and left to right, and
    /// keeps them until `limit` nodes are held or the tree is exhausted; the
    /// root is kept even with a limit of 0. Children are queued only while
    /// the nodes held and queued are fewer than `limit`. Of a stored tree
    /// the cache so holds the first nodes in the order of their serial
    /// numbers: as many as the limit says, at least one, at most all.
    fn create_cache(storage: &S, height: u8, root: Position, limit: usize) -> (r: Result<
        Cache,
        Error,
    >)
        requires
            1 <= height <= 64,
            storage.inv(),
        ensures
            r matches Ok(cache) ==> cache.agrees(storage.records()),
            storage.reliable() && Self::stores_tree(storage, height, root) ==> r is Ok,
            r matches Ok(cache) ==> (Self::stores_tree(storage, height, root) ==> holds_first(
                cache.nodes().dom(),
                Self::spec_tree(storage, height, root).1,
                spec_cached_count(limit, height),
            )),
    {
        let ghost is_tree = Self::stores_tree(storage, height, root);
        let ghost witness = Self::spec_tree(storage, height, root);
        let ghost leaves = witness.0;
        let ghost pos = witness.1;
        let ghost total = pow2(height as nat) - 1;
        let mut cache: HashMap<u64, Node> = HashMap::new();
        let mut queue: VecDeque<Position> = VecDeque::new();
        queue.push_back(root);
        proof {
            lemma_pow2_fits((height - 1) as nat);
            lemma_pow2_monotone(1, height as nat);
            reveal_with_fuel(pow2, 2);
            if is_tree {
                assert(pos[1nat as int] == queue@[0]);
            }
        }
        let mut fuel: u64 = (pow2e(height - 1) - 1) * 2 + 1;
        let mut done = false;
        let ghost mut held: int = 0;
        let ghost mut regime: int = 0;
        while fuel > 0 && !done
            invariant
                1 <= height <= 64,
                storage.inv(),
                total == pow2(height as nat) - 1,
                forall|p: Position| #[trigger]
                    cache@.contains_key(p) ==> storage.records().contains_key(p) && cache@[p]@
                        == storage.records()[p],
                is_tree == Self::stores_tree(storage, height, root),
                is_tree ==> holds_tree(storage.records(), storage.origin(), height, leaves, pos),
                is_tree ==> cache@.dom().finite() && held == cache@.len() && 0 <= held,
                is_tree ==> holds_first(cache@.dom(), pos, held),
                is_tree ==> held + queue@.len() <= total,
                is_tree ==> forall|x: int|
                    0 <= x < queue@.len() ==> #[trigger] queue@[x] == pos[held + 1 + x],
                is_tree && !done ==> queue@.len() > 0 && held + fuel == total && (held < limit
                    || held == 0),
                is_tree && done ==> held >= 1 && (held == limit || queue@.len() == 0),
                is_tree ==> held <= limit || held <= 1,
                regime == 0 || regime == 1 || regime == 2,
                held == 0 ==> regime == 0,
                is_tree && regime == 0 ==> queue@.len() == held + 1,
                is_tree && regime == 1 ==> held + queue@.len() > limit,
                is_tree && regime == 2 ==> held + queue@.len() == total && held + 1 >= pow2(
                    (height - 1) as nat,
                ),
            decreases fuel,
        {
            fuel = fuel - 1;
            let ghost queued = queue@;
            let ghost before = cache@;
            match queue.pop_front() {
                None => {
                    done = true;
                },
                Some(position) => {
                    let ghost n = (held + 1) as nat;
                    proof {
                        if is_tree {
                            assert(position == pos[n as int]);
                            assert(storage.records().contains_key(pos[n as int]));
                            assert(storage.records()[pos[n as int]] == expected_node(
                                leaves,
                                height as nat,
                                pos,
                                n,
                            ));
                            lemma_children_split(height as nat, n);
                        }
                    }
                    let node = match storage.read(position) {
                        Ok(node) => node,
                        Err(e) => {
                            return Err(e);
                        },
                    };
                    let count = cache.len();
                    let mut pushed = false;
                    if count < limit && queue.len() < limit - count {
                        match &node.kind {
                            NodeKind::Branch { left, right } => {
                                queue.push_back(*left);
                                queue.push_back(*right);
                                pushed = true;
                            },
                            NodeKind::Leaf { .. } => {},
                        }
                    }
                    cache.insert(position, node);
                    proof {
                        if is_tree {
                            assert(cache@.dom() =~= before.dom().insert(position));
                            lemma_cache_step(before.dom(), cache@.dom(), pos, height, held);
                            lemma_queue_step(queued, queue@, pos, height, held, pushed);
                            if !pushed && regime == 0 {
                                if n >= pow2((height - 1) as nat) {
                                    regime = 2;
                                } else {
                                    regime = 1;
                                }
                            }
                            held = held + 1;
                        }
                    }
                    if cache.len() == limit || queue.len() == 0 {
                        done = true;
                    }
                },
            }
        }
        let cache = Cache { cache };
        proof {
            if is_tree {
                lemma_cached_count(limit, height, held, queue@.len() as int, regime, done);
                assert(cache.nodes().dom() =~= cache.cache@.dom());
            }
        }
        Ok(cache)
    }

    /// Gives the storage back.
    pub fn into_storage(self) -> (storage: S)
        ensures
            storage.inv(),
            storage.records() == self.records(),
            storage.origin() == self.origin(),
    {
        proof {
            use_type_invariant(&self);
        }
        self.storage
    }

    /// Opens the tree that `storage` holds: reads the metadata record,
    /// which must name a height from 1 to 64, and caches up to
    /// `cache_limit` nodes from the root down.
    pub fn new(storage: S, cache_limit: usize) -> (r: Result<Self, BinaryHashTreeError>)
        requires
            storage.inv(),
        ensures
            r matches Ok(tree) ==> {
                &&& tree.records() == storage.records()
                &&& tree.origin() == storage.origin()
                &&& tree.reliable() == storage.reliable()
                &&& stored_meta(storage.records(), storage.origin()) == Some(
                    (tree.root(), tree.height()),
                )
                &&& tree.cached().submap_of(tree.records())
            },
            storage.reliable() && stored_meta(storage.records(), storage.origin()) is None ==> r
                matches Err(BinaryHashTreeError::InvalidData(_)),
            storage.reliable() && (stored_meta(storage.records(), storage.origin()) matches Some(
                (root, height),
            ) && Self::stores_tree(&storage, height, root)) ==> r is Ok,
            r matches Ok(tree) ==> (Self::stores_tree(&storage, tree.height(), tree.root())
                ==> holds_first(
                tree.cached().dom(),
                Self::spec_tree(&storage, tree.height(), tree.root()).1,
                spec_cached_count(cache_limit, tree.height()),
            )),
    {
        let first = match storage.first() {
            Ok((first, _)) => first,
            Err(e) => {
                return Err(BinaryHashTreeError::SlateError(e));
            },
        };
        let meta = match first {
            Some(Node { kind: NodeKind::Leaf { data }, .. }) => match MetaInfo::read(
                data.as_slice(),
            ) {
                Ok(meta) => meta,
                Err(_) => {
                    return Err(BinaryHashTreeError::InvalidData("no metadata".to_owned()));
                },
            },
            _ => {
                return Err(BinaryHashTreeError::InvalidData("no metadata".to_owned()));
            },
        };
        let root = meta.root;
        let height = meta.height;
        if height < 1 || height > 64 {
            return Err(BinaryHashTreeError::InvalidData("no such height".to_owned()));
        }
        let cache = match Self::create_cache(&storage, height, root, cache_limit) {
            Ok(cache) => cache,
            Err(e) => {
                return Err(BinaryHashTreeError::SlateError(e));
            },
        };
        assert(cache.nodes().submap_of(storage.records()));
        Ok(BinaryHashTree { storage, root, height, cache })
    }

    /// The node at `position`, from the cache where it is there, else from
    /// the storage.
    fn load(&self, position: Position) -> (r: Result<Node, Error>)
        ensures
            self.reliable() && self.records().contains_key(position) ==> r is Ok,
            r matches Ok(node) ==> self.records().contains_key(position) && node@
                == self.records()[position],
    {
        proof {
            use_type_invariant(self);
        }
        match self.cache.get(position) {
            Some(node) => Ok(node.duplicate()),
            None => self.storage.read(position),
        }
    }

    /// Number of nodes kept in memory.
    pub fn cached_count(&self) -> (n: usize)
        ensures
            n == self.cached().dom().len(),
    {
        self.cache.len()
    }

    /// Number of levels.
    pub fn levels(&self) -> (h: u8)
        ensures
            h == self.height(),
            1 <= h <= 64,
    {
        proof {
            use_type_invariant(self);
        }
        self.height
    }

    /// Number of leaves: two to the power `height - 1`.
    pub fn leaf_count(&self) -> (n: u64)
        ensures
            n == pow2((self.height() - 1) as nat),
            1 <= self.height() <= 64,
    {
        proof {
            use_type_invariant(self);
        }
        pow2e(self.height - 1)
    }

    /// The payload of leaf `k`, counted from one. Outside `1..=leaf_count()`
    /// there is none. Inside, the lookup descends from the root, at each
    /// branch into the half that holds `k`, and fails where the storage
    /// does not hold the nodes of a tree of this height on the way.
    pub fn lookup(&self, k: u64) -> (r: Result<Option<Vec<u8>>, BinaryHashTreeError>)
        ensures
            k == 0 || k > pow2((self.height() - 1) as nat) ==> r matches Ok(None),
            1 <= k <= pow2((self.height() - 1) as nat) ==> {
                &&& r matches Ok(found) ==> found matches Some(data) && self.found(k) == Some(
                    data@,
                )
                &&& self.reliable() ==> (r is Ok <==> self.found(k) is Some)
            },
    {
        let height = self.levels();
        if k == 0 || k > self.leaf_count() {
            return Ok(None);
        }
        let mut position = self.root;
        let mut fuel: u8 = height;
        loop
            invariant
                height == self.height(),
                1 <= height <= 64,
                fuel <= height,
                1 <= k <= pow2((height - 1) as nat),
                walk(self.records(), height, position, k, fuel as nat) == self.found(k),
            decreases fuel,
        {
            let current = match self.load(position) {
                Ok(node) => node,
                Err(e) => {
                    return Err(BinaryHashTreeError::SlateError(e));
                },
            };
            match &current.kind {
                NodeKind::Leaf { data } => {
                    return Ok(Some(copy_bytes(data)));
                },
                NodeKind::Branch { left, right } => {
                    if fuel == 0 || current.index == 0 {
                        return Err(BinaryHashTreeError::InvalidData("not a tree".to_owned()));
                    }
                    let (level, _) = index_to_level_position(current.index);
                    if level >= height - 1 {
                        return Err(BinaryHashTreeError::InvalidData("not a tree".to_owned()));
                    }
                    position = if move_left(height, &current, k) {
                        *left
                    } else {
                        *right
                    };
                    fuel = fuel - 1;
                },
            }
        }
    }
}

impl<S: Storage<Node>> HashTree for BinaryHashTree<S> {
    type Error = BinaryHashTreeError;

    open spec fn leaves(&self) -> Seq<Seq<u8>> {
        Seq::new(
            pow2((self.height() - 1) as nat),
            |i: int|
                match self.found((i + 1) as Index) {
                    Some(data) => data,
                    None => Seq::empty(),
                },
        )
    }

    open spec fn available(&self, index: u64) -> bool {
        index == 0 || index > pow2((self.height() - 1) as nat) || (self.reliable() && self.found(
            index,
        ) is Some)
    }

    fn size(&self) -> (n: u64) {
        self.leaf_count()
    }

    fn get(&self, index: u64) -> (r: Result<Option<Vec<u8>>, BinaryHashTreeError>)
        ensures
            self.reliable() ==> (r is Ok <==> self.available(index)),
    {
        let _ = self.leaf_count();
        proof {
            lemma_pow2_fits((self.height() - 1) as nat);
        }
        self.lookup(index)
    }
}

/// The leaves of the tree of height `h` whose leaf `k` holds the payload of
/// index `k`.
pub open spec fn mixed_leaves(h: u8) -> Seq<Seq<u8>> {
    Seq::new(pow2((h - 1) as nat), |i: int| spec_payload((i + 1) as u64))
}

/// Whether `tree` is the tree of height `h` with the payloads of the
/// indices as a store in memory holds it: the metadata at position 1, which
/// names the root at position 2, the node of serial number `i` at position
/// `i + 1`, and no other record.
pub open spec fn stands_in_memory<S: Storage<Node>>(tree: BinaryHashTree<S>, h: u8) -> bool {
    &&& tree.origin() == 1
    &&& tree.root() == 2
    &&& tree.height() == h
    &&& holds_tree(tree.records(), 1, h, mixed_leaves(h), places(1, h))
    &&& forall|p: Position| #[trigger] tree.records().contains_key(p) <==> 1 <= p < 1 + pow2(h as nat)
}

impl BinaryHashTree<MemKVS<Node>> {
    /// A tree of height `h` in memory whose leaf `k` holds the payload of
    /// index `k`, with one node cached.
    pub fn create_on_memory(h: u8) -> (r: Result<Self, BinaryHashTreeError>)
        ensures
            r matches Ok(tree) ==> tree.height() == h && tree.reliable() && forall|k: Index|
                1 <= k <= pow2((h - 1) as nat) ==> #[trigger] tree.found(k) == Some(
                    spec_payload(k),
                ),
            r matches Ok(tree) ==> stands_in_memory(tree, h),
            1 <= h <= 63 ==> r is Ok,
            h < 1 || h > 64 ==> r matches Err(BinaryHashTreeError::InvalidData(_)),
    {
        Self::create_on_memory_with_kvs(h, HashMap::new())
    }

    /// The same tree, built in a store over the map `kvs`, which must be
    /// empty.
    pub fn create_on_memory_with_kvs(h: u8, kvs: HashMap<Position, Node>) -> (r: Result<
        Self,
        BinaryHashTreeError,
    >)
        ensures
            r matches Ok(tree) ==> tree.height() == h && tree.reliable() && forall|k: Index|
                1 <= k <= pow2((h - 1) as nat) ==> #[trigger] tree.found(k) == Some(
                    spec_payload(k),
                ),
            r matches Ok(tree) ==> kvs@.len() == 0 && stands_in_memory(tree, h),
            1 <= h <= 63 && kvs@.len() == 0 ==> r is Ok,
            h < 1 || h > 64 || kvs@.len() > 0 ==> r matches Err(
                BinaryHashTreeError::InvalidData(_),
            ),
    {
        if kvs.len() != 0 {
            return Err(BinaryHashTreeError::InvalidData("storage is not empty".to_owned()));
        }
        let mut storage = MemKVS::with_kvs(kvs);
        proof {
            storage.lemma_empty();
        }
        let ghost before = storage.records();
        let values = |i: u64| -> (bytes: Vec<u8>)
            ensures
                bytes@ == spec_payload(i),
            { payload(i) };
        proof {
            lemma_pow2_64();
            if 1 <= h <= 63 {
                lemma_pow2_monotone(h as nat, 63);
            }
            storage.lemma_view();
        }
        let ghost empty = storage;
        match Self::create(&mut storage, h, &values) {
            Ok(()) => {},
            Err(e) => {
                return Err(e);
            },
        }
        proof {
            empty.lemma_view();
            empty.lemma_empty();
        }
        let ghost w = choose|w: (Seq<Seq<u8>>, Seq<Position>)|
            sequenced_values(storage.records(), storage.origin(), h, &values, w);
        let ghost held = storage.records();
        proof {
            assert(holds_values(storage.records(), storage.origin(), h, &values, w));
            assert(holds_tree_at(storage.records(), storage.origin(), h, w.1[1], w));
            lemma_meta_round_trip(w.1[1], h);
            lemma_sequenced_places(held, 1, h, w.0, w.1);
            assert(w.0 =~= mixed_leaves(h)) by {
                assert forall|i: int| 0 <= i < w.0.len() implies #[trigger] w.0[i] == spec_payload(
                    (i + 1) as u64,
                ) by {
                    assert(yields(&values, (i + 1) as u64, w.0[i]));
                }
            }
            assert(forall|p: Position| !before.contains_key(p));
            assert forall|p: Position| #[trigger] held.contains_key(p) <==> 1 <= p < 1 + pow2(
                h as nat,
            ) by {}
        }
        let tree = match Self::new(storage, 1) {
            Ok(tree) => tree,
            Err(e) => {
                return Err(e);
            },
        };
        proof {
            assert forall|k: Index| 1 <= k <= pow2((h - 1) as nat) implies #[trigger] tree.found(k)
                == Some(spec_payload(k)) by {
                lemma_tree_lookup(tree.records(), tree.origin(), h, w.0, w.1, k);
                assert(yields(&values, ((k - 1) + 1) as u64, w.0[k - 1]));
            }
        }
        Ok(tree)
    }
}

} // verus!
