//! The node cache: interior nodes near the roots, kept in memory so that a
//! lookup need not read their records.

use crate::entry::node_hash;
use crate::formula::{ctz, pow2, spec_forest_roots, Address};
use crate::storage::Position;
use std::collections::HashMap;
use vstd::prelude::*;

verus! {

broadcast use vstd::std_specs::hash::group_hash_axioms;

/// An interior node as the cache holds it.
#[derive(Clone, Copy, Debug)]
pub struct CachedNode {
    pub address: Address,
    pub hash: crate::hash::Hash,
    /// Where the record of the left child stands.
    pub left: Position,
    /// Where the record of the right child stands, which is the record of
    /// the node itself.
    pub right: Position,
}

/// The key of a node in the cache.
pub open spec fn spec_key(a: Address) -> u128 {
    (a.i as u128 * 256 + a.j as u128) as u128
}

/// The key of a node in the cache.
pub fn key_of(a: Address) -> (k: u128)
    ensures
        k == spec_key(a),
{
    (a.i as u128) * 256 + (a.j as u128)
}

/// Whether `node` is the interior node of its name in the log with the
/// given payloads and positions.
pub open spec fn true_node(node: CachedNode, payloads: Seq<Seq<u8>>, positions: Seq<Position>) -> bool {
    let i = node.address.i as nat;
    let j = node.address.j as nat;
    &&& 1 <= i <= payloads.len()
    &&& 1 <= j <= ctz(i)
    &&& node.hash@ == node_hash(payloads, i, j)
    &&& node.left == positions[i - pow2((j - 1) as nat) - 1]
    &&& node.right == positions[i - 1]
}

/// Nodes of different names have different keys.
pub proof fn lemma_key_names(a: Address, b: Address)
    requires
        spec_key(a) == spec_key(b),
    ensures
        a == b,
{
}

/// A bounded map from the names of interior nodes to the nodes.
pub struct NodeCache {
    level: usize,
    nodes: HashMap<u128, CachedNode>,
}

impl NodeCache {
    /// The nodes held, by key.
    pub closed spec fn nodes(&self) -> Map<u128, CachedNode> {
        self.nodes@
    }

    /// The level that the cache was made for.
    pub closed spec fn spec_level(&self) -> usize {
        self.level
    }

    /// Whether every node held stands under its own key and is the node of
    /// its name in the log with the given payloads and positions.
    pub open spec fn agrees(&self, payloads: Seq<Seq<u8>>, positions: Seq<Position>) -> bool {
        forall|key: u128| #[trigger]
            self.nodes().contains_key(key) ==> key == spec_key(self.nodes()[key].address)
                && true_node(self.nodes()[key], payloads, positions)
    }

    /// An empty cache for the given level.
    pub fn new(level: usize) -> (c: Self)
        ensures
            c.spec_level() == level,
            c.nodes() == Map::<u128, CachedNode>::empty(),
    {
        NodeCache { level, nodes: HashMap::new() }
    }

    /// The level that the cache was made for.
    pub fn level(&self) -> (level: usize)
        ensures
            level == self.spec_level(),
    {
        self.level
    }

    /// The number of nodes that a cache of this level may hold: two to the
    /// power of the level, as far as a machine word can count.
    pub fn budget(&self) -> (b: usize)
        ensures
            b == spec_budget(self.spec_level()),
    {
        budget_of(self.level)
    }

    /// Number of nodes held.
    pub fn len(&self) -> (n: usize)
        ensures
            n == self.nodes().len(),
    {
        self.nodes.len()
    }

    /// The node of the given name, if it is held.
    pub fn get(&self, address: Address) -> (r: Option<CachedNode>)
        ensures
            match r {
                Some(node) => self.nodes().contains_key(spec_key(address)) && node
                    == self.nodes()[spec_key(address)],
                None => !self.nodes().contains_key(spec_key(address)),
            },
    {
        match self.nodes.get(&key_of(address)) {
            Some(node) => Some(*node),
            None => None,
        }
    }

    /// Takes `node` into the cache.
    pub fn insert(&mut self, node: CachedNode)
        ensures
            final(self).nodes() == old(self).nodes().insert(spec_key(node.address), node),
            final(self).spec_level() == old(self).spec_level(),
    {
        self.nodes.insert(key_of(node.address), node);
    }
}

/// Two to the power `level`, or the greatest machine word where that is
/// less.
pub open spec fn spec_budget(level: usize) -> usize {
    if pow2(level as nat) <= usize::MAX {
        pow2(level as nat) as usize
    } else {
        usize::MAX
    }
}

/// Two to the power `level`, or the greatest machine word where that is
/// less.
pub fn budget_of(level: usize) -> (b: usize)
    ensures
        b == spec_budget(level),
{
    let mut b: usize = 1;
    let mut l: usize = 0;
    while l < level
        invariant
            l <= level,
            b == pow2(l as nat),
            b >= 1,
        decreases level - l,
    {
        if b > usize::MAX / 2 {
            proof {
                crate::formula::lemma_pow2_monotone((l + 1) as nat, level as nat);
            }
            return usize::MAX;
        }
        b = b * 2;
        l = l + 1;
    }
    b
}

/// The nodes in line for the cache at the start: the interior nodes
/// among `roots`, in order, as many as `budget` allows.
pub open spec fn spec_line(roots: Seq<Address>, budget: nat) -> Seq<Address>
    decreases roots.len(),
{
    if roots.len() == 0 {
        Seq::empty()
    } else {
        let before = spec_line(roots.drop_last(), budget);
        if roots.last().j > 0 && before.len() < budget {
            before.push(roots.last())
        } else {
            before
        }
    }
}

/// The nodes that a cache holds in the end, when it holds `held`, the
/// nodes of `line` wait their turn and `left` more may be taken. The first
/// in line is taken; its two children join the line if they are interior
/// nodes and the line with them stays within what may still be taken.
pub open spec fn spec_taken(line: Seq<Address>, held: Seq<Address>, left: nat) -> Seq<Address>
    decreases left,
{
    if left == 0 || line.len() == 0 {
        held
    } else {
        let a = line[0];
        let rest = line.drop_first();
        let room = (left - 1) as nat;
        let next = if a.j > 1 && rest.len() + 2 <= room {
            rest.push(Address { i: (a.i - pow2((a.j - 1) as nat)) as u64, j: (a.j - 1) as u8 }).push(
                Address { i: a.i, j: (a.j - 1) as u8 },
            )
        } else {
            rest
        };
        spec_taken(next, held.push(a), room)
    }
}

/// The names of the nodes that a cache of the given level holds when it
/// is filled for a log of `n` entries, in the order in which they are
/// taken: the roots of the forest first, then level by level downwards.
pub open spec fn spec_warmed(n: nat, level: usize) -> Seq<Address> {
    spec_taken(
        spec_line(spec_forest_roots(n), spec_budget(level) as nat),
        Seq::empty(),
        spec_budget(level) as nat,
    )
}

/// The keys of the nodes named.
pub open spec fn spec_keys(names: Seq<Address>) -> Set<u128> {
    Set::new(|k: u128| exists|x: int| 0 <= x < names.len() && spec_key(#[trigger] names[x]) == k)
}

/// The keys of a row of names with one more are the keys of the row and
/// the key of that one.
pub proof fn lemma_keys_push(names: Seq<Address>, a: Address)
    ensures
        spec_keys(names.push(a)) == spec_keys(names).insert(spec_key(a)),
{
    let longer = names.push(a);
    assert forall|k: u128| spec_keys(longer).contains(k) <==> spec_keys(names).insert(
        spec_key(a),
    ).contains(k) by {
        if spec_keys(longer).contains(k) {
            let x = choose|x: int| 0 <= x < longer.len() && spec_key(#[trigger] longer[x]) == k;
            if x < names.len() {
                assert(spec_key(names[x]) == k);
            }
        }
        if spec_keys(names).contains(k) {
            let x = choose|x: int| 0 <= x < names.len() && spec_key(#[trigger] names[x]) == k;
            assert(spec_key(longer[x]) == k);
        }
        if k == spec_key(a) {
            assert(spec_key(longer[names.len() as int]) == k);
        }
    }
    assert(spec_keys(longer) =~= spec_keys(names).insert(spec_key(a)));
}

/// A node that is the node of its name in a log is the node of its name in
/// every log that extends it.
pub proof fn lemma_true_node_stays(
    node: CachedNode,
    payloads: Seq<Seq<u8>>,
    positions: Seq<Position>,
    longer: Seq<Seq<u8>>,
    places: Seq<Position>,
)
    requires
        true_node(node, payloads, positions),
        payloads.len() == positions.len(),
        payloads.len() <= longer.len() == places.len(),
        forall|x: int| 0 <= x < payloads.len() ==> payloads[x] == longer[x] && positions[x]
            == places[x],
    ensures
        true_node(node, longer, places),
{
    let i = node.address.i as nat;
    let j = node.address.j as nat;
    crate::formula::lemma_ctz_divides(i);
    crate::formula::lemma_pow2_monotone(j, ctz(i));
    crate::formula::lemma_pow2_strict((j - 1) as nat, j);
    crate::entry::lemma_node_hash_prefix(payloads, longer, i, j);
}

} // verus!
