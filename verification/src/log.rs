//! The append-only log: entries in a storage, the roots of the current
//! forest in memory, and lookups that walk from a root down to a leaf.

use crate::auth::{
    divergent_steps, fold_hash, fold_steps, hashed_inner, hashed_spine, lemma_divergent_not_empty,
    lemma_divergent_steps_member, lemma_leaf_steps, lemma_path_plain, lemma_path_reaches_root,
    lemma_step_range, pick, spec_divergent, spec_hashed_path, spec_path, spec_pick,
    spec_root_hash, views,
    AuthPath, HashedStep, Prove, StepView,
};
use crate::block::BlockStorage;
use crate::cache::{
    lemma_keys_push, lemma_true_node_stays, spec_budget, spec_key, spec_keys, spec_line,
    spec_taken, spec_warmed, true_node, CachedNode, NodeCache,
};
use crate::codec::put_bytes;
use crate::device::MemoryDevice;
use crate::entry::{
    lemma_entry_prefix, lemma_node_hash_prefix, node_hash, spec_entry, spec_meta_entry, Branch,
    Entry, EntryView,
};
use crate::formula::{
    clear_lowest, ctz, first_under, lemma_clear_lowest, lemma_cover, lemma_ctz_divides,
    lemma_ctz_of_odd_multiple, lemma_forest_roots_cover, lemma_pow2_adds, lemma_pow2_fits,
    lemma_pow2_monotone, lemma_pow2_strict, lemma_roots_before_append, pow2, pow2e, reversed,
    spec_cover, spec_fold_level, spec_fold_node, spec_forest_roots, spec_merged, trailing_zeros,
    Address, Side,
};
use crate::hash::blake3_digest;
use crate::storage::{listed, Error, Index, Position, Storage};
use std::collections::VecDeque;
use vstd::prelude::*;

verus! {

/// A root of the forest as the log keeps it in memory: its name, its hash
/// and the position of the record that holds it.
#[derive(Clone, Copy, Debug)]
pub struct Peak {
    pub address: Address,
    pub hash: crate::hash::Hash,
    pub position: Position,
}

/// Whether `records` hold, for each index up to `n`, the entry of the log
/// with the given payloads at the position that `positions` names.
pub open spec fn stored(
    records: Map<Position, EntryView>,
    payloads: Seq<Seq<u8>>,
    positions: Seq<Position>,
    n: nat,
) -> bool {
    &&& n <= payloads.len()
    &&& payloads.len() == positions.len()
    &&& forall|i: nat|
        1 <= i <= n ==> records.contains_key(#[trigger] positions[i - 1]) && records[positions[i
            - 1]] == spec_entry(payloads, positions, i)
}

/// Whether `peaks` are the roots of the forest of `n` leaves, each with its
/// hash and the position of its record.
pub open spec fn peaks_match(
    peaks: Seq<Peak>,
    payloads: Seq<Seq<u8>>,
    positions: Seq<Position>,
    n: nat,
) -> bool {
    &&& peaks.len() == spec_forest_roots(n).len()
    &&& forall|t: int|
        0 <= t < peaks.len() ==> {
            let a = spec_forest_roots(n)[t];
            &&& (#[trigger] peaks[t]).address == a
            &&& peaks[t].hash@ == node_hash(payloads, a.i as nat, a.j as nat)
            &&& peaks[t].position == positions[a.i - 1]
        }
}

/// `2^j` divides `i` whenever `j` is at most the number of trailing zero
/// bits of `i`; the left child of `(i, j + 1)` then has exactly `j`.
pub proof fn lemma_halves(i: nat, j: nat)
    requires
        i >= 1,
        j <= ctz(i),
    ensures
        pow2(j) <= i,
        j < ctz(i) ==> 2 * pow2(j) <= i && ctz((i - pow2(j)) as nat) == j && i - pow2(j) >= 1,
{
    lemma_ctz_divides(i);
    let c = ctz(i);
    lemma_pow2_monotone(j, c);
    if j < c {
        lemma_pow2_strict(j, c);
        let odd = i / pow2(c);
        vstd::arithmetic::div_mod::lemma_fundamental_div_mod(i as int, pow2(c) as int);
        lemma_pow2_adds(j + 1, (c - j - 1) as nat);
        let f = pow2((c - j - 1) as nat);
        lemma_pow2_monotone(0, (c - j - 1) as nat);
        let q = odd * f;
        let half = pow2(j);
        assert(i == q * (2 * half)) by (nonlinear_arith)
            requires
                i == pow2(c) * odd,
                pow2(j + 1) * f == pow2(c),
                pow2(j + 1) == 2 * half,
                q == odd * f,
        ;
        assert(q >= 1) by (nonlinear_arith)
            requires
                q == odd * f,
                odd >= 1,
                f >= 1,
        ;
        let o = (2 * q - 1) as nat;
        assert(i - half == o * half) by (nonlinear_arith)
            requires
                i == q * (2 * half),
                o == 2 * q - 1,
        ;
        lemma_ctz_of_odd_multiple(o, j);
    }
}

/// Which of `peaks` covers leaf `k`.
pub fn covering_peak(peaks: &Vec<Peak>, n: Index, k: Index) -> (t: usize)
    requires
        1 <= k <= n,
        peaks@.len() == spec_forest_roots(n as nat).len(),
        forall|x: int|
            0 <= x < peaks@.len() ==> (#[trigger] peaks@[x]).address == spec_forest_roots(
                n as nat,
            )[x],
    ensures
        t == spec_cover(k as nat, n as nat),
        t < peaks@.len(),
        first_under(peaks@[t as int].address) <= k <= peaks@[t as int].address.i,
{
    proof {
        lemma_cover(k as nat, n as nat);
        lemma_forest_roots_cover(n as nat);
    }
    let ghost roots = spec_forest_roots(n as nat);
    let m = peaks.len();
    let mut t: usize = 0;
    while peaks[t].address.i < k
        invariant
            m == peaks@.len() == roots.len(),
            t < m,
            t <= spec_cover(k as nat, n as nat) < m,
            roots == spec_forest_roots(n as nat),
            forall|x: int| 0 <= x < m ==> (#[trigger] peaks@[x]).address == roots[x],
            t == 0 ==> first_under(roots[0]) <= k,
            t > 0 ==> first_under(roots[t as int]) <= k,
            forall|x: int|
                0 <= x < roots.len() - 1 ==> first_under(#[trigger] roots[x + 1]) == roots[x].i
                    + 1,
            k <= roots[spec_cover(k as nat, n as nat) as int].i,
        decreases m - t,
    {
        assert(t != spec_cover(k as nat, n as nat));
        assert(first_under(roots[t as int + 1]) == roots[t as int].i + 1);
        t = t + 1;
    }
    t
}

/// Walks from the root that covers leaf `k` down to the leaf and returns
/// the entry of `k` with the position of its record. Where the way turns
/// left at a node that the cache holds, the record of that node is not
/// read.
pub fn locate<S: Storage<Entry>>(
    storage: &S,
    peaks: &Vec<Peak>,
    cache: &NodeCache,
    n: Index,
    k: Index,
    Ghost(payloads): Ghost<Seq<Seq<u8>>>,
    Ghost(positions): Ghost<Seq<Position>>,
) -> (r: Result<Option<(Position, Entry)>, Error>)
    requires
        storage.inv(),
        stored(storage.records(), payloads, positions, n as nat),
        peaks_match(peaks@, payloads, positions, n as nat),
        cache.agrees(payloads, positions),
    ensures
        storage.reliable() ==> r is Ok,
        k == 0 || k > n ==> r matches Ok(None),
        r matches Ok(found) ==> match found {
            Some((position, entry)) => 1 <= k <= n && position == positions[k - 1] && entry@
                == spec_entry(payloads, positions, k as nat),
            None => k == 0 || k > n,
        },
{
    if k == 0 || k > n {
        return Ok(None);
    }
    proof {
        lemma_forest_roots_cover(n as nat);
    }
    let t = covering_peak(peaks, n, k);
    let peak = peaks[t];
    let mut i = peak.address.i;
    let mut j = peak.address.j;
    let mut position = peak.position;
    let mut current: Option<Entry> = None;
    while j > 0
        invariant
            storage.inv(),
            stored(storage.records(), payloads, positions, n as nat),
            cache.agrees(payloads, positions),
            1 <= k,
            1 <= i <= n,
            j <= ctz(i as nat),
            j < 64,
            i - pow2(j as nat) < k <= i,
            position == positions[i - 1],
            current matches Some(entry) ==> entry@ == spec_entry(payloads, positions, i as nat),
        decreases j,
    {
        proof {
            lemma_pow2_fits((j - 1) as nat);
            lemma_halves(i as nat, (j - 1) as nat);
        }
        let half = pow2e(j - 1);
        let mid = i - half;
        if k <= mid {
            let left = match cache.get(Address { i, j }) {
                Some(node) => {
                    proof {
                        crate::cache::lemma_key_names(node.address, Address { i, j });
                    }
                    node.left
                },
                None => {
                    let entry = match current {
                        Some(entry) => entry,
                        None => match storage.read(position) {
                            Ok(entry) => entry,
                            Err(e) => {
                                return Err(e);
                            },
                        },
                    };
                    assert(entry@.inodes.len() == ctz(i as nat));
                    assert(entry.inodes@.len() == entry@.inodes.len());
                    let inode = entry.inodes[(j - 1) as usize];
                    assert(inode@ == entry@.inodes[j - 1]);
                    inode.left
                },
            };
            assert(left == positions[mid - 1]);
            position = left;
            i = mid;
            current = None;
        }
        j = j - 1;
    }
    assert(pow2(0) == 1);
    let entry = match current {
        Some(entry) => entry,
        None => match storage.read(position) {
            Ok(entry) => entry,
            Err(e) => {
                return Err(e);
            },
        },
    };
    Ok(Some((position, entry)))
}

/// Walks from the root that covers leaf `k` down to the leaf and returns
/// its payload.
pub fn lookup<S: Storage<Entry>>(
    storage: &S,
    peaks: &Vec<Peak>,
    cache: &NodeCache,
    n: Index,
    k: Index,
    Ghost(payloads): Ghost<Seq<Seq<u8>>>,
    Ghost(positions): Ghost<Seq<Position>>,
) -> (r: Result<Option<Vec<u8>>, Error>)
    requires
        storage.inv(),
        stored(storage.records(), payloads, positions, n as nat),
        peaks_match(peaks@, payloads, positions, n as nat),
        cache.agrees(payloads, positions),
    ensures
        storage.reliable() ==> r is Ok,
        k == 0 || k > n ==> r matches Ok(None),
        r matches Ok(found) ==> match found {
            Some(data) => 1 <= k <= n && data@ == payloads[k - 1],
            None => k == 0 || k > n,
        },
{
    match locate(storage, peaks, cache, n, k, Ghost(payloads), Ghost(positions)) {
        Ok(Some((_, entry))) => Ok(Some(entry.data)),
        Ok(None) => Ok(None),
        Err(e) => Err(e),
    }
}

/// The hash of the node that joins the roots from number `from` on, folded
/// from the right.
pub fn join_peaks(
    peaks: &Vec<Peak>,
    from: usize,
    Ghost(payloads): Ghost<Seq<Seq<u8>>>,
    Ghost(roots): Ghost<Seq<Address>>,
) -> (h: crate::hash::Hash)
    requires
        from < peaks@.len() == roots.len(),
        forall|x: int|
            0 <= x < peaks@.len() ==> (#[trigger] peaks@[x]).hash@ == node_hash(
                payloads,
                roots[x].i as nat,
                roots[x].j as nat,
            ),
    ensures
        h@ == fold_hash(payloads, roots, from as int),
{
    let m = peaks.len();
    let mut acc = peaks[m - 1].hash;
    let mut s: usize = m - 1;
    while s > from
        invariant
            from <= s < m == peaks@.len() == roots.len(),
            acc@ == fold_hash(payloads, roots, s as int),
            forall|x: int|
                0 <= x < peaks@.len() ==> (#[trigger] peaks@[x]).hash@ == node_hash(
                    payloads,
                    roots[x].i as nat,
                    roots[x].j as nat,
                ),
        decreases s,
    {
        s = s - 1;
        acc = peaks[s].hash.combine(&acc);
    }
    acc
}

/// Walks from the root that covers leaf `k` down to the leaf, gathers the
/// hash of each sibling on the way, adds the siblings up the spine, and
/// returns the path with the hash of the root of the whole log.
pub fn authenticate<S: Storage<Entry>>(
    storage: &S,
    peaks: &Vec<Peak>,
    n: Index,
    k: Index,
    Ghost(payloads): Ghost<Seq<Seq<u8>>>,
    Ghost(positions): Ghost<Seq<Position>>,
) -> (r: Result<Option<AuthPath>, Error>)
    requires
        storage.inv(),
        stored(storage.records(), payloads, positions, n as nat),
        peaks_match(peaks@, payloads, positions, n as nat),
    ensures
        storage.reliable() ==> r is Ok,
        k == 0 || k > n ==> r matches Ok(None),
        r matches Ok(found) ==> match found {
            Some(path) => 1 <= k <= n && path@ == spec_path(payloads, k as nat, n as nat),
            None => k == 0 || k > n,
        },
{
    if k == 0 || k > n {
        return Ok(None);
    }
    proof {
        lemma_forest_roots_cover(n as nat);
    }
    let ghost roots = spec_forest_roots(n as nat);
    let t = covering_peak(peaks, n, k);
    let m = peaks.len();
    let peak = peaks[t];
    let top = peak.address;
    assert(top == roots[t as int]);
    let mut entry = match storage.read(peak.position) {
        Ok(entry) => entry,
        Err(e) => {
            return Err(e);
        },
    };
    let mut i = top.i;
    let mut j = top.j;
    let mut down: Vec<HashedStep> = Vec::new();
    while j > 0
        invariant
            storage.inv(),
            stored(storage.records(), payloads, positions, n as nat),
            1 <= k,
            1 <= i <= n,
            j <= ctz(i as nat),
            j <= top.j < 64,
            i - pow2(j as nat) < k <= i,
            entry@ == spec_entry(payloads, positions, i as nat),
            hashed_inner(payloads, k as nat, top.i as nat, top.j as nat) == hashed_inner(
                payloads,
                k as nat,
                i as nat,
                j as nat,
            ) + reversed(views(down@)),
        decreases j,
    {
        proof {
            lemma_pow2_fits((j - 1) as nat);
            lemma_halves(i as nat, (j - 1) as nat);
            assert(entry@.inodes.len() == ctz(i as nat));
            assert(entry.inodes@.len() == entry@.inodes.len());
        }
        let half = pow2e(j - 1);
        let mid = i - half;
        let inode = entry.inodes[(j - 1) as usize];
        assert(inode@ == entry@.inodes[j - 1]);
        assert(inode.left == positions[mid - 1]);
        let left = match storage.read(inode.left) {
            Ok(left) => left,
            Err(e) => {
                return Err(e);
            },
        };
        let ghost before = views(down@);
        let ghost rest = hashed_inner(
            payloads,
            k as nat,
            (if k <= mid {
                mid
            } else {
                i
            }) as nat,
            (j - 1) as nat,
        );
        proof {
            assert(left@ == spec_entry(payloads, positions, mid as nat));
            assert(left@.inodes.len() == ctz(mid as nat));
            if j >= 2 {
                assert(entry@.inodes[j - 2].hash == node_hash(payloads, i as nat, (j - 1) as nat));
                assert(left@.inodes[j - 2].hash == node_hash(
                    payloads,
                    mid as nat,
                    (j - 1) as nat,
                ));
            }
        }
        let step = if k <= mid {
            let hash = match entry.hash_at(j - 1) {
                Some(hash) => hash,
                None => {
                    return Err(Error::Invariant);
                },
            };
            HashedStep { node: Address { i, j: j - 1 }, side: Side::Right, hash }
        } else {
            let hash = match left.hash_at(j - 1) {
                Some(hash) => hash,
                None => {
                    return Err(Error::Invariant);
                },
            };
            HashedStep { node: Address { i: mid, j: j - 1 }, side: Side::Left, hash }
        };
        down.push(step);
        proof {
            assert(hashed_inner(payloads, k as nat, i as nat, j as nat) == rest.push(step@));
            assert(rest.push(step@) + reversed(before) =~= rest + reversed(views(down@)));
        }
        if k <= mid {
            entry = left;
            i = mid;
        }
        j = j - 1;
    }
    assert(pow2(0) == 1);
    let leaf = entry.leaf;
    let mut steps: Vec<HashedStep> = Vec::new();
    let mut x: usize = down.len();
    while x > 0
        invariant
            x <= down@.len(),
            steps@.len() == down@.len() - x,
            forall|y: int| 0 <= y < steps@.len() ==> steps@[y] == down@[down@.len() - 1 - y],
        decreases x,
    {
        x = x - 1;
        steps.push(down[x]);
    }
    let ghost inner = hashed_inner(payloads, k as nat, top.i as nat, top.j as nat);
    assert(views(steps@) =~= inner) by {
        assert(hashed_inner(payloads, k as nat, i as nat, 0) =~= Seq::<StepView>::empty());
        assert(inner =~= reversed(views(down@)));
    }
    if t + 1 < m {
        let hash = join_peaks(peaks, t + 1, Ghost(payloads), Ghost(roots));
        let level = if t + 2 >= m {
            peaks[t + 1].address.j
        } else {
            peaks[t + 1].address.j + 1
        };
        assert(level == spec_fold_level(roots, t + 1));
        let step = HashedStep {
            node: Address { i: peaks[m - 1].address.i, j: level },
            side: Side::Right,
            hash,
        };
        assert(step.node == spec_fold_node(roots, t + 1));
        steps.push(step);
    }
    assert(views(steps@) =~= inner + hashed_spine(payloads, roots, t as int, 0));
    let mut s: usize = 0;
    while s < t
        invariant
            s <= t < m == peaks@.len() == roots.len(),
            peaks_match(peaks@, payloads, positions, n as nat),
            roots == spec_forest_roots(n as nat),
            views(steps@) == inner + hashed_spine(payloads, roots, t as int, s as nat),
        decreases t - s,
    {
        let ghost before = views(steps@);
        let p = peaks[t - s - 1];
        let step = HashedStep { node: p.address, side: Side::Left, hash: p.hash };
        steps.push(step);
        proof {
            assert(p.address == roots[t - (s + 1)]);
            assert(views(steps@) =~= before.push(step@));
            assert(before.push(step@) =~= inner + hashed_spine(
                payloads,
                roots,
                t as int,
                (s + 1) as nat,
            ));
        }
        s = s + 1;
    }
    let root = join_peaks(peaks, 0, Ghost(payloads), Ghost(roots));
    let path = AuthPath { i: k, n, leaf, steps, root };
    proof {
        assert(path@.steps =~= views(steps@));
        assert(path@.steps == spec_hashed_path(payloads, k as nat, n as nat));
    }
    Ok(Some(path))
}

/// Fills a cache of the given level: takes the interior nodes from the
/// roots of the forest on, level by level, each node before its children,
/// until the budget of the level is used up or no node is left. A node's
/// children are taken in line only while the nodes held, those in line and
/// the two children stay within the budget. The nodes held in the end are
/// those that `spec_warmed` names.
pub fn fill_cache<S: Storage<Entry>>(
    storage: &S,
    peaks: &Vec<Peak>,
    n: Index,
    level: usize,
    Ghost(payloads): Ghost<Seq<Seq<u8>>>,
    Ghost(positions): Ghost<Seq<Position>>,
) -> (r: Result<NodeCache, Error>)
    requires
        storage.inv(),
        stored(storage.records(), payloads, positions, n as nat),
        peaks_match(peaks@, payloads, positions, n as nat),
    ensures
        storage.reliable() ==> r is Ok,
        r matches Ok(cache) ==> cache.agrees(payloads, positions) && cache.spec_level() == level
            && cache.nodes().len() <= spec_budget(level),
        r matches Ok(cache) ==> (n >= 2 ==> cache.nodes().contains_key(
            spec_key(spec_forest_roots(n as nat)[0]),
        )),
        r matches Ok(cache) ==> cache.nodes().dom() == spec_keys(spec_warmed(n as nat, level)),
{
    let mut cache = NodeCache::new(level);
    let budget = cache.budget();
    let mut queue: VecDeque<(Address, Position)> = VecDeque::new();
    proof {
        lemma_forest_roots_cover(n as nat);
        crate::formula::lemma_pow2_monotone(0, level as nat);
        if n >= 2 {
            let roots = spec_forest_roots(n as nat);
            if roots[0].j == 0 {
                assert(pow2(0) == 1);
                if roots.len() > 1 {
                    assert(roots[0int + 1].j < roots[0].j);
                }
            }
        }
    }
    let ghost first = spec_forest_roots(n as nat)[0];
    let ghost roots = spec_forest_roots(n as nat);
    let ghost mut names: Seq<Address> = Seq::empty();
    let mut t: usize = 0;
    assert(roots.subrange(0, 0) =~= Seq::<Address>::empty());
    while t < peaks.len()
        invariant
            t <= peaks@.len(),
            budget >= 1,
            budget == spec_budget(level),
            roots == spec_forest_roots(n as nat),
            peaks@.len() == roots.len(),
            names == spec_line(roots.subrange(0, t as int), budget as nat),
            names.len() == queue@.len(),
            forall|x: int| 0 <= x < names.len() ==> (#[trigger] queue@[x]).0 == names[x],
            t == 0 ==> queue@.len() == 0,
            n >= 2 ==> first.j >= 1 && (t > 0 ==> queue@.len() >= 1 && queue@[0].0 == first),
            first == spec_forest_roots(n as nat)[0],
            peaks_match(peaks@, payloads, positions, n as nat),
            forall|x: int| 0 <= x < queue@.len() ==> in_line(#[trigger] queue@[x], n, positions),
            forall|x: int|
                0 <= x < spec_forest_roots(n as nat).len() ==> {
                    let a = #[trigger] spec_forest_roots(n as nat)[x];
                    1 <= a.i <= n && a.j == ctz(a.i as nat) && a.j < 64
                },
        decreases peaks@.len() - t,
    {
        let peak = peaks[t];
        let ghost line = queue@;
        assert(peak.address == spec_forest_roots(n as nat)[t as int]);
        proof {
            assert(roots.subrange(0, t + 1).drop_last() =~= roots.subrange(0, t as int));
        }
        if peak.address.j > 0 && queue.len() < budget {
            queue.push_back((peak.address, peak.position));
            proof {
                if line.len() > 0 {
                    assert(queue@[0] == line[0]);
                }
                names = names.push(peak.address);
            }
        }
        t += 1;
    }
    let ghost mut held: Seq<Address> = Seq::empty();
    proof {
        assert(roots.subrange(0, t as int) =~= roots);
        assert(spec_keys(held) =~= Set::<u128>::empty());
        assert(cache.nodes().dom() =~= Set::<u128>::empty());
    }
    let mut left: usize = budget;
    let ghost mut taken = false;
    while left > 0 && queue.len() > 0
        invariant
            storage.inv(),
            n >= 2 && !taken ==> left >= 1 && queue@.len() >= 1 && queue@[0].0 == first,
            n >= 2 && taken ==> cache.nodes().contains_key(spec_key(first)),
            stored(storage.records(), payloads, positions, n as nat),
            cache.agrees(payloads, positions),
            cache.spec_level() == level,
            budget == spec_budget(level),
            left <= budget,
            cache.nodes().dom().finite(),
            cache.nodes().len() + left <= budget,
            forall|x: int| 0 <= x < queue@.len() ==> in_line(#[trigger] queue@[x], n, positions),
            names.len() == queue@.len(),
            forall|x: int| 0 <= x < names.len() ==> (#[trigger] queue@[x]).0 == names[x],
            cache.nodes().dom() == spec_keys(held),
            spec_taken(names, held, left as nat) == spec_warmed(n as nat, level),
        decreases left,
    {
        let ghost waiting = names;
        let ghost old_line = queue@;
        let (address, position) = match queue.pop_front() {
            Some(front) => front,
            None => {
                return Err(Error::Invariant);
            },
        };
        let ghost queued = queue@;
        let entry = match storage.read(position) {
            Ok(entry) => entry,
            Err(e) => {
                return Err(e);
            },
        };
        left = left - 1;
        let i = address.i;
        let j = address.j;
        proof {
            assert(entry@ == spec_entry(payloads, positions, i as nat));
            assert(entry@.inodes.len() == ctz(i as nat));
            assert(entry.inodes@.len() == entry@.inodes.len());
            lemma_pow2_fits((j - 1) as nat);
            lemma_halves(i as nat, (j - 1) as nat);
        }
        let inode = entry.inodes[(j - 1) as usize];
        assert(inode@ == entry@.inodes[j - 1]);
        let node = CachedNode { address, hash: inode.hash, left: inode.left, right: inode.right };
        let ghost before = cache.nodes();
        cache.insert(node);
        proof {
            lemma_keys_push(held, address);
            assert(cache.nodes().dom() =~= before.dom().insert(spec_key(address)));
            held = held.push(address);
            names = waiting.drop_first();
            assert(address == waiting[0]);
            assert forall|x: int| 0 <= x < names.len() implies (#[trigger] queued[x]).0
                == names[x] by {
                assert(queued[x] == old_line[x + 1]);
                assert(names[x] == waiting[x + 1]);
            }
            taken = true;
            assert(true_node(node, payloads, positions));
            if before.contains_key(spec_key(address)) {
                assert(before.insert(spec_key(address), node).dom() =~= before.dom());
            } else {
                assert(before.insert(spec_key(address), node).len() == before.len() + 1);
            }
        }
        if j > 1 && queue.len() < left && left - queue.len() >= 2 {
            let half = pow2e(j - 1);
            let below = Address { i: i - half, j: j - 1 };
            let same = Address { i, j: j - 1 };
            queue.push_back((below, inode.left));
            queue.push_back((same, position));
            proof {
                names = names.push(below).push(same);
                assert forall|x: int| 0 <= x < queue@.len() implies in_line(
                    #[trigger] queue@[x],
                    n,
                    positions,
                ) by {
                    if x < queued.len() {
                        assert(queue@[x] == queued[x]);
                    }
                }
            }
        } else {
            proof {
                assert forall|x: int| 0 <= x < queue@.len() implies in_line(
                    #[trigger] queue@[x],
                    n,
                    positions,
                ) by {
                    assert(queue@[x] == queued[x]);
                }
            }
        }
    }
    Ok(cache)
}

/// Whether a node in line for the cache is an interior node of the log
/// with the position of its record.
pub open spec fn in_line(item: (Address, Position), n: Index, positions: Seq<Position>) -> bool {
    &&& 1 <= item.0.i <= n
    &&& 1 <= item.0.j <= ctz(item.0.i as nat)
    &&& item.0.j < 64
    &&& item.1 == positions[item.0.i - 1]
}

/// Whether `records`, between `origin` and `end`, hold the log with the
/// payloads `w.0` and nothing else: the metadata record at `w.1[0]`, then
/// the record of each entry at its place in the rest of `w.1`.
pub open spec fn holds_log(
    records: Map<Position, EntryView>,
    origin: Position,
    end: Position,
    w: (Seq<Seq<u8>>, Seq<Position>),
) -> bool {
    &&& w.1.len() == w.0.len() + 1
    &&& w.0.len() <= Index::MAX
    &&& listed(w.1, records, origin, end)
    &&& records[w.1[0]] == spec_meta_entry()
    &&& stored(records, w.0, w.1.subrange(1, w.1.len() as int), w.0.len())
}

/// Whether `records` hold nothing from `origin` on.
pub open spec fn is_fresh(records: Map<Position, EntryView>, origin: Position) -> bool {
    forall|p: Position| origin <= p ==> !#[trigger] records.contains_key(p)
}

/// Whether `records` hold something between `origin` and `end`.
pub open spec fn is_occupied(
    records: Map<Position, EntryView>,
    origin: Position,
    end: Position,
) -> bool {
    exists|p: Position| origin <= p < end && #[trigger] records.contains_key(p)
}

/// Whether `records`, listed in `w.1`, begin with the metadata record and
/// the entries of the log with the payloads `w.0`, and the record after
/// them, at `position`, is not the entry that an append of its payload
/// would have stored there.
pub open spec fn breaks_at(
    records: Map<Position, EntryView>,
    origin: Position,
    end: Position,
    position: Position,
    w: (Seq<Seq<u8>>, Seq<Position>),
) -> bool {
    let k = w.0.len() as int;
    &&& listed(w.1, records, origin, end)
    &&& k + 1 < w.1.len()
    &&& w.1[k + 1] == position
    &&& records[w.1[0]] == spec_meta_entry()
    &&& stored(records, w.0, w.1.subrange(1, k + 1), w.0.len())
    &&& records[position] != spec_entry(
        w.0.push(records[position].data),
        w.1.subrange(1, k + 2),
        (k + 1) as nat,
    )
}

/// Whether `position` is where `records` cease to be a log: the record
/// there is the first that is no entry of the log before it.
pub open spec fn broken_log_at(
    records: Map<Position, EntryView>,
    origin: Position,
    end: Position,
    position: Position,
) -> bool {
    exists|w: (Seq<Seq<u8>>, Seq<Position>)| breaks_at(records, origin, end, position, w)
}

/// Whether `list` names the records and the first of them is not the
/// metadata record.
pub open spec fn lacks_meta(
    records: Map<Position, EntryView>,
    origin: Position,
    end: Position,
    list: Seq<Position>,
) -> bool {
    listed(list, records, origin, end) && list.len() > 0 && records[list[0]] != spec_meta_entry()
}

/// Whether `list` names the records and they are more than a log has
/// indices.
pub open spec fn overfull(
    records: Map<Position, EntryView>,
    origin: Position,
    end: Position,
    list: Seq<Position>,
) -> bool {
    listed(list, records, origin, end) && list.len() > Index::MAX
}

/// Why a reliable storage that holds records is refused as a log: with
/// `Serialization`, its first record is not the metadata record; with
/// `Corruption`, the record at the position named is the first that is no
/// entry of the log before it; with `Capacity`, it holds more records than
/// a log has indices.
pub open spec fn refused(
    records: Map<Position, EntryView>,
    origin: Position,
    end: Position,
    e: Error,
) -> bool {
    match e {
        Error::Serialization => exists|list: Seq<Position>|
            lacks_meta(records, origin, end, list),
        Error::Corruption { position } => broken_log_at(records, origin, end, position),
        Error::Capacity => exists|list: Seq<Position>| overfull(records, origin, end, list),
        _ => false,
    }
}

/// Whether the opening of `storage` is owed a log: its reads do not fail,
/// and it holds a log, or it holds nothing and takes the metadata record.
pub open spec fn openable<S: Storage<Entry>>(storage: S) -> bool {
    &&& storage.reliable()
    &&& (exists|w: (Seq<Seq<u8>>, Seq<Position>)|
        holds_log(storage.records(), storage.origin(), storage.end(), w)) || (is_fresh(
        storage.records(),
        storage.origin(),
    ) && (storage.accepts(storage.end(), spec_meta_entry()) || (storage.sequential()
        && storage.end() < Position::MAX)))
}

/// The append-only log over a storage of entries.
pub struct Slate<S: Storage<Entry>> {
    storage: S,
    n: Index,
    end: Position,
    meta: Position,
    peaks: Vec<Peak>,
    cache: NodeCache,
    payloads: Ghost<Seq<Seq<u8>>>,
    positions: Ghost<Seq<Position>>,
}

/// What holds once the metadata record of `storage` is seen to, and the
/// storage has become `store`: `list` holds the positions of the records,
/// that of the metadata record first, and `end` is the end of `store`.
/// Where `storage` held records, `store` is `storage`; where it held none,
/// `store` holds the metadata record at what was the end of `storage`.
pub open spec fn prepared<S: Storage<Entry>>(
    storage: S,
    store: S,
    list: Seq<Position>,
    end: Position,
) -> bool {
    &&& store.inv()
    &&& store.reliable() == storage.reliable()
    &&& store.sequential() == storage.sequential()
    &&& store.origin() == storage.origin()
    &&& end == store.end()
    &&& list.len() >= 1
    &&& store.records().contains_key(list[0])
    &&& store.records()[list[0]] == spec_meta_entry()
    &&& forall|i: int, j: int| 0 <= i < j < list.len() ==> #[trigger] list[i] < #[trigger] list[j]
    &&& forall|i: int|
        0 <= i < list.len() ==> store.records().contains_key(#[trigger] list[i]) && list[i] < end
    &&& is_occupied(storage.records(), storage.origin(), storage.end()) ==> {
        &&& store.records() == storage.records()
        &&& end == storage.end()
        &&& listed(list, storage.records(), storage.origin(), storage.end())
    }
    &&& !is_occupied(storage.records(), storage.origin(), storage.end()) ==> {
        &&& list == seq![storage.end()]
        &&& store.records() == storage.records().insert(storage.end(), spec_meta_entry())
        &&& end > storage.end()
        &&& storage.sequential() ==> end == storage.end() + 1
    }
    &&& is_fresh(storage.records(), storage.origin()) && storage.origin() <= storage.end()
        ==> listed(list, store.records(), storage.origin(), end)
}

/// What the opening of `storage` gives where it gives the log `log`. The
/// log is in order and as reliable as the storage. Where the storage held
/// records, the log holds the same and they are a log; where it held none,
/// the log is empty and holds the metadata record at what was the end of
/// the storage.
pub open spec fn opened<S: Storage<Entry>>(storage: S, log: Slate<S>) -> bool {
    &&& log.wf()
    &&& log.origin() == storage.origin()
    &&& log.reliable() == storage.reliable()
    &&& log.sequential() == storage.sequential()
    &&& log.positions().len() == log.size()
    &&& is_occupied(storage.records(), storage.origin(), storage.end()) ==> {
        &&& log.records() == storage.records()
        &&& log.end() == storage.end()
        &&& holds_log(
            storage.records(),
            storage.origin(),
            storage.end(),
            (log.payloads(), log.places()),
        )
    }
    &&& !is_occupied(storage.records(), storage.origin(), storage.end()) ==> {
        &&& log.size() == 0
        &&& log.meta_position() == storage.end()
        &&& log.records() == storage.records().insert(storage.end(), spec_meta_entry())
        &&& log.end() > storage.end()
        &&& storage.sequential() ==> log.end() == storage.end() + 1
    }
    &&& is_fresh(storage.records(), storage.origin()) && storage.origin() <= storage.end()
        ==> holds_log(
        log.records(),
        storage.origin(),
        log.end(),
        (log.payloads(), log.places()),
    )
}

impl<S: Storage<Entry>> Slate<S> {
    /// The payloads appended so far, in order.
    pub closed spec fn payloads(&self) -> Seq<Seq<u8>> {
        self.payloads@
    }

    /// The position of each entry's record, in order.
    pub closed spec fn positions(&self) -> Seq<Position> {
        self.positions@
    }

    /// The records of the storage behind the log.
    pub closed spec fn records(&self) -> Map<Position, EntryView> {
        self.storage.records()
    }

    /// Number of entries.
    pub closed spec fn size(&self) -> Index {
        self.n
    }

    /// The position at which the next entry will stand.
    pub closed spec fn end(&self) -> Position {
        self.end
    }

    /// The position of the metadata record.
    pub closed spec fn meta_position(&self) -> Position {
        self.meta
    }

    /// The position from which the storage behind the log holds records.
    pub closed spec fn origin(&self) -> Position {
        self.storage.origin()
    }

    /// Whether the storage holds, between its origin and the end of the
    /// log, the records of the log and no others.
    pub open spec fn tidy(&self) -> bool {
        holds_log(self.records(), self.origin(), self.end(), (self.payloads(), self.places()))
    }

    /// The positions of all records of the log: that of the metadata
    /// record, then those of the entries.
    pub open spec fn places(&self) -> Seq<Position> {
        seq![self.meta_position()] + self.positions()
    }

    /// Whether reads of the storage behind the log never fail.
    pub closed spec fn reliable(&self) -> bool {
        self.storage.reliable()
    }

    /// Whether the storage behind the log takes consecutive positions and
    /// accepts every put below the last position.
    pub closed spec fn sequential(&self) -> bool {
        self.storage.sequential()
    }

    /// Whether the storage accepts the entry that an append of `data` would
    /// store.
    pub closed spec fn accepts(&self, data: Seq<u8>) -> bool {
        self.storage.accepts(
            self.end,
            spec_entry(
                self.payloads@.push(data),
                self.positions@.push(self.end),
                (self.n + 1) as nat,
            ),
        )
    }

    /// The roots of the current forest as the log holds them.
    pub closed spec fn peaks(&self) -> Seq<Peak> {
        self.peaks@
    }

    /// The node cache of the log.
    pub closed spec fn spec_cache(&self) -> NodeCache {
        self.cache
    }

    /// The log's invariant: the storage holds the metadata record and after
    /// it the entry of every index at its position, all below `end()`, and
    /// the roots in memory are those of the forest of `size()` leaves.
    pub closed spec fn wf(&self) -> bool {
        &&& self.storage.inv()
        &&& self.payloads@.len() == self.n
        &&& self.positions@.len() == self.n
        &&& self.end == self.storage.end()
        &&& self.meta < self.end
        &&& self.storage.records().contains_key(self.meta)
        &&& self.storage.records()[self.meta] == spec_meta_entry()
        &&& forall|i: int|
            0 <= i < self.n ==> self.meta < #[trigger] self.positions@[i] < self.end
        &&& stored(self.storage.records(), self.payloads@, self.positions@, self.n as nat)
        &&& peaks_match(self.peaks@, self.payloads@, self.positions@, self.n as nat)
        &&& self.cache.agrees(self.payloads@, self.positions@)
    }

    /// Whether this log holds everything that `old` held, at the same
    /// positions.
    pub open spec fn extends(&self, old: &Self) -> bool {
        &&& old.size() <= self.size()
        &&& old.payloads() == self.payloads().subrange(0, old.size() as int)
        &&& old.positions() == self.positions().subrange(0, old.size() as int)
    }

    /// A log is tidy when it is opened on a storage.
    pub proof fn lemma_opened_tidy(storage: S, log: Self)
        requires
            storage.inv(),
            opened(storage, log),
        ensures
            log.tidy(),
    {
        storage.lemma_bounds();
        if !is_occupied(storage.records(), storage.origin(), storage.end()) {
            assert forall|p: Position| storage.origin() <= p implies !#[trigger]
                storage.records().contains_key(p) by {
                if storage.records().contains_key(p) {
                    assert(p < storage.end());
                }
            }
            assert(is_fresh(storage.records(), storage.origin()));
        }
    }

    /// A tidy log stays tidy when an entry is appended to it.
    pub proof fn lemma_tidy_stays(before: Self, after: Self, data: Seq<u8>)
        requires
            before.wf(),
            after.wf(),
            before.tidy(),
            after.origin() == before.origin(),
            after.meta_position() == before.meta_position(),
            after.payloads() == before.payloads().push(data),
            after.positions() == before.positions().push(before.end()),
            after.end() > before.end(),
            after.records() == before.records().insert(
                before.end(),
                spec_entry(after.payloads(), after.positions(), after.size() as nat),
            ),
        ensures
            after.tidy(),
    {
        before.storage.lemma_bounds();
        before.lemma_sizes();
        after.lemma_sizes();
        let old_places = before.places();
        let places = after.places();
        let records = after.records();
        let n = before.size() as int;
        assert(places =~= old_places.push(before.end()));
        assert(places.subrange(1, places.len() as int) =~= after.positions());
        assert forall|i: int, j: int| 0 <= i < j < places.len() implies #[trigger] places[i]
            < #[trigger] places[j] by {
            if j < old_places.len() {
                assert(old_places[i] < old_places[j]);
            } else {
                assert(old_places[i] < before.end());
            }
        }
        assert forall|i: int| 0 <= i < places.len() implies after.origin() <= #[trigger] places[i]
            < after.end() && records.contains_key(places[i]) by {
            if i < old_places.len() {
                assert(before.origin() <= old_places[i] < before.end()
                    && before.records().contains_key(old_places[i]));
            }
        }
        assert forall|p: Position|
            after.origin() <= p < after.end() && #[trigger] records.contains_key(
                p,
            ) implies places.contains(p) by {
            if p == before.end() {
                assert(places[old_places.len() as int] == p);
            } else {
                assert(before.records().contains_key(p));
                assert(p < before.end());
                assert(old_places.contains(p));
                let x = choose|x: int| 0 <= x < old_places.len() && old_places[x] == p;
                assert(places[x] == p);
            }
        }
        assert(old_places[0] < before.end());
        assert(records[places[0]] == spec_meta_entry());
    }

    /// What the invariant says of sizes.
    pub proof fn lemma_sizes(&self)
        requires
            self.wf(),
        ensures
            self.payloads().len() == self.size(),
            self.positions().len() == self.size(),
            stored(self.records(), self.payloads(), self.positions(), self.size() as nat),
            peaks_match(self.peaks(), self.payloads(), self.positions(), self.size() as nat),
            self.spec_cache().agrees(self.payloads(), self.positions()),
            self.records().contains_key(self.meta_position()),
            self.records()[self.meta_position()] == spec_meta_entry(),
            self.meta_position() < self.end(),
    {
    }

    /// The log that `storage` holds, with cache level 0. See `open`.
    pub fn new(storage: S) -> (r: Result<Self, Error>)
        requires
            storage.inv(),
        ensures
            r matches Ok(log) ==> opened(storage, log),
            r matches Ok(log) ==> log.spec_cache().spec_level() == 0
                && log.spec_cache().nodes().dom() == spec_keys(
                spec_warmed(log.size() as nat, 0),
            ),
            storage.reliable() && (exists|w: (Seq<Seq<u8>>, Seq<Position>)|
                holds_log(storage.records(), storage.origin(), storage.end(), w)) ==> r is Ok,
            storage.reliable() && is_fresh(storage.records(), storage.origin()) && (
            storage.accepts(storage.end(), spec_meta_entry()) || (storage.sequential()
                && storage.end() < Position::MAX)) ==> r is Ok,
            storage.reliable() && is_occupied(storage.records(), storage.origin(), storage.end())
                ==> (r matches Err(e) ==> refused(
                storage.records(),
                storage.origin(),
                storage.end(),
                e,
            )),
    {
        Self::open(storage, 0)
    }

    /// The log that `storage` holds, with the given cache level. See `open`.
    pub fn with_cache_level(storage: S, cache_level: usize) -> (r: Result<Self, Error>)
        requires
            storage.inv(),
        ensures
            r matches Ok(log) ==> opened(storage, log),
            r matches Ok(log) ==> log.spec_cache().spec_level() == cache_level
                && log.spec_cache().nodes().dom() == spec_keys(
                spec_warmed(log.size() as nat, cache_level),
            ),
            storage.reliable() && (exists|w: (Seq<Seq<u8>>, Seq<Position>)|
                holds_log(storage.records(), storage.origin(), storage.end(), w)) ==> r is Ok,
            storage.reliable() && is_fresh(storage.records(), storage.origin()) && (
            storage.accepts(storage.end(), spec_meta_entry()) || (storage.sequential()
                && storage.end() < Position::MAX)) ==> r is Ok,
            storage.reliable() && is_occupied(storage.records(), storage.origin(), storage.end())
                ==> (r matches Err(e) ==> refused(
                storage.records(),
                storage.origin(),
                storage.end(),
                e,
            )),
    {
        Self::open(storage, cache_level)
    }

    /// Opens the log that `storage` holds: reads the records from the first
    /// to the last and takes each as the next entry if it is the entry that
    /// an append of its payload would have stored there. The first record
    /// must be the metadata record, else the storage is refused with
    /// `Serialization`; a later record that is not the next entry is
    /// refused with `Corruption` at its position. A storage without
    /// records is given the metadata record and holds the empty log.
    pub fn open(storage: S, cache_level: usize) -> (r: Result<Self, Error>)
        requires
            storage.inv(),
        ensures
            r matches Ok(log) ==> opened(storage, log),
            r matches Ok(log) ==> log.spec_cache().spec_level() == cache_level
                && log.spec_cache().nodes().dom() == spec_keys(
                spec_warmed(log.size() as nat, cache_level),
            ),
            storage.reliable() && (exists|w: (Seq<Seq<u8>>, Seq<Position>)|
                holds_log(storage.records(), storage.origin(), storage.end(), w)) ==> r is Ok,
            storage.reliable() && is_fresh(storage.records(), storage.origin()) && (
            storage.accepts(storage.end(), spec_meta_entry()) || (storage.sequential()
                && storage.end() < Position::MAX)) ==> r is Ok,
            storage.reliable() && is_occupied(storage.records(), storage.origin(), storage.end())
                ==> (r matches Err(e) ==> refused(
                storage.records(),
                storage.origin(),
                storage.end(),
                e,
            )),
    {
        let mut store = storage;
        let mut list = match store.positions() {
            Ok(list) => list,
            Err(e) => {
                return Err(e);
            },
        };
        let mut end = match store.last() {
            Ok((_, end)) => end,
            Err(e) => {
                return Err(e);
            },
        };
        let meta = Entry::metadata();
        let ghost proper = exists|w: (Seq<Seq<u8>>, Seq<Position>)|
            holds_log(storage.records(), storage.origin(), storage.end(), w);
        let ghost w = choose|w: (Seq<Seq<u8>>, Seq<Position>)|
            holds_log(storage.records(), storage.origin(), storage.end(), w);
        let ghost occupied = is_occupied(storage.records(), storage.origin(), storage.end());
        proof {
            if proper {
                crate::storage::lemma_listed_unique(
                    list@,
                    w.1,
                    storage.records(),
                    storage.origin(),
                    storage.end(),
                );
            }
            if occupied {
                let p = choose|p: Position|
                    storage.origin() <= p < storage.end() && #[trigger] storage.records().contains_key(
                        p,
                    );
                assert(list@.contains(p));
            }
            if list@.len() > 0 {
                assert(storage.records().contains_key(list@[0]));
            }
        }
        if list.len() == 0 {
            let next = match store.put(end, &meta) {
                Ok(next) => next,
                Err(e) => {
                    return Err(e);
                },
            };
            list.push(end);
            end = next;
            proof {
                assert(!occupied);
                assert(list@ =~= seq![storage.end()]);
                assert(store.records().contains_key(list@[0]));
                if is_fresh(storage.records(), storage.origin()) {
                    assert forall|p: Position|
                        store.origin() <= p < store.end() && #[trigger] store.records().contains_key(
                            p,
                        ) implies list@.contains(p) by {
                        assert(p == list@[0]);
                    }
                }
            }
        } else {
            proof {
                assert(storage.origin() <= list@[0] < storage.end()
                    && storage.records().contains_key(list@[0]));
                assert(occupied);
            }
            let first = match store.read(list[0]) {
                Ok(first) => first,
                Err(e) => {
                    return Err(e);
                },
            };
            if !first.same(&meta) {
                assert(lacks_meta(storage.records(), storage.origin(), storage.end(), list@));
                return Err(Error::Serialization);
            }
        }
        let mut peaks: Vec<Peak> = Vec::new();
        let ghost mut payloads: Seq<Seq<u8>> = Seq::empty();
        let mut n: Index = 0;
        let mut idx: usize = 1;
        assert(spec_forest_roots(0) == Seq::<Address>::empty());
        assert(list@.subrange(1, 1) =~= Seq::<Position>::empty());
        assert(w.0.subrange(0, 0) =~= Seq::<Seq<u8>>::empty());
        assert(prepared(storage, store, list@, end));
        while idx < list.len()
            invariant
                prepared(storage, store, list@, end),
                occupied == is_occupied(storage.records(), storage.origin(), storage.end()),
                1 <= idx <= list@.len(),
                n == idx - 1,
                payloads.len() == n,
                proper == exists|w: (Seq<Seq<u8>>, Seq<Position>)|
                    holds_log(storage.records(), storage.origin(), storage.end(), w),
                proper ==> holds_log(store.records(), store.origin(), store.end(), w) && list@
                    == w.1 && payloads == w.0.subrange(0, idx - 1),
                stored(store.records(), payloads, list@.subrange(1, idx as int), n as nat),
                peaks_match(peaks@, payloads, list@.subrange(1, idx as int), n as nat),
            decreases list@.len() - idx,
        {
            if n == u64::MAX {
                assert(occupied ==> overfull(
                    storage.records(),
                    storage.origin(),
                    storage.end(),
                    list@,
                ));
                return Err(Error::Capacity);
            }
            let position = list[idx];
            let found = match store.read(position) {
                Ok(found) => found,
                Err(e) => {
                    return Err(e);
                },
            };
            let ghost positions = list@.subrange(1, idx as int);
            let (expected, top) = next_entry(
                &peaks,
                n,
                found.data.as_slice(),
                position,
                Ghost(payloads),
                Ghost(positions),
            );
            proof {
                if proper {
                    let places = w.1.subrange(1, w.1.len() as int);
                    assert(places[idx - 1] == list@[idx as int]);
                    assert(store.records().contains_key(places[idx - 1]));
                    assert(found@ == spec_entry(w.0, places, idx as nat));
                    assert(payloads.push(found.data@) =~= w.0.subrange(0, idx as int));
                    assert(positions.push(position) =~= places.subrange(0, idx as int));
                    lemma_entry_prefix(
                        w.0.subrange(0, idx as int),
                        places.subrange(0, idx as int),
                        w.0,
                        places,
                        idx as nat,
                    );
                }
            }
            if !found.same(&expected) {
                proof {
                    if occupied {
                        assert(list@.subrange(1, idx as int + 1) =~= positions.push(position));
                        assert(breaks_at(
                            storage.records(),
                            storage.origin(),
                            storage.end(),
                            position,
                            (payloads, list@),
                        ));
                        assert(broken_log_at(
                            storage.records(),
                            storage.origin(),
                            storage.end(),
                            position,
                        ));
                        assert(refused(
                            storage.records(),
                            storage.origin(),
                            storage.end(),
                            Error::Corruption { position },
                        ));
                    }
                }
                return Err(Error::Corruption { position });
            }
            advance_peaks(
                &mut peaks,
                n,
                top,
                position,
                Ghost(payloads),
                Ghost(positions),
                Ghost(found.data@),
            );
            proof {
                assert(positions.push(position) =~= list@.subrange(1, idx + 1));
                assert forall|x: int| 0 <= x < positions.len() implies #[trigger] positions[x]
                    < position by {
                    assert(list@[x + 1] < list@[idx as int]);
                }
                lemma_stored_grows(store.records(), payloads, positions, found.data@, position);
                assert(store.records().insert(position, expected@) =~= store.records());
                payloads = payloads.push(found.data@);
            }
            n = n + 1;
            idx = idx + 1;
        }
        let ghost positions = list@.subrange(1, list@.len() as int);
        let cache = match fill_cache(
            &store,
            &peaks,
            n,
            cache_level,
            Ghost(payloads),
            Ghost(positions),
        ) {
            Ok(cache) => cache,
            Err(e) => {
                return Err(e);
            },
        };
        let place = list[0];
        let log = Slate {
            storage: store,
            n,
            end,
            meta: place,
            peaks,
            cache,
            payloads: Ghost(payloads),
            positions: Ghost(positions),
        };
        proof {
            assert(log.places() =~= list@);
            assert forall|i: int| 0 <= i < n implies place < #[trigger] positions[i] by {
                assert(list@[0] < list@[i + 1]);
            }
        }
        Ok(log)
    }

    /// Number of entries.
    pub fn n(&self) -> (n: Index)
        ensures
            n == self.size(),
    {
        self.n
    }

    /// The storage behind the log.
    pub fn storage(&self) -> (storage: &S)
        requires
            self.wf(),
        ensures
            storage.inv(),
            storage.records() == self.records(),
            storage.end() == self.end(),
            storage.origin() == self.origin(),
            storage.reliable() == self.reliable(),
    {
        &self.storage
    }

    /// Gives the storage back.
    pub fn into_storage(self) -> (storage: S)
        requires
            self.wf(),
        ensures
            storage.inv(),
            storage.records() == self.records(),
            storage.end() == self.end(),
            storage.origin() == self.origin(),
            storage.reliable() == self.reliable(),
    {
        self.storage
    }

    /// The node cache of the log.
    pub fn cache(&self) -> (cache: &NodeCache)
        ensures
            *cache == self.spec_cache(),
    {
        &self.cache
    }

    /// Sets the cache level to `level` and fills the cache anew from the
    /// roots of the forest down, with up to two to the power `level`
    /// nodes: those that `spec_warmed` names. What the log holds stays as
    /// it was; the cache of the log is the old one where a read fails.
    pub fn cache_level(&mut self, level: usize) -> (r: Result<(), Error>)
        requires
            old(self).wf(),
        ensures
            final(self).wf(),
            final(self).size() == old(self).size(),
            final(self).payloads() == old(self).payloads(),
            final(self).positions() == old(self).positions(),
            final(self).records() == old(self).records(),
            final(self).end() == old(self).end(),
            final(self).peaks() == old(self).peaks(),
            final(self).reliable() == old(self).reliable(),
            final(self).sequential() == old(self).sequential(),
            final(self).origin() == old(self).origin(),
            final(self).meta_position() == old(self).meta_position(),
            old(self).reliable() ==> r is Ok,
            r is Ok ==> final(self).spec_cache().spec_level() == level,
            r is Ok ==> final(self).spec_cache().nodes().len() <= spec_budget(level),
            r is Ok ==> final(self).spec_cache().nodes().dom() == spec_keys(
                spec_warmed(old(self).size() as nat, level),
            ),
            r is Ok && old(self).size() >= 2 ==> final(self).spec_cache().nodes().contains_key(
                spec_key(spec_forest_roots(old(self).size() as nat)[0]),
            ),
            r is Err ==> final(self).spec_cache() == old(self).spec_cache(),
    {
        let cache = match fill_cache(
            &self.storage,
            &self.peaks,
            self.n,
            level,
            Ghost(self.payloads@),
            Ghost(self.positions@),
        ) {
            Ok(cache) => cache,
            Err(e) => {
                return Err(e);
            },
        };
        self.cache = cache;
        Ok(())
    }

    /// The payload of entry `k`; `None` if `k == 0` or `k > n()`.
    pub fn get(&self, k: Index) -> (r: Result<Option<Vec<u8>>, Error>)
        requires
            self.wf(),
        ensures
            self.reliable() ==> r is Ok,
            k == 0 || k > self.size() ==> r matches Ok(None),
            r matches Ok(found) ==> match found {
                Some(data) => 1 <= k <= self.size() && data@ == self.payloads()[k - 1],
                None => k == 0 || k > self.size(),
            },
    {
        lookup(
            &self.storage,
            &self.peaks,
            &self.cache,
            self.n,
            k,
            Ghost(self.payloads@),
            Ghost(self.positions@),
        )
    }

    /// The entry of index `k` as it is stored, with the position of its
    /// record; `None` if `k == 0` or `k > n()`.
    pub fn read_entry(&self, k: Index) -> (r: Result<Option<(Position, Entry)>, Error>)
        requires
            self.wf(),
        ensures
            self.reliable() ==> r is Ok,
            k == 0 || k > self.size() ==> r matches Ok(None),
            r matches Ok(found) ==> match found {
                Some((position, entry)) => 1 <= k <= self.size() && position
                    == self.positions()[k - 1] && entry@ == spec_entry(
                    self.payloads(),
                    self.positions(),
                    k as nat,
                ),
                None => k == 0 || k > self.size(),
            },
    {
        locate(
            &self.storage,
            &self.peaks,
            &self.cache,
            self.n,
            k,
            Ghost(self.payloads@),
            Ghost(self.positions@),
        )
    }

    /// The authentication path of entry `k` in the log as it is now; `None`
    /// if `k == 0` or `k > n()`.
    pub fn get_auth_path(&self, k: Index) -> (r: Result<Option<AuthPath>, Error>)
        requires
            self.wf(),
        ensures
            self.reliable() ==> r is Ok,
            k == 0 || k > self.size() ==> r matches Ok(None),
            r matches Ok(found) ==> match found {
                Some(path) => 1 <= k <= self.size() && path@ == spec_path(
                    self.payloads(),
                    k as nat,
                    self.size() as nat,
                ) && fold_steps(path@.leaf, path@.steps) == path@.root,
                None => k == 0 || k > self.size(),
            },
    {
        proof {
            if 1 <= k <= self.size() {
                lemma_path_reaches_root(self.payloads(), k as nat, self.size() as nat);
            }
        }
        authenticate(
            &self.storage,
            &self.peaks,
            self.n,
            k,
            Ghost(self.payloads@),
            Ghost(self.positions@),
        )
    }

    /// The hash of the root of the log as it is now.
    pub fn root_hash(&self) -> (h: crate::hash::Hash)
        requires
            self.wf(),
        ensures
            h@ == spec_root_hash(self.payloads(), self.size() as nat),
    {
        if self.n == 0 {
            let empty: Vec<u8> = Vec::new();
            assert(empty@ =~= Seq::<u8>::empty());
            return crate::hash::Hash::from_bytes(empty.as_slice());
        }
        proof {
            lemma_forest_roots_cover(self.n as nat);
        }
        join_peaks(&self.peaks, 0, Ghost(self.payloads@), Ghost(spec_forest_roots(self.n as nat)))
    }

    /// A view of the log as it is now, which later appends do not change.
    pub fn snapshot(&self) -> (s: Snapshot)
        requires
            self.wf(),
        ensures
            s.of(self),
            s.size() == self.size(),
    {
        let mut peaks: Vec<Peak> = Vec::new();
        let mut t: usize = 0;
        while t < self.peaks.len()
            invariant
                t <= self.peaks@.len(),
                peaks@.len() == t,
                forall|x: int| 0 <= x < t ==> peaks@[x] == self.peaks@[x],
            decreases self.peaks@.len() - t,
        {
            peaks.push(self.peaks[t]);
            t += 1;
        }
        assert(peaks@ =~= self.peaks@);
        Snapshot { n: self.n, peaks }
    }

    /// Appends `data` as the next entry and returns its index. The entry
    /// holds the leaf over `data` and one interior node for each trailing
    /// zero bit of the index, each combining a root of the forest so far
    /// with the node below it. A failed append changes nothing.
    pub fn append(&mut self, data: &[u8]) -> (r: Result<Index, Error>)
        requires
            old(self).wf(),
        ensures
            final(self).wf(),
            final(self).reliable() == old(self).reliable(),
            final(self).sequential() == old(self).sequential(),
            final(self).extends(old(self)),
            match r {
                Ok(i) => {
                    &&& i == old(self).size() + 1
                    &&& final(self).size() == i
                    &&& final(self).payloads() == old(self).payloads().push(data@)
                    &&& final(self).positions() == old(self).positions().push(old(self).end())
                    &&& final(self).end() > old(self).end()
                    &&& old(self).sequential() ==> final(self).end() == old(self).end() + 1
                },
                Err(_) => {
                    &&& final(self).size() == old(self).size()
                    &&& final(self).payloads() == old(self).payloads()
                    &&& final(self).positions() == old(self).positions()
                    &&& final(self).records() == old(self).records()
                    &&& final(self).end() == old(self).end()
                    &&& final(self).peaks() == old(self).peaks()
                },
            },
            final(self).spec_cache() == old(self).spec_cache(),
            final(self).origin() == old(self).origin(),
            final(self).meta_position() == old(self).meta_position(),
            r is Ok ==> final(self).records() == old(self).records().insert(
                old(self).end(),
                spec_entry(final(self).payloads(), final(self).positions(), final(self).size() as nat),
            ),
            old(self).tidy() ==> final(self).tidy(),
            old(self).size() == Index::MAX ==> r matches Err(Error::Capacity),
            old(self).size() < Index::MAX && (old(self).accepts(data@) || (old(self).sequential()
                && old(self).end() < Position::MAX)) ==> r is Ok,
    {
        assert(self.payloads@.len() == self.n);
        assert(self.positions@.len() == self.n);
        if self.n == u64::MAX {
            assert(self.payloads@.subrange(0, self.n as int) =~= self.payloads@);
            assert(self.positions@.subrange(0, self.n as int) =~= self.positions@);
            return Err(Error::Capacity);
        }
        let i = self.n + 1;
        let position = self.end;
        let ghost payloads = self.payloads@.push(data@);
        let ghost positions = self.positions@.push(position);
        let (entry, top) = next_entry(
            &self.peaks,
            self.n,
            data,
            position,
            Ghost(self.payloads@),
            Ghost(self.positions@),
        );
        let next = match self.storage.put(position, &entry) {
            Ok(next) => next,
            Err(e) => {
                assert(self.payloads@.subrange(0, self.n as int) =~= self.payloads@);
                assert(self.positions@.subrange(0, self.n as int) =~= self.positions@);
                return Err(e);
            },
        };
        let ghost before = *old(self);
        advance_peaks(
            &mut self.peaks,
            self.n,
            top,
            position,
            Ghost(self.payloads@),
            Ghost(self.positions@),
            Ghost(data@),
        );
        self.n = i;
        self.end = next;
        self.payloads = Ghost(payloads);
        self.positions = Ghost(positions);
        proof {
            assert(self.payloads@.subrange(0, before.n as int) =~= before.payloads@);
            assert(self.positions@.subrange(0, before.n as int) =~= before.positions@);
            lemma_stored_grows(
                before.storage.records(),
                before.payloads@,
                before.positions@,
                data@,
                position,
            );
            assert forall|key: u128| #[trigger]
                self.cache.nodes().contains_key(key) implies key == spec_key(
                self.cache.nodes()[key].address,
            ) && true_node(self.cache.nodes()[key], payloads, positions) by {
                lemma_true_node_stays(
                    self.cache.nodes()[key],
                    before.payloads@,
                    before.positions@,
                    payloads,
                    positions,
                );
            }
        }
        proof {
            if before.tidy() {
                Self::lemma_tidy_stays(before, *self, data@);
            }
        }
        Ok(i)
    }
}

/// The entry that the append of `data` at `position` stores in the log of
/// `n` entries with the roots `peaks`, and the hash of the highest node
/// that it introduces.
pub fn next_entry(
    peaks: &Vec<Peak>,
    n: Index,
    data: &[u8],
    position: Position,
    Ghost(payloads): Ghost<Seq<Seq<u8>>>,
    Ghost(positions): Ghost<Seq<Position>>,
) -> (r: (Entry, crate::hash::Hash))
    requires
        n < Index::MAX,
        payloads.len() == n,
        positions.len() == n,
        peaks_match(peaks@, payloads, positions, n as nat),
    ensures
        r.0@ == spec_entry(payloads.push(data@), positions.push(position), (n + 1) as nat),
        r.1@ == node_hash(payloads.push(data@), (n + 1) as nat, ctz((n + 1) as nat)),
{
    let i = n + 1;
    let leaf = crate::hash::Hash::from_bytes(data);
    let c = trailing_zeros(i);
    let m = peaks.len();
    let ghost payloads2 = payloads.push(data@);
    let ghost positions2 = positions.push(position);
    proof {
        lemma_roots_before_append(i as nat, c as nat);
        lemma_forest_roots_cover(n as nat);
        lemma_clear_lowest(i as nat);
    }
    let ghost stay = spec_forest_roots(clear_lowest(i as nat));
    let ghost merged = spec_merged(i as nat, c as nat);
    assert(spec_forest_roots(n as nat) == stay + merged);
    let mut inodes: Vec<Branch> = Vec::new();
    let mut running = leaf;
    let mut t: u8 = 0;
    while t < c
        invariant
            t <= c < 64,
            c == ctz(i as nat),
            i == n + 1,
            m == peaks@.len(),
            m == stay.len() + c,
            payloads.len() == n,
            positions.len() == n,
            payloads2 == payloads.push(data@),
            positions2 == positions.push(position),
            spec_forest_roots(n as nat) == stay + merged,
            merged == spec_merged(i as nat, c as nat),
            peaks_match(peaks@, payloads, positions, n as nat),
            running@ == node_hash(payloads2, i as nat, t as nat),
            inodes@.len() == t,
            forall|x: int|
                0 <= x < t ==> (#[trigger] inodes@[x])@ == spec_entry(
                    payloads2,
                    positions2,
                    i as nat,
                ).inodes[x],
        decreases c - t,
    {
        let peak = peaks[m - 1 - t as usize];
        proof {
            let x = (m - 1 - t) as int;
            let a = spec_forest_roots(n as nat)[x];
            assert(a == merged[c - 1 - t]);
            assert(peaks@[x].address == a);
            lemma_halves(i as nat, t as nat);
            lemma_node_hash_prefix(payloads, payloads2, a.i as nat, a.j as nat);
            assert(positions2[a.i - 1] == positions[a.i - 1]);
        }
        running = peak.hash.combine(&running);
        inodes.push(Branch { j: t + 1, hash: running, left: peak.position, right: position });
        t = t + 1;
    }
    let entry = Entry { i, leaf, data: slice_to_vec(data), inodes };
    proof {
        let e = spec_entry(payloads2, positions2, i as nat);
        assert(entry@.inodes.len() == e.inodes.len());
        assert(entry@.inodes =~= e.inodes);
    }
    (entry, running)
}

/// Makes the roots of the forest of `n` leaves the roots of the forest of
/// `n + 1`: the roots that the new entry merges give way to the node that
/// joins them.
pub fn advance_peaks(
    peaks: &mut Vec<Peak>,
    n: Index,
    top: crate::hash::Hash,
    position: Position,
    Ghost(payloads): Ghost<Seq<Seq<u8>>>,
    Ghost(positions): Ghost<Seq<Position>>,
    Ghost(data): Ghost<Seq<u8>>,
)
    requires
        n < Index::MAX,
        payloads.len() == n,
        positions.len() == n,
        peaks_match(old(peaks)@, payloads, positions, n as nat),
        top@ == node_hash(payloads.push(data), (n + 1) as nat, ctz((n + 1) as nat)),
    ensures
        peaks_match(
            final(peaks)@,
            payloads.push(data),
            positions.push(position),
            (n + 1) as nat,
        ),
{
    let i = n + 1;
    let c = trailing_zeros(i);
    let m = peaks.len();
    let ghost payloads2 = payloads.push(data);
    let ghost positions2 = positions.push(position);
    proof {
        lemma_roots_before_append(i as nat, c as nat);
        lemma_forest_roots_cover(n as nat);
        lemma_clear_lowest(i as nat);
    }
    let ghost stay = spec_forest_roots(clear_lowest(i as nat));
    let ghost merged = spec_merged(i as nat, c as nat);
    assert(spec_forest_roots(n as nat) == stay + merged);
    peaks.truncate(m - c as usize);
    peaks.push(Peak { address: Address { i, j: c }, hash: top, position });
    proof {
        let roots = spec_forest_roots(i as nat);
        assert(roots == stay.push(Address { i, j: c }));
        assert forall|x: int| 0 <= x < peaks@.len() implies {
            let a = roots[x];
            &&& (#[trigger] peaks@[x]).address == a
            &&& peaks@[x].hash@ == node_hash(payloads2, a.i as nat, a.j as nat)
            &&& peaks@[x].position == positions2[a.i - 1]
        } by {
            if x < stay.len() {
                let a = roots[x];
                assert(peaks@[x] == old(peaks)@[x]);
                assert(spec_forest_roots(n as nat)[x] == stay[x]);
                lemma_forest_roots_cover(clear_lowest(i as nat));
                assert(a.i <= n);
                lemma_ctz_divides(a.i as nat);
                lemma_node_hash_prefix(payloads, payloads2, a.i as nat, a.j as nat);
            }
        }
    }
}

/// Records that hold a log of `n` entries below `position` hold the log of
/// `n + 1` entries once the next entry is stored at `position`.
pub proof fn lemma_stored_grows(
    records: Map<Position, EntryView>,
    payloads: Seq<Seq<u8>>,
    positions: Seq<Position>,
    data: Seq<u8>,
    position: Position,
)
    requires
        stored(records, payloads, positions, payloads.len()),
        forall|x: int| 0 <= x < positions.len() ==> #[trigger] positions[x] < position,
    ensures
        stored(
            records.insert(
                position,
                spec_entry(
                    payloads.push(data),
                    positions.push(position),
                    (payloads.len() + 1) as nat,
                ),
            ),
            payloads.push(data),
            positions.push(position),
            payloads.len() + 1,
        ),
{
    let n = payloads.len();
    let payloads2 = payloads.push(data);
    let positions2 = positions.push(position);
    let records2 = records.insert(position, spec_entry(payloads2, positions2, (n + 1) as nat));
    assert forall|x: nat| 1 <= x <= n + 1 implies records2.contains_key(
        #[trigger] positions2[x - 1],
    ) && records2[positions2[x - 1]] == spec_entry(payloads2, positions2, x) by {
        if x <= n {
            assert(positions2[x - 1] == positions[x - 1]);
            assert(positions[x - 1] < position);
            assert(records.contains_key(positions[x - 1]));
            lemma_entry_prefix(payloads, positions, payloads2, positions2, x);
        }
    }
}

/// A copy of a slice of bytes.
pub fn slice_to_vec(bytes: &[u8]) -> (out: Vec<u8>)
    ensures
        out@ == bytes@,
{
    let mut out: Vec<u8> = Vec::new();
    put_bytes(&mut out, bytes);
    out
}

/// The log at one size: the number of entries and the roots of the forest
/// at that size. It reads from the log that it was taken from, whatever
/// has been appended since.
#[derive(Debug)]
pub struct Snapshot {
    n: Index,
    peaks: Vec<Peak>,
}

impl Snapshot {
    /// Number of entries that the snapshot sees.
    pub closed spec fn size(&self) -> Index {
        self.n
    }

    /// The roots that the snapshot holds.
    pub closed spec fn peaks(&self) -> Seq<Peak> {
        self.peaks@
    }

    /// Whether this is a snapshot of `log` at a size that it has or had.
    pub open spec fn of<S: Storage<Entry>>(&self, log: &Slate<S>) -> bool {
        &&& self.size() <= log.size()
        &&& peaks_match(self.peaks(), log.payloads(), log.positions(), self.size() as nat)
    }

    /// Number of entries that the snapshot sees.
    pub fn n(&self) -> (n: Index)
        ensures
            n == self.size(),
    {
        self.n
    }

    /// The payload of entry `k` as the snapshot sees it; `None` if `k == 0`
    /// or `k` is beyond the snapshot.
    pub fn get<S: Storage<Entry>>(&self, log: &Slate<S>, k: Index) -> (r: Result<
        Option<Vec<u8>>,
        Error,
    >)
        requires
            log.wf(),
            self.of(log),
        ensures
            log.reliable() ==> r is Ok,
            k == 0 || k > self.size() ==> r matches Ok(None),
            r matches Ok(found) ==> match found {
                Some(data) => 1 <= k <= self.size() && data@ == log.payloads()[k - 1],
                None => k == 0 || k > self.size(),
            },
    {
        proof {
            log.lemma_sizes();
        }
        lookup(
            &log.storage,
            &self.peaks,
            &log.cache,
            self.n,
            k,
            Ghost(log.payloads@),
            Ghost(log.positions@),
        )
    }

    /// The authentication path of entry `k` in the log as the snapshot
    /// sees it.
    pub fn get_auth_path<S: Storage<Entry>>(&self, log: &Slate<S>, k: Index) -> (r: Result<
        Option<AuthPath>,
        Error,
    >)
        requires
            log.wf(),
            self.of(log),
        ensures
            log.reliable() ==> r is Ok,
            k == 0 || k > self.size() ==> r matches Ok(None),
            r matches Ok(found) ==> match found {
                Some(path) => 1 <= k <= self.size() && path@ == spec_path(
                    log.payloads(),
                    k as nat,
                    self.size() as nat,
                ) && fold_steps(path@.leaf, path@.steps) == path@.root,
                None => k == 0 || k > self.size(),
            },
    {
        proof {
            log.lemma_sizes();
            if 1 <= k <= self.size() {
                lemma_path_reaches_root(log.payloads(), k as nat, self.size() as nat);
            }
        }
        authenticate(
            &log.storage,
            &self.peaks,
            self.n,
            k,
            Ghost(log.payloads@),
            Ghost(log.positions@),
        )
    }
}

/// What was appended is what a lookup of its index finds: in the log that
/// an append of `data` returned index `i` for, the payload of entry `i` is
/// `data`, and the payloads before it are what they were.
pub proof fn lemma_append_then_get<S: Storage<Entry>>(
    before: Slate<S>,
    after: Slate<S>,
    data: Seq<u8>,
    i: Index,
)
    requires
        before.wf(),
        after.wf(),
        i == before.size() + 1,
        after.payloads() == before.payloads().push(data),
    ensures
        after.size() == i,
        after.payloads()[i - 1] == data,
        forall|x: int| 0 <= x < before.size() ==> #[trigger] after.payloads()[x]
            == before.payloads()[x],
{
    before.lemma_sizes();
    after.lemma_sizes();
}

/// A snapshot of a log is a snapshot of every log that extends it, and
/// sees in it the payloads that it saw before.
pub proof fn lemma_snapshot_survives<S: Storage<Entry>>(s: Snapshot, before: Slate<S>, after: Slate<S>)
    requires
        before.wf(),
        after.wf(),
        s.of(&before),
        after.extends(&before),
    ensures
        s.of(&after),
        forall|x: int|
            0 <= x < s.size() ==> #[trigger] after.payloads()[x] == before.payloads()[x],
{
    before.lemma_sizes();
    after.lemma_sizes();
    let n = s.size() as nat;
    lemma_forest_roots_cover(n);
    let roots = spec_forest_roots(n);
    assert forall|t: int| 0 <= t < s.peaks().len() implies {
        let a = roots[t];
        &&& (#[trigger] s.peaks()[t]).address == a
        &&& s.peaks()[t].hash@ == node_hash(after.payloads(), a.i as nat, a.j as nat)
        &&& s.peaks()[t].position == after.positions()[a.i - 1]
    } by {
        let a = roots[t];
        lemma_ctz_divides(a.i as nat);
        lemma_node_hash_prefix(before.payloads(), after.payloads(), a.i as nat, a.j as nat);
        assert(before.positions()[a.i - 1] == after.positions().subrange(
            0,
            before.size() as int,
        )[a.i - 1]);
    }
    assert forall|x: int| 0 <= x < s.size() implies #[trigger] after.payloads()[x]
        == before.payloads()[x] by {
        assert(before.payloads()[x] == after.payloads().subrange(0, before.size() as int)[x]);
    }
}

/// What the convergence procedure may end with for two logs of `n` entries
/// with the payloads `a` and `b`: nothing after at most one comparison,
/// and the roots are the same; or an index at which the digests of the two
/// payloads differ, after at most one comparison more than the level of
/// the first root of the forest, which is the logarithm of `n` to the base
/// 2, rounded down.
pub open spec fn converged(
    a: Seq<Seq<u8>>,
    b: Seq<Seq<u8>>,
    n: nat,
    found: Option<Index>,
    rounds: u8,
) -> bool {
    match found {
        Some(k) => {
            &&& 1 <= k <= n
            &&& blake3_digest(a[k - 1]) != blake3_digest(b[k - 1])
            &&& spec_root_hash(a, n) != spec_root_hash(b, n)
            &&& 1 <= rounds <= spec_forest_roots(n)[0].j + 1
        },
        None => spec_root_hash(a, n) == spec_root_hash(b, n) && rounds == if n == 0 {
            0u8
        } else {
            1u8
        },
    }
}

/// What the convergence procedure finds in two logs of `n` entries with
/// the payloads `a` and `b` when it compares the paths of entry `k` next
/// and has come down to below `level`: nothing where the roots of the two
/// paths are the same; else the lowest divergent node, and of several on
/// one level the first, is looked at. If it is a leaf, its index is found;
/// else the search goes on with the last entry under it.
pub open spec fn spec_search(a: Seq<Seq<u8>>, b: Seq<Seq<u8>>, n: nat, k: nat, level: nat) -> Option<
    Index,
>
    decreases level,
{
    let pa = spec_path(a, k, n);
    let pb = spec_path(b, k, n);
    if pb.root == pa.root {
        None
    } else {
        let m = spec_pick(spec_divergent(pb, pa));
        if m.j == 0 {
            Some(m.i)
        } else if m.j < level {
            spec_search(a, b, n, m.i as nat, m.j as nat)
        } else {
            None
        }
    }
}

/// What the convergence procedure finds in two logs of `n` entries: it
/// begins with the paths of the last entry.
pub open spec fn spec_found(a: Seq<Seq<u8>>, b: Seq<Seq<u8>>, n: nat) -> Option<Index> {
    if n == 0 {
        None
    } else {
        spec_search(a, b, n, n, 65)
    }
}

/// Finds an entry in which two logs of the same size differ, by comparing
/// authentication paths: first those of the last entry, then, as long as
/// the lowest divergent node is no leaf, those of the last entry under that
/// node. Returns the index found, or nothing where the roots are the same,
/// and the number of comparisons made. `spec_found` says which index that
/// is. Logs of different sizes are not compared.
pub fn converge<S: Storage<Entry>, T: Storage<Entry>>(a: &Slate<S>, b: &Slate<T>) -> (r: Result<
    (Option<Index>, u8),
    Error,
>)
    requires
        a.wf(),
        b.wf(),
    ensures
        a.size() != b.size() ==> r matches Err(Error::Invariant),
        a.size() == b.size() && a.reliable() && b.reliable() ==> r is Ok,
        r matches Ok((found, rounds)) ==> a.size() == b.size() && converged(
            a.payloads(),
            b.payloads(),
            a.size() as nat,
            found,
            rounds,
        ),
        r matches Ok((found, _)) ==> found == spec_found(
            a.payloads(),
            b.payloads(),
            a.size() as nat,
        ),
{
    if a.n != b.n {
        return Err(Error::Invariant);
    }
    let n = a.n;
    if n == 0 {
        return Ok((None, 0));
    }
    proof {
        lemma_forest_roots_cover(n as nat);
        crate::divergence::lemma_levels_below_first(n as nat, 0);
    }
    let ghost roots = spec_forest_roots(n as nat);
    let mut k = n;
    let mut bound: u8 = 65;
    let mut rounds: u8 = 0;
    let ghost mut kind: int = 0;
    let ghost mut u: int = 0;
    loop
        invariant
            a.wf(),
            b.wf(),
            n == a.size() == b.size(),
            roots == spec_forest_roots(n as nat),
            roots.len() >= 1,
            roots[0].j < 64,
            1 <= k <= n,
            bound <= 65,
            spec_search(a.payloads(), b.payloads(), n as nat, k as nat, bound as nat)
                == spec_found(a.payloads(), b.payloads(), n as nat),
            rounds == 0 ==> kind == 0 && bound == 65,
            rounds > 0 ==> kind != 0 && rounds + bound <= roots[0].j + 1 && spec_root_hash(
                a.payloads(),
                n as nat,
            ) != spec_root_hash(b.payloads(), n as nat),
            kind == 0 || kind == 1 || kind == 2,
            kind == 1 ==> 1 <= bound <= ctz(k as nat) && node_hash(
                a.payloads(),
                k as nat,
                bound as nat,
            ) != node_hash(b.payloads(), k as nat, bound as nat),
            kind == 2 ==> k == n && 1 <= u && u + 1 < roots.len() && bound == roots[u].j + 1
                && fold_hash(a.payloads(), roots, u) != fold_hash(b.payloads(), roots, u),
        decreases bound,
    {
        let pa = match a.get_auth_path(k) {
            Ok(Some(path)) => path,
            Ok(None) => {
                return Err(Error::Invariant);
            },
            Err(e) => {
                return Err(e);
            },
        };
        let pb = match b.get_auth_path(k) {
            Ok(Some(path)) => path,
            Ok(None) => {
                return Err(Error::Invariant);
            },
            Err(e) => {
                return Err(e);
            },
        };
        let ghost d = spec_divergent(pb@, pa@);
        proof {
            lemma_path_plain(a.payloads(), k as nat, n as nat);
            lemma_path_plain(b.payloads(), k as nat, n as nat);
            if kind == 1 {
                crate::divergence::lemma_tree_node_descends(
                    a.payloads(),
                    b.payloads(),
                    k as nat,
                    n as nat,
                    bound as nat,
                );
            }
            if kind == 2 {
                crate::divergence::lemma_join_descends(a.payloads(), b.payloads(), n as nat, u);
            }
        }
        rounds = rounds + 1;
        match pb.prove(&pa) {
            Err(e) => {
                return Err(e);
            },
            Ok(Prove::Identical) => {
                return Ok((None, rounds));
            },
            Ok(Prove::Divergent(nodes)) => {
                proof {
                    lemma_divergent_not_empty(pb@, pa@);
                }
                let m = pick(&nodes);
                proof {
                    if kind != 0 {
                        let lower = choose|w: int| 0 <= w < d.len() && (#[trigger] d[w]).j < bound;
                        assert(crate::auth::at_most(m, nodes@[lower]));
                    }
                    let steps = divergent_steps(pb@.steps, pa@.steps, pb@.steps.len());
                    let w = choose|w: int| 0 <= w < nodes@.len() && nodes@[w] == m;
                    if w < steps.len() {
                        assert(steps[w] == m);
                        lemma_divergent_steps_member(pb@.steps, pa@.steps, pb@.steps.len(), m);
                        let x = choose|x: int|
                            0 <= x < pb@.steps.len() && #[trigger] pb@.steps[x].node == m
                                && pb@.steps[x].hash != pa@.steps[x].hash;
                        lemma_step_range(b.payloads(), k as nat, n as nat, x);
                        crate::divergence::lemma_step_kinds(
                            b.payloads(),
                            a.payloads(),
                            k as nat,
                            n as nat,
                            x,
                        );
                        if m.j == 0 {
                            lemma_leaf_steps(b.payloads(), k as nat, n as nat, x);
                            lemma_leaf_steps(a.payloads(), k as nat, n as nat, x);
                        } else {
                            let sb = pb@.steps[x];
                            let sa = pa@.steps[x];
                            if crate::divergence::is_tree_step(b.payloads(), n as nat, sb)
                                && crate::divergence::is_tree_step(a.payloads(), n as nat, sa) {
                                kind = 1;
                            } else {
                                let v = choose|v: int|
                                    crate::divergence::is_join_step(a.payloads(), n as nat, sa, v)
                                        && #[trigger] crate::divergence::is_join_step(
                                        b.payloads(),
                                        n as nat,
                                        sb,
                                        v,
                                    );
                                lemma_forest_roots_cover(n as nat);
                                assert(roots[v].j < 64);
                                kind = 2;
                                u = v;
                            }
                        }
                    } else {
                        assert(m == Address { i: k, j: 0 });
                    }
                }
                if m.j == 0 {
                    return Ok((Some(m.i), rounds));
                }
                bound = m.j;
                k = m.i;
            },
        }
    }
}

/// Where two logs of the same size differ in one entry only, and their
/// roots differ, the convergence procedure ends with the index of that
/// entry, after at most one comparison more than the logarithm of the size
/// to the base 2, rounded down.
pub proof fn lemma_single_difference(
    a: Seq<Seq<u8>>,
    b: Seq<Seq<u8>>,
    n: nat,
    differing: Index,
    found: Option<Index>,
    rounds: u8,
)
    requires
        a.len() == n,
        b.len() == n,
        n < 0x1_0000_0000_0000_0000,
        1 <= differing <= n,
        forall|x: int| 0 <= x < n && x != differing - 1 ==> a[x] == b[x],
        spec_root_hash(a, n) != spec_root_hash(b, n),
        converged(a, b, n, found, rounds),
    ensures
        found == Some(differing),
        rounds <= spec_forest_roots(n)[0].j + 1,
        pow2(spec_forest_roots(n)[0].j as nat) <= n,
{
    lemma_forest_roots_cover(n);
    crate::divergence::lemma_levels_below_first(n, 0);
}

/// For two logs with the same payloads the convergence procedure ends
/// with nothing.
pub proof fn lemma_identical_logs(a: Seq<Seq<u8>>, n: nat, found: Option<Index>, rounds: u8)
    requires
        converged(a, a, n, found, rounds),
    ensures
        found is None,
{
}

impl Slate<BlockStorage<MemoryDevice, Entry>> {
    /// An empty log on a device in memory with room for `capacity` bytes
    /// set aside.
    pub fn new_on_memory_with_capacity(capacity: usize) -> (r: Result<Self, Error>)
        ensures
            r matches Ok(log) ==> log.wf() && log.size() == 0,
            r is Ok,
    {
        let device = MemoryDevice::with_capacity(capacity);
        proof {
            device.lemma_view();
        }
        let storage = match BlockStorage::new(device) {
            Ok(storage) => storage,
            Err(e) => {
                return Err(e);
            },
        };
        let meta = Entry::metadata();
        proof {
            storage.lemma_view();
            storage.lemma_accepts_at_end(meta@);
        }
        Self::open(storage, 0)
    }
}

} // verus!
