//! Authentication paths: the sibling digests that lead from a leaf to the
//! root of the log, and the comparison of two such paths.

use crate::entry::node_hash;
use crate::formula::{
    lemma_inner_path_len, pow2, spec_auth_path, spec_cover, spec_fold_node, spec_forest_roots,
    spec_inner_path, spec_spine, Address, Side, Step,
};
use crate::hash::{blake3_digest, spec_combine};
use crate::storage::{Error, Index};
use vstd::prelude::*;

verus! {

/// One step of an authentication path with the sibling's hash.
#[derive(Clone, Copy, Debug)]
pub struct HashedStep {
    pub node: Address,
    pub side: Side,
    pub hash: crate::hash::Hash,
}

/// The mathematical content of a `HashedStep`.
pub struct StepView {
    pub node: Address,
    pub side: Side,
    pub hash: Seq<u8>,
}

impl View for HashedStep {
    type V = StepView;

    open spec fn view(&self) -> StepView {
        StepView { node: self.node, side: self.side, hash: self.hash@ }
    }
}

/// The authentication path of leaf `i` in the log of `n` entries: the
/// leaf's hash, the siblings from the leaf up, and the root that they
/// combine to.
#[derive(Debug)]
pub struct AuthPath {
    pub i: Index,
    pub n: Index,
    pub leaf: crate::hash::Hash,
    pub steps: Vec<HashedStep>,
    pub root: crate::hash::Hash,
}

/// The mathematical content of an `AuthPath`.
pub struct AuthPathView {
    pub i: Index,
    pub n: Index,
    pub leaf: Seq<u8>,
    pub steps: Seq<StepView>,
    pub root: Seq<u8>,
}

impl View for AuthPath {
    type V = AuthPathView;

    open spec fn view(&self) -> AuthPathView {
        AuthPathView {
            i: self.i,
            n: self.n,
            leaf: self.leaf@,
            steps: Seq::new(self.steps@.len(), |x: int| self.steps@[x]@),
            root: self.root@,
        }
    }
}

/// The result of comparing two authentication paths.
#[derive(Debug)]
pub enum Prove {
    /// The roots are the same.
    Identical,
    /// The roots differ; these nodes have different hashes in the two
    /// paths, listed from the root down.
    Divergent(Vec<Address>),
}

/// The hash that one step makes of the hash below it.
pub open spec fn step_up(below: Seq<u8>, step: StepView) -> Seq<u8> {
    match step.side {
        Side::Left => spec_combine(step.hash, below),
        Side::Right => spec_combine(below, step.hash),
    }
}

/// The hash that `steps` make of `leaf`, combining from the first step to
/// the last.
pub open spec fn fold_steps(leaf: Seq<u8>, steps: Seq<StepView>) -> Seq<u8>
    decreases steps.len(),
{
    if steps.len() == 0 {
        leaf
    } else {
        step_up(fold_steps(leaf, steps.drop_last()), steps.last())
    }
}

/// The hash of the node that joins the roots from number `t` on: the last
/// root alone, else root `t` on the left of the join of the roots after it.
pub open spec fn fold_hash(payloads: Seq<Seq<u8>>, roots: Seq<Address>, t: int) -> Seq<u8>
    decreases roots.len() - t,
{
    if t + 1 >= roots.len() {
        node_hash(payloads, roots[t].i as nat, roots[t].j as nat)
    } else {
        spec_combine(
            node_hash(payloads, roots[t].i as nat, roots[t].j as nat),
            fold_hash(payloads, roots, t + 1),
        )
    }
}

/// The hash of the root of the log with the given payloads at size `n`:
/// the roots of the forest folded from the right. The empty log has the
/// digest of no bytes.
pub open spec fn spec_root_hash(payloads: Seq<Seq<u8>>, n: nat) -> Seq<u8> {
    if n == 0 {
        blake3_digest(Seq::empty())
    } else {
        fold_hash(payloads, spec_forest_roots(n), 0)
    }
}

/// The steps inside the covering subtree, with their hashes.
pub open spec fn hashed_inner(payloads: Seq<Seq<u8>>, k: nat, i: nat, j: nat) -> Seq<StepView>
    decreases j,
{
    if j == 0 {
        Seq::empty()
    } else {
        let mid = (i - pow2((j - 1) as nat)) as nat;
        if k <= mid {
            hashed_inner(payloads, k, mid, (j - 1) as nat).push(
                StepView {
                    node: Address { i: i as Index, j: (j - 1) as u8 },
                    side: Side::Right,
                    hash: node_hash(payloads, i, (j - 1) as nat),
                },
            )
        } else {
            hashed_inner(payloads, k, i, (j - 1) as nat).push(
                StepView {
                    node: Address { i: mid as Index, j: (j - 1) as u8 },
                    side: Side::Left,
                    hash: node_hash(payloads, mid, (j - 1) as nat),
                },
            )
        }
    }
}

/// The steps from root number `t` up to the root of the whole, with their
/// hashes: the join of the roots to the right, if there are any, then the
/// first `s` of the roots to the left, nearest first.
pub open spec fn hashed_spine(payloads: Seq<Seq<u8>>, roots: Seq<Address>, t: int, s: nat) -> Seq<
    StepView,
>
    decreases s,
{
    if s == 0 {
        if t + 1 < roots.len() {
            seq![
                StepView {
                    node: spec_fold_node(roots, t + 1),
                    side: Side::Right,
                    hash: fold_hash(payloads, roots, t + 1),
                },
            ]
        } else {
            Seq::empty()
        }
    } else {
        hashed_spine(payloads, roots, t, (s - 1) as nat).push(
            StepView {
                node: roots[t - s],
                side: Side::Left,
                hash: node_hash(payloads, roots[t - s].i as nat, roots[t - s].j as nat),
            },
        )
    }
}

/// The steps of the authentication path of leaf `k` in the log of `n`
/// entries with the given payloads.
pub open spec fn spec_hashed_path(payloads: Seq<Seq<u8>>, k: nat, n: nat) -> Seq<StepView> {
    let roots = spec_forest_roots(n);
    let t = spec_cover(k, n) as int;
    hashed_inner(payloads, k, roots[t].i as nat, roots[t].j as nat) + hashed_spine(
        payloads,
        roots,
        t,
        t as nat,
    )
}

/// The authentication path of leaf `k` in the log of `n` entries with the
/// given payloads.
pub open spec fn spec_path(payloads: Seq<Seq<u8>>, k: nat, n: nat) -> AuthPathView {
    AuthPathView {
        i: k as Index,
        n: n as Index,
        leaf: blake3_digest(payloads[k - 1]),
        steps: spec_hashed_path(payloads, k, n),
        root: spec_root_hash(payloads, n),
    }
}

/// The names and sides of hashed steps.
pub open spec fn plain(steps: Seq<StepView>) -> Seq<Step> {
    Seq::new(steps.len(), |x: int| Step { node: steps[x].node, side: steps[x].side })
}

/// The steps inside a subtree name the siblings that the layout gives.
pub proof fn lemma_inner_plain(payloads: Seq<Seq<u8>>, k: nat, i: nat, j: nat)
    ensures
        plain(hashed_inner(payloads, k, i, j)) == spec_inner_path(k, i, j),
        hashed_inner(payloads, k, i, j).len() == j,
    decreases j,
{
    if j > 0 {
        let mid = (i - pow2((j - 1) as nat)) as nat;
        lemma_inner_plain(payloads, k, mid, (j - 1) as nat);
        lemma_inner_plain(payloads, k, i, (j - 1) as nat);
        lemma_inner_path_len(k, mid, (j - 1) as nat);
        lemma_inner_path_len(k, i, (j - 1) as nat);
        assert(plain(hashed_inner(payloads, k, i, j)) =~= spec_inner_path(k, i, j));
    } else {
        assert(plain(hashed_inner(payloads, k, i, j)) =~= spec_inner_path(k, i, j));
    }
}

/// The steps up the spine name the siblings that the layout gives.
pub proof fn lemma_spine_plain(payloads: Seq<Seq<u8>>, roots: Seq<Address>, t: int, s: nat)
    requires
        0 <= t < roots.len(),
        s <= t,
    ensures
        hashed_spine(payloads, roots, t, s).len() == s + (if t + 1 < roots.len() {
            1nat
        } else {
            0nat
        }),
        plain(hashed_spine(payloads, roots, t, s)) == spec_spine(roots, t).subrange(
            0,
            s + (if t + 1 < roots.len() {
                1int
            } else {
                0int
            }),
        ),
    decreases s,
{
    let extra = if t + 1 < roots.len() {
        1int
    } else {
        0int
    };
    if s > 0 {
        lemma_spine_plain(payloads, roots, t, (s - 1) as nat);
    }
    assert(plain(hashed_spine(payloads, roots, t, s)) =~= spec_spine(roots, t).subrange(
        0,
        s + extra,
    ));
}

/// The hashed path of a leaf names the siblings of its authentication
/// path.
pub proof fn lemma_path_plain(payloads: Seq<Seq<u8>>, k: nat, n: nat)
    requires
        1 <= k <= n < 0x1_0000_0000_0000_0000,
    ensures
        plain(spec_hashed_path(payloads, k, n)) == spec_auth_path(k, n),
        spec_hashed_path(payloads, k, n).len() == spec_auth_path(k, n).len(),
{
    crate::formula::lemma_cover(k, n);
    let roots = spec_forest_roots(n);
    let t = spec_cover(k, n) as int;
    lemma_inner_plain(payloads, k, roots[t].i as nat, roots[t].j as nat);
    lemma_spine_plain(payloads, roots, t, t as nat);
    let spine = spec_spine(roots, t);
    assert(spine.subrange(0, spine.len() as int) =~= spine);
    assert(plain(spec_hashed_path(payloads, k, n)) =~= spec_auth_path(k, n));
}

/// Folding a path that ends in `step` is one step up from folding the
/// path before it.
pub proof fn lemma_fold_push(leaf: Seq<u8>, steps: Seq<StepView>, step: StepView)
    ensures
        fold_steps(leaf, steps.push(step)) == step_up(fold_steps(leaf, steps), step),
{
    assert(steps.push(step).drop_last() =~= steps);
}

/// Folding two paths one after the other is folding the second from the
/// result of the first.
pub proof fn lemma_fold_concat(leaf: Seq<u8>, a: Seq<StepView>, b: Seq<StepView>)
    ensures
        fold_steps(leaf, a + b) == fold_steps(fold_steps(leaf, a), b),
    decreases b.len(),
{
    if b.len() == 0 {
        assert(a + b =~= a);
    } else {
        lemma_fold_concat(leaf, a, b.drop_last());
        assert((a + b).drop_last() =~= a + b.drop_last());
    }
}

/// The steps inside a full subtree combine the hash of a leaf under it to
/// the hash of its root.
pub proof fn lemma_inner_fold(payloads: Seq<Seq<u8>>, k: nat, i: nat, j: nat)
    requires
        1 <= k,
        pow2(j) <= i,
        i - pow2(j) < k <= i,
    ensures
        fold_steps(blake3_digest(payloads[k - 1]), hashed_inner(payloads, k, i, j)) == node_hash(
            payloads,
            i,
            j,
        ),
    decreases j,
{
    if j == 0 {
        assert(pow2(0) == 1);
    } else {
        let mid = (i - pow2((j - 1) as nat)) as nat;
        crate::formula::lemma_pow2_monotone(0, (j - 1) as nat);
        assert(pow2(j) == 2 * pow2((j - 1) as nat));
        if k <= mid {
            lemma_inner_fold(payloads, k, mid, (j - 1) as nat);
            lemma_fold_push(
                blake3_digest(payloads[k - 1]),
                hashed_inner(payloads, k, mid, (j - 1) as nat),
                StepView {
                    node: Address { i: i as Index, j: (j - 1) as u8 },
                    side: Side::Right,
                    hash: node_hash(payloads, i, (j - 1) as nat),
                },
            );
        } else {
            lemma_inner_fold(payloads, k, i, (j - 1) as nat);
            lemma_fold_push(
                blake3_digest(payloads[k - 1]),
                hashed_inner(payloads, k, i, (j - 1) as nat),
                StepView {
                    node: Address { i: mid as Index, j: (j - 1) as u8 },
                    side: Side::Left,
                    hash: node_hash(payloads, mid, (j - 1) as nat),
                },
            );
        }
    }
}

/// The steps up the spine combine the hash of root `t` to the hash of the
/// join of the roots from `t - s` on.
pub proof fn lemma_spine_fold(payloads: Seq<Seq<u8>>, roots: Seq<Address>, t: int, s: nat)
    requires
        0 <= t < roots.len(),
        s <= t,
    ensures
        fold_steps(
            node_hash(payloads, roots[t].i as nat, roots[t].j as nat),
            hashed_spine(payloads, roots, t, s),
        ) == fold_hash(payloads, roots, t - s),
    decreases s,
{
    let start = node_hash(payloads, roots[t].i as nat, roots[t].j as nat);
    if s == 0 {
        if t + 1 < roots.len() {
            let step = StepView {
                node: spec_fold_node(roots, t + 1),
                side: Side::Right,
                hash: fold_hash(payloads, roots, t + 1),
            };
            assert(seq![step] =~= Seq::<StepView>::empty().push(step));
            lemma_fold_push(start, Seq::empty(), step);
        }
    } else {
        lemma_spine_fold(payloads, roots, t, (s - 1) as nat);
        lemma_fold_push(
            start,
            hashed_spine(payloads, roots, t, (s - 1) as nat),
            StepView {
                node: roots[t - s],
                side: Side::Left,
                hash: node_hash(payloads, roots[t - s].i as nat, roots[t - s].j as nat),
            },
        );
    }
}

/// The authentication path of a leaf combines the leaf's hash to the hash
/// of the root of the log.
pub proof fn lemma_path_reaches_root(payloads: Seq<Seq<u8>>, k: nat, n: nat)
    requires
        1 <= k <= n < 0x1_0000_0000_0000_0000,
    ensures
        fold_steps(blake3_digest(payloads[k - 1]), spec_hashed_path(payloads, k, n))
            == spec_root_hash(payloads, n),
{
    crate::formula::lemma_cover(k, n);
    crate::formula::lemma_forest_roots_cover(n);
    let roots = spec_forest_roots(n);
    let t = spec_cover(k, n) as int;
    let leaf = blake3_digest(payloads[k - 1]);
    lemma_inner_fold(payloads, k, roots[t].i as nat, roots[t].j as nat);
    lemma_spine_fold(payloads, roots, t, t as nat);
    lemma_fold_concat(
        leaf,
        hashed_inner(payloads, k, roots[t].i as nat, roots[t].j as nat),
        hashed_spine(payloads, roots, t, t as nat),
    );
}

/// The mathematical content of a vector of steps.
pub open spec fn views(steps: Seq<HashedStep>) -> Seq<StepView> {
    Seq::new(steps.len(), |x: int| steps[x]@)
}

/// Whether two paths lead from the same leaf through siblings of the same
/// names to the root of a log of the same size.
pub open spec fn same_shape(a: AuthPathView, b: AuthPathView) -> bool {
    &&& a.i == b.i
    &&& a.n == b.n
    &&& plain(a.steps) == plain(b.steps)
}

/// The names of those of the first `len` steps whose hashes differ between
/// the two paths, the highest first.
pub open spec fn divergent_steps(a: Seq<StepView>, b: Seq<StepView>, len: nat) -> Seq<Address>
    decreases len,
{
    if len == 0 {
        Seq::empty()
    } else {
        (if a[len - 1].hash != b[len - 1].hash {
            seq![a[len - 1].node]
        } else {
            Seq::empty()
        }) + divergent_steps(a, b, (len - 1) as nat)
    }
}

/// The nodes whose hashes differ between two paths of the same shape, from
/// the root down: the siblings, then the leaf itself.
pub open spec fn spec_divergent(a: AuthPathView, b: AuthPathView) -> Seq<Address> {
    divergent_steps(a.steps, b.steps, a.steps.len()) + (if a.leaf != b.leaf {
        seq![Address { i: a.i, j: 0 }]
    } else {
        Seq::empty()
    })
}

/// Whether `a` comes before `b` or is `b`: the lower level first, then the
/// smaller index.
pub open spec fn at_most(a: Address, b: Address) -> bool {
    a.j < b.j || (a.j == b.j && a.i <= b.i)
}

/// Whether `best` is one of `nodes` and comes before all the others.
pub open spec fn is_least(nodes: Seq<Address>, best: Address) -> bool {
    nodes.contains(best) && forall|x: int|
        0 <= x < nodes.len() ==> at_most(best, #[trigger] nodes[x])
}

/// Of the given nodes the one with the lowest level, and among those the
/// one with the smallest index.
pub open spec fn spec_pick(nodes: Seq<Address>) -> Address {
    choose|best: Address| is_least(nodes, best)
}

/// Only one of the nodes comes before all the others.
pub proof fn lemma_pick_unique(nodes: Seq<Address>, a: Address, b: Address)
    requires
        is_least(nodes, a),
        is_least(nodes, b),
    ensures
        a == b,
{
    let x = choose|x: int| 0 <= x < nodes.len() && nodes[x] == a;
    let y = choose|y: int| 0 <= y < nodes.len() && nodes[y] == b;
    assert(at_most(b, nodes[x]));
    assert(at_most(a, nodes[y]));
}

/// The node to look at next: of the given nodes the one with the lowest
/// level, and among those the one with the smallest index.
pub fn pick(nodes: &Vec<Address>) -> (best: Address)
    requires
        nodes@.len() > 0,
    ensures
        nodes@.contains(best),
        forall|x: int| 0 <= x < nodes@.len() ==> at_most(best, #[trigger] nodes@[x]),
        best == spec_pick(nodes@),
{
    let mut best = nodes[0];
    let mut x: usize = 1;
    while x < nodes.len()
        invariant
            1 <= x <= nodes@.len(),
            nodes@.contains(best),
            forall|y: int| 0 <= y < x ==> at_most(best, #[trigger] nodes@[y]),
        decreases nodes@.len() - x,
    {
        let a = nodes[x];
        if a.j < best.j || (a.j == best.j && a.i < best.i) {
            best = a;
        }
        x += 1;
    }
    proof {
        assert(is_least(nodes@, best));
        lemma_pick_unique(nodes@, best, spec_pick(nodes@));
    }
    best
}

impl AuthPath {
    /// The hash that the steps make of the leaf.
    pub fn compute_root(&self) -> (h: crate::hash::Hash)
        ensures
            h@ == fold_steps(self@.leaf, self@.steps),
    {
        let mut h = self.leaf;
        let mut x: usize = 0;
        while x < self.steps.len()
            invariant
                x <= self.steps@.len(),
                h@ == fold_steps(self@.leaf, self@.steps.subrange(0, x as int)),
            decreases self.steps@.len() - x,
        {
            let step = self.steps[x];
            proof {
                let before = self@.steps.subrange(0, x as int);
                assert(self@.steps.subrange(0, x + 1) =~= before.push(step@));
                lemma_fold_push(self@.leaf, before, step@);
            }
            h = match step.side {
                Side::Left => step.hash.combine(&h),
                Side::Right => h.combine(&step.hash),
            };
            x += 1;
        }
        assert(self@.steps.subrange(0, self@.steps.len() as int) =~= self@.steps);
        h
    }

    /// Whether the steps combine the leaf to the root that the path
    /// carries.
    pub fn verify(&self) -> (ok: bool)
        ensures
            ok == (fold_steps(self@.leaf, self@.steps) == self@.root),
    {
        let h = self.compute_root();
        h.same(&self.root)
    }

    /// Whether `other` leads from the same leaf through siblings of the
    /// same names to the root of a log of the same size.
    pub fn matches_shape(&self, other: &AuthPath) -> (same: bool)
        ensures
            same == same_shape(self@, other@),
    {
        if self.i != other.i || self.n != other.n || self.steps.len() != other.steps.len() {
            proof {
                if self.steps@.len() != other.steps@.len() {
                    assert(plain(self@.steps).len() != plain(other@.steps).len());
                }
            }
            return false;
        }
        let mut x: usize = 0;
        while x < self.steps.len()
            invariant
                x <= self.steps@.len(),
                self.steps@.len() == other.steps@.len(),
                forall|y: int|
                    0 <= y < x ==> plain(self@.steps)[y] == plain(other@.steps)[y],
            decreases self.steps@.len() - x,
        {
            let a = self.steps[x];
            let b = other.steps[x];
            let same_side = match (a.side, b.side) {
                (Side::Left, Side::Left) => true,
                (Side::Right, Side::Right) => true,
                _ => false,
            };
            if a.node.i != b.node.i || a.node.j != b.node.j || !same_side {
                assert(plain(self@.steps)[x as int] != plain(other@.steps)[x as int]);
                return false;
            }
            x += 1;
        }
        assert(plain(self@.steps) =~= plain(other@.steps));
        true
    }

    /// Compares this path with `other`, which must have the same shape.
    /// Equal roots mean `Identical`. Else the result lists every node whose
    /// hash differs, from the root down: each sibling, and last the leaf.
    pub fn prove(&self, other: &AuthPath) -> (r: Result<Prove, Error>)
        ensures
            match r {
                Ok(Prove::Identical) => same_shape(self@, other@) && self@.root == other@.root,
                Ok(Prove::Divergent(nodes)) => same_shape(self@, other@) && self@.root
                    != other@.root && nodes@ == spec_divergent(self@, other@),
                Err(e) => e == Error::Invariant && !same_shape(self@, other@),
            },
    {
        if !self.matches_shape(other) {
            return Err(Error::Invariant);
        }
        if self.root.same(&other.root) {
            return Ok(Prove::Identical);
        }
        let mut nodes: Vec<Address> = Vec::new();
        let len = self.steps.len();
        assert(plain(self@.steps).len() == plain(other@.steps).len());
        let mut x: usize = len;
        while x > 0
            invariant
                x <= len == self.steps@.len() == other.steps@.len(),
                nodes@ + divergent_steps(self@.steps, other@.steps, x as nat) == divergent_steps(
                    self@.steps,
                    other@.steps,
                    len as nat,
                ),
            decreases x,
        {
            let ghost before = nodes@;
            let ghost rest = divergent_steps(self@.steps, other@.steps, (x - 1) as nat);
            x = x - 1;
            if !self.steps[x].hash.same(&other.steps[x].hash) {
                nodes.push(self.steps[x].node);
                assert(before.push(self.steps@[x as int].node) + rest =~= before + (
                seq![self@.steps[x as int].node] + rest));
            } else {
                assert(before + rest =~= before + (Seq::<Address>::empty() + rest));
            }
        }
        assert(nodes@ =~= divergent_steps(self@.steps, other@.steps, len as nat)) by {
            assert(divergent_steps(self@.steps, other@.steps, 0) =~= Seq::<Address>::empty());
        }
        if !self.leaf.same(&other.leaf) {
            nodes.push(Address { i: self.i, j: 0 });
        }
        assert(nodes@ =~= spec_divergent(self@, other@));
        Ok(Prove::Divergent(nodes))
    }
}

/// Every node listed among the divergent steps is the sibling of a step
/// whose hashes differ.
pub proof fn lemma_divergent_steps_member(
    a: Seq<StepView>,
    b: Seq<StepView>,
    len: nat,
    node: Address,
)
    requires
        divergent_steps(a, b, len).contains(node),
    ensures
        exists|x: int| 0 <= x < len && #[trigger] a[x].node == node && a[x].hash != b[x].hash,
    decreases len,
{
    if len > 0 {
        let head = if a[len - 1].hash != b[len - 1].hash {
            seq![a[len - 1].node]
        } else {
            Seq::empty()
        };
        let rest = divergent_steps(a, b, (len - 1) as nat);
        let all = head + rest;
        let w = choose|w: int| 0 <= w < all.len() && all[w] == node;
        if w < head.len() {
            assert(a[len - 1].node == node);
        } else {
            assert(rest[w - head.len()] == node);
            lemma_divergent_steps_member(a, b, (len - 1) as nat, node);
        }
    }
}

/// A step whose hashes differ is listed among the divergent steps.
pub proof fn lemma_divergent_steps_lists(a: Seq<StepView>, b: Seq<StepView>, len: nat, x: int)
    requires
        0 <= x < len,
        a[x].hash != b[x].hash,
    ensures
        divergent_steps(a, b, len).contains(a[x].node),
    decreases len,
{
    let head = if a[len - 1].hash != b[len - 1].hash {
        seq![a[len - 1].node]
    } else {
        Seq::empty()
    };
    let rest = divergent_steps(a, b, (len - 1) as nat);
    if x == len - 1 {
        assert((head + rest)[0] == a[x].node);
    } else {
        lemma_divergent_steps_lists(a, b, (len - 1) as nat, x);
        let w = choose|w: int| 0 <= w < rest.len() && rest[w] == a[x].node;
        assert((head + rest)[head.len() + w] == a[x].node);
    }
}

/// Paths with the same leaf hash and the same sibling hashes combine to
/// the same root.
pub proof fn lemma_fold_same(leaf_a: Seq<u8>, a: Seq<StepView>, leaf_b: Seq<u8>, b: Seq<StepView>)
    requires
        leaf_a == leaf_b,
        a.len() == b.len(),
        forall|x: int| 0 <= x < a.len() ==> a[x].side == b[x].side && a[x].hash == b[x].hash,
    ensures
        fold_steps(leaf_a, a) == fold_steps(leaf_b, b),
    decreases a.len(),
{
    if a.len() > 0 {
        lemma_fold_same(leaf_a, a.drop_last(), leaf_b, b.drop_last());
    }
}

/// A step of level 0 in the path of a leaf names a leaf of the log and
/// carries the digest of that leaf's payload.
pub proof fn lemma_leaf_steps(payloads: Seq<Seq<u8>>, k: nat, n: nat, x: int)
    requires
        1 <= k <= n < 0x1_0000_0000_0000_0000,
        0 <= x < spec_hashed_path(payloads, k, n).len(),
        spec_hashed_path(payloads, k, n)[x].node.j == 0,
    ensures
        1 <= spec_hashed_path(payloads, k, n)[x].node.i <= n,
        spec_hashed_path(payloads, k, n)[x].hash == blake3_digest(
            payloads[spec_hashed_path(payloads, k, n)[x].node.i - 1],
        ),
{
    crate::formula::lemma_cover(k, n);
    crate::formula::lemma_forest_roots_cover(n);
    let roots = spec_forest_roots(n);
    let t = spec_cover(k, n) as int;
    let inner = hashed_inner(payloads, k, roots[t].i as nat, roots[t].j as nat);
    let spine = hashed_spine(payloads, roots, t, t as nat);
    lemma_inner_plain(payloads, k, roots[t].i as nat, roots[t].j as nat);
    if x < inner.len() {
        lemma_inner_steps(payloads, k, roots[t].i as nat, roots[t].j as nat, x);
    } else {
        lemma_spine_steps(payloads, roots, t, t as nat, x - inner.len());
        let step = spine[x - inner.len()];
        assert(roots.last().i == n);
    }
}

/// Each step inside a full subtree names a node under its root and
/// carries that node's hash.
pub proof fn lemma_inner_steps(payloads: Seq<Seq<u8>>, k: nat, i: nat, j: nat, x: int)
    requires
        1 <= k,
        pow2(j) <= i < 0x1_0000_0000_0000_0000,
        j < 64,
        i - pow2(j) < k <= i,
        0 <= x < hashed_inner(payloads, k, i, j).len(),
    ensures
        i - pow2(j) < hashed_inner(payloads, k, i, j)[x].node.i <= i,
        hashed_inner(payloads, k, i, j)[x].hash == node_hash(
            payloads,
            hashed_inner(payloads, k, i, j)[x].node.i as nat,
            hashed_inner(payloads, k, i, j)[x].node.j as nat,
        ),
    decreases j,
{
    if j > 0 {
        let mid = (i - pow2((j - 1) as nat)) as nat;
        crate::formula::lemma_pow2_monotone(0, (j - 1) as nat);
        assert(pow2(j) == 2 * pow2((j - 1) as nat));
        lemma_inner_plain(payloads, k, mid, (j - 1) as nat);
        lemma_inner_plain(payloads, k, i, (j - 1) as nat);
        if k <= mid {
            if x < j - 1 {
                lemma_inner_steps(payloads, k, mid, (j - 1) as nat, x);
            }
        } else {
            if x < j - 1 {
                lemma_inner_steps(payloads, k, i, (j - 1) as nat, x);
            }
        }
    }
}

/// Each step up the spine names a root of the forest, or the join of the
/// last roots, and carries its hash; a join of level 0 is the last root.
pub proof fn lemma_spine_steps(payloads: Seq<Seq<u8>>, roots: Seq<Address>, t: int, s: nat, x: int)
    requires
        0 <= t < roots.len(),
        s <= t,
        0 <= x < hashed_spine(payloads, roots, t, s).len(),
        forall|y: int| 0 <= y < roots.len() - 1 ==> #[trigger] roots[y + 1].j < roots[y].j,
    ensures
        ({
            let step = hashed_spine(payloads, roots, t, s)[x];
            ||| exists|y: int|
                0 <= y < roots.len() && step.node == #[trigger] roots[y] && step.hash == node_hash(
                    payloads,
                    roots[y].i as nat,
                    roots[y].j as nat,
                )
            ||| step.node.j > 0 && step.node.i == roots.last().i
        }),
    decreases s,
{
    let step = hashed_spine(payloads, roots, t, s)[x];
    if s == 0 {
        if t + 2 >= roots.len() {
            assert(step.node == roots[t + 1]);
        } else {
            assert(step.node.j == roots[t + 1].j + 1);
        }
    } else {
        let before = hashed_spine(payloads, roots, t, (s - 1) as nat);
        if x < before.len() {
            lemma_spine_steps(payloads, roots, t, (s - 1) as nat, x);
        } else {
            assert(step.node == roots[t - s]);
        }
    }
}

/// Every step in the path of a leaf names a node whose index is an index
/// of the log.
pub proof fn lemma_step_range(payloads: Seq<Seq<u8>>, k: nat, n: nat, x: int)
    requires
        1 <= k <= n < 0x1_0000_0000_0000_0000,
        0 <= x < spec_hashed_path(payloads, k, n).len(),
    ensures
        1 <= spec_hashed_path(payloads, k, n)[x].node.i <= n,
{
    crate::formula::lemma_cover(k, n);
    crate::formula::lemma_forest_roots_cover(n);
    let roots = spec_forest_roots(n);
    let t = spec_cover(k, n) as int;
    let inner = hashed_inner(payloads, k, roots[t].i as nat, roots[t].j as nat);
    let spine = hashed_spine(payloads, roots, t, t as nat);
    lemma_inner_plain(payloads, k, roots[t].i as nat, roots[t].j as nat);
    if x < inner.len() {
        lemma_inner_steps(payloads, k, roots[t].i as nat, roots[t].j as nat, x);
    } else {
        lemma_spine_steps(payloads, roots, t, t as nat, x - inner.len());
        assert(roots.last().i == n);
    }
}

/// Two paths of the same shape whose roots differ, each combining to its
/// root, differ in the leaf or in some step.
pub proof fn lemma_divergent_not_empty(a: AuthPathView, b: AuthPathView)
    requires
        same_shape(a, b),
        a.root != b.root,
        fold_steps(a.leaf, a.steps) == a.root,
        fold_steps(b.leaf, b.steps) == b.root,
    ensures
        spec_divergent(a, b).len() > 0,
{
    assert(plain(a.steps).len() == plain(b.steps).len());
    if a.leaf == b.leaf {
        if forall|x: int| 0 <= x < a.steps.len() ==> a.steps[x].hash == b.steps[x].hash {
            assert forall|x: int| 0 <= x < a.steps.len() implies a.steps[x].side
                == b.steps[x].side && a.steps[x].hash == b.steps[x].hash by {
                assert(plain(a.steps)[x] == plain(b.steps)[x]);
            }
            lemma_fold_same(a.leaf, a.steps, b.leaf, b.steps);
        } else {
            let x = choose|x: int| 0 <= x < a.steps.len() && a.steps[x].hash != b.steps[x].hash;
            lemma_divergent_steps_lists(a.steps, b.steps, a.steps.len(), x);
            let d = divergent_steps(a.steps, b.steps, a.steps.len());
            let w = choose|w: int| 0 <= w < d.len() && d[w] == a.steps[x].node;
            assert(d.len() > 0);
        }
    }
}

} // verus!
