//! Why the convergence procedure comes to an end: a node whose hash differs
//! between two logs has, on the path of its last leaf, a lower node or the
//! leaf itself whose hash differs too.

use crate::auth::{
    divergent_steps, fold_hash, hashed_inner, hashed_spine, lemma_divergent_steps_lists,
    lemma_fold_same, lemma_inner_fold, lemma_inner_plain, plain, spec_divergent, spec_hashed_path,
    spec_path, StepView,
};
use crate::entry::node_hash;
use crate::formula::{
    ctz, lemma_cover, lemma_ctz_divides, lemma_forest_roots_cover, lemma_multiple, lemma_pow2_adds,
    lemma_pow2_monotone, pow2, spec_cover, spec_forest_roots, Address,
};
use crate::log::lemma_halves;
use crate::storage::Index;
use vstd::prelude::*;

verus! {

/// Whether `step` stands for a node of the tree: one of the log's interior
/// nodes or leaves, with its hash.
pub open spec fn is_tree_step(payloads: Seq<Seq<u8>>, n: nat, step: StepView) -> bool {
    &&& 1 <= step.node.i <= n
    &&& step.node.j <= ctz(step.node.i as nat)
    &&& step.hash == node_hash(payloads, step.node.i as nat, step.node.j as nat)
}

/// Whether `step` stands for the join of the roots from number `u` on, of
/// which there are at least two.
pub open spec fn is_join_step(payloads: Seq<Seq<u8>>, n: nat, step: StepView, u: int) -> bool {
    let roots = spec_forest_roots(n);
    &&& 1 <= u
    &&& u + 1 < roots.len()
    &&& step.node == (Address { i: n as Index, j: (roots[u].j + 1) as u8 })
    &&& step.hash == fold_hash(payloads, roots, u)
}

/// Among the multiples of `2^j`, only `i` itself lies in the last `2^j`
/// numbers up to a multiple `i`.
pub proof fn lemma_aligned(i: nat, k: nat, j: nat)
    requires
        i % pow2(j) == 0,
        k % pow2(j) == 0,
        i - pow2(j) < k <= i,
    ensures
        k == i,
{
    let d = pow2(j);
    lemma_pow2_monotone(0, j);
    let a = i / d;
    let b = k / d;
    vstd::arithmetic::div_mod::lemma_fundamental_div_mod(i as int, d as int);
    vstd::arithmetic::div_mod::lemma_fundamental_div_mod(k as int, d as int);
    assert(b <= a) by (nonlinear_arith)
        requires
            d * b <= d * a,
            d > 0,
    ;
    if b < a {
        assert(d * b <= d * a - d) by (nonlinear_arith)
            requires
                b + 1 <= a,
                d > 0,
        ;
    }
}

/// `2^e` divides every number with at least `e` trailing zero bits.
pub proof fn lemma_divides(i: nat, e: nat)
    requires
        i >= 1,
        e <= ctz(i),
    ensures
        i % pow2(e) == 0,
{
    lemma_ctz_divides(i);
    let c = ctz(i);
    let odd = i / pow2(c);
    lemma_pow2_monotone(0, c);
    lemma_pow2_monotone(0, e);
    vstd::arithmetic::div_mod::lemma_fundamental_div_mod(i as int, pow2(c) as int);
    lemma_pow2_adds(e, (c - e) as nat);
    let f = pow2((c - e) as nat);
    assert(i == (odd * f) * pow2(e)) by (nonlinear_arith)
        requires
            i == pow2(c) * odd,
            pow2(e) * f == pow2(c),
    ;
    lemma_multiple(odd * f, pow2(e));
}

/// Step number `x` inside a full subtree is a node of level `x` of the
/// tree.
pub proof fn lemma_inner_kinds(payloads: Seq<Seq<u8>>, n: nat, k: nat, i: nat, j: nat, x: int)
    requires
        1 <= k,
        1 <= i <= n < 0x1_0000_0000_0000_0000,
        j <= ctz(i),
        j < 64,
        i - pow2(j) < k <= i,
        0 <= x < j,
    ensures
        hashed_inner(payloads, k, i, j).len() == j,
        is_tree_step(payloads, n, hashed_inner(payloads, k, i, j)[x]),
        hashed_inner(payloads, k, i, j)[x].node.j == x,
    decreases j,
{
    lemma_inner_plain(payloads, k, i, j);
    let mid = (i - pow2((j - 1) as nat)) as nat;
    lemma_halves(i, (j - 1) as nat);
    lemma_inner_plain(payloads, k, mid, (j - 1) as nat);
    lemma_inner_plain(payloads, k, i, (j - 1) as nat);
    assert(pow2(j) == 2 * pow2((j - 1) as nat));
    if k <= mid {
        if x < j - 1 {
            lemma_inner_kinds(payloads, n, k, mid, (j - 1) as nat, x);
        }
    } else {
        if x < j - 1 {
            lemma_inner_kinds(payloads, n, k, i, (j - 1) as nat, x);
        }
    }
}

/// The way up from a leaf through a full subtree begins with the way
/// through every full subtree below it of which the leaf is the last.
pub proof fn lemma_inner_nested(payloads: Seq<Seq<u8>>, k: nat, i: nat, j: nat, e: nat)
    requires
        1 <= k <= i,
        j <= ctz(i),
        e <= ctz(k),
        e <= j,
        i - pow2(j) < k,
    ensures
        hashed_inner(payloads, k, i, j).len() == j,
        hashed_inner(payloads, k, i, j).subrange(0, e as int) == hashed_inner(payloads, k, k, e),
    decreases j,
{
    lemma_inner_plain(payloads, k, i, j);
    lemma_inner_plain(payloads, k, k, e);
    if j == e {
        lemma_divides(i, j);
        lemma_divides(k, j);
        lemma_aligned(i, k, j);
        assert(hashed_inner(payloads, k, i, j).subrange(0, e as int) =~= hashed_inner(
            payloads,
            k,
            i,
            j,
        ));
    } else {
        let mid = (i - pow2((j - 1) as nat)) as nat;
        lemma_halves(i, (j - 1) as nat);
        assert(pow2(j) == 2 * pow2((j - 1) as nat));
        lemma_inner_plain(payloads, k, mid, (j - 1) as nat);
        lemma_inner_plain(payloads, k, i, (j - 1) as nat);
        if k <= mid {
            lemma_inner_nested(payloads, k, mid, (j - 1) as nat, e);
            assert(hashed_inner(payloads, k, i, j).subrange(0, e as int) =~= hashed_inner(
                payloads,
                k,
                mid,
                (j - 1) as nat,
            ).subrange(0, e as int));
        } else {
            lemma_inner_nested(payloads, k, i, (j - 1) as nat, e);
            assert(hashed_inner(payloads, k, i, j).subrange(0, e as int) =~= hashed_inner(
                payloads,
                k,
                i,
                (j - 1) as nat,
            ).subrange(0, e as int));
        }
    }
}

/// Roots with the same hashes join to the same hash.
pub proof fn lemma_fold_hash_same(a: Seq<Seq<u8>>, b: Seq<Seq<u8>>, roots: Seq<Address>, u: int)
    requires
        0 <= u < roots.len(),
        forall|s: int|
            u <= s < roots.len() ==> node_hash(a, roots[s].i as nat, roots[s].j as nat)
                == node_hash(b, roots[s].i as nat, roots[s].j as nat),
    ensures
        fold_hash(a, roots, u) == fold_hash(b, roots, u),
    decreases roots.len() - u,
{
    if u + 1 < roots.len() {
        lemma_fold_hash_same(a, b, roots, u + 1);
    }
}

/// The levels of the roots fall by at least one from each root to the
/// next.
pub proof fn lemma_levels_below_first(n: nat, s: int)
    requires
        n < 0x1_0000_0000_0000_0000,
        0 <= s < spec_forest_roots(n).len(),
    ensures
        spec_forest_roots(n)[s].j + s <= spec_forest_roots(n)[0].j,
        spec_forest_roots(n)[0].j < 64,
        pow2(spec_forest_roots(n)[0].j as nat) <= n,
    decreases s,
{
    lemma_forest_roots_cover(n);
    let roots = spec_forest_roots(n);
    if s > 0 {
        lemma_levels_below_first(n, s - 1);
        assert(roots[(s - 1) + 1].j < roots[s - 1].j);
    }
}

/// Whether the steps `sa` and `sb`, which two logs of `n` entries have in
/// the same place of the paths of the same leaf, are of one kind: both
/// nodes of the tree, or both the join of the same roots.
pub open spec fn same_kind(
    a: Seq<Seq<u8>>,
    b: Seq<Seq<u8>>,
    n: nat,
    sa: StepView,
    sb: StepView,
) -> bool {
    &&& sa.node == sb.node
    &&& sa.side == sb.side
    &&& sa.node.j <= spec_forest_roots(n)[0].j
    &&& (is_tree_step(a, n, sa) && is_tree_step(b, n, sb)) || exists|u: int|
        is_join_step(a, n, sa, u) && #[trigger] is_join_step(b, n, sb, u)
}

/// The steps up the spine are of one kind in two logs of the same size.
pub proof fn lemma_spine_kinds(a: Seq<Seq<u8>>, b: Seq<Seq<u8>>, n: nat, t: int, s: nat, y: int)
    requires
        1 <= n < 0x1_0000_0000_0000_0000,
        0 <= t < spec_forest_roots(n).len(),
        s <= t,
        0 <= y < hashed_spine(a, spec_forest_roots(n), t, s).len(),
    ensures
        hashed_spine(b, spec_forest_roots(n), t, s).len() == hashed_spine(
            a,
            spec_forest_roots(n),
            t,
            s,
        ).len(),
        same_kind(
            a,
            b,
            n,
            hashed_spine(a, spec_forest_roots(n), t, s)[y],
            hashed_spine(b, spec_forest_roots(n), t, s)[y],
        ),
    decreases s,
{
    let roots = spec_forest_roots(n);
    lemma_forest_roots_cover(n);
    crate::auth::lemma_spine_plain(a, roots, t, s);
    crate::auth::lemma_spine_plain(b, roots, t, s);
    let sa = hashed_spine(a, roots, t, s)[y];
    let sb = hashed_spine(b, roots, t, s)[y];
    if s == 0 {
        lemma_levels_below_first(n, t + 1);
        if t + 2 >= roots.len() {
            assert(sa.node == roots[t + 1]);
            assert(is_tree_step(a, n, sa));
            assert(is_tree_step(b, n, sb));
        } else {
            assert(is_join_step(a, n, sa, t + 1));
            assert(is_join_step(b, n, sb, t + 1));
        }
    } else {
        let before = hashed_spine(a, roots, t, (s - 1) as nat);
        crate::auth::lemma_spine_plain(a, roots, t, (s - 1) as nat);
        crate::auth::lemma_spine_plain(b, roots, t, (s - 1) as nat);
        if y < before.len() {
            lemma_spine_kinds(a, b, n, t, (s - 1) as nat, y);
        } else {
            lemma_levels_below_first(n, t - s);
            assert(sa.node == roots[t - s]);
            assert(is_tree_step(a, n, sa));
            assert(is_tree_step(b, n, sb));
        }
    }
}

/// The steps on the paths of one leaf are of one kind in two logs of the
/// same size.
pub proof fn lemma_step_kinds(a: Seq<Seq<u8>>, b: Seq<Seq<u8>>, k: nat, n: nat, x: int)
    requires
        1 <= k <= n < 0x1_0000_0000_0000_0000,
        0 <= x < spec_hashed_path(a, k, n).len(),
    ensures
        spec_hashed_path(b, k, n).len() == spec_hashed_path(a, k, n).len(),
        same_kind(a, b, n, spec_hashed_path(a, k, n)[x], spec_hashed_path(b, k, n)[x]),
{
    lemma_cover(k, n);
    lemma_forest_roots_cover(n);
    let roots = spec_forest_roots(n);
    let t = spec_cover(k, n) as int;
    let i = roots[t].i as nat;
    let j = roots[t].j as nat;
    lemma_inner_plain(a, k, i, j);
    lemma_inner_plain(b, k, i, j);
    crate::auth::lemma_spine_plain(a, roots, t, t as nat);
    crate::auth::lemma_spine_plain(b, roots, t, t as nat);
    lemma_levels_below_first(n, t);
    if x < j {
        lemma_inner_kinds(a, n, k, i, j, x);
        lemma_inner_kinds(b, n, k, i, j, x);
        assert(plain(hashed_inner(a, k, i, j))[x] == plain(hashed_inner(b, k, i, j))[x]);
    } else {
        lemma_spine_kinds(a, b, n, t, t as nat, x - j);
    }
}

/// A node of the tree whose hash differs between two logs has, on the
/// paths of its last leaf, a node below it whose hash differs, or the leaf
/// differs.
pub proof fn lemma_tree_node_descends(a: Seq<Seq<u8>>, b: Seq<Seq<u8>>, k: nat, n: nat, level: nat)
    requires
        1 <= k <= n < 0x1_0000_0000_0000_0000,
        1 <= level <= ctz(k),
        node_hash(a, k, level) != node_hash(b, k, level),
    ensures
        exists|w: int|
            0 <= w < spec_divergent(spec_path(b, k, n), spec_path(a, k, n)).len()
                && (#[trigger] spec_divergent(spec_path(b, k, n), spec_path(a, k, n))[w]).j
                < level,
{
    lemma_cover(k, n);
    lemma_forest_roots_cover(n);
    let roots = spec_forest_roots(n);
    let t = spec_cover(k, n) as int;
    let i = roots[t].i as nat;
    let j = roots[t].j as nat;
    // the node lies under the root that covers its last leaf
    if level > j {
        lemma_divides(i, j);
        lemma_divides(k, level);
        lemma_pow2_adds(j, (level - j) as nat);
        let f = pow2((level - j) as nat);
        let q = k / pow2(level);
        lemma_pow2_monotone(0, level);
        lemma_pow2_monotone(0, j);
        vstd::arithmetic::div_mod::lemma_fundamental_div_mod(k as int, pow2(level) as int);
        assert(k == (q * f) * pow2(j)) by (nonlinear_arith)
            requires
                k == pow2(level) * q,
                pow2(j) * f == pow2(level),
        ;
        lemma_multiple(q * f, pow2(j));
        lemma_aligned(i, k, j);
    }
    lemma_pow2_monotone(0, level);
    crate::formula::lemma_ctz_below_64(k);
    lemma_inner_nested(a, k, i, j, level);
    lemma_inner_nested(b, k, i, j, level);
    lemma_halves(k, level);
    lemma_inner_fold(a, k, k, level);
    lemma_inner_fold(b, k, k, level);
    let pa = spec_path(a, k, n);
    let pb = spec_path(b, k, n);
    let ia = hashed_inner(a, k, k, level);
    let ib = hashed_inner(b, k, k, level);
    lemma_inner_plain(a, k, k, level);
    lemma_inner_plain(b, k, k, level);
    lemma_inner_plain(a, k, i, j);
    lemma_inner_plain(b, k, i, j);
    let d = spec_divergent(pb, pa);
    let steps = divergent_steps(pb.steps, pa.steps, pb.steps.len());
    if pa.leaf != pb.leaf {
        let w = steps.len() as int;
        assert(d[w] == Address { i: k as Index, j: 0 });
    } else {
        if forall|x: int| 0 <= x < level ==> ia[x].hash == ib[x].hash {
            assert forall|x: int| 0 <= x < ia.len() implies ia[x].side == ib[x].side && ia[x].hash
                == ib[x].hash by {
                assert(plain(ia)[x] == plain(ib)[x]);
            }
            lemma_fold_same(pa.leaf, ia, pb.leaf, ib);
        } else {
            let x = choose|x: int| 0 <= x < level && ia[x].hash != ib[x].hash;
            assert(ia[x] == hashed_inner(a, k, i, j).subrange(0, level as int)[x]);
            assert(ib[x] == hashed_inner(b, k, i, j).subrange(0, level as int)[x]);
            assert(pa.steps[x] == ia[x]);
            assert(pb.steps[x] == ib[x]);
            crate::auth::lemma_path_plain(a, k, n);
            crate::auth::lemma_path_plain(b, k, n);
            lemma_divergent_steps_lists(pb.steps, pa.steps, pb.steps.len(), x);
            let w = choose|w: int| 0 <= w < steps.len() && steps[w] == pb.steps[x].node;
            assert(d[w] == steps[w]);
            lemma_inner_kinds(b, n, k, k, level, x);
        }
    }
}

/// A join of roots whose hash differs between two logs has, on the paths
/// of the last leaf, a lower node whose hash differs, or the leaf differs.
pub proof fn lemma_join_descends(a: Seq<Seq<u8>>, b: Seq<Seq<u8>>, n: nat, u: int)
    requires
        1 <= n < 0x1_0000_0000_0000_0000,
        1 <= u,
        u + 1 < spec_forest_roots(n).len(),
        fold_hash(a, spec_forest_roots(n), u) != fold_hash(b, spec_forest_roots(n), u),
    ensures
        exists|w: int|
            0 <= w < spec_divergent(spec_path(b, n, n), spec_path(a, n, n)).len()
                && (#[trigger] spec_divergent(spec_path(b, n, n), spec_path(a, n, n))[w]).j
                <= spec_forest_roots(n)[u].j,
{
    let roots = spec_forest_roots(n);
    let m = roots.len() as int;
    lemma_forest_roots_cover(n);
    lemma_cover(n, n);
    let t = spec_cover(n, n) as int;
    assert(t == m - 1);
    let jm = roots[t].j as nat;
    let pa = spec_path(a, n, n);
    let pb = spec_path(b, n, n);
    let d = spec_divergent(pb, pa);
    let steps = divergent_steps(pb.steps, pa.steps, pb.steps.len());
    if forall|s: int|
        u <= s < m ==> node_hash(a, roots[s].i as nat, roots[s].j as nat) == node_hash(
            b,
            roots[s].i as nat,
            roots[s].j as nat,
        ) {
        lemma_fold_hash_same(a, b, roots, u);
    } else {
        let s = choose|s: int|
            u <= s < m && node_hash(a, roots[s].i as nat, roots[s].j as nat) != node_hash(
                b,
                roots[s].i as nat,
                roots[s].j as nat,
            );
        lemma_levels_between(n, u, s);
        if s == m - 1 {
            if jm == 0 {
                let w = steps.len() as int;
                assert(d[w] == Address { i: n as Index, j: 0 });
            } else {
                lemma_tree_node_descends(a, b, n, n, jm);
            }
        } else {
            lemma_inner_plain(a, n, n, jm);
            lemma_inner_plain(b, n, n, jm);
            crate::auth::lemma_spine_plain(a, roots, t, t as nat);
            crate::auth::lemma_spine_plain(b, roots, t, t as nat);
            lemma_left_step(a, roots, t, t as nat, t - s);
            lemma_left_step(b, roots, t, t as nat, t - s);
            let x = jm + (t - s - 1);
            assert(pa.steps[x] == hashed_spine(a, roots, t, t as nat)[t - s - 1]);
            assert(pb.steps[x] == hashed_spine(b, roots, t, t as nat)[t - s - 1]);
            lemma_divergent_steps_lists(pb.steps, pa.steps, pb.steps.len(), x);
            let w = choose|w: int| 0 <= w < steps.len() && steps[w] == pb.steps[x].node;
            assert(d[w] == steps[w]);
        }
    }
}

/// The level of a root is at most the level of every root before it.
pub proof fn lemma_levels_between(n: nat, u: int, s: int)
    requires
        n < 0x1_0000_0000_0000_0000,
        0 <= u <= s < spec_forest_roots(n).len(),
    ensures
        spec_forest_roots(n)[s].j <= spec_forest_roots(n)[u].j,
    decreases s - u,
{
    lemma_forest_roots_cover(n);
    if u < s {
        lemma_levels_between(n, u, s - 1);
        assert(spec_forest_roots(n)[(s - 1) + 1].j < spec_forest_roots(n)[s - 1].j);
    }
}

/// Where the last root is the covering root, the `c`-th step up the spine
/// is the `c`-th root to its left.
pub proof fn lemma_left_step(payloads: Seq<Seq<u8>>, roots: Seq<Address>, t: int, s: nat, c: int)
    requires
        0 <= t,
        t + 1 == roots.len(),
        1 <= c <= s <= t,
    ensures
        hashed_spine(payloads, roots, t, s).len() == s,
        hashed_spine(payloads, roots, t, s)[c - 1] == (StepView {
            node: roots[t - c],
            side: crate::formula::Side::Left,
            hash: node_hash(payloads, roots[t - c].i as nat, roots[t - c].j as nat),
        }),
    decreases s,
{
    crate::auth::lemma_spine_plain(payloads, roots, t, s);
    crate::auth::lemma_spine_plain(payloads, roots, t, (s - 1) as nat);
    if c < s {
        lemma_left_step(payloads, roots, t, (s - 1) as nat, c);
    }
}

} // verus!
