//! The entry-layout algebra: pure functions of the number of entries `n` and
//! an index `k` that name every hash node of the log and say which nodes a
//! query reads.

use crate::storage::Index;
use vstd::prelude::*;

verus! {

/// The name of a hash node: `i` is the entry whose append made it, which is
/// also the rightmost leaf under it; `j` is its level, 0 for a leaf.
#[derive(Clone, Copy, Debug, PartialEq, Eq, Structural)]
pub struct Address {
    pub i: Index,
    pub j: u8,
}

/// An interior node with the names of its two children.
#[derive(Clone, Copy, Debug, PartialEq, Eq, Structural)]
pub struct INode {
    pub node: Address,
    pub left: Address,
    pub right: Address,
}

/// On which side of the path a sibling stands.
#[derive(Clone, Copy, Debug, PartialEq, Eq, Structural)]
pub enum Side {
    Left,
    Right,
}

/// One step of an authentication path: the sibling to combine with, and
/// its side.
#[derive(Clone, Copy, Debug, PartialEq, Eq, Structural)]
pub struct Step {
    pub node: Address,
    pub side: Side,
}

/// Two to the power `e`.
pub open spec fn pow2(e: nat) -> nat
    decreases e,
{
    if e == 0 {
        1
    } else {
        2 * pow2((e - 1) as nat)
    }
}

/// Powers of two are positive and grow with the exponent.
pub proof fn lemma_pow2_monotone(a: nat, b: nat)
    requires
        a <= b,
    ensures
        0 < pow2(a) <= pow2(b),
    decreases b,
{
    if b == 0 {
    } else if a == b {
        lemma_pow2_monotone((a - 1) as nat, (b - 1) as nat);
    } else {
        lemma_pow2_monotone(a, (b - 1) as nat);
    }
}

/// A smaller exponent gives a strictly smaller power.
pub proof fn lemma_pow2_strict(a: nat, b: nat)
    requires
        a < b,
    ensures
        0 < pow2(a) < pow2(b),
        2 * pow2(a) <= pow2(b),
{
    lemma_pow2_monotone(a + 1, b);
    lemma_pow2_monotone(a, a);
}

/// `2^a * 2^b = 2^(a+b)`.
pub proof fn lemma_pow2_adds(a: nat, b: nat)
    ensures
        pow2(a) * pow2(b) == pow2(a + b),
    decreases a,
{
    if a == 0 {
        assert(pow2(0) * pow2(b) == pow2(b)) by (nonlinear_arith)
            requires
                pow2(0) == 1,
        ;
    } else {
        lemma_pow2_adds((a - 1) as nat, b);
        let x = pow2((a - 1) as nat);
        let y = pow2(b);
        assert((2 * x) * y == 2 * (x * y)) by (nonlinear_arith);
        assert(pow2(a + b) == 2 * pow2((a + b - 1) as nat));
    }
}

/// `2^64` is one more than the greatest 64-bit word.
pub proof fn lemma_pow2_64()
    ensures
        pow2(64) == 0x1_0000_0000_0000_0000,
        pow2(63) == 0x8000_0000_0000_0000,
        pow2(32) == 0x1_0000_0000,
{
    assert(pow2(8) == 0x100) by {
        reveal_with_fuel(pow2, 9);
    }
    lemma_pow2_adds(8, 8);
    assert(pow2(16) == 0x1_0000);
    lemma_pow2_adds(16, 16);
    assert(pow2(32) == 0x1_0000_0000);
    lemma_pow2_adds(32, 32);
    assert(pow2(64) == 0x1_0000_0000_0000_0000);
    assert(pow2(64) == 2 * pow2(63));
}

/// Every power below the 64th fits a 64-bit word.
pub proof fn lemma_pow2_fits(e: nat)
    requires
        e < 64,
    ensures
        0 < pow2(e) <= 0x8000_0000_0000_0000,
{
    lemma_pow2_monotone(e, 63);
    lemma_pow2_64();
}

/// Two to the power `e`, for an exponent below 64.
pub fn pow2e(e: u8) -> (r: u64)
    requires
        e < 64,
    ensures
        r == pow2(e as nat),
{
    let mut r: u64 = 1;
    let mut i: u8 = 0;
    while i < e
        invariant
            i <= e,
            e < 64,
            r == pow2(i as nat),
        decreases e - i,
    {
        proof {
            lemma_pow2_fits((i + 1) as nat);
        }
        r = r * 2;
        i += 1;
    }
    r
}

/// Number of trailing zero bits of `i`; 0 for `i = 0`.
pub open spec fn ctz(i: nat) -> nat
    decreases i,
{
    if i == 0 || i % 2 == 1 {
        0
    } else {
        1 + ctz(i / 2)
    }
}

/// Number of set bits of `n`.
pub open spec fn popcount(n: nat) -> nat
    decreases n,
{
    if n == 0 {
        0
    } else {
        (n % 2) + popcount(n / 2)
    }
}

/// `i` is an odd multiple of `2^ctz(i)`.
pub proof fn lemma_ctz_divides(i: nat)
    requires
        i >= 1,
    ensures
        i % pow2(ctz(i)) == 0,
        (i / pow2(ctz(i))) % 2 == 1,
        pow2(ctz(i)) <= i,
    decreases i,
{
    if i % 2 == 1 {
        assert(pow2(0) == 1);
    } else {
        lemma_ctz_divides(i / 2);
        let c = ctz(i / 2);
        let q = (i / 2) / pow2(c);
        lemma_pow2_monotone(0, c);
        assert(i / 2 == q * pow2(c)) by {
            vstd::arithmetic::div_mod::lemma_fundamental_div_mod((i / 2) as int, pow2(c) as int);
            assert(pow2(c) * q == q * pow2(c)) by (nonlinear_arith);
        }
        assert(i == q * (2 * pow2(c))) by (nonlinear_arith)
            requires
                i == 2 * (i / 2),
                i / 2 == q * pow2(c),
        ;
        assert(pow2(ctz(i)) == 2 * pow2(c));
        lemma_multiple(q, 2 * pow2(c));
    }
}

/// A product `q * d` with `d > 0` leaves no remainder on division by `d`
/// and gives `q` back.
pub proof fn lemma_multiple(q: nat, d: nat)
    requires
        d > 0,
    ensures
        (q * d) % d == 0,
        (q * d) / d == q,
{
    vstd::arithmetic::div_mod::lemma_fundamental_div_mod_converse(
        (q * d) as int,
        d as int,
        q as int,
        0,
    );
    assert(d * q == q * d) by (nonlinear_arith);
}

/// An odd multiple of `2^e` has exactly `e` trailing zero bits.
pub proof fn lemma_ctz_of_odd_multiple(q: nat, e: nat)
    requires
        q % 2 == 1,
    ensures
        ctz(q * pow2(e)) == e,
    decreases e,
{
    if e == 0 {
        assert(q * pow2(0) == q) by (nonlinear_arith)
            requires
                pow2(0) == 1,
        ;
    } else {
        let half = pow2((e - 1) as nat);
        lemma_pow2_monotone(0, (e - 1) as nat);
        assert(q * pow2(e) == 2 * (q * half)) by (nonlinear_arith)
            requires
                pow2(e) == 2 * half,
        ;
        assert(q * half > 0) by (nonlinear_arith)
            requires
                q >= 1,
                half >= 1,
        ;
        lemma_ctz_of_odd_multiple(q, (e - 1) as nat);
    }
}

/// A 64-bit word that is not 0 has fewer than 64 trailing zero bits.
pub proof fn lemma_ctz_below_64(i: nat)
    requires
        1 <= i < 0x1_0000_0000_0000_0000,
    ensures
        ctz(i) < 64,
{
    lemma_ctz_divides(i);
    if ctz(i) >= 64 {
        lemma_pow2_monotone(64, ctz(i));
        lemma_pow2_64();
    }
}

/// Number of trailing zero bits of `i`, which must not be 0.
pub fn trailing_zeros(i: Index) -> (c: u8)
    requires
        i >= 1,
    ensures
        c == ctz(i as nat),
        c < 64,
{
    let mut c: u8 = 0;
    let mut rest: u64 = i;
    proof {
        lemma_ctz_below_64(i as nat);
    }
    while rest % 2 == 0
        invariant
            rest >= 1,
            c + ctz(rest as nat) == ctz(i as nat),
            ctz(i as nat) < 64,
        decreases rest,
    {
        rest = rest / 2;
        c = c + 1;
    }
    c
}

/// The interior nodes that the append of entry `i` introduces: one for each
/// trailing zero bit of `i`, from level 1 up. The left child of `(i, j)` is
/// `(i - 2^(j-1), j - 1)`, the right child `(i, j - 1)`.
pub open spec fn spec_inodes(i: nat) -> Seq<INode> {
    Seq::new(
        ctz(i),
        |t: int|
            INode {
                node: Address { i: i as Index, j: (t + 1) as u8 },
                left: Address { i: (i - pow2(t as nat)) as Index, j: t as u8 },
                right: Address { i: i as Index, j: t as u8 },
            },
    )
}

/// The interior nodes that the append of entry `i` introduces, in ascending
/// level; none for `i = 0`.
pub fn inodes_introduced(i: Index) -> (inodes: Vec<INode>)
    ensures
        inodes@ == spec_inodes(i as nat),
        inodes@.len() == ctz(i as nat),
{
    let mut inodes: Vec<INode> = Vec::new();
    if i == 0 {
        assert(inodes@ == spec_inodes(0));
        return inodes;
    }
    let c = trailing_zeros(i);
    let mut t: u8 = 0;
    let mut width: u64 = 1;
    proof {
        lemma_ctz_divides(i as nat);
    }
    while t < c
        invariant
            t <= c < 64,
            c == ctz(i as nat),
            width == pow2(t as nat),
            pow2(c as nat) <= i,
            inodes@.len() == t,
            forall|x: int| 0 <= x < t ==> inodes@[x] == spec_inodes(i as nat)[x],
        decreases c - t,
    {
        proof {
            lemma_pow2_strict(t as nat, c as nat);
        }
        inodes.push(
            INode {
                node: Address { i, j: t + 1 },
                left: Address { i: i - width, j: t },
                right: Address { i, j: t },
            },
        );
        width = width * 2;
        t = t + 1;
    }
    assert(inodes@ == spec_inodes(i as nat));
    inodes
}

/// `n` with its lowest set bit cleared.
pub open spec fn clear_lowest(n: nat) -> nat {
    (n - pow2(ctz(n))) as nat
}

/// The roots of the forest of `n` leaves, from left to right: one full
/// subtree for each set bit of `n`, from the most significant down. The
/// rightmost root is `(n, ctz(n))`; the others are the roots of the forest
/// of the leaves to its left.
pub open spec fn spec_forest_roots(n: nat) -> Seq<Address>
    decreases n,
{
    if n == 0 {
        Seq::empty()
    } else {
        if clear_lowest(n) < n {
            spec_forest_roots(clear_lowest(n)).push(Address { i: n as Index, j: ctz(n) as u8 })
        } else {
            Seq::empty()
        }
    }
}

/// The first leaf under the node `a`.
pub open spec fn first_under(a: Address) -> int {
    a.i - pow2(a.j as nat) + 1
}

/// Clearing the lowest set bit gives a smaller number, which is 0 or has
/// more trailing zero bits.
pub proof fn lemma_clear_lowest(n: nat)
    requires
        n >= 1,
    ensures
        clear_lowest(n) < n,
        clear_lowest(n) == 0 || ctz(clear_lowest(n)) > ctz(n),
        clear_lowest(n) % pow2(ctz(n) + 1) == 0,
        spec_forest_roots(n) == spec_forest_roots(clear_lowest(n)).push(
            Address { i: n as Index, j: ctz(n) as u8 },
        ),
{
    lemma_ctz_divides(n);
    let c = ctz(n);
    let d = pow2(c);
    let q = n / d;
    lemma_pow2_monotone(0, c);
    vstd::arithmetic::div_mod::lemma_fundamental_div_mod(n as int, d as int);
    assert(n == q * d) by (nonlinear_arith)
        requires
            n == d * q + 0,
    ;
    let r = (q - 1) as nat;
    assert(r % 2 == 0);
    let m = r / 2;
    assert(clear_lowest(n) == m * pow2(c + 1)) by (nonlinear_arith)
        requires
            n == q * d,
            q == 2 * m + 1,
            clear_lowest(n) == n - d,
            pow2(c + 1) == 2 * d,
    ;
    lemma_pow2_monotone(0, c + 1);
    lemma_multiple(m, pow2(c + 1));
    if clear_lowest(n) != 0 {
        let x = clear_lowest(n);
        lemma_ctz_divides(x);
        if ctz(x) <= c {
            // x is an odd multiple of 2^ctz(x), yet a multiple of 2^(c+1)
            let e = ctz(x);
            let o = x / pow2(e);
            lemma_pow2_monotone(0, e);
            vstd::arithmetic::div_mod::lemma_fundamental_div_mod(x as int, pow2(e) as int);
            lemma_pow2_adds(e, (c + 1 - e) as nat);
            let f = pow2((c + 1 - e) as nat);
            lemma_pow2_strict(0, (c + 1 - e) as nat);
            assert(f % 2 == 0);
            assert(x == (m * f) * pow2(e)) by (nonlinear_arith)
                requires
                    x == m * pow2(c + 1),
                    pow2(e) * f == pow2(c + 1),
            ;
            lemma_multiple(m * f, pow2(e));
            assert(o == m * f);
            let g = f / 2;
            assert(m * f == 2 * (m * g)) by (nonlinear_arith)
                requires
                    f == 2 * g,
            ;
        }
    }
}

/// The forest of `n` leaves has one root for each set bit of `n`.
pub proof fn lemma_forest_roots_len(n: nat)
    ensures
        spec_forest_roots(n).len() == popcount(n),
    decreases n,
{
    if n >= 1 {
        lemma_clear_lowest(n);
        lemma_forest_roots_len(clear_lowest(n));
        lemma_popcount_clear_lowest(n);
    }
}

/// Clearing the lowest set bit takes one from the number of set bits.
pub proof fn lemma_popcount_clear_lowest(n: nat)
    requires
        n >= 1,
    ensures
        popcount(n) == 1 + popcount(clear_lowest(n)),
    decreases n,
{
    if n % 2 == 1 {
        assert(pow2(0) == 1);
        assert(clear_lowest(n) == n - 1);
        assert((n - 1) / 2 == n / 2);
        if n - 1 > 0 {
            assert(popcount((n - 1) as nat) == popcount(((n - 1) / 2) as nat));
        } else {
            assert(popcount(0) == 0);
            assert(n / 2 == 0);
        }
    } else {
        lemma_popcount_clear_lowest(n / 2);
        let c = ctz(n / 2);
        assert(pow2(c + 1) == 2 * pow2(c));
        lemma_ctz_divides(n / 2);
        assert(clear_lowest(n) == 2 * clear_lowest(n / 2));
        let x = clear_lowest(n);
        if x > 0 {
            assert(popcount(x) == popcount(x / 2));
        } else {
            assert(clear_lowest(n / 2) == 0);
        }
    }
}

/// The roots of the forest of `n` leaves stand side by side: the first
/// covers leaf 1, each next one starts where the one before ended, and the
/// last ends at leaf `n`. Each root's level is the number of trailing zero
/// bits of its index, and the levels fall from left to right.
pub proof fn lemma_forest_roots_cover(n: nat)
    requires
        n < 0x1_0000_0000_0000_0000,
    ensures
        n >= 1 ==> spec_forest_roots(n).len() >= 1 && spec_forest_roots(n).last() == (Address {
            i: n as Index,
            j: ctz(n) as u8,
        }) && first_under(spec_forest_roots(n)[0]) == 1,
        forall|t: int|
            0 <= t < spec_forest_roots(n).len() ==> {
                let a = #[trigger] spec_forest_roots(n)[t];
                &&& 1 <= a.i <= n
                &&& a.j == ctz(a.i as nat)
                &&& a.j < 64
                &&& 1 <= first_under(a) <= a.i
            },
        forall|t: int|
            0 <= t < spec_forest_roots(n).len() - 1 ==> first_under(
                #[trigger] spec_forest_roots(n)[t + 1],
            ) == spec_forest_roots(n)[t].i + 1 && spec_forest_roots(n)[t + 1].j
                < spec_forest_roots(n)[t].j,
    decreases n,
{
    if n >= 1 {
        lemma_clear_lowest(n);
        let rest = clear_lowest(n);
        lemma_forest_roots_cover(rest);
        lemma_ctz_divides(n);
        lemma_ctz_below_64(n);
        let roots = spec_forest_roots(n);
        let before = spec_forest_roots(rest);
        let last = Address { i: n as Index, j: ctz(n) as u8 };
        assert(roots == before.push(last));
        assert(first_under(last) == rest + 1);
        assert forall|t: int| 0 <= t < roots.len() implies {
            let a = #[trigger] roots[t];
            &&& 1 <= a.i <= n
            &&& a.j == ctz(a.i as nat)
            &&& a.j < 64
            &&& 1 <= first_under(a) <= a.i
        } by {
            if t < before.len() {
                assert(roots[t] == before[t]);
            }
        }
        assert forall|t: int| 0 <= t < roots.len() - 1 implies first_under(#[trigger] roots[t + 1])
            == roots[t].i + 1 && roots[t + 1].j < roots[t].j by {
            if t + 1 < before.len() {
                assert(roots[t] == before[t]);
                assert(roots[t + 1] == before[t + 1]);
            } else {
                assert(roots[t] == before.last());
                assert(roots[t + 1] == last);
                lemma_ctz_below_64(rest);
            }
        }
        if rest >= 1 {
            assert(roots[0] == before[0]);
        }
    }
}

/// The roots of the forest of `n` leaves, from left to right.
pub fn forest_roots(n: Index) -> (roots: Vec<Address>)
    ensures
        roots@ == spec_forest_roots(n as nat),
        roots@.len() == popcount(n as nat),
        roots@.len() <= 64,
{
    let mut reversed: Vec<Address> = Vec::new();
    let mut m: u64 = n;
    let ghost mut tail: Seq<Address> = Seq::empty();
    while m > 0
        invariant
            m <= n,
            spec_forest_roots(n as nat) == spec_forest_roots(m as nat) + tail,
            reversed@.len() == tail.len(),
            forall|x: int| 0 <= x < tail.len() ==> reversed@[x] == tail[tail.len() - 1 - x],
        decreases m,
    {
        let c = trailing_zeros(m);
        proof {
            lemma_clear_lowest(m as nat);
            lemma_ctz_divides(m as nat);
            lemma_pow2_fits(c as nat);
        }
        let a = Address { i: m, j: c };
        let width = pow2e(c);
        reversed.push(a);
        proof {
            let rest = spec_forest_roots(clear_lowest(m as nat));
            assert(rest.push(a) + tail == rest + (seq![a] + tail));
            tail = seq![a] + tail;
        }
        m = m - width;
    }
    assert(spec_forest_roots(0) == Seq::<Address>::empty());
    assert(spec_forest_roots(n as nat) == tail);
    let mut roots: Vec<Address> = Vec::new();
    let mut x: usize = reversed.len();
    while x > 0
        invariant
            x <= reversed@.len(),
            reversed@.len() == tail.len(),
            roots@.len() == tail.len() - x,
            forall|y: int| 0 <= y < tail.len() ==> reversed@[y] == tail[tail.len() - 1 - y],
            forall|y: int| 0 <= y < roots@.len() ==> roots@[y] == tail[y],
        decreases x,
    {
        x = x - 1;
        roots.push(reversed[x]);
    }
    assert(roots@ == tail);
    proof {
        lemma_forest_roots_len(n as nat);
        lemma_pow2_64();
        lemma_popcount_bound(n as nat, 64);
    }
    roots
}

/// A number below `2^e` has at most `e` set bits.
pub proof fn lemma_popcount_bound(n: nat, e: nat)
    requires
        n < pow2(e),
    ensures
        popcount(n) <= e,
    decreases e,
{
    if n > 0 {
        if e == 0 {
            assert(pow2(0) == 1);
        } else {
            lemma_popcount_bound(n / 2, (e - 1) as nat);
        }
    }
}

/// Which of the roots of the forest of `n` leaves, counted from 0 at the
/// left, covers leaf `k`.
pub open spec fn spec_cover(k: nat, n: nat) -> nat
    decreases n,
{
    if n == 0 {
        0
    } else if clear_lowest(n) < k || clear_lowest(n) >= n {
        (spec_forest_roots(n).len() - 1) as nat
    } else {
        spec_cover(k, clear_lowest(n))
    }
}

/// The covering root of a leaf is the one root whose leaves include it.
pub proof fn lemma_cover(k: nat, n: nat)
    requires
        1 <= k <= n < 0x1_0000_0000_0000_0000,
    ensures
        spec_cover(k, n) < spec_forest_roots(n).len(),
        first_under(spec_forest_roots(n)[spec_cover(k, n) as int]) <= k <= spec_forest_roots(
            n,
        )[spec_cover(k, n) as int].i,
        forall|t: int|
            0 <= t < spec_forest_roots(n).len() && first_under(#[trigger] spec_forest_roots(n)[t])
                <= k <= spec_forest_roots(n)[t].i ==> t == spec_cover(k, n),
    decreases n,
{
    lemma_clear_lowest(n);
    lemma_forest_roots_cover(n);
    let rest = clear_lowest(n);
    let roots = spec_forest_roots(n);
    let before = spec_forest_roots(rest);
    lemma_forest_roots_cover(rest);
    if rest < k {
    } else {
        lemma_cover(k, rest);
        assert(roots[spec_cover(k, rest) as int] == before[spec_cover(k, rest) as int]);
    }
    assert forall|t: int|
        0 <= t < roots.len() && first_under(#[trigger] roots[t]) <= k <= roots[t].i implies t
        == spec_cover(k, n) by {
        if t < before.len() {
            assert(roots[t] == before[t]);
            assert(before[t].i <= rest);
        } else {
            assert(first_under(roots[t]) == rest + 1);
        }
    }
}

/// The siblings met on the way from leaf `k` up to the root `(i, j)` of a
/// full subtree that holds `k`, lowest first.
pub open spec fn spec_inner_path(k: nat, i: nat, j: nat) -> Seq<Step>
    decreases j,
{
    if j == 0 {
        Seq::empty()
    } else {
        let mid = (i - pow2((j - 1) as nat)) as nat;
        if k <= mid {
            spec_inner_path(k, mid, (j - 1) as nat).push(
                Step { node: Address { i: i as Index, j: (j - 1) as u8 }, side: Side::Right },
            )
        } else {
            spec_inner_path(k, i, (j - 1) as nat).push(
                Step { node: Address { i: mid as Index, j: (j - 1) as u8 }, side: Side::Left },
            )
        }
    }
}

/// The way up through a full subtree of level `j` has `j` steps.
pub proof fn lemma_inner_path_len(k: nat, i: nat, j: nat)
    ensures
        spec_inner_path(k, i, j).len() == j,
    decreases j,
{
    if j > 0 {
        let mid = (i - pow2((j - 1) as nat)) as nat;
        lemma_inner_path_len(k, mid, (j - 1) as nat);
        lemma_inner_path_len(k, i, (j - 1) as nat);
    }
}

/// The level of the node that joins the roots from number `t` on to the
/// right: the level of the last root itself, else one above root `t`.
pub open spec fn spec_fold_level(roots: Seq<Address>, t: int) -> u8 {
    if t + 1 >= roots.len() {
        roots[t].j
    } else {
        (roots[t].j + 1) as u8
    }
}

/// The name of the node that joins the roots from number `t` on.
pub open spec fn spec_fold_node(roots: Seq<Address>, t: int) -> Address {
    Address { i: roots.last().i, j: spec_fold_level(roots, t) }
}

/// The siblings met on the way from root number `t` of a forest up to the
/// root of the whole: the join of the roots to its right, if there are any,
/// then the roots to its left, nearest first.
pub open spec fn spec_spine(roots: Seq<Address>, t: int) -> Seq<Step> {
    let right = if t + 1 < roots.len() {
        seq![Step { node: spec_fold_node(roots, t + 1), side: Side::Right }]
    } else {
        Seq::empty()
    };
    right + Seq::new(t as nat, |x: int| Step { node: roots[t - 1 - x], side: Side::Left })
}

/// The authentication path of leaf `k` in the log of `n` entries: the
/// siblings to combine with, from the leaf up to the root.
pub open spec fn spec_auth_path(k: nat, n: nat) -> Seq<Step> {
    let roots = spec_forest_roots(n);
    let t = spec_cover(k, n) as int;
    spec_inner_path(k, roots[t].i as nat, roots[t].j as nat) + spec_spine(roots, t)
}

/// The number of nodes between leaf `k` and the root of the log of `n`
/// entries: the depth of `k` under its covering root, and the joins from
/// there up to the root.
pub open spec fn spec_access_distance(k: nat, n: nat) -> nat {
    let roots = spec_forest_roots(n);
    let t = spec_cover(k, n) as int;
    (roots[t].j + (if t + 1 < roots.len() {
        1int
    } else {
        0int
    }) + t) as nat
}

/// The access distance of a leaf is the length of its authentication path.
pub proof fn lemma_access_distance_is_path_length(k: nat, n: nat)
    requires
        1 <= k <= n < 0x1_0000_0000_0000_0000,
    ensures
        spec_access_distance(k, n) == spec_auth_path(k, n).len(),
        spec_access_distance(k, n) <= 64,
{
    lemma_cover(k, n);
    lemma_forest_roots_cover(n);
    let roots = spec_forest_roots(n);
    let t = spec_cover(k, n) as int;
    lemma_inner_path_len(k, roots[t].i as nat, roots[t].j as nat);
    lemma_levels_fall(n, t);
}

/// Root number `t` of a forest has a level of at most `63 - t`.
pub proof fn lemma_levels_fall(n: nat, t: int)
    requires
        n < 0x1_0000_0000_0000_0000,
        0 <= t < spec_forest_roots(n).len(),
    ensures
        spec_forest_roots(n)[t].j + t <= 63,
    decreases t,
{
    lemma_forest_roots_cover(n);
    let roots = spec_forest_roots(n);
    if t > 0 {
        lemma_levels_fall(n, t - 1);
        assert(roots[(t - 1) + 1].j < roots[t - 1].j);
    }
}

/// Which root of `roots` covers leaf `k`, where one does.
pub fn covering_root(roots: &Vec<Address>, k: Index, Ghost(n): Ghost<nat>) -> (t: usize)
    requires
        1 <= k <= n < 0x1_0000_0000_0000_0000,
        roots@ == spec_forest_roots(n),
    ensures
        t == spec_cover(k as nat, n),
        t < roots@.len(),
        first_under(roots@[t as int]) <= k <= roots@[t as int].i,
{
    proof {
        lemma_cover(k as nat, n);
        lemma_forest_roots_cover(n);
    }
    let m = roots.len();
    let mut t: usize = 0;
    while roots[t].i < k
        invariant
            m == roots@.len(),
            t < roots@.len(),
            t <= spec_cover(k as nat, n) < roots@.len(),
            roots@ == spec_forest_roots(n),
            forall|x: int| 0 <= x < t ==> (#[trigger] roots@[x]).i < k,
            t > 0 ==> first_under(roots@[t as int]) <= k,
            t == 0 ==> first_under(roots@[0]) <= k,
            forall|x: int|
                0 <= x < roots@.len() - 1 ==> first_under(#[trigger] roots@[x + 1]) == roots@[x].i
                    + 1,
            k <= roots@[spec_cover(k as nat, n) as int].i,
        decreases roots@.len() - t,
    {
        assert(t != spec_cover(k as nat, n));
        assert(first_under(roots@[t as int + 1]) == roots@[t as int].i + 1);
        t = t + 1;
    }
    t
}

/// The number of nodes between leaf `k` and the root of the log of `n`
/// entries; nothing where there is no leaf `k`.
pub fn access_distance(k: Index, n: Index) -> (d: Option<u8>)
    ensures
        match d {
            Some(d) => 1 <= k <= n && d == spec_access_distance(k as nat, n as nat) && d
                == spec_auth_path(k as nat, n as nat).len(),
            None => k == 0 || k > n,
        },
{
    if k == 0 || k > n {
        return None;
    }
    let roots = forest_roots(n);
    let t = covering_root(&roots, k, Ghost(n as nat));
    proof {
        lemma_access_distance_is_path_length(k as nat, n as nat);
        lemma_levels_fall(n as nat, t as int);
    }
    let joins: u8 = if t + 1 < roots.len() {
        1
    } else {
        0
    };
    Some(roots[t].j + joins + (t as u8))
}

/// A sequence from its last element to its first.
pub open spec fn reversed<A>(s: Seq<A>) -> Seq<A> {
    Seq::new(s.len(), |x: int| s[s.len() - 1 - x])
}

/// The authentication path of leaf `k` in the log of `n` entries, from the
/// leaf up; nothing where there is no leaf `k`.
pub fn auth_path(k: Index, n: Index) -> (path: Option<Vec<Step>>)
    ensures
        match path {
            Some(p) => 1 <= k <= n && p@ == spec_auth_path(k as nat, n as nat) && p@.len()
                == spec_access_distance(k as nat, n as nat),
            None => k == 0 || k > n,
        },
{
    if k == 0 || k > n {
        return None;
    }
    let roots = forest_roots(n);
    let t = covering_root(&roots, k, Ghost(n as nat));
    proof {
        lemma_forest_roots_cover(n as nat);
        lemma_access_distance_is_path_length(k as nat, n as nat);
    }
    let top = roots[t];
    let mut down: Vec<Step> = Vec::new();
    let mut i = top.i;
    let mut j = top.j;
    while j > 0
        invariant
            j <= top.j < 64,
            1 <= k,
            pow2(j as nat) <= i,
            i - pow2(j as nat) < k <= i,
            spec_inner_path(k as nat, top.i as nat, top.j as nat) == spec_inner_path(
                k as nat,
                i as nat,
                j as nat,
            ) + reversed(down@),
        decreases j,
    {
        proof {
            lemma_pow2_fits((j - 1) as nat);
        }
        let half = pow2e(j - 1);
        let mid = i - half;
        let ghost before = down@;
        let ghost rest = spec_inner_path(
            k as nat,
            (if k <= mid {
                mid
            } else {
                i
            }) as nat,
            (j - 1) as nat,
        );
        let step = if k <= mid {
            Step { node: Address { i, j: j - 1 }, side: Side::Right }
        } else {
            Step { node: Address { i: mid, j: j - 1 }, side: Side::Left }
        };
        down.push(step);
        proof {
            assert(spec_inner_path(k as nat, i as nat, j as nat) == rest.push(step));
            assert(rest.push(step) + reversed(before) == rest + reversed(down@));
        }
        if k <= mid {
            i = mid;
        }
        j = j - 1;
    }
    let mut path: Vec<Step> = Vec::new();
    let mut x: usize = down.len();
    while x > 0
        invariant
            x <= down@.len(),
            path@.len() == down@.len() - x,
            forall|y: int| 0 <= y < path@.len() ==> path@[y] == reversed(down@)[y],
        decreases x,
    {
        x = x - 1;
        path.push(down[x]);
    }
    assert(path@ == reversed(down@));
    assert(path@ == spec_inner_path(k as nat, top.i as nat, top.j as nat));
    let ghost inner = path@;
    if t + 1 < roots.len() {
        let level = if t + 2 >= roots.len() {
            roots[t + 1].j
        } else {
            roots[t + 1].j + 1
        };
        path.push(Step { node: Address { i: roots[roots.len() - 1].i, j: level }, side: Side::Right });
    }
    let ghost joined = path@;
    let ghost right = if t + 1 < roots@.len() {
        seq![Step { node: spec_fold_node(roots@, t + 1), side: Side::Right }]
    } else {
        Seq::empty()
    };
    assert(joined == inner + right);
    let mut s: usize = t;
    while s > 0
        invariant
            s <= t < roots@.len(),
            path@.len() == joined.len() + (t - s),
            forall|y: int| 0 <= y < joined.len() ==> path@[y] == joined[y],
            forall|z: int|
                joined.len() <= z < path@.len() ==> #[trigger] path@[z] == (Step {
                    node: roots@[t - 1 - (z - joined.len())],
                    side: Side::Left,
                }),
        decreases s,
    {
        s = s - 1;
        path.push(Step { node: roots[s], side: Side::Left });
    }
    proof {
        let lefts = Seq::new(
            t as nat,
            |x: int| Step { node: roots@[t - 1 - x], side: Side::Left },
        );
        assert(spec_spine(roots@, t as int) == right + lefts);
        assert(path@.len() == (inner + (right + lefts)).len());
        assert forall|z: int| 0 <= z < path@.len() implies path@[z] == (inner + (right
            + lefts))[z] by {
            if z < joined.len() {
                assert(path@[z] == joined[z]);
            } else {
                assert(path@[z] == lefts[z - joined.len()]);
            }
        }
        assert(path@ == inner + (right + lefts));
    }
    Some(path)
}

/// The roots that the append of entry `i` merges: the last `e` roots of
/// the forest of `i - 1` leaves, of the levels `e - 1` down to 0.
pub open spec fn spec_merged(i: nat, e: nat) -> Seq<Address> {
    Seq::new(
        e,
        |t: int| Address { i: (i - pow2((e - 1 - t) as nat)) as Index, j: (e - 1 - t) as u8 },
    )
}

/// Just before entry `i` is appended, the forest ends in one root for each
/// trailing zero bit of `i`, and these are the left children of the
/// interior nodes that the append introduces; the roots before them are
/// the roots that stay.
pub proof fn lemma_roots_before_append(i: nat, e: nat)
    requires
        i >= 1,
        e <= ctz(i),
    ensures
        pow2(e) <= i,
        spec_forest_roots((i - 1) as nat) == spec_forest_roots((i - pow2(e)) as nat) + spec_merged(
            i,
            e,
        ),
    decreases e,
{
    lemma_ctz_divides(i);
    lemma_pow2_monotone(e, ctz(i));
    if e == 0 {
        assert(pow2(0) == 1);
        assert(spec_merged(i, 0) == Seq::<Address>::empty());
        assert(spec_forest_roots((i - 1) as nat) + Seq::<Address>::empty()
            == spec_forest_roots((i - 1) as nat));
    } else {
        lemma_roots_before_append(i, (e - 1) as nat);
        let c = ctz(i);
        let half = pow2((e - 1) as nat);
        let x = (i - half) as nat;
        // i is a multiple of 2^e
        let odd = i / pow2(c);
        vstd::arithmetic::div_mod::lemma_fundamental_div_mod(i as int, pow2(c) as int);
        lemma_pow2_adds(e, (c - e) as nat);
        let f = pow2((c - e) as nat);
        lemma_pow2_monotone(0, (c - e) as nat);
        let q = odd * f;
        assert(i == q * (2 * half)) by (nonlinear_arith)
            requires
                i == pow2(c) * odd,
                pow2(e) * f == pow2(c),
                pow2(e) == 2 * half,
                q == odd * f,
        ;
        assert(q >= 1) by (nonlinear_arith)
            requires
                q == odd * f,
                odd >= 1,
                f >= 1,
        ;
        let o = (2 * q - 1) as nat;
        assert(x == o * half) by (nonlinear_arith)
            requires
                i == q * (2 * half),
                x == i - half,
                o == 2 * q - 1,
        ;
        lemma_ctz_of_odd_multiple(o, (e - 1) as nat);
        lemma_pow2_monotone(0, (e - 1) as nat);
        assert(x >= 1) by (nonlinear_arith)
            requires
                x == o * half,
                o >= 1,
                half >= 1,
        ;
        lemma_clear_lowest(x);
        let a = Address { i: x as Index, j: (e - 1) as u8 };
        let stay = spec_forest_roots((i - pow2(e)) as nat);
        assert(spec_forest_roots(x) == stay.push(a));
        assert(spec_merged(i, e) == seq![a] + spec_merged(i, (e - 1) as nat)) by {
            let l = spec_merged(i, e);
            let r = seq![a] + spec_merged(i, (e - 1) as nat);
            assert(l.len() == r.len());
            assert forall|t: int| 0 <= t < l.len() implies l[t] == r[t] by {
                if t > 0 {
                    assert(r[t] == spec_merged(i, (e - 1) as nat)[t - 1]);
                }
            }
        }
        assert(stay.push(a) + spec_merged(i, (e - 1) as nat) == stay + (seq![a] + spec_merged(
            i,
            (e - 1) as nat,
        )));
    }
}

/// The access distance of the leaves under root number `t` of the forest
/// of `n` leaves.
pub open spec fn spec_root_distance(n: nat, t: int) -> nat {
    let roots = spec_forest_roots(n);
    (roots[t].j + (if t + 1 < roots.len() {
        1int
    } else {
        0int
    }) + t) as nat
}

/// The leaves under one root all have the distance of that root, and the
/// distances do not grow from one root to the next.
pub proof fn lemma_root_distance(n: nat, t: int)
    requires
        n < 0x1_0000_0000_0000_0000,
        0 <= t < spec_forest_roots(n).len(),
    ensures
        forall|k: nat|
            first_under(spec_forest_roots(n)[t]) <= k <= spec_forest_roots(n)[t].i
                ==> #[trigger] spec_access_distance(k, n) == spec_root_distance(n, t),
        t + 1 < spec_forest_roots(n).len() ==> spec_root_distance(n, t + 1) <= spec_root_distance(
            n,
            t,
        ),
        spec_root_distance(n, t) <= spec_root_distance(n, 0) <= 64,
    decreases t,
{
    lemma_forest_roots_cover(n);
    let roots = spec_forest_roots(n);
    assert forall|k: nat| first_under(roots[t]) <= k <= roots[t].i implies #[trigger]
        spec_access_distance(k, n) == spec_root_distance(n, t) by {
        lemma_cover(k, n);
    }
    if t + 1 < roots.len() {
        assert(roots[t + 1].j < roots[t].j);
    }
    lemma_levels_fall(n, 0);
    if t > 0 {
        lemma_root_distance(n, t - 1);
        assert(roots[(t - 1) + 1].j < roots[t - 1].j);
    }
}

/// Whether index `k` lies in bucket number `d`.
pub open spec fn in_bucket(upper: Seq<Index>, lower: Seq<Index>, d: int, k: nat) -> bool {
    lower[d] <= k <= upper[d]
}

/// Whether the buckets hold, each for its distance, exactly the indices up
/// to `done` that have that distance in the log of `n` entries.
pub open spec fn buckets_hold(upper: Seq<Index>, lower: Seq<Index>, n: nat, done: nat) -> bool {
    &&& upper.len() == lower.len()
    &&& forall|d: int, k: nat|
        0 <= d < upper.len() ==> (#[trigger] in_bucket(upper, lower, d, k) <==> 1 <= k <= done
            && spec_access_distance(k, n) == d)
    &&& forall|k: nat| 1 <= k <= done ==> #[trigger] spec_access_distance(k, n) < upper.len()
}

/// The limits of the access distances in the log of `n` entries: for each
/// distance `d`, `lower[d]` is the least and `upper[d]` the greatest index
/// at that distance. The indices at one distance are the indices between
/// its limits; where no index has the distance, the lower limit is 1 and
/// the upper 0. Every index from 1 to `n` lies between the limits of
/// exactly one distance, its own.
pub fn access_distance_limits(n: Index) -> (r: (Vec<Index>, Vec<Index>))
    ensures
        buckets_hold(r.0@, r.1@, n as nat, n as nat),
        n == 0 ==> r.0@.len() == 0,
        n >= 1 ==> r.0@.len() == spec_root_distance(n as nat, 0) + 1,
{
    let mut upper: Vec<Index> = Vec::new();
    let mut lower: Vec<Index> = Vec::new();
    if n == 0 {
        return (upper, lower);
    }
    let roots = forest_roots(n);
    let m = roots.len();
    proof {
        lemma_forest_roots_cover(n as nat);
        lemma_root_distance(n as nat, 0);
    }
    let most: usize = (roots[0].j as usize) + (if m > 1 {
        1usize
    } else {
        0usize
    });
    let mut d: usize = 0;
    while d <= most
        invariant
            d <= most + 1,
            most <= 64,
            upper@.len() == d,
            lower@.len() == d,
            forall|x: int| 0 <= x < d ==> upper@[x] == 0 && lower@[x] == 1,
        decreases most + 1 - d,
    {
        upper.push(0);
        lower.push(1);
        d = d + 1;
    }
    let mut done: Index = 0;
    let mut t: usize = 0;
    let mut last: usize = most;
    while t < m
        invariant
            1 <= n,
            roots@ == spec_forest_roots(n as nat),
            m == roots@.len(),
            t <= m,
            upper@.len() == most + 1,
            lower@.len() == most + 1,
            most == spec_root_distance(n as nat, 0),
            most <= 64,
            t == 0 ==> done == 0 && last == most,
            t > 0 ==> done == roots@[t - 1].i && last == spec_root_distance(n as nat, t - 1)
                && upper@[last as int] == done,
            last <= most,
            forall|x: int| 0 <= x < last ==> upper@[x] == 0 && lower@[x] == 1,
            t == 0 ==> upper@[last as int] == 0 && lower@[last as int] == 1,
            forall|x: int| 0 <= x < upper@.len() ==> #[trigger] lower@[x] >= 1,
            buckets_hold(upper@, lower@, n as nat, done as nat),
        decreases m - t,
    {
        proof {
            lemma_forest_roots_cover(n as nat);
            lemma_root_distance(n as nat, t as int);
            lemma_levels_fall(n as nat, t as int);
            if t > 0 {
                lemma_root_distance(n as nat, t - 1);
                assert(first_under(roots@[(t - 1) + 1]) == roots@[t - 1].i + 1);
            }
        }
        let root = roots[t];
        let dist: usize = (root.j as usize) + (if t + 1 < m {
            1usize
        } else {
            0usize
        }) + t;
        let ghost before_upper = upper@;
        let ghost before_lower = lower@;
        let first = done + 1;
        let fresh = t == 0 || dist < last;
        if fresh {
            lower[dist] = first;
        }
        upper[dist] = root.i;
        proof {
            assert forall|d: int, k: nat| 0 <= d < upper@.len() implies (#[trigger] in_bucket(
                upper@,
                lower@,
                d,
                k,
            ) <==> 1 <= k <= root.i && spec_access_distance(k, n as nat) == d) by {
                assert(in_bucket(before_upper, before_lower, d, k) <==> 1 <= k <= done
                    && spec_access_distance(k, n as nat) == d);
                if first <= k <= root.i {
                    assert(spec_access_distance(k, n as nat) == dist);
                }
                if d != dist {
                    assert(upper@[d] == before_upper[d]);
                    assert(lower@[d] == before_lower[d]);
                } else if fresh {
                    assert(before_upper[d] == 0 && before_lower[d] == 1);
                    assert(upper@[d] == root.i && lower@[d] == first);
                } else {
                    assert(dist == last);
                    assert(first_under(roots@[t - 1]) <= done <= roots@[t - 1].i);
                    assert(spec_access_distance(done as nat, n as nat) == last);
                    assert(in_bucket(before_upper, before_lower, d, done as nat));
                    assert(upper@[d] == root.i && lower@[d] == before_lower[d]);
                    assert(before_upper[d] == done);
                }
            }
            assert forall|k: nat| 1 <= k <= root.i implies #[trigger] spec_access_distance(
                k,
                n as nat,
            ) < upper@.len() by {
                if first <= k {
                    assert(spec_access_distance(k, n as nat) == dist);
                }
            }
        }
        done = root.i;
        last = dist;
        t = t + 1;
    }
    (upper, lower)
}

} // verus!
