//! The making of a perfect binary hash tree in a storage: level by level
//! from the root down, each level after the one above it.

use crate::formula::{lemma_pow2_64, lemma_pow2_fits, lemma_pow2_monotone, pow2, pow2e};
use crate::hash::blake3_digest;
use crate::hashtree::binary::{
    expected_node, holds_tree, spec_meta_bytes, BinaryHashTree, BinaryHashTreeError, KindView,
    MetaInfo, Node, NodeView,
};
use crate::storage::{Error, Position, Storage};
use vstd::prelude::*;

verus! {

/// Whether a call of `values` on `k` may return `data`.
pub open spec fn yields<V: Fn(u64) -> Vec<u8>>(values: &V, k: u64, data: Seq<u8>) -> bool {
    exists|v: Vec<u8>| #[trigger] values.ensures((k,), v) && v@ == data
}

/// Whether each of `leaves` is what `values` returned for its number.
pub open spec fn made_by<V: Fn(u64) -> Vec<u8>>(values: &V, leaves: Seq<Seq<u8>>) -> bool {
    forall|i: int| 0 <= i < leaves.len() ==> yields(values, (i + 1) as u64, #[trigger] leaves[i])
}

/// Whether `records` hold the nodes of `level` and of all levels below it
/// of the tree over `leaves`, in the order of their serial numbers.
pub open spec fn level_laid(
    records: Map<Position, NodeView>,
    height: u8,
    level: u8,
    leaves: Seq<Seq<u8>>,
    pos: Seq<Position>,
) -> bool {
    &&& leaves.len() == pow2((height - 1) as nat)
    &&& pos.len() == pow2(height as nat)
    &&& forall|i: nat, j: nat|
        pow2(level as nat) <= i < j < pow2(height as nat) ==> #[trigger] pos[i as int]
            < #[trigger] pos[j as int]
    &&& forall|i: nat|
        pow2(level as nat) <= i < pow2(height as nat) ==> records.contains_key(
            #[trigger] pos[i as int],
        ) && records[pos[i as int]] == expected_node(leaves, height as nat, pos, i)
}

/// Whether `after` holds below `bound` exactly what `before` held there.
pub open spec fn same_below(
    before: Map<Position, NodeView>,
    after: Map<Position, NodeView>,
    bound: Position,
) -> bool {
    forall|p: Position|
        p < bound ==> (#[trigger] after.contains_key(p) == before.contains_key(p)) && (
        before.contains_key(p) ==> after[p] == before[p])
}

/// Whether `after` holds no record that `before` did not hold, but between
/// `from` and below `to`.
pub open spec fn added_within(
    before: Map<Position, NodeView>,
    after: Map<Position, NodeView>,
    from: Position,
    to: Position,
) -> bool {
    forall|p: Position| #[trigger] after.contains_key(p) ==> before.contains_key(p) || from <= p < to
}

/// Whether the nodes from `level` down stand one after the other from
/// `current` on, in the order of their serial numbers.
pub open spec fn in_sequence(pos: Seq<Position>, h: u8, level: u8, current: Position) -> bool {
    forall|i: int|
        pow2(level as nat) <= i < pow2(h as nat) ==> #[trigger] pos[i] == current + (i - pow2(
            level as nat,
        ))
}

/// Whether `records` hold `nodes` as one row of a tree: one after the other
/// at the positions `mine`, from `current` to below `cur`, numbered from the
/// power of `level` on, and at the leaf level with the payloads `data`.
pub open spec fn row_written(
    records: Map<Position, NodeView>,
    h: u8,
    level: u8,
    nodes: Seq<Node>,
    mine: Seq<Position>,
    data: Seq<Seq<u8>>,
    current: Position,
    cur: Position,
) -> bool {
    &&& nodes.len() == pow2(level as nat)
    &&& mine.len() == pow2(level as nat)
    &&& mine[0] == current
    &&& forall|o: int| 0 <= o < mine.len() ==> current <= #[trigger] mine[o] < cur
    &&& forall|a: int, b: int| 0 <= a < b < mine.len() ==> #[trigger] mine[a] < #[trigger] mine[b]
    &&& forall|o: int|
        0 <= o < mine.len() ==> records.contains_key(#[trigger] mine[o]) && records[mine[o]]
            == nodes[o]@
    &&& forall|o: int|
        0 <= o < mine.len() ==> (#[trigger] nodes[o])@.position == mine[o] && nodes[o]@.index
            == pow2(level as nat) + o
    &&& level + 1 == h ==> data.len() == pow2(level as nat) && forall|o: int|
        0 <= o < mine.len() ==> (#[trigger] nodes[o])@.kind == (KindView::Leaf { data: data[o] })
            && nodes[o]@.hash == blake3_digest(data[o])
}

/// Whether `records` hold the tree over `w.0` at the positions `w.1` and
/// each leaf is what `values` returned for its number.
pub open spec fn holds_values<V: Fn(u64) -> Vec<u8>>(
    records: Map<Position, NodeView>,
    origin: Position,
    height: u8,
    values: &V,
    w: (Seq<Seq<u8>>, Seq<Position>),
) -> bool {
    holds_tree(records, origin, height, w.0, w.1) && made_by(values, w.0)
}

/// Whether `records` hold a record at each of the places `mine`.
pub open spec fn all_held(records: Map<Position, NodeView>, mine: Seq<Position>) -> bool {
    forall|o: int| 0 <= o < mine.len() ==> records.contains_key(#[trigger] mine[o])
}

/// Whether the rows fit together: `mine` are the positions of the nodes of
/// `level`, all before `cur` and in ascending order, `below` gives the
/// positions of the nodes of the levels under it, none before `cur`, and
/// `pos` gives both.
pub open spec fn rows_fit(
    h: u8,
    level: u8,
    mine: Seq<Position>,
    below: Seq<Position>,
    pos: Seq<Position>,
    cur: Position,
) -> bool {
    let offset = pow2(level as nat) as int;
    &&& mine.len() == offset
    &&& pos.len() == pow2(h as nat)
    &&& below.len() == pow2(h as nat)
    &&& 2 * offset <= pow2(h as nat)
    &&& forall|i: int| 2 * offset <= i < pow2(h as nat) ==> #[trigger] pos[i] == below[i]
    &&& forall|i: int| offset <= i < 2 * offset ==> #[trigger] pos[i] == mine[i - offset]
    &&& forall|a: int| 0 <= a < offset ==> #[trigger] mine[a] < cur
    &&& forall|i: int| 2 * offset <= i < pow2(h as nat) ==> cur <= #[trigger] below[i]
    &&& forall|a: int, b: int| 0 <= a < b < offset ==> #[trigger] mine[a] < #[trigger] mine[b]
}

/// Whether each node of the row carries its position and its serial number.
pub open spec fn row_placed(nodes: Seq<Node>, mine: Seq<Position>, level: u8) -> bool {
    &&& nodes.len() == mine.len()
    &&& forall|a: int|
        0 <= a < mine.len() ==> (#[trigger] nodes[a])@.position == mine[a] && nodes[a]@.index
            == pow2(level as nat) + a
}

/// Whether the nodes of a row are the nodes that the tree has at `level`.
pub open spec fn row_expected(
    nodes: Seq<Node>,
    leaves: Seq<Seq<u8>>,
    h: u8,
    level: u8,
    pos: Seq<Position>,
) -> bool {
    &&& nodes.len() == pow2(level as nat)
    &&& forall|a: int|
        0 <= a < nodes.len() ==> (#[trigger] nodes[a])@ == expected_node(
            leaves,
            h as nat,
            pos,
            (pow2(level as nat) + a) as nat,
        )
}

/// Whether `records` hold the first `upto` nodes of `level` as the tree has
/// them.
pub open spec fn linked_upto(
    records: Map<Position, NodeView>,
    leaves: Seq<Seq<u8>>,
    h: u8,
    level: u8,
    pos: Seq<Position>,
    mine: Seq<Position>,
    upto: int,
) -> bool {
    forall|a: int|
        0 <= a < upto ==> records.contains_key(#[trigger] mine[a]) && records[mine[a]]
            == expected_node(leaves, h as nat, pos, (pow2(level as nat) + a) as nat)
}

/// The branch made of the two children that the row below has for node
/// number `o` of a row is the node that the tree has there.
pub proof fn lemma_linked_node(
    leaves: Seq<Seq<u8>>,
    h: u8,
    level: u8,
    mine: Seq<Position>,
    below: Seq<Position>,
    pos: Seq<Position>,
    cur: Position,
    o: int,
    left: NodeView,
    right: NodeView,
    held: NodeView,
)
    requires
        1 <= h <= 64,
        level + 1 < h,
        rows_fit(h, level, mine, below, pos, cur),
        0 <= o < pow2(level as nat),
        left == expected_node(leaves, h as nat, below, (2 * pow2(level as nat) + 2 * o) as nat),
        right == expected_node(leaves, h as nat, below, (2 * pow2(level as nat) + 2 * o + 1) as nat),
        held.position == mine[o],
        held.index == pow2(level as nat) + o,
    ensures
        (NodeView {
            position: held.position,
            index: held.index,
            hash: crate::hash::spec_combine(left.hash, right.hash),
            kind: KindView::Branch { left: left.position, right: right.position },
        }) == expected_node(leaves, h as nat, pos, (pow2(level as nat) + o) as nat),
        mine[0] <= mine[o],
{
    let offset = pow2(level as nat) as int;
    let i = (offset + o) as nat;
    lemma_pow2_fits(level as nat);
    lemma_pow2_64();
    lemma_pow2_monotone((level + 1) as nat, (h - 1) as nat);
    lemma_pow2_monotone(h as nat, 64);
    assert(pow2((level + 1) as nat) == 2 * pow2(level as nat));
    assert(pow2(h as nat) == 2 * pow2((h - 1) as nat));
    assert(i < pow2((h - 1) as nat));
    assert(pos[i as int] == mine[o]);
    assert(pos[(2 * i) as int] == below[(2 * i) as int]);
    assert(pos[(2 * i + 1) as int] == below[(2 * i + 1) as int]);
    assert(crate::hashtree::binary::tree_hash(leaves, h as nat, i) == crate::hash::spec_combine(
        crate::hashtree::binary::tree_hash(leaves, h as nat, 2 * i),
        crate::hashtree::binary::tree_hash(leaves, h as nat, 2 * i + 1),
    ));
    if o > 0 {
        assert(mine[0] < mine[o]);
    }
}

/// Storing node number `o` of a row in its place leaves the rows below
/// and the nodes of the row before it as they were, and nothing before the
/// row is touched.
#[verifier::rlimit(40)]
pub proof fn lemma_link_step(
    before: Map<Position, NodeView>,
    after: Map<Position, NodeView>,
    first: Map<Position, NodeView>,
    leaves: Seq<Seq<u8>>,
    h: u8,
    level: u8,
    mine: Seq<Position>,
    below: Seq<Position>,
    pos: Seq<Position>,
    cur: Position,
    o: int,
    node: NodeView,
)
    requires
        1 <= h <= 64,
        level + 1 < h,
        rows_fit(h, level, mine, below, pos, cur),
        0 <= o < pow2(level as nat),
        level_laid(before, h, (level + 1) as u8, leaves, below),
        linked_upto(before, leaves, h, level, pos, mine, o),
        same_below(first, before, mine[0]),
        node == expected_node(leaves, h as nat, pos, (pow2(level as nat) + o) as nat),
        after == before.insert(mine[o], node),
    ensures
        level_laid(after, h, (level + 1) as u8, leaves, below),
        linked_upto(after, leaves, h, level, pos, mine, o + 1),
        same_below(first, after, mine[0]),
{
    let offset = pow2(level as nat) as int;
    assert(pow2((level + 1) as nat) == 2 * pow2(level as nat));
    assert forall|i: nat|
        pow2((level + 1) as nat) <= i < pow2(h as nat) implies after.contains_key(
        #[trigger] below[i as int],
    ) && after[below[i as int]] == expected_node(leaves, h as nat, below, i) by {
        assert(before.contains_key(below[i as int]));
        assert(cur <= below[i as int]);
        assert(mine[o] < cur);
    }
    assert forall|a: int| 0 <= a < o + 1 implies after.contains_key(#[trigger] mine[a])
        && after[mine[a]] == expected_node(leaves, h as nat, pos, (pow2(level as nat) + a) as nat) by {
        if a < o {
            assert(mine[a] < mine[o]);
            assert(before.contains_key(mine[a]));
        }
    }
    if o > 0 {
        assert(mine[0] < mine[o]);
    }
    assert forall|p: Position| p < mine[0] implies (#[trigger] after.contains_key(p)
        == first.contains_key(p)) && (first.contains_key(p) ==> after[p] == first[p]) by {
        assert(before.contains_key(p) == first.contains_key(p));
    }
}

/// The positions of the tree's nodes by serial number where the lowest
/// row is the only one so far.
pub open spec fn bottom_pos(h: u8, level: u8, mine: Seq<Position>) -> Seq<Position> {
    Seq::new(
        pow2(h as nat),
        |i: int|
            if i >= pow2(level as nat) {
                mine[i - pow2(level as nat)]
            } else {
                0
            },
    )
}

/// The positions of the tree's nodes by serial number from a row on: the
/// row's own, then those of the rows below.
pub open spec fn joined_pos(h: u8, level: u8, mine: Seq<Position>, below: Seq<Position>) -> Seq<
    Position,
> {
    Seq::new(
        pow2(h as nat),
        |i: int|
            if i >= 2 * pow2(level as nat) {
                below[i]
            } else if i >= pow2(level as nat) {
                mine[i - pow2(level as nat)]
            } else {
                0
            },
    )
}

/// The lowest row, once written, is the lowest level of the tree.
pub proof fn lemma_bottom_row(
    records: Map<Position, NodeView>,
    h: u8,
    level: u8,
    nodes: Seq<Node>,
    mine: Seq<Position>,
    data: Seq<Seq<u8>>,
    current: Position,
    cur: Position,
)
    requires
        1 <= h <= 64,
        level + 1 == h,
        row_written(records, h, level, nodes, mine, data, current, cur),
    ensures
        level_laid(records, h, level, data, bottom_pos(h, level, mine)),
        row_expected(nodes, data, h, level, bottom_pos(h, level, mine)),
        bottom_pos(h, level, mine)[pow2(level as nat) as int] == current,
        forall|i: int|
            pow2(level as nat) <= i < pow2(h as nat) ==> current <= #[trigger] bottom_pos(
                h,
                level,
                mine,
            )[i],
{
    let offset = pow2(level as nat) as int;
    let pos = bottom_pos(h, level, mine);
    lemma_pow2_fits(level as nat);
    assert(pow2(h as nat) == 2 * pow2(level as nat));
    assert forall|a: int| 0 <= a < nodes.len() implies (#[trigger] nodes[a])@ == expected_node(
        data,
        h as nat,
        pos,
        (pow2(level as nat) + a) as nat,
    ) by {
        assert(pos[offset + a] == mine[a]);
        assert(records.contains_key(mine[a]));
    }
    assert forall|i: nat| pow2(level as nat) <= i < pow2(h as nat) implies records.contains_key(
        #[trigger] pos[i as int],
    ) && records[pos[i as int]] == expected_node(data, h as nat, pos, i) by {
        let o = i - offset;
        assert(pos[i as int] == mine[o]);
        assert(records.contains_key(mine[o]));
        assert(records[mine[o]] == nodes[o]@);
    }
    assert forall|i: nat, j: nat|
        pow2(level as nat) <= i < j < pow2(h as nat) implies #[trigger] pos[i as int]
        < #[trigger] pos[j as int] by {
        assert(mine[i - offset] < mine[j - offset]);
    }
    assert forall|i: int| pow2(level as nat) <= i < pow2(h as nat) implies current <= #[trigger] pos[i] by {
        assert(current <= mine[i - offset]);
    }
}

/// A written row and the rows laid below it fit together.
pub proof fn lemma_rows_fit(
    records: Map<Position, NodeView>,
    h: u8,
    level: u8,
    nodes: Seq<Node>,
    mine: Seq<Position>,
    data: Seq<Seq<u8>>,
    below: Seq<Position>,
    current: Position,
    cur: Position,
)
    requires
        1 <= h <= 64,
        level + 1 < h,
        row_written(records, h, level, nodes, mine, data, current, cur),
        below.len() == pow2(h as nat),
        forall|i: int| pow2((level + 1) as nat) <= i < pow2(h as nat) ==> cur <= #[trigger] below[i],
    ensures
        rows_fit(h, level, mine, below, joined_pos(h, level, mine, below), cur),
        row_placed(nodes, mine, level),
        mine.len() > 0,
        mine[0] == current,
{
    lemma_pow2_fits(level as nat);
    lemma_pow2_monotone((level + 1) as nat, h as nat);
    assert(pow2((level + 1) as nat) == 2 * pow2(level as nat));
    assert forall|a: int| 0 <= a < mine.len() implies #[trigger] mine[a] < cur by {}
}

/// Rows laid below a row and the linked row itself are the tree from the
/// row's level down.
pub proof fn lemma_rows_join(
    records: Map<Position, NodeView>,
    h: u8,
    level: u8,
    leaves: Seq<Seq<u8>>,
    mine: Seq<Position>,
    below: Seq<Position>,
    current: Position,
    cur: Position,
)
    requires
        1 <= h <= 64,
        level + 1 < h,
        rows_fit(h, level, mine, below, joined_pos(h, level, mine, below), cur),
        level_laid(records, h, (level + 1) as u8, leaves, below),
        linked_upto(
            records,
            leaves,
            h,
            level,
            joined_pos(h, level, mine, below),
            mine,
            mine.len() as int,
        ),
        mine.len() > 0,
        mine[0] == current,
        current <= cur,
    ensures
        level_laid(records, h, level, leaves, joined_pos(h, level, mine, below)),
        joined_pos(h, level, mine, below)[pow2(level as nat) as int] == current,
        forall|i: int|
            pow2(level as nat) <= i < pow2(h as nat) ==> current <= #[trigger] joined_pos(
                h,
                level,
                mine,
                below,
            )[i],
{
    let offset = pow2(level as nat) as int;
    let pos = joined_pos(h, level, mine, below);
    lemma_pow2_fits(level as nat);
    lemma_pow2_monotone((level + 1) as nat, h as nat);
    assert(pow2((level + 1) as nat) == 2 * pow2(level as nat));
    assert forall|i: nat| pow2(level as nat) <= i < pow2(h as nat) implies records.contains_key(
        #[trigger] pos[i as int],
    ) && records[pos[i as int]] == expected_node(leaves, h as nat, pos, i) by {
        if i >= 2 * offset {
            assert(records.contains_key(below[i as int]));
            assert(pos[i as int] == below[i as int]);
            if i < pow2((h - 1) as nat) {
                assert(pow2(h as nat) == 2 * pow2((h - 1) as nat));
                assert(pos[(2 * i) as int] == below[(2 * i) as int]);
                assert(pos[(2 * i + 1) as int] == below[(2 * i + 1) as int]);
            }
            assert(expected_node(leaves, h as nat, below, i) == expected_node(
                leaves,
                h as nat,
                pos,
                i,
            ));
        } else {
            assert(pos[i as int] == mine[i - offset]);
            assert(records.contains_key(mine[i - offset]));
        }
    }
    assert forall|i: nat, j: nat|
        pow2(level as nat) <= i < j < pow2(h as nat) implies #[trigger] pos[i as int]
        < #[trigger] pos[j as int] by {
        if i >= 2 * offset {
            assert(below[i as int] < below[j as int]);
        } else if j >= 2 * offset {
            assert(pos[i as int] == mine[i - offset]);
            assert(mine[i - offset] < cur);
            assert(cur <= below[j as int]);
        } else {
            assert(mine[i - offset] < mine[j - offset]);
        }
    }
    assert forall|i: int| pow2(level as nat) <= i < pow2(h as nat) implies current <= #[trigger] pos[i] by {
        if i >= 2 * offset {
            assert(cur <= below[i]);
        } else {
            if i > offset {
                assert(mine[0] < mine[i - offset]);
            }
        }
    }
}

/// What three steps in a row leave untouched below their bounds is
/// untouched below the lowest bound.
pub proof fn lemma_same_below_chain(
    a: Map<Position, NodeView>,
    b: Map<Position, NodeView>,
    c: Map<Position, NodeView>,
    d: Map<Position, NodeView>,
    current: Position,
    cur: Position,
    first: Position,
)
    requires
        same_below(a, b, current),
        same_below(b, c, cur),
        same_below(c, d, first),
        current <= cur,
        current <= first,
    ensures
        same_below(a, d, current),
{
    assert forall|p: Position| p < current implies (#[trigger] d.contains_key(p) == a.contains_key(
        p,
    )) && (a.contains_key(p) ==> d[p] == a[p]) by {
        assert(c.contains_key(p) == b.contains_key(p));
        assert(b.contains_key(p) == a.contains_key(p));
    }
}

/// Whether `records` hold the tree over `w.0` with leaves from `values`,
/// one record after the other: node `i` stands `i` places after `origin`.
pub open spec fn sequenced_values<V: Fn(u64) -> Vec<u8>>(
    records: Map<Position, NodeView>,
    origin: Position,
    height: u8,
    values: &V,
    w: (Seq<Seq<u8>>, Seq<Position>),
) -> bool {
    holds_values(records, origin, height, values, w) && in_sequence(
        w.1,
        height,
        0,
        (origin + 1) as Position,
    )
}

/// Whether `records` hold a tree with leaves from `values` one record
/// after the other from `origin` on: the metadata at `origin`, which names
/// the root at `origin + 1`, then node `i` at `origin + i`; and besides
/// these records only what `before` held.
pub open spec fn laid_in_sequence<V: Fn(u64) -> Vec<u8>>(
    before: Map<Position, NodeView>,
    records: Map<Position, NodeView>,
    origin: Position,
    height: u8,
    values: &V,
) -> bool {
    &&& exists|w: (Seq<Seq<u8>>, Seq<Position>)|
        sequenced_values(records, origin, height, values, w)
    &&& added_within(before, records, origin, (origin + pow2(height as nat)) as Position)
}

/// One place after the other from `origin` on, as many as a tree of height
/// `h` has nodes and one for its metadata.
pub open spec fn places(origin: Position, h: u8) -> Seq<Position> {
    Seq::new(pow2(h as nat), |i: int| (origin + i) as Position)
}

/// Whether two rows of places name the same place for every node.
pub open spec fn same_places(pos: Seq<Position>, there: Seq<Position>) -> bool {
    &&& pos.len() == there.len()
    &&& forall|x: int| 1 <= x < pos.len() ==> #[trigger] pos[x] == there[x]
}

/// The nodes of a tree are the same under two rows of places that name the
/// same place for every node.
pub proof fn lemma_expected_same(
    leaves: Seq<Seq<u8>>,
    h: nat,
    pos: Seq<Position>,
    there: Seq<Position>,
    i: nat,
)
    requires
        1 <= h,
        1 <= i < pow2(h),
        pos.len() == pow2(h),
        same_places(pos, there),
    ensures
        expected_node(leaves, h, pos, i) == expected_node(leaves, h, there, i),
        pos[i as int] == there[i as int],
{
    assert(pow2(h) == 2 * pow2((h - 1) as nat)) by {
        reveal_with_fuel(pow2, 1);
    }
    assert(pos[i as int] == there[i as int]);
    if i < pow2((h - 1) as nat) {
        assert(pos[(2 * i) as int] == there[(2 * i) as int]);
        assert(pos[(2 * i + 1) as int] == there[(2 * i + 1) as int]);
    }
}

/// A tree stands under every row of places that names the same place for
/// each of its nodes.
pub proof fn lemma_same_places(
    records: Map<Position, NodeView>,
    origin: Position,
    h: u8,
    leaves: Seq<Seq<u8>>,
    pos: Seq<Position>,
    there: Seq<Position>,
)
    requires
        holds_tree(records, origin, h, leaves, pos),
        same_places(pos, there),
    ensures
        holds_tree(records, origin, h, leaves, there),
{
    lemma_pow2_monotone(1, h as nat);
    assert(pow2(1) == 2) by {
        reveal_with_fuel(pow2, 2);
    }
    lemma_expected_same(leaves, h as nat, pos, there, 1);
    assert forall|i: nat| 1 <= i < pow2(h as nat) implies records.contains_key(
        #[trigger] there[i as int],
    ) && records[there[i as int]] == expected_node(leaves, h as nat, there, i) by {
        lemma_expected_same(leaves, h as nat, pos, there, i);
        assert(records.contains_key(pos[i as int]));
    }
    assert forall|i: nat, j: nat| 1 <= i < j < pow2(h as nat) implies #[trigger] there[i as int]
        < #[trigger] there[j as int] by {
        lemma_expected_same(leaves, h as nat, pos, there, i);
        lemma_expected_same(leaves, h as nat, pos, there, j);
        assert(pos[i as int] < pos[j as int]);
    }
}

/// Nodes that stand in sequence after `origin` stand at the places from
/// `origin` on.
pub proof fn lemma_sequence_is_places(pos: Seq<Position>, origin: Position, h: u8)
    requires
        pos.len() == pow2(h as nat),
        in_sequence(pos, h, 0, (origin + 1) as Position),
        origin < Position::MAX,
    ensures
        same_places(pos, places(origin, h)),
{
    let there = places(origin, h);
    assert(pow2(0) == 1) by {
        reveal_with_fuel(pow2, 1);
    }
    assert forall|x: int| 1 <= x < pos.len() implies #[trigger] pos[x] == there[x] by {
        assert(pos[x] == (origin + 1) + (x - 1));
    }
}

/// A tree at the places from `origin` on holds a record at each of them.
pub proof fn lemma_place_held(
    records: Map<Position, NodeView>,
    origin: Position,
    h: u8,
    leaves: Seq<Seq<u8>>,
    there: Seq<Position>,
    p: Position,
)
    requires
        holds_tree(records, origin, h, leaves, there),
        origin <= p < origin + pow2(h as nat),
        p > origin ==> there[p - origin] == p,
    ensures
        records.contains_key(p),
{
    if p > origin {
        let i = (p - origin) as nat;
        assert(records.contains_key(there[i as int]));
    }
}

/// A tree whose nodes stand in sequence stands at the places from its
/// origin on, and holds a record at each of them.
pub proof fn lemma_sequenced_places(
    records: Map<Position, NodeView>,
    origin: Position,
    h: u8,
    leaves: Seq<Seq<u8>>,
    pos: Seq<Position>,
)
    requires
        holds_tree(records, origin, h, leaves, pos),
        in_sequence(pos, h, 0, (origin + 1) as Position),
        origin < Position::MAX,
    ensures
        holds_tree(records, origin, h, leaves, places(origin, h)),
        forall|p: Position| origin <= p < origin + pow2(h as nat) ==> records.contains_key(p),
{
    let there = places(origin, h);
    lemma_sequence_is_places(pos, origin, h);
    lemma_same_places(records, origin, h, leaves, pos, there);
    assert forall|p: Position| origin <= p < origin + pow2(h as nat) implies records.contains_key(
        p,
    ) by {
        lemma_place_held(records, origin, h, leaves, there, p);
    }
}

/// What two steps add one after the other lies within what both span.
pub proof fn lemma_added_chain(
    a: Map<Position, NodeView>,
    b: Map<Position, NodeView>,
    c: Map<Position, NodeView>,
    from: Position,
    mid: Position,
    to: Position,
    second_from: Position,
    second_to: Position,
)
    requires
        added_within(a, b, from, mid),
        added_within(b, c, second_from, second_to),
        from <= second_from,
        mid <= to,
        second_to <= to,
    ensures
        added_within(a, c, from, to),
{
    assert forall|p: Position| #[trigger] c.contains_key(p) implies a.contains_key(p) || from <= p
        < to by {
        if !b.contains_key(p) {
        }
    }
}

/// A row that stands one after the other from `current` on, above rows
/// that stand one after the other from the end of the row on, makes rows
/// that stand one after the other from `current` on.
pub proof fn lemma_joined_in_sequence(
    h: u8,
    level: u8,
    mine: Seq<Position>,
    below: Seq<Position>,
    current: Position,
    cur: Position,
)
    requires
        1 <= h <= 64,
        level + 1 < h,
        mine.len() == pow2(level as nat),
        below.len() == pow2(h as nat),
        cur == current + pow2(level as nat),
        forall|o: int| 0 <= o < mine.len() ==> #[trigger] mine[o] == current + o,
        in_sequence(below, h, (level + 1) as u8, cur),
    ensures
        in_sequence(joined_pos(h, level, mine, below), h, level, current),
{
    let pos = joined_pos(h, level, mine, below);
    assert(pow2((level + 1) as nat) == 2 * pow2(level as nat)) by {
        reveal_with_fuel(pow2, 2);
    }
    assert forall|i: int| pow2(level as nat) <= i < pow2(h as nat) implies #[trigger] pos[i]
        == current + (i - pow2(level as nat)) by {
        if i >= 2 * pow2(level as nat) {
            assert(pos[i] == below[i]);
        } else {
            assert(pos[i] == mine[i - pow2(level as nat)]);
        }
    }
}

impl<S: Storage<Node>> BinaryHashTree<S> {
    /// Writes the nodes of `level` one after the other from `current` on:
    /// leaves with the payloads that `values` gives, branches with no
    /// children yet. Returns the nodes and the position after the last.
    fn write_level<V: Fn(u64) -> Vec<u8>>(
        storage: &mut S,
        current: Position,
        h: u8,
        level: u8,
        values: &V,
    ) -> (r: Result<(Vec<Node>, Position, Ghost<Seq<Position>>, Ghost<Seq<Seq<u8>>>), Error>)
        requires
            1 <= h <= 64,
            level < h,
            old(storage).inv(),
            current == old(storage).end(),
            forall|k: u64| #[trigger] values.requires((k,)),
        ensures
            final(storage).inv(),
            final(storage).origin() == old(storage).origin(),
            final(storage).reliable() == old(storage).reliable(),
            final(storage).sequential() == old(storage).sequential(),
            same_below(old(storage).records(), final(storage).records(), current),
            final(storage).end() >= old(storage).end(),
            added_within(
                old(storage).records(),
                final(storage).records(),
                current,
                final(storage).end(),
            ),
            old(storage).sequential() && current >= old(storage).end() && current + pow2(
                level as nat,
            ) < Position::MAX ==> r is Ok,
            r matches Ok((nodes, cur, mine, data)) ==> final(storage).end() == cur,
            r matches Ok((nodes, cur, mine, data)) ==> (old(storage).sequential() && current
                >= old(storage).end() ==> forall|o: int|
                0 <= o < mine@.len() ==> #[trigger] mine@[o] == current + o),
            r matches Ok((nodes, cur, mine, data)) ==> {
                &&& row_written(
                    final(storage).records(),
                    h,
                    level,
                    nodes@,
                    mine@,
                    data@,
                    current,
                    cur,
                )
                &&& level + 1 == h ==> forall|o: int|
                    0 <= o < data@.len() ==> yields(values, (o + 1) as u64, #[trigger] data@[o])
                &&& old(storage).sequential() && current >= old(storage).end() ==> cur == current
                    + pow2(level as nat) && final(storage).end() <= cur
            },
    {
        proof {
            lemma_pow2_fits(level as nat);
        }
        let offset = pow2e(level);
        let bottom = level + 1 == h;
        let ghost sequential = storage.sequential() && current >= storage.end();
        let mut nodes: Vec<Node> = Vec::new();
        let ghost mut mine: Seq<Position> = Seq::empty();
        let ghost mut data: Seq<Seq<u8>> = Seq::empty();
        let mut cur = current;
        let mut k: u64 = 0;
        while k < offset
            invariant
                storage.inv(),
                bottom == (level + 1 == h),
                offset == pow2(level as nat),
                offset <= 0x8000_0000_0000_0000,
                forall|k: u64| #[trigger] values.requires((k,)),
                k <= offset,
                nodes@.len() == k,
                mine.len() == k,
                bottom ==> data.len() == k,
                current <= cur,
                k == 0 ==> cur == current,
                k > 0 ==> mine[0] == current,
                forall|o: int| 0 <= o < k ==> current <= #[trigger] mine[o] < cur,
                forall|a: int, b: int| 0 <= a < b < k ==> #[trigger] mine[a] < #[trigger] mine[b],
                forall|o: int|
                    0 <= o < k ==> storage.records().contains_key(#[trigger] mine[o])
                        && storage.records()[mine[o]] == nodes@[o]@,
                forall|o: int|
                    0 <= o < k ==> (#[trigger] nodes@[o])@.position == mine[o] && nodes@[o]@.index
                        == offset + o,
                bottom ==> forall|o: int|
                    0 <= o < k ==> (#[trigger] nodes@[o])@.kind == (KindView::Leaf {
                        data: data[o],
                    }) && nodes@[o]@.hash == blake3_digest(data[o]),
                bottom ==> forall|o: int|
                    0 <= o < k ==> yields(values, (o + 1) as u64, #[trigger] data[o]),
                same_below(old(storage).records(), storage.records(), current),
                storage.origin() == old(storage).origin(),
                storage.reliable() == old(storage).reliable(),
                storage.sequential() == old(storage).sequential(),
                sequential == (old(storage).sequential() && current >= old(storage).end()),
                sequential ==> cur == current + k && storage.end() <= cur,
                storage.end() == cur,
                sequential ==> forall|o: int| 0 <= o < k ==> #[trigger] mine[o] == current + o,
                storage.end() >= old(storage).end(),
                added_within(old(storage).records(), storage.records(), current, storage.end()),
            decreases offset - k,
        {
            let index = offset + k;
            let ghost before = storage.records();
            let ghost held = nodes@;
            let node = if bottom {
                let value = values(k + 1);
                proof {
                    data = data.push(value@);
                    assert(yields(values, (k + 1) as u64, value@));
                }
                Node::new_leaf(cur, index, value)
            } else {
                let empty: Vec<u8> = Vec::new();
                Node::new_internal(
                    cur,
                    index,
                    crate::hash::Hash::from_bytes(empty.as_slice()),
                    u64::MAX,
                    u64::MAX,
                )
            };
            let next = match storage.put(cur, &node) {
                Ok(next) => next,
                Err(e) => {
                    return Err(e);
                },
            };
            nodes.push(node);
            proof {
                mine = mine.push(cur);
                assert forall|o: int| 0 <= o < k + 1 implies storage.records().contains_key(
                    #[trigger] mine[o],
                ) && storage.records()[mine[o]] == nodes@[o]@ by {
                    if o < k {
                        assert(before.contains_key(mine[o]));
                        assert(nodes@[o] == held[o]);
                    }
                }
                assert forall|o: int| 0 <= o < k + 1 implies (#[trigger] nodes@[o])@.position
                    == mine[o] && nodes@[o]@.index == offset + o by {
                    if o < k {
                        assert(nodes@[o] == held[o]);
                    }
                }
                if bottom {
                    assert forall|o: int| 0 <= o < k + 1 implies (#[trigger] nodes@[o])@.kind == (
                    KindView::Leaf { data: data[o] }) && nodes@[o]@.hash == blake3_digest(
                        data[o],
                    ) by {
                        if o < k {
                            assert(nodes@[o] == held[o]);
                        }
                    }
                }
                assert forall|p: Position| p < current implies (#[trigger] storage.records().contains_key(
                    p,
                ) == old(storage).records().contains_key(p)) && (old(
                    storage,
                ).records().contains_key(p) ==> storage.records()[p] == old(
                    storage,
                ).records()[p]) by {
                    assert(before.contains_key(p) == old(storage).records().contains_key(p));
                }
            }
            cur = next;
            k += 1;
        }
        Ok((nodes, cur, Ghost(mine), Ghost(data)))
    }

    /// Gives each branch of `nodes` the hash and the positions of its two
    /// children in `subnodes`, and stores it again in its place.
    #[verifier::rlimit(100)]
    fn link_level(
        storage: &mut S,
        nodes: &mut Vec<Node>,
        subnodes: &Vec<Node>,
        h: u8,
        level: u8,
        Ghost(leaves): Ghost<Seq<Seq<u8>>>,
        Ghost(mine): Ghost<Seq<Position>>,
        Ghost(below): Ghost<Seq<Position>>,
        Ghost(pos): Ghost<Seq<Position>>,
        Ghost(cur): Ghost<Position>,
    ) -> (r: Result<(), Error>)
        requires
            1 <= h <= 64,
            level + 1 < h,
            old(storage).inv(),
            old(nodes)@.len() == pow2(level as nat),
            subnodes@.len() == 2 * pow2(level as nat),
            rows_fit(h, level, mine, below, pos, cur),
            row_placed(old(nodes)@, mine, level),
            level_laid(old(storage).records(), h, (level + 1) as u8, leaves, below),
            row_expected(subnodes@, leaves, h, (level + 1) as u8, below),
            all_held(old(storage).records(), mine),
        ensures
            final(storage).inv(),
            final(storage).origin() == old(storage).origin(),
            final(storage).reliable() == old(storage).reliable(),
            final(storage).sequential() == old(storage).sequential(),
            mine.len() > 0 ==> same_below(
                old(storage).records(),
                final(storage).records(),
                mine[0],
            ),
            final(storage).end() >= old(storage).end(),
            mine.len() > 0 ==> added_within(
                old(storage).records(),
                final(storage).records(),
                mine[0],
                cur,
            ),
            old(storage).sequential() && cur <= old(storage).end() ==> final(storage).end() == old(
                storage,
            ).end(),
            old(storage).sequential() && cur <= old(storage).end() && old(storage).end()
                < Position::MAX ==> r is Ok,
            r is Ok ==> {
                &&& level_laid(final(storage).records(), h, (level + 1) as u8, leaves, below)
                &&& final(nodes)@.len() == pow2(level as nat)
                &&& linked_upto(
                    final(storage).records(),
                    leaves,
                    h,
                    level,
                    pos,
                    mine,
                    mine.len() as int,
                )
                &&& row_expected(final(nodes)@, leaves, h, level, pos)
            },
    {
        proof {
            lemma_pow2_fits(level as nat);
            lemma_pow2_64();
            lemma_pow2_monotone((level + 2) as nat, h as nat);
            lemma_pow2_monotone(h as nat, 64);
            assert(pow2((level + 2) as nat) == 2 * pow2((level + 1) as nat));
            assert(pow2((level + 1) as nat) == 2 * pow2(level as nat));
        }
        let ghost offset = pow2(level as nat);
        let width = subnodes.len();
        let count = nodes.len();
        let mut o: usize = 0;
        while o < count
            invariant
                1 <= h <= 64,
                level + 1 < h,
                storage.inv(),
                offset == pow2(level as nat),
                width == 2 * offset == subnodes@.len(),
                o <= count == nodes@.len() == offset,
                rows_fit(h, level, mine, below, pos, cur),
                row_placed(nodes@, mine, level),
                level_laid(storage.records(), h, (level + 1) as u8, leaves, below),
                row_expected(subnodes@, leaves, h, (level + 1) as u8, below),
                linked_upto(storage.records(), leaves, h, level, pos, mine, o as int),
                forall|a: int|
                    0 <= a < o ==> (#[trigger] nodes@[a])@ == expected_node(
                        leaves,
                        h as nat,
                        pos,
                        (offset + a) as nat,
                    ),
                offset > 0 ==> same_below(old(storage).records(), storage.records(), mine[0]),
                storage.origin() == old(storage).origin(),
                storage.reliable() == old(storage).reliable(),
                storage.sequential() == old(storage).sequential(),
                storage.end() >= old(storage).end(),
                all_held(storage.records(), mine),
                offset > 0 ==> added_within(
                    old(storage).records(),
                    storage.records(),
                    mine[0],
                    cur,
                ),
                old(storage).sequential() && cur <= old(storage).end() ==> storage.end() == old(
                    storage,
                ).end(),
            decreases count - o,
        {
            let left = &subnodes[2 * o];
            let right = &subnodes[2 * o + 1];
            let hash = left.hash.combine(&right.hash);
            let node = Node::new_internal(
                nodes[o].position,
                nodes[o].index,
                hash,
                left.position,
                right.position,
            );
            let ghost before = storage.records();
            let ghost held = nodes@;
            proof {
                assert(before.contains_key(mine[o as int]));
                assert(held[o as int]@.position == mine[o as int]);
                lemma_linked_node(
                    leaves,
                    h,
                    level,
                    mine,
                    below,
                    pos,
                    cur,
                    o as int,
                    left@,
                    right@,
                    held[o as int]@,
                );
            }
            match storage.put(node.position, &node) {
                Ok(_) => {},
                Err(e) => {
                    return Err(e);
                },
            }
            nodes.set(o, node);
            proof {
                assert forall|a: int| 0 <= a < mine.len() implies storage.records().contains_key(
                    #[trigger] mine[a],
                ) by {
                    assert(before.contains_key(mine[a]));
                }
                assert(mine[0] <= mine[o as int] < cur) by {
                    if o > 0 {
                        assert(mine[0] < mine[o as int]);
                    }
                }
                assert(node@.position == mine[o as int]);
                lemma_link_step(
                    before,
                    storage.records(),
                    old(storage).records(),
                    leaves,
                    h,
                    level,
                    mine,
                    below,
                    pos,
                    cur,
                    o as int,
                    node@,
                );
                assert forall|a: int| 0 <= a < mine.len() implies (#[trigger] nodes@[a])@.position
                    == mine[a] && nodes@[a]@.index == pow2(level as nat) + a by {
                    if a != o {
                        assert(nodes@[a] == held[a]);
                    }
                }
                assert forall|a: int| 0 <= a < o + 1 implies (#[trigger] nodes@[a])@
                    == expected_node(leaves, h as nat, pos, (offset + a) as nat) by {
                    if a != o {
                        assert(nodes@[a] == held[a]);
                    }
                }
            }
            o += 1;
        }
        Ok(())
    }

    /// Writes the nodes of `level` from `current` on, then those of the
    /// levels below, then fills in the hashes and child positions of this
    /// level's branches, and returns this level's nodes.
    fn create_for_level<V: Fn(u64) -> Vec<u8>>(
        storage: &mut S,
        current: Position,
        h: u8,
        level: u8,
        values: &V,
    ) -> (r: Result<(Vec<Node>, Ghost<Seq<Seq<u8>>>, Ghost<Seq<Position>>), Error>)
        requires
            1 <= h <= 64,
            level < h,
            old(storage).inv(),
            current == old(storage).end(),
            forall|k: u64| #[trigger] values.requires((k,)),
        ensures
            final(storage).inv(),
            final(storage).origin() == old(storage).origin(),
            final(storage).reliable() == old(storage).reliable(),
            final(storage).sequential() == old(storage).sequential(),
            same_below(old(storage).records(), final(storage).records(), current),
            final(storage).end() >= old(storage).end(),
            added_within(
                old(storage).records(),
                final(storage).records(),
                current,
                final(storage).end(),
            ),
            old(storage).sequential() && current >= old(storage).end() && current + (pow2(h as nat)
                - pow2(level as nat)) < Position::MAX ==> r is Ok,
            r matches Ok((nodes, leaves, pos)) ==> (old(storage).sequential() && current >= old(
                storage,
            ).end() ==> final(storage).end() == current + (pow2(h as nat) - pow2(level as nat))
                && in_sequence(pos@, h, level, current)),
            r matches Ok((nodes, leaves, pos)) ==> {
                &&& level_laid(final(storage).records(), h, level, leaves@, pos@)
                &&& made_by(values, leaves@)
                &&& pos@[pow2(level as nat) as int] == current
                &&& forall|i: int|
                    pow2(level as nat) <= i < pow2(h as nat) ==> current <= #[trigger] pos@[i]
                &&& row_expected(nodes@, leaves@, h, level, pos@)
            },
        decreases h - level,
    {
        proof {
            lemma_pow2_fits(level as nat);
            lemma_pow2_64();
            lemma_pow2_monotone((level + 1) as nat, h as nat);
            lemma_pow2_monotone(h as nat, 64);
            assert(pow2((level + 1) as nat) == 2 * pow2(level as nat));
        }
        let (mut nodes, cur, mine, data) = match Self::write_level(
            storage,
            current,
            h,
            level,
            values,
        ) {
            Ok(r) => r,
            Err(e) => {
                return Err(e);
            },
        };
        let ghost end1 = storage.end();
        let ghost sequential = old(storage).sequential() && current >= old(storage).end();
        proof {
            assert(current <= mine@[0] < cur);
        }
        if level + 1 == h {
            let ghost pos = bottom_pos(h, level, mine@);
            proof {
                if sequential {
                    assert forall|i: int|
                        pow2(level as nat) <= i < pow2(h as nat) implies #[trigger] pos[i]
                        == current + (i - pow2(level as nat)) by {
                        assert(pos[i] == mine@[i - pow2(level as nat)]);
                    }
                }
                lemma_bottom_row(storage.records(), h, level, nodes@, mine@, data@, current, cur);
                assert forall|i: int| 0 <= i < data@.len() implies yields(
                    values,
                    (i + 1) as u64,
                    #[trigger] data@[i],
                ) by {}
            }
            return Ok((nodes, data, Ghost(pos)));
        }
        let ghost middle = storage.records();
        let (subnodes, leaves, below) = match Self::create_for_level(
            storage,
            cur,
            h,
            level + 1,
            values,
        ) {
            Ok(r) => r,
            Err(e) => {
                proof {
                    lemma_added_chain(
                        old(storage).records(),
                        middle,
                        storage.records(),
                        current,
                        end1,
                        storage.end(),
                        cur,
                        storage.end(),
                    );
                    lemma_same_below_chain(
                        old(storage).records(),
                        middle,
                        storage.records(),
                        storage.records(),
                        current,
                        cur,
                        current,
                    );
                }
                return Err(e);
            },
        };
        let ghost pos = joined_pos(h, level, mine@, below@);
        let ghost lower = storage.records();
        let ghost end2 = storage.end();
        proof {
            lemma_added_chain(
                old(storage).records(),
                middle,
                lower,
                current,
                end1,
                end2,
                cur,
                end2,
            );
            lemma_rows_fit(middle, h, level, nodes@, mine@, data@, below@, current, cur);
            assert forall|o: int| 0 <= o < mine@.len() implies lower.contains_key(
                #[trigger] mine@[o],
            ) by {
                assert(middle.contains_key(mine@[o]));
                assert(mine@[o] < cur);
            }
        }
        match Self::link_level(
            storage,
            &mut nodes,
            &subnodes,
            h,
            level,
            leaves,
            mine,
            below,
            Ghost(pos),
            Ghost(cur),
        ) {
            Ok(()) => {},
            Err(e) => {
                proof {
                    lemma_added_chain(
                        old(storage).records(),
                        lower,
                        storage.records(),
                        current,
                        end2,
                        storage.end(),
                        current,
                        cur,
                    );
                }
                return Err(e);
            },
        }
        proof {
            lemma_added_chain(
                old(storage).records(),
                lower,
                storage.records(),
                current,
                end2,
                storage.end(),
                current,
                cur,
            );
            if sequential {
                lemma_joined_in_sequence(h, level, mine@, below@, current, cur);
            }
            lemma_rows_join(storage.records(), h, level, leaves@, mine@, below@, current, cur);
            lemma_same_below_chain(
                old(storage).records(),
                middle,
                lower,
                storage.records(),
                current,
                cur,
                mine@[0],
            );
        }
        Ok((nodes, leaves, Ghost(pos)))
    }

    /// Whether `storage` holds a tree of height `h` whose leaves are what
    /// `values` returned for their numbers.
    pub open spec fn stores_values<V: Fn(u64) -> Vec<u8>>(storage: &S, h: u8, values: &V) -> bool {
        exists|w: (Seq<Seq<u8>>, Seq<Position>)|
            holds_values(storage.records(), storage.origin(), h, values, w)
    }

    /// Builds in an empty `storage` the tree of height `h` whose leaf `k`
    /// holds `values(k)`: first the metadata, then every node level by
    /// level from the root down. A height outside `1..=64` and a storage
    /// that already has a first record are refused, and so is a storage
    /// whose end is not where its first record stands. In a storage of
    /// consecutive positions the metadata and the nodes stand one after
    /// the other.
    pub fn create<V: Fn(u64) -> Vec<u8>>(storage: &mut S, h: u8, values: &V) -> (r: Result<
        (),
        BinaryHashTreeError,
    >)
        requires
            old(storage).inv(),
            forall|k: u64| #[trigger] values.requires((k,)),
        ensures
            final(storage).inv(),
            final(storage).origin() == old(storage).origin(),
            final(storage).reliable() == old(storage).reliable(),
            final(storage).sequential() == old(storage).sequential(),
            r is Ok ==> Self::stores_values(final(storage), h, values),
            r is Ok ==> old(storage).origin() == old(storage).end() && !old(
                storage,
            ).records().contains_key(old(storage).origin()),
            r is Ok && old(storage).sequential() ==> laid_in_sequence(
                old(storage).records(),
                final(storage).records(),
                old(storage).origin(),
                h,
                values,
            ) && final(storage).end() == old(storage).origin() + pow2(h as nat),
            h < 1 || h > 64 ==> final(storage).records() == old(storage).records() && r matches Err(
                BinaryHashTreeError::InvalidData(_),
            ),
            old(storage).reliable() && old(storage).records().contains_key(old(storage).origin())
                ==> final(storage).records() == old(storage).records() && r matches Err(
                BinaryHashTreeError::InvalidData(_),
            ),
            1 <= h <= 64 && old(storage).reliable() && old(storage).sequential() && !old(
                storage,
            ).records().contains_key(old(storage).origin()) && old(storage).origin() == old(
                storage,
            ).end() && old(storage).origin() + pow2(h as nat) < Position::MAX ==> r is Ok,
    {
        if h < 1 || h > 64 {
            return Err(BinaryHashTreeError::InvalidData("no such height".to_owned()));
        }
        let position = match storage.first() {
            Ok((None, position)) => position,
            Ok((Some(_), _)) => {
                return Err(BinaryHashTreeError::InvalidData("storage is not empty".to_owned()));
            },
            Err(e) => {
                return Err(BinaryHashTreeError::SlateError(e));
            },
        };
        proof {
            lemma_pow2_monotone(0, h as nat);
            lemma_pow2_monotone(1, h as nat);
            reveal_with_fuel(pow2, 2);
        }
        let metadata = MetaInfo { root: 0, height: 0 };
        let mut buffer: Vec<u8> = Vec::new();
        metadata.write(&mut buffer);
        let meta = Node::new_leaf(position, 0, buffer);
        let position_root = match storage.put(position, &meta) {
            Ok(next) => next,
            Err(e) => {
                return Err(BinaryHashTreeError::SlateError(e));
            },
        };
        match storage.first() {
            Ok((Some(_), _)) => {},
            Ok((None, _)) => {
                return Err(
                    BinaryHashTreeError::InvalidData("storage does not begin at its end".to_owned()),
                );
            },
            Err(e) => {
                return Err(BinaryHashTreeError::SlateError(e));
            },
        }
        assert(position == storage.origin());
        let metadata = MetaInfo { root: position_root, height: h };
        let mut buffer: Vec<u8> = Vec::new();
        metadata.write(&mut buffer);
        assert(buffer@ == spec_meta_bytes(position_root, h));
        let meta = Node::new_leaf(position, 0, buffer);
        let position_root2 = match storage.put(position, &meta) {
            Ok(next) => next,
            Err(e) => {
                return Err(BinaryHashTreeError::SlateError(e));
            },
        };
        if position_root != position_root2 {
            return Err(BinaryHashTreeError::InvalidData("positions moved".to_owned()));
        }
        let ghost middle = storage.records();
        let ghost end1 = storage.end();
        proof {
            assert(added_within(old(storage).records(), middle, position, end1));
        }
        match Self::create_for_level(storage, position_root, h, 0, values) {
            Ok((_, leaves, pos)) => {
                proof {
                    lemma_added_chain(
                        old(storage).records(),
                        middle,
                        storage.records(),
                        position,
                        end1,
                        storage.end(),
                        position_root,
                        storage.end(),
                    );
                    assert(middle.contains_key(position));
                    assert(storage.records().contains_key(position));
                    assert(holds_tree(
                        storage.records(),
                        storage.origin(),
                        h,
                        (leaves@, pos@).0,
                        (leaves@, pos@).1,
                    ));
                    assert(holds_values(
                        storage.records(),
                        storage.origin(),
                        h,
                        values,
                        (leaves@, pos@),
                    ));
                    if old(storage).sequential() {
                        assert(pow2(0) == 1) by {
                            reveal_with_fuel(pow2, 1);
                        }
                        assert(position_root == position + 1);
                        assert(end1 == position_root);
                        assert(in_sequence(pos@, h, 0, position_root));
                        assert(sequenced_values(
                            storage.records(),
                            storage.origin(),
                            h,
                            values,
                            (leaves@, pos@),
                        ));
                    }
                }
                Ok(())
            },
            Err(e) => Err(BinaryHashTreeError::SlateError(e)),
        }
    }
}

} // verus!
