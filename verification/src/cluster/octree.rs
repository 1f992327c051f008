//! The octree quantizer.
//!
//! Every sampled color walks down an 8-ary tree, one level per bit of its
//! channels (from the highest bit), adding itself to every node it passes;
//! the nodes it ends in after seven levels are the leaves. Leaves are then
//! merged into their parents, deepest and last-created first, until no
//! more than `color_count` leaves are counted; the palette is the average
//! color of every remaining leaf.

use crate::cluster::spatial::{black_palette, black_palette_vec, padded_with_first, palette_samples, MAX_SAMPLES};
use crate::cluster::sample_colors;
use crate::color::{black_color, Color, Palette};
use crate::image::RgbaImage;
use vstd::prelude::*;

verus! {

/// Depth of the tree: colors are sorted by their seven highest bits.
pub const MAX_LEVEL: usize = 7;

// ---------------------------------------------------------------------------
// The tree, as a mathematical value
// ---------------------------------------------------------------------------

/// An octree: per node its eight child slots, parent, level, channel sums,
/// pixel count and leaf flag, plus the leaves of every level in the order
/// they became leaves.
pub struct OctModel {
    pub children: Seq<Seq<Option<usize>>>,
    pub parent: Seq<Option<usize>>,
    pub level: Seq<usize>,
    pub red: Seq<int>,
    pub green: Seq<int>,
    pub blue: Seq<int>,
    pub count: Seq<int>,
    pub leaf: Seq<bool>,
    pub leaves: Seq<Seq<usize>>,
}

/// The tree with only its root.
pub open spec fn root_model() -> OctModel {
    OctModel {
        children: seq![Seq::new(8, |k: int| None)],
        parent: seq![None],
        level: seq![0usize],
        red: seq![0int],
        green: seq![0int],
        blue: seq![0int],
        count: seq![0int],
        leaf: seq![false],
        leaves: Seq::new(8, |l: int| Seq::<usize>::empty()),
    }
}

/// The divisor that brings the bit a level looks at down to bit 0.
pub open spec fn level_divisor(level: int) -> int {
    if level <= 0 {
        128
    } else if level == 1 {
        64
    } else if level == 2 {
        32
    } else if level == 3 {
        16
    } else if level == 4 {
        8
    } else if level == 5 {
        4
    } else if level == 6 {
        2
    } else {
        1
    }
}

/// The child slot a color takes below a node of `level`: the bits
/// `7 - level` of red, green and blue, as a number `0..8`.
pub open spec fn child_slot(c: Color, level: int) -> int {
    let d = level_divisor(level);
    (c.r as int / d) % 2 * 4 + (c.g as int / d) % 2 * 2 + (c.b as int / d) % 2
}

/// Node `i` with one more pixel of color `c` added to its sums.
pub open spec fn add_color(m: OctModel, i: int, c: Color) -> OctModel {
    OctModel {
        red: m.red.update(i, m.red[i] + c.r),
        green: m.green.update(i, m.green[i] + c.g),
        blue: m.blue.update(i, m.blue[i] + c.b),
        count: m.count.update(i, m.count[i] + 1),
        ..m
    }
}

/// A new, empty child of `node` in slot `slot`.
pub open spec fn new_child(m: OctModel, node: int, slot: int) -> OctModel {
    let n = m.parent.len();
    OctModel {
        children: m.children.update(node, m.children[node].update(slot, Some(n as usize))).push(
            Seq::new(8, |k: int| None),
        ),
        parent: m.parent.push(Some(node as usize)),
        level: m.level.push((m.level[node] + 1) as usize),
        red: m.red.push(0),
        green: m.green.push(0),
        blue: m.blue.push(0),
        count: m.count.push(0),
        leaf: m.leaf.push(false),
        ..m
    }
}

/// Node `i` marked as a leaf and appended to the leaves of level `l`.
pub open spec fn make_leaf(m: OctModel, i: int, l: int) -> OctModel {
    OctModel { leaf: m.leaf.update(i, true), leaves: m.leaves.update(l, m.leaves[l].push(i as usize)), ..m }
}

/// Walk color `c` down from `node` (at `level`), creating missing nodes and
/// adding the color to every node below `node`; the node reached at the
/// last level becomes a leaf.
pub open spec fn insert_from(m: OctModel, node: int, c: Color, level: int) -> OctModel
    decreases 7 - level,
{
    if level >= 7 {
        if m.leaf[node] {
            m
        } else {
            make_leaf(m, node, 7)
        }
    } else {
        let slot = child_slot(c, level);
        let m1 = if m.children[node][slot] is None {
            new_child(m, node, slot)
        } else {
            m
        };
        let child = m1.children[node][slot]->0 as int;
        insert_from(add_color(m1, child, c), child, c, level + 1)
    }
}

/// Insert one color: add it to the root and walk it down.
pub open spec fn insert_color(m: OctModel, c: Color) -> OctModel {
    insert_from(add_color(m, 0, c), 0, c, 0)
}

/// Insert a list of colors in order.
pub open spec fn insert_all(m: OctModel, colors: Seq<Color>) -> OctModel
    decreases colors.len(),
{
    if colors.len() == 0 {
        m
    } else {
        insert_color(insert_all(m, colors.drop_last()), colors.last())
    }
}

// ---------------------------------------------------------------------------
// Well-formedness
// ---------------------------------------------------------------------------

/// The shape of a tree: sizes agree, the root is node `0` at level `0`,
/// every other node hangs in exactly one slot of its parent one level
/// above it, and the leaf lists hold distinct leaves of their level.
pub open spec fn shaped(m: OctModel) -> bool {
    let n = m.parent.len();
    &&& n >= 1
    &&& n < usize::MAX
    &&& m.children.len() == n
    &&& forall|i: int| 0 <= i < n ==> (#[trigger] m.children[i]).len() == 8
    &&& m.level.len() == n
    &&& m.red.len() == n
    &&& m.green.len() == n
    &&& m.blue.len() == n
    &&& m.count.len() == n
    &&& m.leaf.len() == n
    &&& m.leaves.len() == 8
    &&& m.level[0] == 0
    &&& m.parent[0] is None
    &&& forall|i: int| 0 <= i < n ==> #[trigger] m.level[i] <= 7
    &&& forall|i: int|
        0 < i < n ==> (#[trigger] m.parent[i] matches Some(p) && p < n && m.level[i] == m.level[p as int] + 1)
    &&& forall|i: int, k: int|
        0 <= i < n && 0 <= k < 8 ==> (#[trigger] m.children[i][k] matches Some(c) ==> 0 < c < n && m.parent[c as int]
            == Some(i as usize))
    &&& forall|i: int, k1: int, k2: int|
        0 <= i < n && 0 <= k1 < 8 && 0 <= k2 < 8 && #[trigger] m.children[i][k1] is Some && #[trigger] m.children[i][k2]
            == m.children[i][k1] ==> k1 == k2
    &&& forall|i: int|
        #![trigger m.parent[i]]
        0 < i < n ==> exists|k: int| 0 <= k < 8 && #[trigger] m.children[m.parent[i]->0 as int][k] == Some(i as usize)
    &&& forall|l: int, j: int|
        0 <= l < 8 && 0 <= j < m.leaves[l].len() ==> #[trigger] m.leaves[l][j] < n && m.level[m.leaves[l][j] as int]
            == l && m.leaf[m.leaves[l][j] as int]
    &&& forall|l: int, j1: int, j2: int|
        0 <= l < 8 && 0 <= j1 < m.leaves[l].len() && 0 <= j2 < m.leaves[l].len() && j1 != j2 ==> #[trigger] m.leaves[l][j1]
            != #[trigger] m.leaves[l][j2]
}

/// Channel sums stay within 255 times the pixel count.
pub open spec fn sums_fit(m: OctModel) -> bool {
    forall|i: int|
        0 <= i < m.parent.len() ==> 0 <= #[trigger] m.count[i] && 0 <= m.red[i] <= 255 * m.count[i] && 0
            <= m.green[i] <= 255 * m.count[i] && 0 <= m.blue[i] <= 255 * m.count[i]
}

/// Counts during an insertion: nodes down to level `lev` hold at most
/// `t + 1` pixels, deeper nodes at most `t`.
pub open spec fn counts_within(m: OctModel, t: int, lev: int) -> bool {
    forall|i: int|
        0 <= i < m.parent.len() ==> #[trigger] m.count[i] <= t + if m.level[i] <= lev {
            1int
        } else {
            0int
        }
}

/// Leaves exist only at the deepest level, and every leaf is listed.
pub open spec fn leaves_at_bottom(m: OctModel) -> bool {
    &&& forall|l: int| 0 <= l < 7 ==> (#[trigger] m.leaves[l]).len() == 0
    &&& forall|i: int| 0 <= i < m.parent.len() && #[trigger] m.leaf[i] ==> m.level[i] == 7 && m.leaves[7].contains(
        i as usize,
    )
}

proof fn lemma_add_color(m: OctModel, i: int, c: Color)
    requires
        shaped(m),
        sums_fit(m),
        0 <= i < m.parent.len(),
    ensures
        shaped(add_color(m, i, c)),
        sums_fit(add_color(m, i, c)),
        add_color(m, i, c).count[i] == m.count[i] + 1,
        forall|j: int| 0 <= j < m.parent.len() && j != i ==> #[trigger] add_color(m, i, c).count[j] == m.count[j],
{
    let m2 = add_color(m, i, c);
    assert(m2.children == m.children && m2.parent == m.parent && m2.level == m.level && m2.leaf == m.leaf
        && m2.leaves == m.leaves);
}

proof fn lemma_new_child(m: OctModel, node: int, slot: int)
    requires
        shaped(m),
        sums_fit(m),
        0 <= node < m.parent.len(),
        0 <= slot < 8,
        m.children[node][slot] is None,
        m.level[node] < 7,
        m.parent.len() + 1 < usize::MAX,
    ensures
        shaped(new_child(m, node, slot)),
        sums_fit(new_child(m, node, slot)),
        new_child(m, node, slot).parent.len() == m.parent.len() + 1,
        new_child(m, node, slot).children[node][slot] == Some(m.parent.len() as usize),
        forall|i: int| 0 <= i < m.parent.len() ==> #[trigger] new_child(m, node, slot).count[i] == m.count[i],
        forall|i: int| 0 <= i < m.parent.len() ==> #[trigger] new_child(m, node, slot).level[i] == m.level[i],
        forall|i: int| 0 <= i < m.parent.len() ==> #[trigger] new_child(m, node, slot).leaf[i] == m.leaf[i],
        forall|i: int, k: int|
            0 <= i < m.parent.len() && 0 <= k < 8 && !(i == node && k == slot) ==> #[trigger] new_child(
                m,
                node,
                slot,
            ).children[i][k] == m.children[i][k],
        new_child(m, node, slot).leaves == m.leaves,
        new_child(m, node, slot).count[m.parent.len() as int] == 0,
        new_child(m, node, slot).level[m.parent.len() as int] == m.level[node] + 1,
        new_child(m, node, slot).leaf[m.parent.len() as int] == false,
{
    let n = m.parent.len() as int;
    let m2 = new_child(m, node, slot);
    assert forall|i: int, k: int|
        0 <= i < n + 1 && 0 <= k < 8 implies (#[trigger] m2.children[i][k] matches Some(c) ==> 0 < c < n + 1
        && m2.parent[c as int] == Some(i as usize)) by {
        if i < n && !(i == node && k == slot) {
            assert(m2.children[i][k] == m.children[i][k]);
        }
    }
    assert forall|i: int, k1: int, k2: int|
        0 <= i < n + 1 && 0 <= k1 < 8 && 0 <= k2 < 8 && #[trigger] m2.children[i][k1] is Some && #[trigger] m2.children[i][k2]
            == m2.children[i][k1] implies k1 == k2 by {
        if i == node {
            if k1 == slot && k2 != slot {
                assert(m2.children[i][k2] == m.children[i][k2]);
            } else if k2 == slot && k1 != slot {
                assert(m2.children[i][k1] == m.children[i][k1]);
            } else if k1 != slot && k2 != slot {
                assert(m2.children[i][k1] == m.children[i][k1]);
                assert(m2.children[i][k2] == m.children[i][k2]);
            }
        } else if i < n {
            assert(m2.children[i][k1] == m.children[i][k1]);
            assert(m2.children[i][k2] == m.children[i][k2]);
        }
    }
    assert forall|i: int|
        #![trigger m2.parent[i]]
        0 < i < n + 1 implies (exists|k: int| 0 <= k < 8 && #[trigger] m2.children[m2.parent[i]->0 as int][k] == Some(
        i as usize,
    )) by {
        if i == n {
            assert(m2.parent[i]->0 as int == node);
            assert(m2.children[m2.parent[i]->0 as int][slot] == Some(i as usize));
        } else {
            let p = m.parent[i]->0 as int;
            assert(m2.parent[i] == m.parent[i]);
            let k = choose|k: int| 0 <= k < 8 && #[trigger] m.children[p][k] == Some(i as usize);
            if p == node && k == slot {
            } else {
                assert(m2.children[p][k] == m.children[p][k]);
                assert(m2.children[m2.parent[i]->0 as int][k] == Some(i as usize));
            }
        }
    }
    assert forall|i: int| 0 < i < n + 1 implies (#[trigger] m2.parent[i] matches Some(p) && p < n + 1 && m2.level[i]
        == m2.level[p as int] + 1) by {
        if i < n {
            assert(m.parent[i] matches Some(p) && p < n && m.level[i] == m.level[p as int] + 1);
        }
    }
}

proof fn lemma_make_leaf(m: OctModel, i: int, l: int)
    requires
        shaped(m),
        0 <= i < m.parent.len(),
        0 <= l < 8,
        m.level[i] == l,
        !m.leaf[i],
    ensures
        shaped(make_leaf(m, i, l)),
{
    let m2 = make_leaf(m, i, l);
    assert forall|ll: int, j: int| 0 <= ll < 8 && 0 <= j < m2.leaves[ll].len() implies #[trigger] m2.leaves[ll][j]
        < m2.parent.len() && m2.level[m2.leaves[ll][j] as int] == ll && m2.leaf[m2.leaves[ll][j] as int] by {
        if ll == l && j == m.leaves[l].len() {
        } else {
            assert(m2.leaves[ll][j] == m.leaves[ll][j]);
        }
    }
    assert forall|ll: int, j1: int, j2: int|
        0 <= ll < 8 && 0 <= j1 < m2.leaves[ll].len() && 0 <= j2 < m2.leaves[ll].len() && j1 != j2 implies #[trigger] m2.leaves[ll][j1]
        != #[trigger] m2.leaves[ll][j2] by {
        if ll == l {
            if j1 < m.leaves[l].len() && j2 < m.leaves[l].len() {
                assert(m2.leaves[ll][j1] == m.leaves[ll][j1]);
                assert(m2.leaves[ll][j2] == m.leaves[ll][j2]);
            } else if j1 < m.leaves[l].len() {
                assert(m2.leaves[ll][j1] == m.leaves[ll][j1]);
                assert(m.leaf[m.leaves[l][j1] as int]);
            } else {
                assert(m2.leaves[ll][j2] == m.leaves[ll][j2]);
                assert(m.leaf[m.leaves[l][j2] as int]);
            }
        } else {
            assert(m2.leaves[ll][j1] == m.leaves[ll][j1]);
            assert(m2.leaves[ll][j2] == m.leaves[ll][j2]);
        }
    }
}

/// Walking a color down keeps the tree well formed, adds at most one node
/// per level and one pixel to each node on the way.
proof fn lemma_insert_from(m: OctModel, node: int, c: Color, level: int, t: int)
    requires
        shaped(m),
        sums_fit(m),
        leaves_at_bottom(m),
        0 <= node < m.parent.len(),
        0 <= level <= 7,
        m.level[node] == level,
        counts_within(m, t, level),
        t >= 0,
        m.parent.len() + 7 - level < usize::MAX - 1,
    ensures
        shaped(insert_from(m, node, c, level)),
        sums_fit(insert_from(m, node, c, level)),
        leaves_at_bottom(insert_from(m, node, c, level)),
        counts_within(insert_from(m, node, c, level), t, 7),
        m.parent.len() <= insert_from(m, node, c, level).parent.len() <= m.parent.len() + 7 - level,
    decreases 7 - level,
{
    if level >= 7 {
        if !m.leaf[node] {
            lemma_make_leaf(m, node, 7);
            let m2 = make_leaf(m, node, 7);
            assert forall|i: int| 0 <= i < m2.parent.len() && #[trigger] m2.leaf[i] implies m2.level[i] == 7
                && m2.leaves[7].contains(i as usize) by {
                if i == node {
                    assert(m2.leaves[7][m.leaves[7].len() as int] == i as usize);
                } else {
                    assert(m.leaf[i]);
                    let w = choose|w: int| 0 <= w < m.leaves[7].len() && m.leaves[7][w] == i as usize;
                    assert(m2.leaves[7][w] == i as usize);
                }
            }
        }
    } else {
        let slot = child_slot(c, level);
        assert(0 <= slot < 8) by {
            let d = level_divisor(level);
            assert((c.r as int / d) % 2 <= 1 && (c.g as int / d) % 2 <= 1 && (c.b as int / d) % 2 <= 1);
        }
        let m1 = if m.children[node][slot] is None {
            new_child(m, node, slot)
        } else {
            m
        };
        if m.children[node][slot] is None {
            lemma_new_child(m, node, slot);
        }
        let child = m1.children[node][slot]->0 as int;
        assert(0 < child < m1.parent.len());
        assert(m1.parent[child] == Some(node as usize));
        assert(m1.level[child] == level + 1) by {
            assert(m1.parent[child] matches Some(p) && m1.level[child] == m1.level[p as int] + 1);
        }
        assert(counts_within(m1, t, level)) by {
            if m.children[node][slot] is None {
                assert forall|i: int| 0 <= i < m1.parent.len() implies #[trigger] m1.count[i] <= t + if m1.level[i]
                    <= level {
                    1int
                } else {
                    0int
                } by {
                    if i < m.parent.len() {
                        assert(m1.count[i] == m.count[i]);
                        assert(m1.level[i] == m.level[i]);
                    }
                }
            }
        }
        let m2 = add_color(m1, child, c);
        lemma_add_color(m1, child, c);
        assert(counts_within(m2, t, level + 1)) by {
            assert forall|i: int| 0 <= i < m2.parent.len() implies #[trigger] m2.count[i] <= t + if m2.level[i] <= level
                + 1 {
                1int
            } else {
                0int
            } by {
                if i != child {
                    assert(m2.count[i] == m1.count[i]);
                }
            }
        }
        assert(leaves_at_bottom(m1));
        assert(leaves_at_bottom(m2));
        lemma_insert_from(m2, child, c, level + 1, t);
    }
}

proof fn lemma_insert_color(m: OctModel, c: Color, t: int)
    requires
        shaped(m),
        sums_fit(m),
        leaves_at_bottom(m),
        counts_within(m, t, -1),
        t >= 0,
        m.parent.len() + 8 < usize::MAX,
    ensures
        shaped(insert_color(m, c)),
        sums_fit(insert_color(m, c)),
        leaves_at_bottom(insert_color(m, c)),
        counts_within(insert_color(m, c), t + 1, -1),
        insert_color(m, c).parent.len() <= m.parent.len() + 7,
{
    let m1 = add_color(m, 0, c);
    lemma_add_color(m, 0, c);
    assert(counts_within(m1, t, 0)) by {
        assert forall|i: int| 0 <= i < m1.parent.len() implies #[trigger] m1.count[i] <= t + if m1.level[i] <= 0 {
            1int
        } else {
            0int
        } by {
            if i != 0 {
                assert(m1.count[i] == m.count[i]);
            }
        }
    }
    lemma_insert_from(m1, 0, c, 0, t);
    let r = insert_color(m, c);
    assert(counts_within(r, t + 1, -1)) by {
        assert forall|i: int| 0 <= i < r.parent.len() implies #[trigger] r.count[i] <= t + 1 + if r.level[i] <= -1 {
            1int
        } else {
            0int
        } by {
            assert(r.count[i] <= t + if r.level[i] <= 7 { 1int } else { 0int });
        }
    }
}

// ---------------------------------------------------------------------------
// Reduction, as a specification
// ---------------------------------------------------------------------------

/// Whether one of the first `k` children of `p` is a leaf.
pub open spec fn leaf_child_below(m: OctModel, p: int, k: int) -> bool
    decreases k,
{
    if k <= 0 {
        false
    } else {
        leaf_child_below(m, p, k - 1) || (m.children[p][k - 1] matches Some(c) && m.leaf[c as int])
    }
}

/// Whether a child of `p` is a leaf.
pub open spec fn has_leaf_child(m: OctModel, p: int) -> bool {
    leaf_child_below(m, p, 8)
}

/// The parent of leaf `l` takes on the leaf's sums and the leaf stops
/// being a leaf.
pub open spec fn merge_sums(m: OctModel, l: int) -> OctModel {
    let p = m.parent[l]->0 as int;
    OctModel {
        red: m.red.update(p, m.red[p] + m.red[l]),
        green: m.green.update(p, m.green[p] + m.green[l]),
        blue: m.blue.update(p, m.blue[p] + m.blue[l]),
        count: m.count.update(p, m.count[p] + m.count[l]),
        leaf: m.leaf.update(l, false),
        ..m
    }
}

/// Merge leaf `l` into its parent: the parent takes on the leaf's sums, the
/// leaf stops being a leaf, and the parent becomes a leaf of its level once
/// none of its children is a leaf any more.
pub open spec fn merge_leaf(m: OctModel, l: int) -> OctModel {
    let p = m.parent[l]->0 as int;
    let m1 = merge_sums(m, l);
    if !has_leaf_child(m1, p) {
        make_leaf(m1, p, m.level[p] as int)
    } else {
        m1
    }
}

/// The deepest level at or above `level` that has leaves, or `0`.
pub open spec fn deepest(m: OctModel, level: int) -> int
    decreases level,
{
    if level > 0 && m.leaves[level].len() == 0 {
        deepest(m, level - 1)
    } else {
        level
    }
}

/// The leaves of level `l` without the last one.
pub open spec fn pop_leaf(m: OctModel, l: int) -> OctModel {
    OctModel { leaves: m.leaves.update(l, m.leaves[l].drop_last()), ..m }
}

/// Merge the last leaf of the deepest level with leaves while `total`, the
/// count of leaves kept track of, exceeds `target`; each merge lowers
/// `total` by one.
pub open spec fn reduce(m: OctModel, target: nat, total: int) -> OctModel
    decreases total,
{
    if total <= target {
        m
    } else {
        let lv = deepest(m, 7);
        if lv <= 0 {
            m
        } else {
            reduce(merge_leaf(pop_leaf(m, lv), m.leaves[lv].last() as int), target, total - 1)
        }
    }
}

/// Number of leaves listed on levels `0..l`.
pub open spec fn listed_leaves(m: OctModel, l: int) -> int
    decreases l,
{
    if l <= 0 {
        0
    } else {
        listed_leaves(m, l - 1) + m.leaves[l - 1].len()
    }
}

/// The pixel bound factor of a level: `1 + 8 * factor(level + 1)`, and `0`
/// below the deepest level.
pub open spec fn weight(level: int) -> int
    decreases 8 - level,
{
    if level >= 8 {
        0
    } else {
        1 + 8 * weight(level + 1)
    }
}

/// Node `c` has been merged away: a non-leaf at or below the frontier.
pub open spec fn merged_away(m: OctModel, f: int, c: int) -> bool {
    c != 0 && m.level[c] >= f && !m.leaf[c]
}

/// Slot `j` of `p` holds a child that has been merged away.
pub open spec fn slot_merged(m: OctModel, f: int, p: int, j: int) -> bool {
    m.children[p][j] matches Some(c) && merged_away(m, f, c as int)
}

/// Number of the first `k` children of `p` that have been merged away.
pub open spec fn merged_slots(m: OctModel, f: int, p: int, k: int) -> int
    decreases k,
{
    if k <= 0 {
        0
    } else {
        merged_slots(m, f, p, k - 1) + if slot_merged(m, f, p, k - 1) {
            1int
        } else {
            0int
        }
    }
}

/// The state of a reduction with frontier `f` (the level being merged) of
/// a tree built from `n_pixels` pixels: leaves lie only on the frontier and
/// the level above it, a leaf above the frontier has no leaf children,
/// every leaf is listed, and every node holds at most `n_pixels` pixels of
/// its own plus `weight(level + 1) * n_pixels` for each child merged into it.
pub open spec fn reducing(m: OctModel, f: int, n_pixels: int) -> bool {
    &&& shaped(m)
    &&& sums_fit(m)
    &&& 1 <= f <= 7
    &&& 0 <= n_pixels <= 0x10_0000
    &&& forall|l: int| 0 <= l < 8 && (l > f || l < f - 1) ==> (#[trigger] m.leaves[l]).len() == 0
    &&& forall|i: int|
        0 <= i < m.parent.len() && #[trigger] m.leaf[i] ==> (m.level[i] == f || m.level[i] == f - 1) && m.leaves[m.level[i] as int].contains(
            i as usize,
        )
    &&& forall|i: int, k: int|
        0 <= i < m.parent.len() && m.leaf[i] && m.level[i] == f - 1 && 0 <= k < 8 ==> (#[trigger] m.children[i][k] matches Some(c)
            ==> !m.leaf[c as int])
    &&& forall|i: int|
        0 <= i < m.parent.len() ==> #[trigger] m.count[i] <= n_pixels + merged_slots(m, f, i, 8) * weight(m.level[i] + 1)
            * n_pixels
}

proof fn lemma_weight(level: int)
    requires
        0 <= level <= 8,
    ensures
        0 <= weight(level) <= 2396745,
        level <= 7 ==> weight(level) == 1 + 8 * weight(level + 1),
{
    assert(weight(8) == 0);
    assert(weight(7) == 1);
    assert(weight(6) == 9);
    assert(weight(5) == 73);
    assert(weight(4) == 585);
    assert(weight(3) == 4681);
    assert(weight(2) == 37449);
    assert(weight(1) == 299593);
    assert(weight(0) == 2396745);
}

proof fn lemma_merged_slots_bound(m: OctModel, f: int, p: int, k: int)
    requires
        0 <= k <= 8,
    ensures
        0 <= merged_slots(m, f, p, k) <= k,
    decreases k,
{
    if k > 0 {
        lemma_merged_slots_bound(m, f, p, k - 1);
    }
}

proof fn lemma_merged_slots_mono(m: OctModel, m2: OctModel, f: int, f2: int, p: int, k: int, j0: int)
    requires
        0 <= k <= 8,
        forall|j: int| 0 <= j < k && #[trigger] slot_merged(m, f, p, j) ==> slot_merged(m2, f2, p, j),
        0 <= j0 < k ==> !slot_merged(m, f, p, j0) && slot_merged(m2, f2, p, j0),
    ensures
        merged_slots(m2, f2, p, k) >= merged_slots(m, f, p, k) + if 0 <= j0 < k {
            1int
        } else {
            0int
        },
    decreases k,
{
    if k > 0 {
        lemma_merged_slots_mono(m, m2, f, f2, p, k - 1, j0);
    }
}

proof fn lemma_no_leaf_child(m: OctModel, p: int, k: int)
    requires
        0 <= k <= 8,
        !leaf_child_below(m, p, k),
    ensures
        forall|j: int| 0 <= j < k ==> (#[trigger] m.children[p][j] matches Some(c) ==> !m.leaf[c as int]),
    decreases k,
{
    if k > 0 {
        lemma_no_leaf_child(m, p, k - 1);
    }
}

proof fn lemma_bound_mul(ms: int, w: int, n: int)
    requires
        0 <= ms <= 8,
        0 <= w <= 2396745,
        0 <= n <= 0x10_0000,
    ensures
        0 <= ms * w * n <= 8 * w * n,
        8 * w * n <= 8 * 2396745 * 0x10_0000,
{
    assert(0 <= ms * w * n <= 8 * w * n) by (nonlinear_arith)
        requires
            0 <= ms <= 8,
            0 <= w,
            0 <= n,
    ;
    assert(8 * w * n <= 8 * 2396745 * 0x10_0000) by (nonlinear_arith)
        requires
            0 <= w <= 2396745,
            0 <= n <= 0x10_0000,
    ;
}

/// Right after the colors are inserted the reduction starts at the deepest
/// level.
proof fn lemma_reduce_start(m: OctModel, n_pixels: int)
    requires
        shaped(m),
        sums_fit(m),
        leaves_at_bottom(m),
        counts_within(m, n_pixels, -1),
        0 <= n_pixels <= 0x10_0000,
    ensures
        reducing(m, 7, n_pixels),
{
    assert forall|i: int| 0 <= i < m.parent.len() implies #[trigger] m.count[i] <= n_pixels + merged_slots(m, 7, i, 8)
        * weight(m.level[i] + 1) * n_pixels by {
        lemma_merged_slots_bound(m, 7, i, 8);
        lemma_weight(m.level[i] + 1);
        lemma_bound_mul(merged_slots(m, 7, i, 8), weight(m.level[i] + 1), n_pixels);
    }
}

/// Once the frontier level has no leaves left, the level above it becomes
/// the frontier.
proof fn lemma_frontier_step(m: OctModel, f: int, n_pixels: int)
    requires
        reducing(m, f, n_pixels),
        m.leaves[f].len() == 0,
        f >= 2,
    ensures
        reducing(m, f - 1, n_pixels),
{
    assert forall|i: int| 0 <= i < m.parent.len() && #[trigger] m.leaf[i] implies (m.level[i] == f - 1 || m.level[i]
        == f - 2) && m.leaves[m.level[i] as int].contains(i as usize) by {
        if m.level[i] == f {
            assert(m.leaves[f].contains(i as usize));
        }
    }
    assert forall|i: int| 0 <= i < m.parent.len() implies #[trigger] m.count[i] <= n_pixels + merged_slots(m, f - 1, i, 8)
        * weight(m.level[i] + 1) * n_pixels by {
        lemma_merged_slots_mono(m, m, f, f - 1, i, 8, -1);
        lemma_merged_slots_bound(m, f, i, 8);
        lemma_merged_slots_bound(m, f - 1, i, 8);
        lemma_weight(m.level[i] + 1);
        let a = merged_slots(m, f, i, 8);
        let b = merged_slots(m, f - 1, i, 8);
        let w = weight(m.level[i] + 1);
        assert(a * w * n_pixels <= b * w * n_pixels) by (nonlinear_arith)
            requires
                0 <= a <= b,
                0 <= w,
                0 <= n_pixels,
        ;
    }
}

/// Which level the reduction looks at: the frontier while it has leaves,
/// then the level above it, then none.
proof fn lemma_deepest(m: OctModel, f: int, n_pixels: int)
    requires
        reducing(m, f, n_pixels),
    ensures
        m.leaves[f].len() > 0 ==> deepest(m, 7) == f,
        m.leaves[f].len() == 0 && f >= 2 && m.leaves[f - 1].len() > 0 ==> deepest(m, 7) == f - 1,
        m.leaves[f].len() == 0 && (f == 1 || m.leaves[f - 1].len() == 0) ==> deepest(m, 7) == 0,
{
    lemma_deepest_from(m, f, n_pixels, 7);
}

proof fn lemma_deepest_from(m: OctModel, f: int, n_pixels: int, level: int)
    requires
        reducing(m, f, n_pixels),
        f <= level <= 7,
    ensures
        m.leaves[f].len() > 0 ==> deepest(m, level) == f,
        m.leaves[f].len() == 0 && f >= 2 && m.leaves[f - 1].len() > 0 ==> deepest(m, level) == f - 1,
        m.leaves[f].len() == 0 && (f == 1 || m.leaves[f - 1].len() == 0) ==> deepest(m, level) == 0,
    decreases level,
{
    if level > f {
        lemma_deepest_from(m, f, n_pixels, level - 1);
    } else if m.leaves[f].len() == 0 {
        lemma_deepest_below(m, f, n_pixels, f - 1);
    }
}

proof fn lemma_deepest_below(m: OctModel, f: int, n_pixels: int, level: int)
    requires
        reducing(m, f, n_pixels),
        0 <= level <= f - 1,
        m.leaves[f].len() == 0,
    ensures
        level == f - 1 && m.leaves[f - 1].len() > 0 ==> deepest(m, level) == f - 1,
        (level < f - 1 || m.leaves[f - 1].len() == 0) ==> deepest(m, level) == 0,
    decreases level,
{
    if level > 0 {
        if level == f - 1 && m.leaves[f - 1].len() > 0 {
        } else {
            lemma_deepest_below(m, f, n_pixels, level - 1);
        }
    }
}

/// The leaf the reduction merges next: the last one listed on the frontier.
pub open spec fn next_leaf(m: OctModel, f: int) -> int {
    m.leaves[f].last() as int
}

/// The parent of a node.
pub open spec fn parent_of(m: OctModel, i: int) -> int {
    m.parent[i]->0 as int
}

proof fn lemma_merge_basics(m: OctModel, f: int, n_pixels: int)
    requires
        reducing(m, f, n_pixels),
        m.leaves[f].len() > 0,
    ensures
        0 < next_leaf(m, f) < m.parent.len(),
        m.parent[next_leaf(m, f)] is Some,
        0 <= parent_of(m, next_leaf(m, f)) < m.parent.len(),
        m.level[next_leaf(m, f)] == f,
        m.leaf[next_leaf(m, f)],
        m.level[parent_of(m, next_leaf(m, f))] == f - 1,
        !m.leaf[parent_of(m, next_leaf(m, f))],
        exists|k: int| 0 <= k < 8 && #[trigger] m.children[parent_of(m, next_leaf(m, f))][k] == Some(next_leaf(m, f) as usize),
        m.count[next_leaf(m, f)] <= weight(f) * n_pixels,
        m.count[parent_of(m, next_leaf(m, f))] + m.count[next_leaf(m, f)] <= 10 * 2396745 * 0x10_0000,
{
    let n = m.parent.len();
    let list = m.leaves[f];
    let l = next_leaf(m, f);
    assert(list[list.len() - 1] == l as usize);
    assert(l < n && m.level[l] == f && m.leaf[l]);
    assert(m.parent[l] matches Some(pp) && pp < n && m.level[l] == m.level[pp as int] + 1);
    let p = parent_of(m, l);
    let k0 = choose|k: int| 0 <= k < 8 && #[trigger] m.children[p][k] == Some(l as usize);
    assert(!m.leaf[p]) by {
        if m.leaf[p] {
            assert(m.children[p][k0] matches Some(c) ==> !m.leaf[c as int]);
        }
    }
    lemma_weight(f);
    lemma_weight(f + 1);
    lemma_merged_slots_bound(m, f, l, 8);
    lemma_merged_slots_bound(m, f, p, 8);
    lemma_bound_mul(merged_slots(m, f, l, 8), weight(f + 1), n_pixels);
    lemma_bound_mul(merged_slots(m, f, p, 8), weight(f), n_pixels);
    assert(m.count[l] <= weight(f) * n_pixels) by {
        assert(m.count[l] <= n_pixels + merged_slots(m, f, l, 8) * weight(f + 1) * n_pixels);
        assert(8 * weight(f + 1) * n_pixels + n_pixels == weight(f) * n_pixels) by (nonlinear_arith)
            requires
                weight(f) == 1 + 8 * weight(f + 1),
        ;
    }
    assert(m.count[p] <= n_pixels + merged_slots(m, f, p, 8) * weight(f) * n_pixels);
    assert(weight(f) * n_pixels <= 2396745 * 0x10_0000) by (nonlinear_arith)
        requires
            0 <= weight(f) <= 2396745,
            0 <= n_pixels <= 0x10_0000,
    ;
}

proof fn lemma_pop_shaped(m: OctModel, f: int, n_pixels: int)
    requires
        reducing(m, f, n_pixels),
        m.leaves[f].len() > 0,
    ensures
        shaped(pop_leaf(m, f)),
        sums_fit(pop_leaf(m, f)),
        forall|ll: int, j: int|
            0 <= ll < 8 && 0 <= j < pop_leaf(m, f).leaves[ll].len() ==> #[trigger] pop_leaf(m, f).leaves[ll][j] as int
                != next_leaf(m, f),
{
    let n = m.parent.len();
    let m0 = pop_leaf(m, f);
    let list = m.leaves[f];
    assert(m0.count == m.count && m0.red == m.red && m0.green == m.green && m0.blue == m.blue && m0.parent == m.parent);
    assert forall|ll: int, j: int| 0 <= ll < 8 && 0 <= j < m0.leaves[ll].len() implies #[trigger] m0.leaves[ll][j] < n
        && m0.level[m0.leaves[ll][j] as int] == ll && m0.leaf[m0.leaves[ll][j] as int] by {
        assert(m0.leaves[ll][j] == m.leaves[ll][j]);
    }
    assert forall|ll: int, j1: int, j2: int|
        0 <= ll < 8 && 0 <= j1 < m0.leaves[ll].len() && 0 <= j2 < m0.leaves[ll].len() && j1 != j2 implies #[trigger] m0.leaves[ll][j1]
        != #[trigger] m0.leaves[ll][j2] by {
        assert(m0.leaves[ll][j1] == m.leaves[ll][j1]);
        assert(m0.leaves[ll][j2] == m.leaves[ll][j2]);
    }
    assert forall|ll: int, j: int| 0 <= ll < 8 && 0 <= j < m0.leaves[ll].len() implies #[trigger] m0.leaves[ll][j] as int
        != next_leaf(m, f) by {
        if ll == f {
            assert(m0.leaves[ll][j] == list[j]);
            assert(list[j] != list[list.len() - 1]);
        } else {
            assert(m.leaves[ll][j] == m0.leaves[ll][j]);
            assert(m.level[m.leaves[ll][j] as int] == ll);
            assert(m.level[next_leaf(m, f)] == f) by {
                assert(list[list.len() - 1] == next_leaf(m, f) as usize);
            }
        }
    }
}

proof fn lemma_merge_shaped(m: OctModel, f: int, n_pixels: int)
    requires
        reducing(m, f, n_pixels),
        m.leaves[f].len() > 0,
    ensures
        shaped(merge_sums(pop_leaf(m, f), next_leaf(m, f))),
        sums_fit(merge_sums(pop_leaf(m, f), next_leaf(m, f))),
        shaped(merge_leaf(pop_leaf(m, f), next_leaf(m, f))),
        sums_fit(merge_leaf(pop_leaf(m, f), next_leaf(m, f))),
{
    lemma_merge_basics(m, f, n_pixels);
    lemma_pop_shaped(m, f, n_pixels);
    let n = m.parent.len();
    let m0 = pop_leaf(m, f);
    let l = next_leaf(m, f);
    let p = parent_of(m, l);
    let m1 = merge_sums(m0, l);
    assert(shaped(m1)) by {
        assert forall|ll: int, j: int| 0 <= ll < 8 && 0 <= j < m1.leaves[ll].len() implies #[trigger] m1.leaves[ll][j] < n
            && m1.level[m1.leaves[ll][j] as int] == ll && m1.leaf[m1.leaves[ll][j] as int] by {
            assert(m0.leaves[ll][j] as int != l);
        }
    }
    assert(sums_fit(m1));
    if !has_leaf_child(m1, p) {
        lemma_make_leaf(m1, p, f - 1);
    }
}

proof fn lemma_merge_leaves(m: OctModel, f: int, n_pixels: int)
    requires
        reducing(m, f, n_pixels),
        m.leaves[f].len() > 0,
    ensures
        ({
            let m2 = merge_leaf(pop_leaf(m, f), next_leaf(m, f));
            &&& forall|i: int|
                0 <= i < m2.parent.len() && #[trigger] m2.leaf[i] ==> (m2.level[i] == f || m2.level[i] == f - 1)
                    && m2.leaves[m2.level[i] as int].contains(i as usize)
            &&& forall|i: int, k: int|
                0 <= i < m2.parent.len() && m2.leaf[i] && m2.level[i] == f - 1 && 0 <= k < 8 ==> (#[trigger] m2.children[i][k] matches Some(
                    c,
                ) ==> !m2.leaf[c as int])
            &&& forall|ll: int| 0 <= ll < 8 && (ll > f || ll < f - 1) ==> (#[trigger] m2.leaves[ll]).len() == 0
        }),
{
    lemma_merge_basics(m, f, n_pixels);
    lemma_pop_shaped(m, f, n_pixels);
    let n = m.parent.len();
    let list = m.leaves[f];
    let m0 = pop_leaf(m, f);
    let l = next_leaf(m, f);
    let p = parent_of(m, l);
    let m1 = merge_sums(m0, l);
    let m2 = merge_leaf(m0, l);
    if !has_leaf_child(m1, p) {
        lemma_no_leaf_child(m1, p, 8);
    }
    assert(list[list.len() - 1] == l as usize);
    assert forall|i: int| 0 <= i < n && #[trigger] m2.leaf[i] implies (m2.level[i] == f || m2.level[i] == f - 1)
        && m2.leaves[m2.level[i] as int].contains(i as usize) by {
        if i == p && !has_leaf_child(m1, p) {
            assert(m2.leaves[f - 1][m1.leaves[f - 1].len() as int] == i as usize);
        } else {
            assert(i != l);
            assert(m.leaf[i]);
            let lv = m.level[i] as int;
            let w = choose|w: int| 0 <= w < m.leaves[lv].len() && m.leaves[lv][w] == i as usize;
            if lv == f {
                assert(w != list.len() - 1);
                assert(m2.leaves[lv][w] == i as usize);
            } else {
                assert(m2.leaves[lv][w] == i as usize);
            }
        }
    }
    assert forall|i: int, k: int|
        0 <= i < n && m2.leaf[i] && m2.level[i] == f - 1 && 0 <= k < 8 implies (#[trigger] m2.children[i][k] matches Some(
        c,
    ) ==> !m2.leaf[c as int]) by {
        if let Some(c) = m2.children[i][k] {
            assert(m.level[c as int] == f) by {
                assert(m.parent[c as int] matches Some(q) && m.level[c as int] == m.level[q as int] + 1);
            }
            assert(c as int != p);
            if i == p && !has_leaf_child(m1, p) {
                assert(!m1.leaf[c as int]);
            } else {
                assert(i != l);
                assert(m.leaf[i]);
                assert(!m.leaf[c as int]);
            }
        }
    }
    assert forall|ll: int| 0 <= ll < 8 && (ll > f || ll < f - 1) implies (#[trigger] m2.leaves[ll]).len() == 0 by {
        assert(m2.leaves[ll] == m.leaves[ll]);
    }
}

#[verifier::rlimit(30)]
proof fn lemma_merge_counts(m: OctModel, f: int, n_pixels: int)
    requires
        reducing(m, f, n_pixels),
        m.leaves[f].len() > 0,
    ensures
        ({
            let m2 = merge_leaf(pop_leaf(m, f), next_leaf(m, f));
            forall|i: int|
                0 <= i < m2.parent.len() ==> #[trigger] m2.count[i] <= n_pixels + merged_slots(m2, f, i, 8) * weight(
                    m2.level[i] + 1,
                ) * n_pixels
        }),
{
    lemma_merge_basics(m, f, n_pixels);
    let n = m.parent.len();
    let m0 = pop_leaf(m, f);
    let l = next_leaf(m, f);
    let p = parent_of(m, l);
    let m1 = merge_sums(m0, l);
    let m2 = merge_leaf(m0, l);
    let k0 = choose|k: int| 0 <= k < 8 && #[trigger] m.children[p][k] == Some(l as usize);
    assert(m2.count == m1.count && m2.children == m.children && m2.level == m.level && m2.parent == m.parent);
    assert(forall|c: int| 0 <= c < n && c != l && c != p ==> #[trigger] m2.leaf[c] == m.leaf[c]);
    assert forall|i: int| 0 <= i < n implies #[trigger] m2.count[i] <= n_pixels + merged_slots(m2, f, i, 8) * weight(
        m2.level[i] + 1,
    ) * n_pixels by {
        let w = weight(m.level[i] + 1);
        lemma_weight(m.level[i] + 1);
        assert forall|j: int| 0 <= j < 8 && #[trigger] slot_merged(m, f, i, j) implies slot_merged(m2, f, i, j) by {
            let c = m.children[i][j]->0 as int;
            assert(c != l);
            if c == p {
                assert(m.level[c] == m.level[i] + 1) by {
                    assert(m.parent[c] matches Some(q) && m.level[c] == m.level[q as int] + 1);
                }
            }
        }
        if i == p {
            assert(slot_merged(m2, f, p, k0));
            assert(!slot_merged(m, f, p, k0));
            lemma_merged_slots_mono(m, m2, f, f, p, 8, k0);
            lemma_merged_slots_bound(m2, f, p, 8);
            let a = merged_slots(m, f, p, 8);
            let b = merged_slots(m2, f, p, 8);
            assert(m2.count[p] == m.count[p] + m.count[l]);
            assert(m.count[p] <= n_pixels + a * weight(f) * n_pixels);
            assert((a + 1) * weight(f) * n_pixels <= b * weight(f) * n_pixels) by (nonlinear_arith)
                requires
                    a + 1 <= b,
                    0 <= weight(f),
                    0 <= n_pixels,
            ;
            assert((a + 1) * weight(f) * n_pixels == a * weight(f) * n_pixels + weight(f) * n_pixels) by (nonlinear_arith);
        } else {
            lemma_merged_slots_mono(m, m2, f, f, i, 8, -1);
            lemma_merged_slots_bound(m, f, i, 8);
            lemma_merged_slots_bound(m2, f, i, 8);
            let a = merged_slots(m, f, i, 8);
            let b = merged_slots(m2, f, i, 8);
            assert(m2.count[i] == m.count[i]);
            assert(a * w * n_pixels <= b * w * n_pixels) by (nonlinear_arith)
                requires
                    0 <= a <= b,
                    0 <= w,
                    0 <= n_pixels,
            ;
        }
    }
}

/// Merging the last leaf of the frontier keeps the reduction well formed.
proof fn lemma_merge_step(m: OctModel, f: int, n_pixels: int)
    requires
        reducing(m, f, n_pixels),
        m.leaves[f].len() > 0,
    ensures
        reducing(merge_leaf(pop_leaf(m, f), next_leaf(m, f)), f, n_pixels),
{
    lemma_merge_shaped(m, f, n_pixels);
    lemma_merge_leaves(m, f, n_pixels);
    lemma_merge_counts(m, f, n_pixels);
}

// ---------------------------------------------------------------------------
// The palette, as a specification
// ---------------------------------------------------------------------------

/// The average color of node `i`: channel sums divided by the pixel count.
pub open spec fn average_color(m: OctModel, i: int) -> Color {
    Color {
        r: (m.red[i] / m.count[i]) as u8,
        g: (m.green[i] / m.count[i]) as u8,
        b: (m.blue[i] / m.count[i]) as u8,
        a: 255,
    }
}

/// The average colors of the listed nodes that hold pixels, in order.
pub open spec fn node_colors(m: OctModel, ids: Seq<usize>) -> Seq<Color>
    decreases ids.len(),
{
    if ids.len() == 0 {
        Seq::empty()
    } else {
        node_colors(m, ids.drop_last()) + if m.count[ids.last() as int] > 0 {
            seq![average_color(m, ids.last() as int)]
        } else {
            Seq::empty()
        }
    }
}

/// The colors of the leaves of levels `0..l`, level by level.
pub open spec fn leaf_colors(m: OctModel, l: int) -> Seq<Color>
    decreases l,
{
    if l <= 0 {
        Seq::empty()
    } else {
        leaf_colors(m, l - 1) + node_colors(m, m.leaves[l - 1])
    }
}

/// The palette of a reduced tree: its leaf colors (black when there are
/// none), cut or padded with copies of the first to `count` colors.
pub open spec fn tree_palette(m: OctModel, count: int) -> Seq<Color> {
    let colors = leaf_colors(m, 8);
    padded_with_first(if colors.len() == 0 { seq![black_color()] } else { colors }, count)
}

/// The octree palette of a list of pixels.
pub open spec fn octree_of(pixels: Seq<Color>, count: nat) -> Seq<Color> {
    if pixels.len() == 0 {
        black_palette(count as int)
    } else {
        let tree = insert_all(root_model(), pixels);
        tree_palette(reduce(tree, count, listed_leaves(tree, 8)), count as int)
    }
}

// ---------------------------------------------------------------------------
// The tree in memory
// ---------------------------------------------------------------------------

struct Octree {
    children: Vec<Vec<Option<usize>>>,
    parent: Vec<Option<usize>>,
    level: Vec<usize>,
    red: Vec<u64>,
    green: Vec<u64>,
    blue: Vec<u64>,
    count: Vec<u64>,
    leaf: Vec<bool>,
    leaves: Vec<Vec<usize>>,
}

impl View for Octree {
    type V = OctModel;

    closed spec fn view(&self) -> OctModel {
        OctModel {
            children: self.children@.map_values(|v: Vec<Option<usize>>| v@),
            parent: self.parent@,
            level: self.level@,
            red: self.red@.map_values(|x: u64| x as int),
            green: self.green@.map_values(|x: u64| x as int),
            blue: self.blue@.map_values(|x: u64| x as int),
            count: self.count@.map_values(|x: u64| x as int),
            leaf: self.leaf@,
            leaves: self.leaves@.map_values(|v: Vec<usize>| v@),
        }
    }
}

/// The divisor of [`level_divisor`].
fn divisor_of(level: usize) -> (d: u8)
    ensures
        d as int == level_divisor(level as int),
{
    if level == 0 {
        128
    } else if level == 1 {
        64
    } else if level == 2 {
        32
    } else if level == 3 {
        16
    } else if level == 4 {
        8
    } else if level == 5 {
        4
    } else if level == 6 {
        2
    } else {
        1
    }
}

/// The child slot a color takes below a node of `level`.
fn octree_index(color: &Color, level: usize) -> (slot: usize)
    ensures
        slot as int == child_slot(*color, level as int),
        slot < 8,
{
    let d = divisor_of(level);
    ((color.r / d) % 2 * 4 + (color.g / d) % 2 * 2 + (color.b / d) % 2) as usize
}

impl Octree {
    /// The tree with only its root.
    fn new() -> (t: Octree)
        ensures
            t@ == root_model(),
    {
        let mut slots: Vec<Option<usize>> = Vec::new();
        while slots.len() < 8
            invariant
                slots@.len() <= 8,
                forall|k: int| 0 <= k < slots@.len() ==> #[trigger] slots@[k] is None,
            decreases 8 - slots@.len(),
        {
            slots.push(None);
        }
        let mut leaves: Vec<Vec<usize>> = Vec::new();
        while leaves.len() < 8
            invariant
                leaves@.len() <= 8,
                forall|l: int| 0 <= l < leaves@.len() ==> (#[trigger] leaves@[l])@ == Seq::<usize>::empty(),
            decreases 8 - leaves@.len(),
        {
            leaves.push(Vec::new());
        }
        let mut children: Vec<Vec<Option<usize>>> = Vec::new();
        children.push(slots);
        let t = Octree {
            children,
            parent: vec![None],
            level: vec![0],
            red: vec![0],
            green: vec![0],
            blue: vec![0],
            count: vec![0],
            leaf: vec![false],
            leaves,
        };
        proof {
            let r = root_model();
            assert(t@.children =~= r.children) by {
                assert(t@.children[0] =~= r.children[0]);
            }
            assert(t@.leaves =~= r.leaves);
            assert(t@.parent =~= r.parent);
            assert(t@.level =~= r.level);
            assert(t@.leaf =~= r.leaf);
            assert(t@.red =~= r.red);
            assert(t@.green =~= r.green);
            assert(t@.blue =~= r.blue);
            assert(t@.count =~= r.count);
        }
        t
    }

    /// Add one pixel of color `c` to node `i`.
    fn add_color(&mut self, i: usize, c: &Color)
        requires
            i < old(self)@.parent.len(),
            shaped(old(self)@),
            sums_fit(old(self)@),
            old(self)@.count[i as int] < 0x1_0000_0000_0000,
        ensures
            final(self)@ == add_color(old(self)@, i as int, *c),
    {
        let ghost before = self@;
        assert(self.red@.len() == before.parent.len());
        assert(self.red@[i as int] as int == before.red[i as int]);
        assert(self.green@[i as int] as int == before.green[i as int]);
        assert(self.blue@[i as int] as int == before.blue[i as int]);
        assert(self.count@[i as int] as int == before.count[i as int]);
        let r = self.red[i] + c.r as u64;
        let g = self.green[i] + c.g as u64;
        let b = self.blue[i] + c.b as u64;
        let n = self.count[i] + 1;
        self.red.set(i, r);
        self.green.set(i, g);
        self.blue.set(i, b);
        self.count.set(i, n);
        proof {
            let after = add_color(before, i as int, *c);
            assert(self@.red =~= after.red);
            assert(self@.green =~= after.green);
            assert(self@.blue =~= after.blue);
            assert(self@.count =~= after.count);
        }
    }

    /// A new, empty child of `node` in slot `slot`; returns its index.
    fn new_child(&mut self, node: usize, slot: usize) -> (child: usize)
        requires
            shaped(old(self)@),
            node < old(self)@.parent.len(),
            slot < 8,
            old(self)@.children[node as int][slot as int] is None,
            old(self)@.level[node as int] < 7,
            old(self)@.parent.len() + 1 < usize::MAX,
        ensures
            final(self)@ == new_child(old(self)@, node as int, slot as int),
            child == old(self)@.parent.len(),
    {
        let ghost before = self@;
        let n = self.parent.len();
        assert(self.children@.len() == n);
        assert(self.children@[node as int]@.len() == 8);
        let mut row: Vec<Option<usize>> = Vec::new();
        let mut k: usize = 0;
        while k < 8
            invariant
                k <= 8,
                node < self.children@.len(),
                self.children@[node as int]@.len() == 8,
                row@.len() == k,
                forall|j: int|
                    0 <= j < k ==> #[trigger] row@[j] == if j == slot as int {
                        Some(n)
                    } else {
                        self.children@[node as int]@[j]
                    },
            decreases 8 - k,
        {
            let v = if k == slot { Some(n) } else { self.children[node][k] };
            row.push(v);
            k = k + 1;
        }
        assert(row@ =~= before.children[node as int].update(slot as int, Some(n)));
        self.children.set(node, row);
        let mut empty: Vec<Option<usize>> = Vec::new();
        while empty.len() < 8
            invariant
                empty@.len() <= 8,
                forall|j: int| 0 <= j < empty@.len() ==> #[trigger] empty@[j] is None,
            decreases 8 - empty@.len(),
        {
            empty.push(None);
        }
        self.children.push(empty);
        let lv = self.level[node] + 1;
        self.parent.push(Some(node));
        self.level.push(lv);
        self.red.push(0);
        self.green.push(0);
        self.blue.push(0);
        self.count.push(0);
        self.leaf.push(false);
        proof {
            let after = new_child(before, node as int, slot as int);
            assert(self@.children =~= after.children) by {
                assert forall|i: int| 0 <= i < after.children.len() implies self@.children[i] =~= after.children[i] by {
                    if i == n as int {
                        assert(self@.children[i] =~= Seq::new(8, |j: int| None::<usize>));
                    }
                }
            }
            assert(self@.red =~= after.red);
            assert(self@.green =~= after.green);
            assert(self@.blue =~= after.blue);
            assert(self@.count =~= after.count);
            assert(self@.parent =~= after.parent);
            assert(self@.level =~= after.level);
            assert(self@.leaf =~= after.leaf);
        }
        n
    }

    /// Mark node `i` as a leaf of level `l`.
    fn make_leaf(&mut self, i: usize, l: usize)
        requires
            shaped(old(self)@),
            i < old(self)@.parent.len(),
            l < 8,
        ensures
            final(self)@ == make_leaf(old(self)@, i as int, l as int),
    {
        let ghost before = self@;
        self.leaf.set(i, true);
        assert(self.leaves@.len() == 8);
        self.leaves[l].push(i);
        proof {
            let after = make_leaf(before, i as int, l as int);
            assert(self@.leaves =~= after.leaves);
            assert(self@.leaf =~= after.leaf);
        }
    }

    /// Insert one color: add it to the root and walk it down to its leaf.
    fn insert(&mut self, color: &Color, Ghost(t): Ghost<int>)
        requires
            shaped(old(self)@),
            sums_fit(old(self)@),
            leaves_at_bottom(old(self)@),
            counts_within(old(self)@, t, -1),
            0 <= t < 0x1_0000_0000,
            old(self)@.parent.len() + 8 < usize::MAX,
        ensures
            final(self)@ == insert_color(old(self)@, *color),
    {
        let ghost goal = insert_color(self@, *color);
        let ghost start = self@;
        proof {
            assert(start.count[0] <= t);
        }
        self.add_color(0, color);
        proof {
            lemma_add_color(start, 0, *color);
            assert(counts_within(self@, t, 0)) by {
                assert forall|i: int| 0 <= i < self@.parent.len() implies #[trigger] self@.count[i] <= t + if self@.level[i]
                    <= 0 {
                    1int
                } else {
                    0int
                } by {
                    if i != 0 {
                        assert(self@.count[i] == start.count[i]);
                    }
                }
            }
        }
        let mut node: usize = 0;
        let mut level: usize = 0;
        while level < MAX_LEVEL
            invariant
                insert_from(self@, node as int, *color, level as int) == goal,
                shaped(self@),
                sums_fit(self@),
                leaves_at_bottom(self@),
                counts_within(self@, t, level as int),
                0 <= t < 0x1_0000_0000,
                level <= 7,
                node < self@.parent.len(),
                self@.level[node as int] == level,
                self@.parent.len() + 7 - level < usize::MAX - 1,
            decreases 7 - level,
        {
            let ghost m = self@;
            let slot = octree_index(color, level);
            assert(self.children@[node as int]@.len() == 8);
            if self.children[node][slot].is_none() {
                self.new_child(node, slot);
                proof {
                    lemma_new_child(m, node as int, slot as int);
                }
            }
            let ghost m1 = self@;
            assert(self.children@[node as int]@.len() == 8);
            let child = self.children[node][slot].unwrap();
            proof {
                assert(m1.children[node as int][slot as int] == Some(child));
                assert(0 < child < m1.parent.len());
                assert(m1.level[child as int] == level + 1) by {
                    assert(m1.parent[child as int] matches Some(p) && m1.level[child as int] == m1.level[p as int] + 1);
                }
                assert(counts_within(m1, t, level as int)) by {
                    if m.children[node as int][slot as int] is None {
                        assert forall|i: int| 0 <= i < m1.parent.len() implies #[trigger] m1.count[i] <= t + if m1.level[i]
                            <= level {
                            1int
                        } else {
                            0int
                        } by {
                            if i < m.parent.len() {
                                assert(m1.count[i] == m.count[i]);
                                assert(m1.level[i] == m.level[i]);
                            }
                        }
                    }
                }
                assert(m1.count[child as int] <= t);
            }
            self.add_color(child, color);
            proof {
                lemma_add_color(m1, child as int, *color);
                let m2 = self@;
                assert(counts_within(m2, t, level + 1)) by {
                    assert forall|i: int| 0 <= i < m2.parent.len() implies #[trigger] m2.count[i] <= t + if m2.level[i]
                        <= level + 1 {
                        1int
                    } else {
                        0int
                    } by {
                        if i != child {
                            assert(m2.count[i] == m1.count[i]);
                        }
                    }
                }
            }
            node = child;
            level = level + 1;
        }
        assert(self.leaf@.len() == self@.parent.len());
        if !self.leaf[node] {
            self.make_leaf(node, MAX_LEVEL);
        }
    }

    /// Merge leaf `leaf` into its parent.
    fn merge_leaf(&mut self, leaf: usize)
        requires
            shaped(old(self)@),
            sums_fit(old(self)@),
            0 < leaf < old(self)@.parent.len(),
            old(self)@.parent[leaf as int] is Some,
            old(self)@.count[parent_of(old(self)@, leaf as int)] + old(self)@.count[leaf as int] <= 10 * 2396745
                * 0x10_0000,
            shaped(merge_sums(old(self)@, leaf as int)),
        ensures
            final(self)@ == merge_leaf(old(self)@, leaf as int),
    {
        let ghost before = self@;
        let p = self.parent[leaf].unwrap();
        proof {
            assert(before.parent[leaf as int] matches Some(q) && q < before.parent.len());
            assert(before.red[p as int] <= 255 * before.count[p as int]);
            assert(before.red[leaf as int] <= 255 * before.count[leaf as int]);
            assert(before.green[p as int] <= 255 * before.count[p as int]);
            assert(before.green[leaf as int] <= 255 * before.count[leaf as int]);
            assert(before.blue[p as int] <= 255 * before.count[p as int]);
            assert(before.blue[leaf as int] <= 255 * before.count[leaf as int]);
            assert(self.red@[p as int] as int == before.red[p as int]);
            assert(self.red@[leaf as int] as int == before.red[leaf as int]);
            assert(self.green@[p as int] as int == before.green[p as int]);
            assert(self.green@[leaf as int] as int == before.green[leaf as int]);
            assert(self.blue@[p as int] as int == before.blue[p as int]);
            assert(self.blue@[leaf as int] as int == before.blue[leaf as int]);
            assert(self.count@[p as int] as int == before.count[p as int]);
            assert(self.count@[leaf as int] as int == before.count[leaf as int]);
        }
        let r = self.red[p] + self.red[leaf];
        let g = self.green[p] + self.green[leaf];
        let b = self.blue[p] + self.blue[leaf];
        let n = self.count[p] + self.count[leaf];
        self.red.set(p, r);
        self.green.set(p, g);
        self.blue.set(p, b);
        self.count.set(p, n);
        self.leaf.set(leaf, false);
        let ghost m1 = merge_sums(before, leaf as int);
        proof {
            assert(self@.red =~= m1.red);
            assert(self@.green =~= m1.green);
            assert(self@.blue =~= m1.blue);
            assert(self@.count =~= m1.count);
            assert(self@.leaf =~= m1.leaf);
            assert(self@ == m1);
        }
        let mut has_leaf_child = false;
        let mut k: usize = 0;
        assert(self.children@[p as int]@.len() == 8);
        while k < 8
            invariant
                self@ == m1,
                shaped(before),
                p < before.parent.len(),
                m1.children == before.children,
                m1.leaf.len() == before.parent.len(),
                self.children@[p as int]@.len() == 8,
                k <= 8,
                has_leaf_child == leaf_child_below(m1, p as int, k as int),
            decreases 8 - k,
        {
            if let Some(c) = self.children[p][k] {
                proof {
                    assert(before.children[p as int][k as int] == Some(c));
                }
                if self.leaf[c] {
                    has_leaf_child = true;
                }
            }
            k = k + 1;
        }
        if !has_leaf_child {
            let lv = self.level[p];
            self.make_leaf(p, lv);
        }
    }

    /// Merge leaves, deepest and last-listed first, while more than
    /// `target` leaves are counted.
    fn reduce_to(&mut self, target: usize, Ghost(n_pixels): Ghost<int>)
        requires
            reducing(old(self)@, 7, n_pixels),
            leaves_at_bottom(old(self)@),
        ensures
            final(self)@ == reduce(old(self)@, target as nat, listed_leaves(old(self)@, 8)),
            shaped(final(self)@),
            sums_fit(final(self)@),
    {
        let ghost start = self@;
        let mut total: usize = 0;
        let mut l: usize = 0;
        while l < 8
            invariant
                self@ == start,
                leaves_at_bottom(start),
                start.leaves.len() == 8,
                self.leaves@.len() == 8,
                l <= 8,
                total == listed_leaves(start, l as int),
                l <= 7 ==> total == 0,
            decreases 8 - l,
        {
            assert(self.leaves@[l as int]@.len() == start.leaves[l as int].len());
            total = total + self.leaves[l].len();
            l = l + 1;
        }
        let ghost goal = reduce(start, target as nat, total as int);
        let ghost mut f: int = 7;
        while total > target
            invariant
                reduce(self@, target as nat, total as int) == goal,
                reducing(self@, f, n_pixels),
            ensures
                self@ == goal,
                reducing(self@, f, n_pixels),
            decreases total,
        {
            let ghost m = self@;
            let mut level: usize = 7;
            assert(self.leaves@.len() == 8);
            while level > 0 && self.leaves[level].len() == 0
                invariant
                    self@ == m,
                    self.leaves@.len() == 8,
                    m.leaves.len() == 8,
                    level <= 7,
                    deepest(m, level as int) == deepest(m, 7),
                decreases level,
            {
                assert(self.leaves@[level as int]@.len() == m.leaves[level as int].len());
                level = level - 1;
            }
            assert(level == 0 || self.leaves@[level as int]@.len() == m.leaves[level as int].len());
            assert(deepest(m, 7) == level as int);
            proof {
                lemma_deepest(m, f, n_pixels);
            }
            if level == 0 {
                break;
            }
            proof {
                if level as int != f {
                    lemma_frontier_step(m, f, n_pixels);
                    f = f - 1;
                }
                lemma_merge_basics(m, f, n_pixels);
                lemma_pop_shaped(m, f, n_pixels);
                lemma_merge_shaped(m, f, n_pixels);
                lemma_merge_step(m, f, n_pixels);
            }
            let popped = self.leaves[level].pop();
            let leaf = popped.unwrap();
            proof {
                assert(leaf as int == next_leaf(m, f));
                assert(self@.leaves =~= pop_leaf(m, f).leaves);
                assert(self@ == pop_leaf(m, f));
            }
            self.merge_leaf(leaf);
            total = total - 1;
        }
    }

    /// The average color of node `i`.
    fn average_color(&self, i: usize) -> (c: Color)
        requires
            shaped(self@),
            i < self@.parent.len(),
            self@.count[i as int] > 0,
        ensures
            c == average_color(self@, i as int),
    {
        assert(self.count@[i as int] as int == self@.count[i as int]);
        assert(self.red@[i as int] as int == self@.red[i as int]);
        assert(self.green@[i as int] as int == self@.green[i as int]);
        assert(self.blue@[i as int] as int == self@.blue[i as int]);
        let n = self.count[i];
        Color::new((self.red[i] / n) as u8, (self.green[i] / n) as u8, (self.blue[i] / n) as u8, 255)
    }

    /// The palette of the tree: the average color of every leaf holding
    /// pixels, level by level, cut or padded to `color_count` colors.
    fn palette(&self, color_count: usize) -> (v: Vec<Color>)
        requires
            shaped(self@),
        ensures
            v@ == tree_palette(self@, color_count as int),
    {
        let mut colors: Vec<Color> = Vec::new();
        let mut level: usize = 0;
        assert(self.leaves@.len() == 8);
        while level < 8
            invariant
                shaped(self@),
                self.leaves@.len() == 8,
                level <= 8,
                colors@ == leaf_colors(self@, level as int),
            decreases 8 - level,
        {
            let ids = &self.leaves[level];
            assert(ids@ == self@.leaves[level as int]);
            let mut j: usize = 0;
            while j < ids.len()
                invariant
                    shaped(self@),
                    level < 8,
                    ids@ == self@.leaves[level as int],
                    j <= ids@.len(),
                    colors@ == leaf_colors(self@, level as int) + node_colors(self@, ids@.take(j as int)),
                decreases ids@.len() - j,
            {
                let index = ids[j];
                assert(index < self@.parent.len());
                assert(self.count@.len() == self@.parent.len());
                assert(self.count@[index as int] as int == self@.count[index as int]);
                proof {
                    assert(ids@.take(j as int + 1).drop_last() == ids@.take(j as int));
                }
                if self.count[index] > 0 {
                    let c = self.average_color(index);
                    colors.push(c);
                }
                proof {
                    assert(colors@ =~= leaf_colors(self@, level as int) + node_colors(self@, ids@.take(j as int + 1)));
                }
                j = j + 1;
            }
            proof {
                assert(ids@.take(ids@.len() as int) == ids@);
            }
            level = level + 1;
        }
        let ghost found = colors@;
        if colors.len() == 0 {
            colors.push(Color::black());
        }
        let ghost base = colors@;
        assert(base == if found.len() == 0 { seq![black_color()] } else { found });
        let first = colors[0];
        while colors.len() < color_count
            invariant
                colors@.len() >= base.len() >= 1,
                colors@.len() == base.len() || colors@.len() <= color_count,
                first == base[0],
                colors@.take(base.len() as int) == base,
                forall|j: int| base.len() <= j < colors@.len() ==> #[trigger] colors@[j] == base[0],
            decreases color_count - colors@.len(),
        {
            colors.push(first);
            proof {
                assert(colors@.take(base.len() as int) =~= base);
            }
        }
        let ghost padded_colors = colors@;
        colors.truncate(color_count);
        proof {
            if base.len() >= color_count {
                assert(padded_colors.take(base.len() as int) == padded_colors);
                assert(colors@ =~= padded_with_first(base, color_count as int));
            } else {
                assert(colors@ =~= padded_with_first(base, color_count as int));
            }
        }
        colors
    }
}

proof fn lemma_root()
    ensures
        shaped(root_model()),
        sums_fit(root_model()),
        leaves_at_bottom(root_model()),
        counts_within(root_model(), 0, -1),
{
    let r = root_model();
    assert(r.children[0].len() == 8);
}

/// Build a palette with an octree quantizer: the sampled opaque pixels are
/// sorted into an 8-level tree by their channel bits, leaves are merged
/// into their parents (deepest and last-created first) while more than
/// `color_count` leaves are counted, and the average colors of the remaining
/// leaves form the palette, cut or padded with copies of the first color to
/// `color_count` colors (`max(color_count, 1)` black colors for an image
/// without opaque pixels).
pub fn octree(image: &RgbaImage, color_count: usize) -> (palette: Palette)
    requires
        image.wf(),
    ensures
        palette.colors@ == octree_of(palette_samples(image), color_count as nat),
{
    let pixels = sample_colors(image, MAX_SAMPLES);
    if pixels.len() == 0 {
        return Palette::new(black_palette_vec(color_count));
    }
    let mut tree = Octree::new();
    proof {
        lemma_root();
    }
    let mut i: usize = 0;
    while i < pixels.len()
        invariant
            pixels@.len() <= MAX_SAMPLES,
            i <= pixels@.len(),
            tree@ == insert_all(root_model(), pixels@.take(i as int)),
            shaped(tree@),
            sums_fit(tree@),
            leaves_at_bottom(tree@),
            counts_within(tree@, i as int, -1),
            tree@.parent.len() <= 1 + 7 * i,
        decreases pixels@.len() - i,
    {
        let ghost before = tree@;
        proof {
            lemma_insert_color(before, pixels@[i as int], i as int);
            assert(pixels@.take(i as int + 1).drop_last() == pixels@.take(i as int));
        }
        tree.insert(&pixels[i], Ghost(i as int));
        i = i + 1;
    }
    proof {
        assert(pixels@.take(pixels@.len() as int) == pixels@);
        lemma_reduce_start(tree@, pixels@.len() as int);
    }
    let ghost built = tree@;
    tree.reduce_to(color_count, Ghost(pixels@.len() as int));
    let colors = tree.palette(color_count);
    Palette::new(colors)
}

/// The octree palette has exactly `count` colors; for an image without
/// opaque pixels it is `max(count, 1)` black colors.
pub proof fn law_octree_size(pixels: Seq<Color>, count: nat)
    ensures
        octree_of(pixels, count).len() == if pixels.len() == 0 && count == 0 { 1 } else { count as int },
{
}

} // verus!
