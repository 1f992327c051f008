//! Agglomerative single-linkage clustering.
//!
//! Every sampled pixel starts as a cluster of its own. While there are more
//! clusters than colors wanted, the two clusters with the closest pair of
//! members (squared RGB distance) are merged; among equally close pairs the
//! one with the smallest cluster indices goes first. The merged cluster
//! keeps the index of whichever of the two absorbed another cluster more
//! recently, and the larger index when neither has. The palette is the mean
//! color of every cluster, in index order.

use crate::cluster::spatial::{black_palette, black_palette_vec, padded_with_first};
use crate::cluster::{image_colors, mean_color, mean_color_of, sample_colors};
use crate::color::{Color, Palette};
use crate::image::RgbaImage;
use crate::utils::{opaque_of, sampled};
use vstd::prelude::*;

verus! {

/// Number of opaque pixels hierarchical clustering looks at.
pub const HIERARCHY_SAMPLES: usize = 2_000;

/// The pixels hierarchical clustering works on.
pub open spec fn hierarchy_samples(image: &RgbaImage) -> Seq<Color> {
    sampled(opaque_of(image_colors(image)), HIERARCHY_SAMPLES as int)
}

/// Squared RGB distance of two colors.
pub open spec fn sq_dist(a: Color, b: Color) -> int {
    (a.r - b.r) * (a.r - b.r) + (a.g - b.g) * (a.g - b.g) + (a.b - b.b) * (a.b - b.b)
}

/// Larger than any squared RGB distance.
pub open spec fn far() -> int {
    195076int
}

/// The smallest squared distance from point `a` to the points of `group`.
pub open spec fn point_link(points: Seq<Color>, a: usize, group: Seq<usize>) -> int
    decreases group.len(),
{
    if group.len() == 0 {
        far()
    } else {
        let rest = point_link(points, a, group.drop_last());
        let d = sq_dist(points[a as int], points[group.last() as int]);
        if d < rest { d } else { rest }
    }
}

/// Single linkage: the smallest squared distance between a point of `x`
/// and a point of `y`.
pub open spec fn link(points: Seq<Color>, x: Seq<usize>, y: Seq<usize>) -> int
    decreases x.len(),
{
    if x.len() == 0 {
        far()
    } else {
        let rest = link(points, x.drop_last(), y);
        let d = point_link(points, x.last(), y);
        if d < rest { d } else { rest }
    }
}

/// The clusters: the members of each (indices into the points) and
/// whether it is still in play.
pub struct Clusters {
    pub members: Seq<Seq<usize>>,
    pub active: Seq<bool>,
}

/// Every point a cluster of its own.
pub open spec fn singletons(n: int) -> Clusters {
    Clusters { members: Seq::new(n as nat, |i: int| seq![i as usize]), active: Seq::new(n as nat, |i: int| true) }
}

/// The closest pair `(distance, i, j)` with `i < j` among the active
/// clusters in row `i`, columns `0..m`; the first one wins ties.
pub open spec fn row_best(points: Seq<Color>, c: Clusters, i: int, m: int) -> Option<(int, int)>
    decreases m,
{
    if m <= 0 {
        None
    } else {
        let r = row_best(points, c, i, m - 1);
        let j = m - 1;
        if i < j && c.active[i] && c.active[j] && (r is None || link(points, c.members[i], c.members[j]) < r.unwrap().0) {
            Some((link(points, c.members[i], c.members[j]), j))
        } else {
            r
        }
    }
}

/// The closest pair of active clusters among rows `0..m`, as
/// `(distance, i, j)` with `i < j`: the smallest distance, then the
/// smallest `i`, then the smallest `j`.
pub open spec fn closest_pair(points: Seq<Color>, c: Clusters, m: int) -> Option<(int, int, int)>
    decreases m,
{
    if m <= 0 {
        None
    } else {
        let r = closest_pair(points, c, m - 1);
        let i = m - 1;
        match row_best(points, c, i, c.members.len() as int) {
            None => r,
            Some((d, j)) => if r is None || d < r.unwrap().0 {
                Some((d, i, j))
            } else {
                r
            },
        }
    }
}

/// Cluster `j` merged into cluster `i`.
pub open spec fn merge_clusters(c: Clusters, i: int, j: int) -> Clusters {
    Clusters { members: c.members.update(i, c.members[i] + c.members[j]), active: c.active.update(j, false) }
}

/// Which of the clusters `i < j` of a merged pair keeps its index: the one
/// that absorbed another cluster more recently (`stamps` holds the number
/// of the merge in which each last did, `0` for never), else `j`.
pub open spec fn keeper(stamps: Seq<int>, i: int, j: int) -> int {
    if stamps[i] > stamps[j] {
        i
    } else {
        j
    }
}

/// `steps` merges of the closest pair, after `time` merges have been made.
pub open spec fn agglomerate(points: Seq<Color>, c: Clusters, stamps: Seq<int>, time: int, steps: nat) -> Clusters
    decreases steps,
{
    if steps == 0 {
        c
    } else {
        match closest_pair(points, c, c.members.len() as int) {
            None => c,
            Some((d, i, j)) => {
                let keep = keeper(stamps, i, j);
                let gone = if keep == i { j } else { i };
                agglomerate(
                    points,
                    merge_clusters(c, keep, gone),
                    stamps.update(keep, time + 1),
                    time + 1,
                    (steps - 1) as nat,
                )
            },
        }
    }
}

/// No cluster has absorbed another yet.
pub open spec fn no_stamps(n: int) -> Seq<int> {
    Seq::new(n as nat, |i: int| 0int)
}

/// The mean colors of the active clusters `0..m`, in index order.
pub open spec fn cluster_means(points: Seq<Color>, c: Clusters, m: int) -> Seq<Color>
    decreases m,
{
    if m <= 0 {
        Seq::empty()
    } else {
        cluster_means(points, c, m - 1) + if c.active[m - 1] {
            seq![mean_color_of(c.members[m - 1].map_values(|k: usize| points[k as int]))]
        } else {
            Seq::empty()
        }
    }
}

/// The hierarchical palette of a list of pixels.
pub open spec fn hierarchical_of(pixels: Seq<Color>, count: int) -> Seq<Color> {
    if pixels.len() == 0 {
        black_palette(count)
    } else if count >= pixels.len() {
        padded_with_first(pixels, count)
    } else {
        let c = agglomerate(
            pixels,
            singletons(pixels.len() as int),
            no_stamps(pixels.len() as int),
            0,
            (pixels.len() - count) as nat,
        );
        cluster_means(pixels, c, pixels.len() as int)
    }
}

/// Number of active clusters among `0..m`.
pub open spec fn active_count(active: Seq<bool>, m: int) -> int
    decreases m,
{
    if m <= 0 {
        0
    } else {
        active_count(active, m - 1) + if active[m - 1] {
            1int
        } else {
            0int
        }
    }
}

proof fn lemma_point_link_concat(points: Seq<Color>, a: usize, x: Seq<usize>, y: Seq<usize>)
    ensures
        point_link(points, a, x + y) == if point_link(points, a, x) < point_link(points, a, y) {
            point_link(points, a, x)
        } else {
            point_link(points, a, y)
        },
    decreases y.len(),
{
    if y.len() == 0 {
        assert(x + y == x);
        lemma_point_link_bound(points, a, x);
    } else {
        lemma_point_link_concat(points, a, x, y.drop_last());
        assert((x + y).drop_last() == x + y.drop_last());
    }
}

proof fn lemma_point_link_bound(points: Seq<Color>, a: usize, x: Seq<usize>)
    ensures
        0 <= point_link(points, a, x) <= far(),
    decreases x.len(),
{
    if x.len() > 0 {
        lemma_point_link_bound(points, a, x.drop_last());
        let c1 = points[a as int];
        let c2 = points[x.last() as int];
        assert(0 <= sq_dist(c1, c2)) by (nonlinear_arith);
    }
}

proof fn lemma_link_bound(points: Seq<Color>, x: Seq<usize>, y: Seq<usize>)
    ensures
        0 <= link(points, x, y) <= far(),
    decreases x.len(),
{
    if x.len() > 0 {
        lemma_link_bound(points, x.drop_last(), y);
        lemma_point_link_bound(points, x.last(), y);
    }
}

/// Single linkage of a union on the left is the smaller of the linkages.
proof fn lemma_link_concat_left(points: Seq<Color>, x: Seq<usize>, y: Seq<usize>, k: Seq<usize>)
    ensures
        link(points, x + y, k) == if link(points, x, k) < link(points, y, k) {
            link(points, x, k)
        } else {
            link(points, y, k)
        },
    decreases y.len(),
{
    if y.len() == 0 {
        assert(x + y == x);
        lemma_link_bound(points, x, k);
    } else {
        lemma_link_concat_left(points, x, y.drop_last(), k);
        assert((x + y).drop_last() == x + y.drop_last());
    }
}

/// Single linkage of a union on the right is the smaller of the linkages.
proof fn lemma_link_concat_right(points: Seq<Color>, k: Seq<usize>, x: Seq<usize>, y: Seq<usize>)
    ensures
        link(points, k, x + y) == if link(points, k, x) < link(points, k, y) {
            link(points, k, x)
        } else {
            link(points, k, y)
        },
    decreases k.len(),
{
    if k.len() > 0 {
        lemma_link_concat_right(points, k.drop_last(), x, y);
        lemma_point_link_concat(points, k.last(), x, y);
    }
}

proof fn lemma_singleton_link(points: Seq<Color>, a: usize, b: usize)
    requires
        0 <= a < points.len(),
        0 <= b < points.len(),
    ensures
        link(points, seq![a], seq![b]) == sq_dist(points[a as int], points[b as int]),
{
    let c1 = points[a as int];
    let c2 = points[b as int];
    assert(sq_dist(c1, c2) <= 195075) by (nonlinear_arith)
        requires
            0 <= c1.r <= 255, 0 <= c1.g <= 255, 0 <= c1.b <= 255,
            0 <= c2.r <= 255, 0 <= c2.g <= 255, 0 <= c2.b <= 255,
    ;
    assert(0 <= sq_dist(c1, c2)) by (nonlinear_arith);
    assert(seq![a].drop_last() =~= Seq::<usize>::empty());
    assert(seq![b].drop_last() =~= Seq::<usize>::empty());
    reveal_with_fuel(point_link, 2);
    reveal_with_fuel(link, 2);
}

proof fn lemma_row_best(points: Seq<Color>, c: Clusters, i: int, m: int)
    ensures
        row_best(points, c, i, m) matches Some((d, j)) ==> i < j < m && c.active[i] && c.active[j] && d == link(
            points,
            c.members[i],
            c.members[j],
        ),
        (exists|j: int| 0 <= i < j < m && c.active[i] && #[trigger] c.active[j]) ==> row_best(points, c, i, m) is Some,
    decreases m,
{
    if m > 0 {
        lemma_row_best(points, c, i, m - 1);
        if exists|j: int| 0 <= i < j < m && c.active[i] && #[trigger] c.active[j] {
            let j = choose|j: int| 0 <= i < j < m && c.active[i] && #[trigger] c.active[j];
            if j < m - 1 {
                assert(row_best(points, c, i, m - 1) is Some);
            }
        }
    }
}

proof fn lemma_closest_pair(points: Seq<Color>, c: Clusters, m: int)
    requires
        m <= c.members.len(),
    ensures
        closest_pair(points, c, m) matches Some((d, i, j)) ==> 0 <= i < j < c.members.len() && i < m && c.active[i]
            && c.active[j] && d == link(points, c.members[i], c.members[j]),
        (exists|i: int, j: int| 0 <= i < j < c.members.len() && i < m && #[trigger] c.active[i] && #[trigger] c.active[j])
            ==> closest_pair(points, c, m) is Some,
    decreases m,
{
    if m > 0 {
        lemma_closest_pair(points, c, m - 1);
        lemma_row_best(points, c, m - 1, c.members.len() as int);
        if exists|i: int, j: int| 0 <= i < j < c.members.len() && i < m && #[trigger] c.active[i] && #[trigger] c.active[j] {
            let (i, j) = choose|i: int, j: int|
                0 <= i < j < c.members.len() && i < m && #[trigger] c.active[i] && #[trigger] c.active[j];
            if i < m - 1 {
            } else {
                assert(i < j < c.members.len() && c.active[i] && c.active[j]);
            }
        }
    }
}

proof fn lemma_two_active(active: Seq<bool>, m: int)
    requires
        0 <= m <= active.len(),
        active_count(active, m) >= 2,
    ensures
        exists|i: int, j: int| 0 <= i < j < m && #[trigger] active[i] && #[trigger] active[j],
    decreases m,
{
    if active_count(active, m - 1) >= 2 {
        lemma_two_active(active, m - 1);
        let (i, j) = choose|i: int, j: int| 0 <= i < j < m - 1 && #[trigger] active[i] && #[trigger] active[j];
        assert(0 <= i < j < m && active[i] && active[j]);
    } else {
        assert(active[m - 1]);
        lemma_one_active(active, m - 1);
        let i = choose|i: int| 0 <= i < m - 1 && #[trigger] active[i];
        assert(0 <= i < m - 1 < m && active[i] && active[m - 1]);
    }
}

proof fn lemma_one_active(active: Seq<bool>, m: int)
    requires
        0 <= m <= active.len(),
        active_count(active, m) >= 1,
    ensures
        exists|i: int| 0 <= i < m && #[trigger] active[i],
    decreases m,
{
    if active[m - 1] {
    } else {
        lemma_one_active(active, m - 1);
        let i = choose|i: int| 0 <= i < m - 1 && #[trigger] active[i];
    }
}

proof fn lemma_active_count_update(active: Seq<bool>, j: int, m: int)
    requires
        0 <= j < active.len(),
        active[j],
        0 <= m <= active.len(),
    ensures
        active_count(active.update(j, false), m) == active_count(active, m) - if j < m { 1int } else { 0int },
    decreases m,
{
    if m > 0 {
        lemma_active_count_update(active, j, m - 1);
    }
}

proof fn lemma_active_count_bound(active: Seq<bool>, m: int)
    requires
        0 <= m <= active.len(),
    ensures
        0 <= active_count(active, m) <= m,
    decreases m,
{
    if m > 0 {
        lemma_active_count_bound(active, m - 1);
    }
}

/// Total size of the active clusters among `0..m`.
pub open spec fn active_size(c: Clusters, m: int) -> int
    decreases m,
{
    if m <= 0 {
        0
    } else {
        active_size(c, m - 1) + if c.active[m - 1] {
            c.members[m - 1].len() as int
        } else {
            0int
        }
    }
}

proof fn lemma_active_size_member(c: Clusters, i: int, m: int)
    requires
        0 <= i < m,
        c.active[i],
    ensures
        c.members[i].len() <= active_size(c, m),
    decreases m,
{
    if i < m - 1 {
        lemma_active_size_member(c, i, m - 1);
        lemma_active_size_nonneg(c, m - 1);
    } else {
        lemma_active_size_nonneg(c, m - 1);
    }
}

proof fn lemma_active_size_nonneg(c: Clusters, m: int)
    ensures
        active_size(c, m) >= 0,
    decreases m,
{
    if m > 0 {
        lemma_active_size_nonneg(c, m - 1);
    }
}

proof fn lemma_active_size_merge(c: Clusters, i: int, j: int, m: int)
    requires
        0 <= i < c.members.len(),
        0 <= j < c.members.len(),
        i != j,
        c.active[i],
        c.active[j],
        c.members.len() == c.active.len(),
        0 <= m <= c.members.len(),
    ensures
        active_size(merge_clusters(c, i, j), m) == active_size(c, m) - (if j < m { c.members[j].len() as int } else { 0int })
            + (if i < m { c.members[j].len() as int } else { 0int }),
    decreases m,
{
    if m > 0 {
        lemma_active_size_merge(c, i, j, m - 1);
    }
}

/// The clusters held by the member lists and activity flags.
pub open spec fn clusters_view(members: Seq<Vec<usize>>, active: Seq<bool>) -> Clusters {
    Clusters { members: members.map_values(|v: Vec<usize>| v@), active }
}

/// Squared RGB distance of two colors.
fn squared_distance(a: &Color, b: &Color) -> (d: u32)
    ensures
        d as int == sq_dist(*a, *b),
{
    let dr: i32 = a.r as i32 - b.r as i32;
    let dg: i32 = a.g as i32 - b.g as i32;
    let db: i32 = a.b as i32 - b.b as i32;
    assert(0 <= dr * dr <= 65025) by (nonlinear_arith)
        requires
            -255 <= dr <= 255,
    ;
    assert(0 <= dg * dg <= 65025) by (nonlinear_arith)
        requires
            -255 <= dg <= 255,
    ;
    assert(0 <= db * db <= 65025) by (nonlinear_arith)
        requires
            -255 <= db <= 255,
    ;
    (dr * dr + dg * dg + db * db) as u32
}

/// `colors` cut to `count` entries or padded with copies of the first.
fn pad_with_first(colors: &Vec<Color>, count: usize) -> (v: Vec<Color>)
    requires
        colors@.len() > 0,
    ensures
        v@ == padded_with_first(colors@, count as int),
{
    let mut out: Vec<Color> = Vec::new();
    let mut i: usize = 0;
    while i < colors.len() && i < count
        invariant
            i <= colors@.len(),
            i <= count,
            out@ == colors@.take(i as int),
        decreases colors@.len() - i,
    {
        out.push(colors[i]);
        proof {
            assert(out@ =~= colors@.take(i as int + 1));
        }
        i = i + 1;
    }
    let first = colors[0];
    let ghost kept = out@;
    while out.len() < count
        invariant
            kept == colors@.take(i as int),
            i == colors@.len() || i == count,
            i <= colors@.len(),
            i <= count,
            out@.len() == kept.len() || out@.len() <= count,
            kept == out@.take(kept.len() as int),
            kept.len() <= out@.len(),
            forall|j: int| kept.len() <= j < out@.len() ==> #[trigger] out@[j] == first,
            first == colors@[0],
        decreases count - out@.len(),
    {
        out.push(first);
        proof {
            assert(kept =~= out@.take(kept.len() as int));
        }
    }
    proof {
        if colors@.len() >= count {
            assert(kept == colors@.take(count as int));
            assert(out@ =~= padded_with_first(colors@, count as int));
        } else {
            assert(kept == colors@.take(colors@.len() as int));
            assert(colors@.take(colors@.len() as int) == colors@);
            assert(out@ =~= padded_with_first(colors@, count as int));
        }
    }
    out
}

/// The distance table holds the single linkage of every two distinct
/// active clusters.
pub open spec fn table_holds(points: Seq<Color>, c: Clusters, dist: Seq<Vec<u32>>) -> bool {
    &&& dist.len() == c.members.len()
    &&& forall|i: int| 0 <= i < dist.len() ==> (#[trigger] dist[i])@.len() == c.members.len()
    &&& forall|i: int, j: int|
        0 <= i < c.members.len() && 0 <= j < c.members.len() && i != j && c.active[i] && c.active[j] ==> #[trigger] dist[i]@[j]
            as int == link(points, c.members[i], c.members[j])
}

/// The clusters partition the points: every member is a point index and
/// the active clusters hold `points.len()` members in all.
pub open spec fn well_clustered(points: Seq<Color>, c: Clusters) -> bool {
    &&& c.members.len() == points.len()
    &&& c.active.len() == points.len()
    &&& forall|i: int, k: int|
        0 <= i < c.members.len() && 0 <= k < c.members[i].len() ==> #[trigger] c.members[i][k] < points.len()
    &&& forall|i: int| 0 <= i < c.members.len() && #[trigger] c.active[i] ==> c.members[i].len() > 0
    &&& active_size(c, c.members.len() as int) == points.len()
}

/// The closest pair of active clusters, as [`closest_pair`] picks it.
fn find_closest(dist: &Vec<Vec<u32>>, active: &Vec<bool>, Ghost(points): Ghost<Seq<Color>>, Ghost(c): Ghost<Clusters>) -> (r: (
    bool,
    u32,
    usize,
    usize,
))
    requires
        table_holds(points, c, dist@),
        c.active == active@,
        c.members.len() == active@.len(),
    ensures
        r.0 == closest_pair(points, c, c.members.len() as int) is Some,
        r.0 ==> closest_pair(points, c, c.members.len() as int) == Some((r.1 as int, r.2 as int, r.3 as int)),
{
    let n = active.len();
    let mut found = false;
    let mut best_d: u32 = 0;
    let mut bi: usize = 0;
    let mut bj: usize = 0;
    let mut i: usize = 0;
    while i < n
        invariant
            n == c.members.len(),
            n == active@.len(),
            table_holds(points, c, dist@),
            c.active == active@,
            i <= n,
            found == closest_pair(points, c, i as int) is Some,
            found ==> closest_pair(points, c, i as int) == Some((best_d as int, bi as int, bj as int)),
        decreases n - i,
    {
        let mut rfound = false;
        let mut rd: u32 = 0;
        let mut rj: usize = 0;
        let mut j: usize = 0;
        while j < n
            invariant
                n == c.members.len(),
                n == active@.len(),
                table_holds(points, c, dist@),
                c.active == active@,
                i < n,
                j <= n,
                rfound == row_best(points, c, i as int, j as int) is Some,
                rfound ==> row_best(points, c, i as int, j as int) == Some((rd as int, rj as int)),
            decreases n - j,
        {
            if i < j && active[i] && active[j] {
                let d = dist[i][j];
                assert(d as int == link(points, c.members[i as int], c.members[j as int]));
                if !rfound || d < rd {
                    rfound = true;
                    rd = d;
                    rj = j;
                }
            }
            j = j + 1;
        }
        if rfound && (!found || rd < best_d) {
            found = true;
            best_d = rd;
            bi = i;
            bj = rj;
        }
        i = i + 1;
    }
    (found, best_d, bi, bj)
}

/// Merge cluster `j` into cluster `i` (`i != j`): the table gets the linkage of the
/// union, the members of `j` are appended to those of `i`, and `j` leaves
/// play.
fn merge_into(
    dist: &mut Vec<Vec<u32>>,
    members: &mut Vec<Vec<usize>>,
    active: &mut Vec<bool>,
    i: usize,
    j: usize,
    Ghost(points): Ghost<Seq<Color>>,
)
    requires
        table_holds(points, clusters_view(old(members)@, old(active)@), old(dist)@),
        well_clustered(points, clusters_view(old(members)@, old(active)@)),
        i < old(members)@.len(),
        j < old(members)@.len(),
        i != j,
        old(active)@[i as int],
        old(active)@[j as int],
    ensures
        clusters_view(final(members)@, final(active)@) == merge_clusters(clusters_view(old(members)@, old(active)@), i as int, j as int),
        table_holds(points, clusters_view(final(members)@, final(active)@), final(dist)@),
        well_clustered(points, clusters_view(final(members)@, final(active)@)),
{
    let ghost c = clusters_view(members@, active@);
    let n = active.len();
    let mut k: usize = 0;
    while k < n
        invariant
            n == c.members.len(),
            n == active@.len(),
            c == clusters_view(members@, active@),
            i < n,
            j < n,
            i != j,
            c.active[i as int],
            c.active[j as int],
            dist@.len() == n,
            forall|a: int| 0 <= a < n ==> (#[trigger] dist@[a])@.len() == n,
            k <= n,
            forall|a: int, b: int|
                0 <= a < n && 0 <= b < n && a != b && c.active[a] && c.active[b] && a != i && b != i ==> #[trigger] dist@[a]@[b] as int
                    == link(points, c.members[a], c.members[b]),
            forall|b: int|
                0 <= b < n && b != i && b != j && c.active[b] ==> #[trigger] dist@[i as int]@[b] as int == if b < k {
                    link(points, c.members[i as int] + c.members[j as int], c.members[b])
                } else {
                    link(points, c.members[i as int], c.members[b])
                },
            forall|a: int|
                0 <= a < n && a != i && a != j && c.active[a] ==> #[trigger] dist@[a]@[i as int] as int == if a < k {
                    link(points, c.members[a], c.members[i as int] + c.members[j as int])
                } else {
                    link(points, c.members[a], c.members[i as int])
                },
        decreases n - k,
    {
        if active[k] && k != i && k != j {
            let x = dist[i][k];
            let y = dist[j][k];
            let m = if x < y { x } else { y };
            proof {
                lemma_link_concat_left(points, c.members[i as int], c.members[j as int], c.members[k as int]);
            }
            dist[i].set(k, m);
            let x2 = dist[k][i];
            let y2 = dist[k][j];
            let m2 = if x2 < y2 { x2 } else { y2 };
            proof {
                lemma_link_concat_right(points, c.members[k as int], c.members[i as int], c.members[j as int]);
            }
            dist[k].set(i, m2);
        }
        k = k + 1;
    }
    let moved_len = members[j].len();
    let mut t: usize = 0;
    while t < moved_len
        invariant
            n == c.members.len(),
            members@.len() == n,
            i < n,
            j < n,
            i != j,
            moved_len == c.members[j as int].len(),
            t <= moved_len,
            forall|a: int| 0 <= a < n && a != i ==> (#[trigger] members@[a])@ == c.members[a],
            members@[i as int]@ == c.members[i as int] + c.members[j as int].take(t as int),
            active@ == c.active,
        decreases moved_len - t,
    {
        let v = members[j][t];
        members[i].push(v);
        proof {
            assert(members@[i as int]@ =~= c.members[i as int] + c.members[j as int].take(t as int + 1));
        }
        t = t + 1;
    }
    active.set(j, false);
    proof {
        assert(c.members[j as int].take(moved_len as int) == c.members[j as int]);
        let after = merge_clusters(c, i as int, j as int);
        assert(clusters_view(members@, active@).members =~= after.members);
        assert(clusters_view(members@, active@) == after);
        assert forall|a: int, b: int|
            0 <= a < n && 0 <= b < n && a != b && after.active[a] && after.active[b] implies #[trigger] dist@[a]@[b] as int
            == link(points, after.members[a], after.members[b]) by {
        }
        lemma_active_size_merge(c, i as int, j as int, n as int);
        assert forall|a: int, x: int| 0 <= a < after.members.len() && 0 <= x < after.members[a].len() implies #[trigger] after.members[a][x]
            < points.len() by {
            if a == i && x >= c.members[i as int].len() {
                assert(after.members[a][x] == c.members[j as int][x - c.members[i as int].len()]);
            }
        }
    }
}

proof fn lemma_singletons(points: Seq<Color>)
    ensures
        well_clustered(points, singletons(points.len() as int)),
{
    let c = singletons(points.len() as int);
    lemma_singletons_size(c, points.len() as int);
}

proof fn lemma_singletons_size(c: Clusters, m: int)
    requires
        0 <= m <= c.members.len(),
        c.members.len() == c.active.len(),
        forall|i: int| 0 <= i < c.members.len() ==> #[trigger] c.active[i] && c.members[i].len() == 1,
    ensures
        active_size(c, m) == m,
        active_count(c.active, m) == m,
    decreases m,
{
    if m > 0 {
        lemma_singletons_size(c, m - 1);
    }
}

/// The mean colors of the active clusters, in index order.
fn means_of(pixels: &Vec<Color>, members: &Vec<Vec<usize>>, active: &Vec<bool>) -> (v: Vec<Color>)
    requires
        well_clustered(pixels@, clusters_view(members@, active@)),
        pixels@.len() <= 0x100_0000,
    ensures
        v@ == cluster_means(pixels@, clusters_view(members@, active@), pixels@.len() as int),
{
    let ghost c = clusters_view(members@, active@);
    let n = pixels.len();
    let mut out: Vec<Color> = Vec::new();
    let mut i: usize = 0;
    while i < n
        invariant
            n == pixels@.len(),
            n == members@.len(),
            n == active@.len(),
            n <= 0x100_0000,
            c == clusters_view(members@, active@),
            well_clustered(pixels@, c),
            i <= n,
            out@ == cluster_means(pixels@, c, i as int),
        decreases n - i,
    {
        if active[i] {
            let group = &members[i];
            assert(group@ == c.members[i as int]);
            let mut colors: Vec<Color> = Vec::new();
            let mut t: usize = 0;
            while t < group.len()
                invariant
                    n == pixels@.len(),
                    i < n,
                    group@ == c.members[i as int],
                    well_clustered(pixels@, c),
                    t <= group@.len(),
                    colors@ == group@.take(t as int).map_values(|k: usize| pixels@[k as int]),
                decreases group@.len() - t,
            {
                let k = group[t];
                assert(k < pixels@.len());
                colors.push(pixels[k]);
                proof {
                    assert(colors@ =~= group@.take(t as int + 1).map_values(|k: usize| pixels@[k as int]));
                }
                t = t + 1;
            }
            proof {
                assert(group@.take(group@.len() as int) == group@);
                lemma_active_size_member(c, i as int, n as int);
            }
            let mean = mean_color(&colors);
            out.push(mean);
        }
        proof {
            assert(out@ =~= cluster_means(pixels@, c, i as int + 1));
        }
        i = i + 1;
    }
    out
}

/// Agglomerative single-linkage clustering of the sampled opaque pixels (at
/// most 2000): clusters are merged, closest pair first, until `color_count`
/// remain, and the palette is their mean colors in index order. With no
/// more pixels than colors wanted, the pixels themselves are the palette,
/// padded with copies of the first; an image without opaque pixels gives
/// `max(color_count, 1)` black colors.
pub fn hierarchical(image: &RgbaImage, color_count: usize) -> (palette: Palette)
    requires
        image.wf(),
        color_count > 0 || hierarchy_samples(image).len() == 0,
    ensures
        palette.colors@ == hierarchical_of(hierarchy_samples(image), color_count as int),
{
    let pixels = sample_colors(image, HIERARCHY_SAMPLES);
    if pixels.len() == 0 {
        return Palette::new(black_palette_vec(color_count));
    }
    if color_count >= pixels.len() {
        return Palette::new(pad_with_first(&pixels, color_count));
    }
    let ghost points = pixels@;
    let n = pixels.len();
    let mut members: Vec<Vec<usize>> = Vec::new();
    let mut active: Vec<bool> = Vec::new();
    let mut dist: Vec<Vec<u32>> = Vec::new();
    let mut i: usize = 0;
    while i < n
        invariant
            n == points.len(),
            pixels@ == points,
            n <= HIERARCHY_SAMPLES,
            i <= n,
            members@.len() == i,
            active@.len() == i,
            dist@.len() == i,
            forall|a: int| 0 <= a < i ==> (#[trigger] members@[a])@ == seq![a as usize],
            forall|a: int| 0 <= a < i ==> #[trigger] active@[a],
            forall|a: int| 0 <= a < i ==> (#[trigger] dist@[a])@.len() == n,
            forall|a: int, b: int| 0 <= a < i && 0 <= b < n ==> #[trigger] dist@[a]@[b] as int == sq_dist(points[a], points[b]),
        decreases n - i,
    {
        let mut row: Vec<u32> = Vec::new();
        let mut j: usize = 0;
        while j < n
            invariant
                n == points.len(),
                pixels@ == points,
                i < n,
                j <= n,
                row@.len() == j,
                forall|b: int| 0 <= b < j ==> #[trigger] row@[b] as int == sq_dist(points[i as int], points[b]),
            decreases n - j,
        {
            let d = squared_distance(&pixels[i], &pixels[j]);
            row.push(d);
            j = j + 1;
        }
        dist.push(row);
        members.push(vec![i]);
        active.push(true);
        proof {
            assert(members@[i as int]@ =~= seq![i as usize]);
        }
        i = i + 1;
    }
    proof {
        let c0 = singletons(n as int);
        assert(clusters_view(members@, active@).members =~= c0.members);
        assert(clusters_view(members@, active@).active =~= c0.active);
        lemma_singletons(points);
        lemma_singletons_size(c0, n as int);
        assert forall|a: int, b: int|
            0 <= a < n && 0 <= b < n && a != b && c0.active[a] && c0.active[b] implies #[trigger] dist@[a]@[b] as int == link(
            points,
            c0.members[a],
            c0.members[b],
        ) by {
            lemma_singleton_link(points, a as usize, b as usize);
        }
    }
    let ghost goal = agglomerate(points, singletons(n as int), no_stamps(n as int), 0, (n - color_count) as nat);
    let mut stamps: Vec<usize> = Vec::new();
    let mut s: usize = 0;
    while s < n
        invariant
            s <= n,
            stamps@.len() == s,
            forall|a: int| 0 <= a < s ==> #[trigger] stamps@[a] == 0,
        decreases n - s,
    {
        stamps.push(0);
        s = s + 1;
    }
    proof {
        assert(stamps@.map_values(|t: usize| t as int) =~= no_stamps(n as int));
    }
    let mut time: usize = 0;
    let mut remaining: usize = n;
    while remaining > color_count
        invariant
            n == points.len(),
            n <= HIERARCHY_SAMPLES,
            pixels@ == points,
            color_count < n,
            color_count > 0,
            color_count <= remaining <= n,
            well_clustered(points, clusters_view(members@, active@)),
            table_holds(points, clusters_view(members@, active@), dist@),
            remaining == active_count(active@, n as int),
            stamps@.len() == n,
            time == n - remaining,
            agglomerate(
                points,
                clusters_view(members@, active@),
                stamps@.map_values(|t: usize| t as int),
                time as int,
                (remaining - color_count) as nat,
            ) == goal,
        decreases remaining,
    {
        let ghost c = clusters_view(members@, active@);
        proof {
            lemma_two_active(active@, n as int);
            lemma_closest_pair(points, c, n as int);
        }
        let (found, d, bi, bj) = find_closest(&dist, &active, Ghost(points), Ghost(c));
        assert(found);
        let (keep, gone) = if stamps[bi] > stamps[bj] {
            (bi, bj)
        } else {
            (bj, bi)
        };
        merge_into(&mut dist, &mut members, &mut active, keep, gone, Ghost(points));
        proof {
            lemma_active_count_update(c.active, gone as int, n as int);
        }
        time = time + 1;
        let ghost before = stamps@;
        stamps.set(keep, time);
        proof {
            assert(stamps@.map_values(|t: usize| t as int) =~= before.map_values(|t: usize| t as int).update(
                keep as int,
                time as int,
            ));
        }
        remaining = remaining - 1;
    }
    proof {
        lemma_active_count_bound(active@, n as int);
    }
    let colors = means_of(&pixels, &members, &active);
    Palette::new(colors)
}

proof fn lemma_means_len(points: Seq<Color>, c: Clusters, m: int)
    requires
        0 <= m,
    ensures
        cluster_means(points, c, m).len() == active_count(c.active, m),
    decreases m,
{
    if m > 0 {
        lemma_means_len(points, c, m - 1);
    }
}

proof fn lemma_agglomerate_count(points: Seq<Color>, c: Clusters, stamps: Seq<int>, time: int, steps: nat)
    requires
        c.members.len() == c.active.len(),
        stamps.len() == c.members.len(),
        active_count(c.active, c.active.len() as int) > steps,
    ensures
        agglomerate(points, c, stamps, time, steps).members.len() == c.members.len(),
        agglomerate(points, c, stamps, time, steps).active.len() == c.active.len(),
        active_count(agglomerate(points, c, stamps, time, steps).active, c.active.len() as int) == active_count(
            c.active,
            c.active.len() as int,
        ) - steps,
    decreases steps,
{
    if steps > 0 {
        let n = c.active.len() as int;
        lemma_two_active(c.active, n);
        lemma_closest_pair(points, c, n);
        let (d, i, j) = closest_pair(points, c, n).unwrap();
        let keep = keeper(stamps, i, j);
        let gone = if keep == i { j } else { i };
        lemma_active_count_update(c.active, gone, n);
        lemma_agglomerate_count(
            points,
            merge_clusters(c, keep, gone),
            stamps.update(keep, time + 1),
            time + 1,
            (steps - 1) as nat,
        );
    }
}

/// The hierarchical palette has exactly `count` colors; for an image
/// without opaque pixels it is `max(count, 1)` black colors.
pub proof fn law_hierarchical_size(pixels: Seq<Color>, count: int)
    requires
        count > 0 || pixels.len() == 0,
    ensures
        hierarchical_of(pixels, count).len() == if pixels.len() == 0 && count <= 0 { 1 } else { count },
{
    if pixels.len() > 0 && count < pixels.len() {
        let c = singletons(pixels.len() as int);
        lemma_singletons_size(c, pixels.len() as int);
        let stamps = no_stamps(pixels.len() as int);
        lemma_agglomerate_count(pixels, c, stamps, 0, (pixels.len() - count) as nat);
        let done = agglomerate(pixels, c, stamps, 0, (pixels.len() - count) as nat);
        lemma_means_len(pixels, done, pixels.len() as int);
    }
}

/// The point indices held by the active clusters among `0..m`, counted
/// with their multiplicity.
pub open spec fn active_members(c: Clusters, m: int) -> vstd::multiset::Multiset<usize>
    decreases m,
{
    if m <= 0 {
        vstd::multiset::Multiset::empty()
    } else {
        active_members(c, m - 1).add(
            if c.active[m - 1] {
                c.members[m - 1].to_multiset()
            } else {
                vstd::multiset::Multiset::empty()
            },
        )
    }
}

/// Every point index `0..n` exactly once.
pub open spec fn all_indices(n: int) -> vstd::multiset::Multiset<usize> {
    Seq::new(n as nat, |k: int| k as usize).to_multiset()
}

proof fn lemma_singletons_members(n: int, m: int)
    requires
        0 <= m <= n,
    ensures
        active_members(singletons(n), m) == Seq::new(m as nat, |k: int| k as usize).to_multiset(),
    decreases m,
{
    broadcast use vstd::seq_lib::to_multiset_build, vstd::multiset::group_multiset_axioms;

    let c = singletons(n);
    if m == 0 {
        let none = Seq::new(0, |k: int| k as usize);
        vstd::seq_lib::to_multiset_len(none);
        vstd::multiset::lemma_multiset_empty_len(none.to_multiset());
        assert(active_members(c, 0) =~= none.to_multiset());
    } else {
        lemma_singletons_members(n, m - 1);
        let prev = Seq::new((m - 1) as nat, |k: int| k as usize);
        let k = (m - 1) as usize;
        assert(Seq::new(m as nat, |k: int| k as usize) =~= prev.push(k));
        let empty = Seq::<usize>::empty();
        vstd::seq_lib::to_multiset_len(empty);
        vstd::multiset::lemma_multiset_empty_len(empty.to_multiset());
        assert(seq![k] =~= empty.push(k));
        assert(c.members[m - 1] == seq![k]);
        assert(c.members[m - 1].to_multiset() =~= vstd::multiset::Multiset::<usize>::empty().insert(k));
        assert(active_members(c, m) =~= prev.to_multiset().insert(k));
    }
}

/// Merging moves the members of `j` to `i` and keeps the multiset of all
/// active members: shown here for every prefix `0..m`, with the moved
/// members added on the side that has not seen them yet.
proof fn lemma_merge_members(c: Clusters, i: int, j: int, m: int)
    requires
        c.members.len() == c.active.len(),
        0 <= i < c.members.len(),
        0 <= j < c.members.len(),
        i != j,
        c.active[i],
        c.active[j],
        0 <= m <= c.members.len(),
    ensures
        active_members(merge_clusters(c, i, j), m).add(
            if j < m { c.members[j].to_multiset() } else { vstd::multiset::Multiset::empty() },
        ) == active_members(c, m).add(
            if i < m { c.members[j].to_multiset() } else { vstd::multiset::Multiset::empty() },
        ),
    decreases m,
{
    broadcast use vstd::seq_lib::lemma_multiset_commutative, vstd::multiset::group_multiset_axioms;

    let d = merge_clusters(c, i, j);
    let mj = c.members[j].to_multiset();
    let e = vstd::multiset::Multiset::<usize>::empty();
    if m == 0 {
        assert(active_members(d, 0).add(e) =~= active_members(c, 0).add(e));
    } else {
        lemma_merge_members(c, i, j, m - 1);
        let k = m - 1;
        if k == i {
            assert((c.members[i] + c.members[j]).to_multiset() =~= c.members[i].to_multiset().add(mj));
        } else if k != j {
            assert(d.active[k] == c.active[k]);
            assert(d.members[k] == c.members[k]);
        }
        let a = active_members(d, k);
        let b = active_members(c, k);
        let xd = if d.active[k] { d.members[k].to_multiset() } else { e };
        let xc = if c.active[k] { c.members[k].to_multiset() } else { e };
        let before_d = if j < k { mj } else { e };
        let before_c = if i < k { mj } else { e };
        let after_d = if j < m { mj } else { e };
        let after_c = if i < m { mj } else { e };
        assert(active_members(d, m) == a.add(xd));
        assert(active_members(c, m) == b.add(xc));
        assert(a.add(before_d) == b.add(before_c));
        assert forall|v: usize| #[trigger] a.add(xd).add(after_d).count(v) == b.add(xc).add(after_c).count(v) by {
            assert(a.add(before_d).count(v) == b.add(before_c).count(v));
            assert(e.count(v) == 0);
        }
        assert(a.add(xd).add(after_d) =~= b.add(xc).add(after_c));
    }
}

proof fn lemma_agglomerate_members(points: Seq<Color>, c: Clusters, stamps: Seq<int>, time: int, steps: nat)
    requires
        c.members.len() == c.active.len(),
        stamps.len() == c.members.len(),
    ensures
        active_members(agglomerate(points, c, stamps, time, steps), c.members.len() as int) == active_members(
            c,
            c.members.len() as int,
        ),
        agglomerate(points, c, stamps, time, steps).members.len() == c.members.len(),
    decreases steps,
{
    broadcast use vstd::multiset::group_multiset_axioms;

    if steps > 0 {
        let n = c.members.len() as int;
        lemma_closest_pair(points, c, n);
        match closest_pair(points, c, n) {
            None => {},
            Some((d, i, j)) => {
                let keep = keeper(stamps, i, j);
                let gone = if keep == i { j } else { i };
                lemma_merge_members(c, keep, gone, n);
                let moved = c.members[gone].to_multiset();
                let merged = active_members(merge_clusters(c, keep, gone), n);
                let before = active_members(c, n);
                assert(merged.add(moved) == before.add(moved));
                assert forall|v: usize| #[trigger] merged.count(v) == before.count(v) by {
                    assert(merged.add(moved).count(v) == before.add(moved).count(v));
                }
                assert(merged =~= before);
                lemma_agglomerate_members(
                    points,
                    merge_clusters(c, keep, gone),
                    stamps.update(keep, time + 1),
                    time + 1,
                    (steps - 1) as nat,
                );
            },
        }
    }
}

/// The clusters left after any number of merges partition the samples:
/// together the active clusters hold every sample index exactly once.
pub proof fn law_clusters_partition(points: Seq<Color>, steps: nat)
    ensures
        active_members(
            agglomerate(points, singletons(points.len() as int), no_stamps(points.len() as int), 0, steps),
            points.len() as int,
        ) == all_indices(points.len() as int),
{
    let n = points.len() as int;
    lemma_agglomerate_members(points, singletons(n), no_stamps(n), 0, steps);
    lemma_singletons_members(n, n);
}

} // verus!
