//! Iterative k-means clustering of pixels in (r, g, b) space.

use crate::color_cluster::{mean_rgb, ColorCluster};
use crate::colors::sum_lens;
use crate::rgb::{dist_sq, dist_sq_exec, Rgb};
use vstd::arithmetic::div_mod::{lemma_div_pos_is_pos, lemma_multiply_divide_lt};
use vstd::prelude::*;

verus! {

/// The index of the nearest of the first `i` centroids, ties resolving to
/// the lowest index: a later centroid replaces the running best only when
/// it is strictly nearer.
pub open spec fn nearest_idx_prefix(cents: Seq<Rgb>, p: Rgb, i: int) -> int
    decreases i,
{
    if i <= 1 {
        0
    } else {
        let prev = nearest_idx_prefix(cents, p, i - 1);
        if dist_sq(cents[i - 1], p) < dist_sq(cents[prev], p) {
            i - 1
        } else {
            prev
        }
    }
}

/// The index of the nearest centroid, ties resolving to the lowest index.
pub open spec fn nearest_idx(cents: Seq<Rgb>, p: Rgb) -> int {
    nearest_idx_prefix(cents, p, cents.len() as int)
}

/// The nearest-centroid index of a prefix is a minimiser over that prefix,
/// and the first index to attain the minimum.
pub proof fn lemma_nearest_idx_prefix_ensures(cents: Seq<Rgb>, p: Rgb, i: int)
    requires
        1 <= i <= cents.len(),
    ensures
        0 <= nearest_idx_prefix(cents, p, i) < i,
        forall|j: int|
            0 <= j < i ==> dist_sq(cents[nearest_idx_prefix(cents, p, i)], p) <= #[trigger] dist_sq(
                cents[j],
                p,
            ),
        forall|j: int|
            0 <= j < nearest_idx_prefix(cents, p, i) ==> #[trigger] dist_sq(cents[j], p)
                > dist_sq(cents[nearest_idx_prefix(cents, p, i)], p),
    decreases i,
{
    if i > 1 {
        lemma_nearest_idx_prefix_ensures(cents, p, i - 1);
    }
}

/// The nearest-centroid index points at the first centroid of minimal
/// distance to the sample.
pub proof fn lemma_nearest_idx_ensures(cents: Seq<Rgb>, p: Rgb)
    requires
        cents.len() >= 1,
    ensures
        0 <= nearest_idx(cents, p) < cents.len(),
        forall|j: int|
            0 <= j < cents.len() ==> dist_sq(cents[nearest_idx(cents, p)], p) <= #[trigger] dist_sq(
                cents[j],
                p,
            ),
        forall|j: int|
            0 <= j < nearest_idx(cents, p) ==> #[trigger] dist_sq(cents[j], p) > dist_sq(
                cents[nearest_idx(cents, p)],
                p,
            ),
{
    lemma_nearest_idx_prefix_ensures(cents, p, cents.len() as int);
}

/// The pixels whose nearest centroid is the one at index `j`, in pixel
/// order.
pub open spec fn assigned(pixels: Seq<Rgb>, cents: Seq<Rgb>, j: int) -> Seq<Rgb>
    decreases pixels.len(),
{
    if pixels.len() == 0 {
        Seq::empty()
    } else {
        let rest = assigned(pixels.drop_last(), cents, j);
        if nearest_idx(cents, pixels.last()) == j {
            rest.push(pixels.last())
        } else {
            rest
        }
    }
}

/// Total size of the first `j` assignment groups.
pub open spec fn sum_assigned_lens(pixels: Seq<Rgb>, cents: Seq<Rgb>, j: int) -> int
    decreases j,
{
    if j <= 0 {
        0
    } else {
        sum_assigned_lens(pixels, cents, j - 1) + assigned(pixels, cents, j - 1).len()
    }
}

/// Appending one pixel grows exactly the group of its nearest centroid.
proof fn lemma_sum_assigned_step(pixels: Seq<Rgb>, cents: Seq<Rgb>, j: int)
    requires
        pixels.len() >= 1,
    ensures
        sum_assigned_lens(pixels, cents, j) == sum_assigned_lens(pixels.drop_last(), cents, j) + (
        if 0 <= nearest_idx(cents, pixels.last()) < j {
            1int
        } else {
            0int
        }),
    decreases j,
{
    if j > 0 {
        lemma_sum_assigned_step(pixels, cents, j - 1);
    }
}

/// With no pixels, every assignment group is empty.
proof fn lemma_sum_assigned_empty(pixels: Seq<Rgb>, cents: Seq<Rgb>, j: int)
    requires
        pixels.len() == 0,
    ensures
        sum_assigned_lens(pixels, cents, j) == 0,
    decreases j,
{
    if j > 0 {
        lemma_sum_assigned_empty(pixels, cents, j - 1);
    }
}

/// The assignment groups partition the pixel sequence: their sizes sum to
/// the number of pixels.
pub proof fn lemma_assigned_partition(pixels: Seq<Rgb>, cents: Seq<Rgb>)
    requires
        cents.len() >= 1,
    ensures
        sum_assigned_lens(pixels, cents, cents.len() as int) == pixels.len(),
    decreases pixels.len(),
{
    if pixels.len() == 0 {
        lemma_sum_assigned_empty(pixels, cents, cents.len() as int);
    } else {
        lemma_assigned_partition(pixels.drop_last(), cents);
        lemma_nearest_idx_ensures(cents, pixels.last());
        lemma_sum_assigned_step(pixels, cents, cents.len() as int);
    }
}

/// Every pixel in an assignment group comes from the input sequence.
pub proof fn lemma_assigned_contains(pixels: Seq<Rgb>, cents: Seq<Rgb>, j: int)
    ensures
        forall|m: Rgb| #[trigger]
            assigned(pixels, cents, j).contains(m) ==> pixels.contains(m),
    decreases pixels.len(),
{
    if pixels.len() > 0 {
        lemma_assigned_contains(pixels.drop_last(), cents, j);
        let a = assigned(pixels, cents, j);
        let rest = assigned(pixels.drop_last(), cents, j);
        assert forall|m: Rgb| a.contains(m) implies pixels.contains(m) by {
            let t = choose|t: int| 0 <= t < a.len() && a[t] == m;
            if nearest_idx(cents, pixels.last()) == j && t == a.len() - 1 {
                assert(pixels[pixels.len() - 1] == m);
            } else {
                assert(rest[t] == m);
                assert(rest.contains(m));
                let i = choose|i: int| 0 <= i < pixels.len() - 1 && pixels.drop_last()[i] == m;
                assert(pixels[i] == m);
            }
        }
    }
}

/// Computes the index of the nearest centroid to a sample, ties resolving
/// to the lowest index.
pub fn nearest_index(cents: &Vec<Rgb>, p: &Rgb) -> (r: usize)
    requires
        cents@.len() >= 1,
    ensures
        r as int == nearest_idx(cents@, *p),
        r < cents@.len(),
{
    let mut best: usize = 0;
    let mut best_d = dist_sq_exec(&cents[0], p);
    for i in 1..cents.len()
        invariant
            cents@.len() >= 1,
            best < i,
            best as int == nearest_idx_prefix(cents@, *p, i as int),
            best_d as int == dist_sq(cents@[best as int], *p),
    {
        let d = dist_sq_exec(&cents[i], p);
        if d < best_d {
            best = i;
            best_d = d;
        }
    }
    best
}

/// Computes, for each pixel, the index of its nearest centroid.
pub fn assign_labels(pixels: &Vec<Rgb>, cents: &Vec<Rgb>) -> (r: Vec<usize>)
    requires
        cents@.len() >= 1,
    ensures
        r@.len() == pixels@.len(),
        forall|i: int|
            0 <= i < r@.len() ==> r@[i] as int == nearest_idx(cents@, pixels@[i]),
{
    let mut out: Vec<usize> = Vec::new();
    for i in 0..pixels.len()
        invariant
            cents@.len() >= 1,
            out@.len() == i,
            forall|j: int|
                0 <= j < i ==> out@[j] as int == nearest_idx(cents@, pixels@[j]),
    {
        out.push(nearest_index(cents, &pixels[i]));
    }
    out
}

/// Groups the pixels by their labels: cluster `j` is seeded with centroid
/// `cents[j]` and holds exactly the pixels nearest to it, in pixel order.
pub fn group_pixels(pixels: &Vec<Rgb>, labels: &Vec<usize>, cents: &Vec<Rgb>) -> (r: Vec<
    ColorCluster,
>)
    requires
        cents@.len() >= 1,
        labels@.len() == pixels@.len(),
        forall|i: int|
            0 <= i < labels@.len() ==> labels@[i] as int == nearest_idx(cents@, pixels@[i]),
    ensures
        r@.len() == cents@.len(),
        forall|j: int| 0 <= j < r@.len() ==> #[trigger] r@[j].centroid == cents@[j],
        forall|j: int|
            0 <= j < r@.len() ==> #[trigger] r@[j].data@ == assigned(pixels@, cents@, j),
{
    let mut clusters: Vec<ColorCluster> = Vec::new();
    for j in 0..cents.len()
        invariant
            clusters@.len() == j,
            forall|m: int| 0 <= m < j ==> #[trigger] clusters@[m].centroid == cents@[m],
            forall|m: int|
                0 <= m < j ==> #[trigger] clusters@[m].data@ == Seq::<Rgb>::empty(),
    {
        clusters.push(ColorCluster::new(cents[j]));
    }
    proof {
        assert(forall|j: int|
            0 <= j < cents@.len() ==> #[trigger] assigned(
                pixels@.take(0),
                cents@,
                j,
            ) == Seq::<Rgb>::empty());
    }
    for i in 0..pixels.len()
        invariant
            cents@.len() >= 1,
            labels@.len() == pixels@.len(),
            forall|t: int|
                0 <= t < labels@.len() ==> labels@[t] as int == nearest_idx(cents@, pixels@[t]),
            clusters@.len() == cents@.len(),
            forall|j: int| 0 <= j < clusters@.len() ==> #[trigger] clusters@[j].centroid
                == cents@[j],
            forall|j: int|
                0 <= j < clusters@.len() ==> #[trigger] clusters@[j].data@ == assigned(
                    pixels@.take(i as int),
                    cents@,
                    j,
                ),
    {
        proof {
            lemma_nearest_idx_ensures(cents@, pixels@[i as int]);
            assert(pixels@.take(i + 1).drop_last() =~= pixels@.take(i as int));
            assert(pixels@.take(i + 1).last() == pixels@[i as int]);
        }
        let lab = labels[i];
        clusters[lab].add(pixels[i]);
    }
    proof {
        assert(pixels@.take(pixels@.len() as int) =~= pixels@);
    }
    clusters
}

/// Recomputes each cluster's centroid as the rounded mean of its members;
/// a cluster that received no pixels keeps its seed centroid. Returns the
/// new centroid list.
fn updated_centroids(clusters: &mut Vec<ColorCluster>) -> (r: Vec<Rgb>)
    ensures
        final(clusters)@.len() == old(clusters)@.len(),
        r@.len() == old(clusters)@.len(),
        forall|j: int|
            0 <= j < r@.len() ==> #[trigger] r@[j] == (if old(clusters)@[j].data@.len() == 0 {
                old(clusters)@[j].centroid
            } else {
                mean_rgb(old(clusters)@[j].data@)
            }),
{
    let mut out: Vec<Rgb> = Vec::new();
    let n = clusters.len();
    for j in 0..n
        invariant
            n == clusters@.len(),
            clusters@.len() == old(clusters)@.len(),
            out@.len() == j,
            forall|m: int| j <= m < clusters@.len() ==> clusters@[m] == old(clusters)@[m],
            forall|m: int|
                0 <= m < j ==> #[trigger] out@[m] == (if old(clusters)@[m].data@.len() == 0 {
                    old(clusters)@[m].centroid
                } else {
                    mean_rgb(old(clusters)@[m].data@)
                }),
    {
        clusters[j].recalculate_centroid();
        let c = clusters[j].centroid;
        out.push(c);
    }
    out
}

/// Compares two label vectors element-wise.
fn labels_equal(a: &Vec<usize>, b: &Vec<usize>) -> (r: bool)
    ensures
        r <==> a@ == b@,
{
    if a.len() != b.len() {
        proof {
            assert(a@.len() != b@.len());
        }
        return false;
    }
    for i in 0..a.len()
        invariant
            a@.len() == b@.len(),
            forall|j: int| 0 <= j < i ==> a@[j] == b@[j],
    {
        if a[i] != b[i] {
            return false;
        }
    }
    proof {
        assert(a@ =~= b@);
    }
    true
}

/// The view of a cluster that contracts speak of: its centroid and its
/// member sequence.
pub open spec fn cluster_view(c: ColorCluster) -> (Rgb, Seq<Rgb>) {
    (c.centroid, c.data@)
}

/// The clusters the pipeline reports for the first `j` assignment groups
/// of a centroid list, as (centroid, members) pairs: groups in index
/// order, empty groups dropped, each centroid the rounded mean of the
/// group's members.
pub open spec fn built_views(pixels: Seq<Rgb>, cents: Seq<Rgb>, j: int) -> Seq<(Rgb, Seq<Rgb>)>
    decreases j,
{
    if j <= 0 {
        Seq::empty()
    } else {
        let rest = built_views(pixels, cents, j - 1);
        let members = assigned(pixels, cents, j - 1);
        if members.len() == 0 {
            rest
        } else {
            rest.push((mean_rgb(members), members))
        }
    }
}

/// Partitions the pixels into at most `k` clusters by iterative k-means
/// and returns the non-empty clusters.
///
/// The `k` seed centroids are drawn from the pixel sequence at evenly
/// spread indices. Each round assigns every pixel to its nearest centroid
/// (ties to the lowest index) and recomputes each centroid as the rounded
/// mean of its pixels, a centroid with no pixels staying where it was; the
/// rounds stop when the assignment no longer changes, or after 100 rounds.
pub fn cluster(pixels: &Vec<Rgb>, k: usize) -> (r: Vec<ColorCluster>)
    requires
        1 <= k,
        pixels@.len() >= 1,
    ensures
        1 <= r@.len() <= k,
        forall|i: int| 0 <= i < r@.len() ==> #[trigger] r@[i].data@.len() >= 1,
        forall|i: int|
            0 <= i < r@.len() ==> #[trigger] r@[i].centroid == mean_rgb(r@[i].data@),
        sum_lens(r@) == pixels@.len(),
        forall|i: int, t: int|
            0 <= i < r@.len() && 0 <= t < #[trigger] r@[i].data@.len() ==> pixels@.contains(
                #[trigger] r@[i].data@[t],
            ),
        exists|cents: Seq<Rgb>|
            cents.len() == k && r@.map_values(|c: ColorCluster| cluster_view(c)) == #[trigger]
            built_views(pixels@, cents, k as int),
{
    let n = pixels.len();
    let mut cents: Vec<Rgb> = Vec::new();
    for j in 0..k
        invariant
            n == pixels@.len(),
            n >= 1,
            cents@.len() == j,
    {
        proof {
            assert((j as int) * (n as int) < (k as int) * (n as int)) by (nonlinear_arith)
                requires
                    0 <= (j as int) < (k as int),
                    (n as int) >= 1,
            ;
            assert((k as int) * (n as int) <= 0xFFFFFFFFFFFFFFFF * 0xFFFFFFFFFFFFFFFF)
                by (nonlinear_arith)
                requires
                    0 <= (k as int) <= 0xFFFFFFFFFFFFFFFF,
                    0 <= (n as int) <= 0xFFFFFFFFFFFFFFFF,
            ;
            lemma_div_pos_is_pos((j as int) * (n as int), k as int);
            lemma_multiply_divide_lt((j as int) * (n as int), k as int, n as int);
        }
        let idx = ((j as u128 * n as u128) / (k as u128)) as usize;
        cents.push(pixels[idx]);
    }
    let mut labels = assign_labels(pixels, &cents);
    let mut it: usize = 0;
    while it < 100
        invariant
            1 <= k,
            cents@.len() == k,
            n == pixels@.len(),
            labels@.len() == pixels@.len(),
            forall|i: int|
                0 <= i < labels@.len() ==> labels@[i] as int == nearest_idx(cents@, pixels@[i]),
        ensures
            cents@.len() == k,
            labels@.len() == pixels@.len(),
            forall|i: int|
                0 <= i < labels@.len() ==> labels@[i] as int == nearest_idx(cents@, pixels@[i]),
        decreases 100 - it,
    {
        let mut groups = group_pixels(pixels, &labels, &cents);
        let new_cents = updated_centroids(&mut groups);
        let new_labels = assign_labels(pixels, &new_cents);
        let converged = labels_equal(&labels, &new_labels);
        cents = new_cents;
        labels = new_labels;
        if converged {
            break ;
        }
        it = it + 1;
    }
    let mut groups = group_pixels(pixels, &labels, &cents);
    let ghost gcents = cents@;
    let mut out: Vec<ColorCluster> = Vec::new();
    let mut j: usize = 0;
    while j < k
        invariant
            1 <= k,
            j <= k,
            groups@.len() == k - j,
            gcents.len() == k,
            n == pixels@.len(),
            forall|m: int|
                0 <= m < groups@.len() ==> #[trigger] groups@[m].data@ == assigned(
                    pixels@,
                    gcents,
                    j + m,
                ),
            out@.len() <= j,
            sum_lens(out@) == sum_assigned_lens(pixels@, gcents, j as int),
            forall|i: int| 0 <= i < out@.len() ==> #[trigger] out@[i].data@.len() >= 1,
            forall|i: int|
                0 <= i < out@.len() ==> #[trigger] out@[i].centroid == mean_rgb(out@[i].data@),
            forall|i: int, t: int|
                0 <= i < out@.len() && 0 <= t < #[trigger] out@[i].data@.len()
                    ==> pixels@.contains(#[trigger] out@[i].data@[t]),
            out@.map_values(|c: ColorCluster| cluster_view(c)) == built_views(
                pixels@,
                gcents,
                j as int,
            ),
        decreases k - j,
    {
        let ghost members = assigned(pixels@, gcents, j as int);
        let mut g = groups.remove(0);
        proof {
            lemma_assigned_contains(pixels@, gcents, j as int);
        }
        if g.len() > 0 {
            g.recalculate_centroid();
            let ghost out_prev = out@;
            out.push(g);
            proof {
                assert(out@.drop_last() =~= out_prev);
                assert(out@.last() == g);
                assert(sum_lens(out@) == sum_lens(out_prev) + members.len());
                assert forall|t: int| 0 <= t < members.len() implies pixels@.contains(
                    members[t],
                ) by {
                    assert(members.contains(members[t]));
                }
                assert(out@.map_values(|c: ColorCluster| cluster_view(c)) =~= built_views(
                    pixels@,
                    gcents,
                    j + 1,
                ));
            }
        } else {
            proof {
                assert(built_views(pixels@, gcents, j + 1) == built_views(
                    pixels@,
                    gcents,
                    j as int,
                ));
            }
        }
        j = j + 1;
    }
    proof {
        lemma_assigned_partition(pixels@, gcents);
        assert(sum_lens(out@) == pixels@.len());
        assert(out@.len() >= 1) by {
            if out@.len() == 0 {
                assert(sum_lens(out@) == 0);
            }
        }
        assert(gcents.len() == k && out@.map_values(|c: ColorCluster| cluster_view(c))
            == built_views(pixels@, gcents, k as int));
    }
    out
}

} // verus!
