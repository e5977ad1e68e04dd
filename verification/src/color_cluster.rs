//! A cluster of colors: a centroid plus the samples assigned to it.

use crate::rgb::{dist_sq, dist_sq_exec, Rgb};
use vstd::arithmetic::div_mod::{
    lemma_div_is_ordered, lemma_div_pos_is_pos, lemma_fundamental_div_mod_converse_div,
};
use vstd::prelude::*;

verus! {

/// Sum of the red channels over a sequence of colors.
pub open spec fn sum_r(s: Seq<Rgb>) -> int
    decreases s.len(),
{
    if s.len() == 0 {
        0
    } else {
        sum_r(s.drop_last()) + s.last().0
    }
}

/// Sum of the green channels over a sequence of colors.
pub open spec fn sum_g(s: Seq<Rgb>) -> int
    decreases s.len(),
{
    if s.len() == 0 {
        0
    } else {
        sum_g(s.drop_last()) + s.last().1
    }
}

/// Sum of the blue channels over a sequence of colors.
pub open spec fn sum_b(s: Seq<Rgb>) -> int
    decreases s.len(),
{
    if s.len() == 0 {
        0
    } else {
        sum_b(s.drop_last()) + s.last().2
    }
}

/// The mean of `sum` over `n` values, rounded to the nearest integer with
/// halves rounded up: `floor(sum / n + 1/2)`.
///
/// This is the library's rounding convention for centroid channels; a
/// two-member cluster whose channel values are 0 and 255 therefore rounds
/// its mean of 127.5 up to 128.
pub open spec fn mean_channel(sum: int, n: int) -> int {
    (2 * sum + n) / (2 * n)
}

/// The rounded per-channel mean of a non-empty sequence of colors.
pub open spec fn mean_rgb(s: Seq<Rgb>) -> Rgb {
    Rgb(
        mean_channel(sum_r(s), s.len() as int) as u8,
        mean_channel(sum_g(s), s.len() as int) as u8,
        mean_channel(sum_b(s), s.len() as int) as u8,
    )
}

/// Each channel sum over a sequence of colors lies in `[0, 255 * len]`.
pub proof fn lemma_sum_bounds(s: Seq<Rgb>)
    ensures
        0 <= sum_r(s) <= 255 * s.len(),
        0 <= sum_g(s) <= 255 * s.len(),
        0 <= sum_b(s) <= 255 * s.len(),
    decreases s.len(),
{
    if s.len() > 0 {
        lemma_sum_bounds(s.drop_last());
    }
}

/// The rounded mean of channel values in `[0, 255]` lies in `[0, 255]`.
pub proof fn lemma_mean_channel_bound(sum: int, n: int)
    requires
        1 <= n,
        0 <= sum <= 255 * n,
    ensures
        0 <= mean_channel(sum, n) <= 255,
{
    let x = 2 * sum + n;
    let d = 2 * n;
    lemma_div_pos_is_pos(x, d);
    lemma_div_is_ordered(x, 255 * d + (d - 1), d);
    lemma_fundamental_div_mod_converse_div(255 * d + (d - 1), d, 255, d - 1);
}

/// The rounded mean of `n` copies of one channel value is that value.
pub proof fn lemma_mean_channel_of_constant(c: int, n: int)
    requires
        1 <= n,
        0 <= c <= 255,
    ensures
        mean_channel(c * n, n) == c,
{
    assert(2 * (c * n) + n == c * (2 * n) + n) by (nonlinear_arith);
    lemma_fundamental_div_mod_converse_div(2 * (c * n) + n, 2 * n, c, n);
}

/// If every color in a non-empty sequence equals `c`, the rounded mean is `c`.
pub proof fn lemma_mean_rgb_of_constant(s: Seq<Rgb>, c: Rgb)
    requires
        s.len() >= 1,
        forall|i: int| 0 <= i < s.len() ==> s[i] == c,
    ensures
        mean_rgb(s) == c,
{
    lemma_sum_of_constant(s, c);
    lemma_mean_channel_of_constant(c.0 as int, s.len() as int);
    lemma_mean_channel_of_constant(c.1 as int, s.len() as int);
    lemma_mean_channel_of_constant(c.2 as int, s.len() as int);
}

/// Channel sums over a constant sequence are the value times the length.
proof fn lemma_sum_of_constant(s: Seq<Rgb>, c: Rgb)
    requires
        forall|i: int| 0 <= i < s.len() ==> s[i] == c,
    ensures
        sum_r(s) == c.0 * s.len(),
        sum_g(s) == c.1 * s.len(),
        sum_b(s) == c.2 * s.len(),
    decreases s.len(),
{
    if s.len() > 0 {
        lemma_sum_of_constant(s.drop_last(), c);
        let n = s.len() as int;
        assert(c.0 * (n - 1) + c.0 == c.0 * n) by (nonlinear_arith);
        assert(c.1 * (n - 1) + c.1 == c.1 * n) by (nonlinear_arith);
        assert(c.2 * (n - 1) + c.2 == c.2 * n) by (nonlinear_arith);
    }
}

/// Computes the rounded mean of one channel over `n` values.
fn mean_channel_exec(sum: u128, n: usize) -> (r: u8)
    requires
        1 <= n,
        sum as int <= 255 * (n as int),
    ensures
        r as int == mean_channel(sum as int, n as int),
{
    let n_wide = n as u128;
    let q = (2 * sum + n_wide) / (2 * n_wide);
    proof {
        lemma_mean_channel_bound(sum as int, n as int);
    }
    q as u8
}

/// A mutable accumulator for one color cluster: a centroid and the samples
/// currently assigned to it.
#[derive(Debug)]
pub struct ColorCluster {
    /// The representative color of the cluster.
    pub centroid: Rgb,
    /// The samples assigned to the cluster, in the order they were added.
    pub data: Vec<Rgb>,
}

impl ColorCluster {
    /// Creates a cluster with a seed centroid and no members.
    pub fn new(centroid: Rgb) -> (r: ColorCluster)
        ensures
            r.centroid == centroid,
            r.data@ == Seq::<Rgb>::empty(),
    {
        ColorCluster { centroid, data: Vec::new() }
    }

    /// Squared Euclidean distance from the centroid to a sample.
    pub fn distance_sq(&self, rgb: &Rgb) -> (r: u32)
        ensures
            r as int == dist_sq(self.centroid, *rgb),
    {
        dist_sq_exec(&self.centroid, rgb)
    }

    /// Appends a sample to the cluster; the centroid is left unchanged
    /// until it is explicitly recomputed.
    pub fn add(&mut self, rgb: Rgb)
        ensures
            final(self).data@ == old(self).data@.push(rgb),
            final(self).centroid == old(self).centroid,
    {
        self.data.push(rgb);
    }

    /// The number of samples currently assigned to the cluster.
    pub fn len(&self) -> (r: usize)
        ensures
            r == self.data@.len(),
    {
        self.data.len()
    }

    /// Replaces the centroid with the rounded per-channel mean of the
    /// current members. A cluster with no members keeps its centroid
    /// unchanged, since a mean over zero samples is undefined.
    pub fn recalculate_centroid(&mut self)
        ensures
            final(self).data@ == old(self).data@,
            old(self).data@.len() == 0 ==> final(self).centroid == old(self).centroid,
            old(self).data@.len() >= 1 ==> final(self).centroid == mean_rgb(
                old(self).data@,
            ),
    {
        let n = self.data.len();
        if n == 0 {
            return ;
        }
        let mut sr: u128 = 0;
        let mut sg: u128 = 0;
        let mut sb: u128 = 0;
        for i in 0..n
            invariant
                n == self.data@.len(),
                self == old(self),
                sr as int == sum_r(self.data@.take(i as int)),
                sg as int == sum_g(self.data@.take(i as int)),
                sb as int == sum_b(self.data@.take(i as int)),
                sr <= 255 * (i as u128),
                sg <= 255 * (i as u128),
                sb <= 255 * (i as u128),
        {
            proof {
                assert(self.data@.take(i + 1).drop_last() =~= self.data@.take(i as int));
                assert(self.data@.take(i + 1).last() == self.data@[i as int]);
            }
            sr = sr + self.data[i].0 as u128;
            sg = sg + self.data[i].1 as u128;
            sb = sb + self.data[i].2 as u128;
        }
        proof {
            assert(self.data@.take(n as int) =~= self.data@);
        }
        let r = mean_channel_exec(sr, n);
        let g = mean_channel_exec(sg, n);
        let b = mean_channel_exec(sb, n);
        self.centroid = Rgb(r, g, b);
    }
}

} // verus!
