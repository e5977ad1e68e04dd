//! The palette pipeline: estimate a cluster count, cluster the pixels,
//! and rank the centroids by population.

use crate::clusterer::{
    assign_labels, assigned, cluster, group_pixels, lemma_nearest_idx_ensures,
    nearest_idx,
};
use crate::color_cluster::{lemma_mean_rgb_of_constant, mean_rgb, ColorCluster};
use crate::colors::{lemma_sort_desc_ensures, sort_desc, sorted_desc, sum_lens, Colors};
use crate::palette_options::PaletteOptions;
use crate::rgb::Rgb;
use vstd::prelude::*;

verus! {

/// The ways a palette computation can fail.
#[derive(Debug, Clone, Copy, PartialEq, Eq, Structural)]
pub enum PaletteError {
    /// There were no pixels to work on: every count and mean the pipeline
    /// needs is undefined on an empty sequence.
    EmptyInput,
}

/// The 24 fixed anchor colors, evenly spaced around the hue circle, that
/// the cluster-count estimate measures pixels against. They are a constant
/// reference partition, not derived from the image.
pub open spec fn anchor_seq() -> Seq<Rgb> {
    seq![
        Rgb(203, 72, 41),
        Rgb(204, 106, 41),
        Rgb(213, 149, 51),
        Rgb(222, 180, 55),
        Rgb(223, 210, 56),
        Rgb(170, 181, 71),
        Rgb(147, 180, 71),
        Rgb(126, 181, 71),
        Rgb(89, 181, 71),
        Rgb(71, 181, 89),
        Rgb(0, 148, 83),
        Rgb(0, 151, 148),
        Rgb(0, 186, 207),
        Rgb(0, 153, 206),
        Rgb(19, 110, 171),
        Rgb(56, 80, 133),
        Rgb(66, 56, 133),
        Rgb(88, 61, 143),
        Rgb(116, 61, 143),
        Rgb(144, 62, 132),
        Rgb(202, 70, 132),
        Rgb(201, 71, 166),
        Rgb(201, 71, 114),
        Rgb(202, 71, 92),
    ]
}

/// Builds the anchor table.
fn hue_anchors() -> (r: Vec<Rgb>)
    ensures
        r@ == anchor_seq(),
{
    let r = vec![
        Rgb(203, 72, 41),
        Rgb(204, 106, 41),
        Rgb(213, 149, 51),
        Rgb(222, 180, 55),
        Rgb(223, 210, 56),
        Rgb(170, 181, 71),
        Rgb(147, 180, 71),
        Rgb(126, 181, 71),
        Rgb(89, 181, 71),
        Rgb(71, 181, 89),
        Rgb(0, 148, 83),
        Rgb(0, 151, 148),
        Rgb(0, 186, 207),
        Rgb(0, 153, 206),
        Rgb(19, 110, 171),
        Rgb(56, 80, 133),
        Rgb(66, 56, 133),
        Rgb(88, 61, 143),
        Rgb(116, 61, 143),
        Rgb(144, 62, 132),
        Rgb(202, 70, 132),
        Rgb(201, 71, 166),
        Rgb(201, 71, 114),
        Rgb(202, 71, 92),
    ];
    proof {
        assert(r@ =~= anchor_seq());
    }
    r
}

/// True when the anchor at index `j` holds at least one integer percent of
/// the pixels: `floor(100 * share) != 0`, that is, `100 * count >= total`.
pub open spec fn anchor_present(pixels: Seq<Rgb>, j: int) -> bool {
    100 * assigned(pixels, anchor_seq(), j).len() >= pixels.len()
}

/// How many of the first `j` anchors are present in the pixel sequence.
pub open spec fn present_count(pixels: Seq<Rgb>, j: int) -> int
    decreases j,
{
    if j <= 0 {
        0
    } else {
        present_count(pixels, j - 1) + (if anchor_present(pixels, j - 1) {
            1int
        } else {
            0int
        })
    }
}

/// The estimated cluster count: the number of present anchors, floored at
/// two so that even a single-hue image yields a two-way split.
pub open spec fn best_k_spec(pixels: Seq<Rgb>) -> int {
    if present_count(pixels, 24) > 2 {
        present_count(pixels, 24)
    } else {
        2
    }
}

/// At most `j` of the first `j` anchors can be present.
proof fn lemma_present_count_bound(pixels: Seq<Rgb>, j: int)
    ensures
        0 <= present_count(pixels, j) <= (if j >= 0 {
            j
        } else {
            0int
        }),
    decreases j,
{
    if j > 0 {
        lemma_present_count_bound(pixels, j - 1);
    }
}

/// True when every pixel of the sequence is the one color `c`.
pub open spec fn uniform_color(pixels: Seq<Rgb>, c: Rgb) -> bool {
    forall|i: int| 0 <= i < pixels.len() ==> pixels[i] == c
}

/// The retained pixels: the input in order, with every color of the ignore
/// sequence dropped.
pub open spec fn retained(raw: Seq<Rgb>, ignore: Seq<Rgb>) -> Seq<Rgb>
    decreases raw.len(),
{
    if raw.len() == 0 {
        Seq::empty()
    } else {
        let rest = retained(raw.drop_last(), ignore);
        if ignore.contains(raw.last()) {
            rest
        } else {
            rest.push(raw.last())
        }
    }
}

/// Well-formed final clusters for a pixel sequence and a cluster bound:
/// ranked by population, partitioning the pixels, every cluster non-empty
/// with its centroid the rounded mean of its members, all drawn from the
/// pixels.
pub open spec fn valid_palette_clusters(cs: Seq<ColorCluster>, pixels: Seq<Rgb>, k: int) -> bool {
    &&& 1 <= cs.len() <= k
    &&& sorted_desc(cs)
    &&& sum_lens(cs) == pixels.len()
    &&& (forall|i: int| 0 <= i < cs.len() ==> #[trigger] cs[i].data@.len() >= 1)
    &&& (forall|i: int| 0 <= i < cs.len() ==> #[trigger] cs[i].centroid == mean_rgb(cs[i].data@))
    &&& (forall|i: int, t: int|
        0 <= i < cs.len() && 0 <= t < #[trigger] cs[i].data@.len() ==> pixels.contains(
            #[trigger] cs[i].data@[t],
        ))
}

/// A palette computation: the retained pixel sequence and the options it
/// was built with.
#[derive(Debug)]
pub struct Palette {
    /// The pixels the estimator and the clusterer work on, ignored colors
    /// already removed.
    pub pixels: Vec<Rgb>,
    /// The configuration the pixel sequence was filtered with.
    pub options: PaletteOptions,
}

impl Palette {
    /// Builds a palette computation from a raw pixel sequence in row-major
    /// order: every pixel whose color is in the options' ignore set is
    /// dropped, the rest are kept in order.
    pub fn from_pixels(raw: Vec<Rgb>, options: PaletteOptions) -> (r: Palette)
        ensures
            r.pixels@ == retained(raw@, options.colors@),
            forall|i: int|
                0 <= i < r.pixels@.len() ==> !options.colors@.contains(#[trigger] r.pixels@[i]),
            r.options.colors@ == options.colors@,
    {
        let mut pixels: Vec<Rgb> = Vec::new();
        for i in 0..raw.len()
            invariant
                pixels@ == retained(raw@.take(i as int), options.colors@),
                forall|t: int|
                    0 <= t < pixels@.len() ==> !options.colors@.contains(#[trigger] pixels@[t]),
        {
            proof {
                assert(raw@.take(i + 1).drop_last() =~= raw@.take(i as int));
                assert(raw@.take(i + 1).last() == raw@[i as int]);
            }
            if !options.is_ignored(&raw[i]) {
                pixels.push(raw[i]);
            }
        }
        proof {
            assert(raw@.take(raw@.len() as int) =~= raw@);
        }
        Palette { pixels, options }
    }

    /// Assigns every pixel to its nearest anchor color (ties to the lowest
    /// anchor index) and returns the 24 anchor clusters, each seeded with
    /// its anchor color and holding the pixels assigned to it.
    pub fn make_hue_circle_clusters(&self) -> (r: Vec<ColorCluster>)
        ensures
            r@.len() == 24,
            forall|j: int| 0 <= j < 24 ==> #[trigger] r@[j].centroid == anchor_seq()[j],
            forall|j: int|
                0 <= j < 24 ==> #[trigger] r@[j].data@ == assigned(self.pixels@, anchor_seq(), j),
    {
        let anchors = hue_anchors();
        let labels = assign_labels(&self.pixels, &anchors);
        group_pixels(&self.pixels, &labels, &anchors)
    }

    /// Estimates how many color clusters the pixel sequence contains: the
    /// number of anchors holding at least one integer percent of the
    /// pixels, floored at 2 and by construction at most 24. An empty pixel
    /// sequence has no defined shares and is rejected.
    pub fn find_best_k(&self) -> (r: Result<usize, PaletteError>)
        ensures
            r is Err <==> self.pixels@.len() == 0,
            r is Err ==> r->Err_0 == PaletteError::EmptyInput,
            r is Ok ==> r->Ok_0 as int == best_k_spec(self.pixels@),
            r is Ok ==> 2 <= r->Ok_0 <= 24,
            r is Ok ==> forall|c: Rgb| #[trigger]
                uniform_color(self.pixels@, c) ==> r->Ok_0 == 2,
    {
        if self.pixels.len() == 0 {
            return Err(PaletteError::EmptyInput);
        }
        let clusters = self.make_hue_circle_clusters();
        let total = self.pixels.len();
        let mut count: usize = 0;
        for j in 0..24usize
            invariant
                clusters@.len() == 24,
                total == self.pixels@.len(),
                forall|m: int|
                    0 <= m < 24 ==> #[trigger] clusters@[m].data@ == assigned(
                        self.pixels@,
                        anchor_seq(),
                        m,
                    ),
                count as int == present_count(self.pixels@, j as int),
                count <= j,
        {
            let share_holds = clusters[j].len() as u128 * 100 >= total as u128;
            if share_holds {
                count = count + 1;
            }
        }
        proof {
            lemma_present_count_bound(self.pixels@, 24);
            assert forall|c: Rgb| uniform_color(self.pixels@, c) implies best_k_spec(
                self.pixels@,
            ) == 2 by {
                lemma_uniform_best_k(self.pixels@, c);
            }
        }
        if count > 2 {
            Ok(count)
        } else {
            Ok(2)
        }
    }

    /// Runs the full pipeline: estimates the cluster count, clusters the
    /// pixels by iterative k-means, and returns the cluster centroids
    /// ordered by descending cluster population, most dominant color
    /// first. Fails exactly on an empty pixel sequence.
    pub fn inspect(&self) -> (r: Result<Vec<Rgb>, PaletteError>)
        ensures
            r is Err <==> self.pixels@.len() == 0,
            r is Err ==> r->Err_0 == PaletteError::EmptyInput,
            r is Ok ==> exists|cs: Seq<ColorCluster>|
                #[trigger] valid_palette_clusters(cs, self.pixels@, best_k_spec(self.pixels@))
                    && r->Ok_0@.len() == cs.len() && (forall|i: int|
                    0 <= i < cs.len() ==> r->Ok_0@[i] == #[trigger] cs[i].centroid),
            r is Ok ==> 1 <= r->Ok_0@.len() <= 24,
            r is Ok ==> forall|c: Rgb| #[trigger]
                uniform_color(self.pixels@, c) ==> (forall|i: int|
                    0 <= i < r->Ok_0@.len() ==> #[trigger] r->Ok_0@[i] == c),
    {
        let k = match self.find_best_k() {
            Ok(k) => k,
            Err(e) => {
                return Err(e);
            },
        };
        let clusters = cluster(&self.pixels, k);
        let ghost raw = clusters@;
        let mut colors = Colors::new();
        let mut rest = clusters;
        while rest.len() > 0
            invariant
                colors.data@ + rest@ =~= raw,
            decreases rest@.len(),
        {
            let c = rest.remove(0);
            colors.add(c);
        }
        proof {
            assert(colors.data@ =~= raw);
        }
        colors.sort();
        let out = colors.get_colors();
        proof {
            lemma_sort_desc_ensures(raw);
            let sorted = sort_desc(raw);
            assert forall|i: int, t: int|
                0 <= i < sorted.len() && 0 <= t < #[trigger] sorted[i].data@.len()
                    implies self.pixels@.contains(#[trigger] sorted[i].data@[t]) by {
                assert(sorted.contains(sorted[i]));
                let m = choose|m: int| 0 <= m < raw.len() && raw[m] == sorted[i];
            }
            assert forall|i: int| 0 <= i < sorted.len() implies #[trigger] sorted[i].data@.len()
                >= 1 && sorted[i].centroid == mean_rgb(sorted[i].data@) by {
                assert(sorted.contains(sorted[i]));
                let m = choose|m: int| 0 <= m < raw.len() && raw[m] == sorted[i];
            }
            assert(valid_palette_clusters(sorted, self.pixels@, best_k_spec(self.pixels@)));
            assert forall|c: Rgb| uniform_color(self.pixels@, c) implies (forall|i: int|
                0 <= i < out@.len() ==> #[trigger] out@[i] == c) by {
                assert forall|i: int| 0 <= i < out@.len() implies #[trigger] out@[i] == c by {
                    assert(sorted[i].data@.len() >= 1);
                    assert(self.pixels@.contains(sorted[i].data@[0]));
                    assert forall|t: int| 0 <= t < sorted[i].data@.len() implies sorted[i].data@[t]
                        == c by {
                        assert(self.pixels@.contains(sorted[i].data@[t]));
                        let w = choose|w: int|
                            0 <= w < self.pixels@.len() && self.pixels@[w] == sorted[i].data@[t];
                    }
                    lemma_mean_rgb_of_constant(sorted[i].data@, c);
                }
            }
        }
        Ok(out)
    }
}

/// On a uniform pixel sequence every pixel lands on one anchor, so exactly
/// one anchor is present and the estimate floors at 2: a single repeated
/// color always yields a cluster count of 2.
pub proof fn lemma_uniform_best_k(pixels: Seq<Rgb>, c: Rgb)
    requires
        pixels.len() >= 1,
        forall|i: int| 0 <= i < pixels.len() ==> pixels[i] == c,
    ensures
        best_k_spec(pixels) == 2,
{
    let j0 = nearest_idx(anchor_seq(), c);
    lemma_nearest_idx_ensures(anchor_seq(), c);
    lemma_uniform_present_count(pixels, c, 24);
    assert(present_count(pixels, 24) <= 1);
}

/// Over a uniform pixel sequence, the assignment group of anchor `j` is
/// the whole sequence for the color's nearest anchor and empty otherwise.
proof fn lemma_uniform_assigned(pixels: Seq<Rgb>, c: Rgb, j: int)
    requires
        forall|i: int| 0 <= i < pixels.len() ==> pixels[i] == c,
    ensures
        assigned(pixels, anchor_seq(), j).len() == (if j == nearest_idx(anchor_seq(), c) {
            pixels.len() as int
        } else {
            0int
        }),
    decreases pixels.len(),
{
    if pixels.len() > 0 {
        lemma_uniform_assigned(pixels.drop_last(), c, j);
        assert(pixels.last() == c);
    }
}

/// Over a uniform pixel sequence, at most one of the first `j` anchors is
/// present: the color's nearest anchor, once `j` passes it.
proof fn lemma_uniform_present_count(pixels: Seq<Rgb>, c: Rgb, j: int)
    requires
        pixels.len() >= 1,
        forall|i: int| 0 <= i < pixels.len() ==> pixels[i] == c,
    ensures
        present_count(pixels, j) == (if nearest_idx(anchor_seq(), c) < j {
            1int
        } else {
            0int
        }),
    decreases j,
{
    lemma_nearest_idx_ensures(anchor_seq(), c);
    if j > 0 {
        lemma_uniform_present_count(pixels, c, j - 1);
        lemma_uniform_assigned(pixels, c, j - 1);
        let j0 = nearest_idx(anchor_seq(), c);
        if j - 1 == j0 {
            assert(assigned(pixels, anchor_seq(), j - 1).len() == pixels.len());
            assert(anchor_present(pixels, j - 1));
        } else {
            assert(assigned(pixels, anchor_seq(), j - 1).len() == 0);
            assert(!anchor_present(pixels, j - 1));
        }
    }
}

} // verus!
