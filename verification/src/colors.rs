//! An owned collection of color clusters with a stable sort by population.

use crate::color_cluster::ColorCluster;
use crate::rgb::Rgb;
use vstd::prelude::*;

verus! {

/// True when the clusters are ordered by non-increasing member count.
pub open spec fn sorted_desc(s: Seq<ColorCluster>) -> bool {
    forall|i: int, j: int|
        0 <= i < j < s.len() ==> #[trigger] s[i].data@.len() >= #[trigger] s[j].data@.len()
}

/// Total member count over a sequence of clusters.
pub open spec fn sum_lens(s: Seq<ColorCluster>) -> int
    decreases s.len(),
{
    if s.len() == 0 {
        0
    } else {
        sum_lens(s.drop_last()) + s.last().data@.len()
    }
}

/// Stable descending insertion of one cluster: `c` is placed immediately
/// before the first run of clusters whose member count is strictly below
/// its own, and therefore after every cluster whose count ties with it.
pub open spec fn insert_desc(s: Seq<ColorCluster>, c: ColorCluster) -> Seq<ColorCluster>
    decreases s.len(),
{
    if s.len() == 0 {
        seq![c]
    } else if s.last().data@.len() >= c.data@.len() {
        s.push(c)
    } else {
        insert_desc(s.drop_last(), c).push(s.last())
    }
}

/// Stable sort by descending member count: clusters are inserted left to
/// right, each placed after earlier clusters with an equal count, so ties
/// keep their relative insertion order.
pub open spec fn sort_desc(s: Seq<ColorCluster>) -> Seq<ColorCluster>
    decreases s.len(),
{
    if s.len() == 0 {
        s
    } else {
        insert_desc(sort_desc(s.drop_last()), s.last())
    }
}

/// Inserting into a sorted sequence keeps it sorted, adds exactly the new
/// cluster, and preserves the total member count.
proof fn lemma_insert_desc_ensures(s: Seq<ColorCluster>, c: ColorCluster)
    ensures
        insert_desc(s, c).len() == s.len() + 1,
        sum_lens(insert_desc(s, c)) == sum_lens(s) + c.data@.len(),
        forall|x: ColorCluster|
            #![trigger insert_desc(s, c).contains(x)]
            (insert_desc(s, c).contains(x) <==> s.contains(x) || x == c),
        sorted_desc(s) ==> sorted_desc(insert_desc(s, c)),
    decreases s.len(),
{
    let r = insert_desc(s, c);
    if s.len() == 0 {
        assert(r == seq![c]);
        assert(r.drop_last() =~= Seq::<ColorCluster>::empty());
        assert(sum_lens(r.drop_last()) == 0);
        assert(sum_lens(r) == c.data@.len());
        assert forall|x: ColorCluster| r.contains(x) <==> s.contains(x) || x == c by {
            assert(r[0] == c);
        }
    } else if s.last().data@.len() >= c.data@.len() {
        assert(r == s.push(c));
        assert(r.drop_last() =~= s);
        assert(sum_lens(r) == sum_lens(r.drop_last()) + r.last().data@.len());
        assert forall|x: ColorCluster| r.contains(x) <==> s.contains(x) || x == c by {
            if r.contains(x) {
                let i = choose|i: int| 0 <= i < r.len() && r[i] == x;
                if i < s.len() {
                    assert(s[i] == x);
                }
            }
            if s.contains(x) {
                let i = choose|i: int| 0 <= i < s.len() && s[i] == x;
                assert(r[i] == x);
            }
            assert(r[s.len() as int] == c);
        }
        if sorted_desc(s) {
            assert forall|i: int, j: int| 0 <= i < j < r.len() implies r[i].data@.len()
                >= r[j].data@.len() by {
                if j == s.len() {
                    assert(r[j] == c);
                    if i < s.len() - 1 {
                        assert(s[i].data@.len() >= s[s.len() - 1].data@.len());
                    }
                }
            }
        }
    } else {
        let ri = insert_desc(s.drop_last(), c);
        lemma_insert_desc_ensures(s.drop_last(), c);
        assert(r == ri.push(s.last()));
        assert(r.drop_last() =~= ri);
        assert(sum_lens(r) == sum_lens(ri) + s.last().data@.len());
        assert(sum_lens(s) == sum_lens(s.drop_last()) + s.last().data@.len());
        assert forall|x: ColorCluster| r.contains(x) <==> s.contains(x) || x == c by {
            if r.contains(x) {
                let i = choose|i: int| 0 <= i < r.len() && r[i] == x;
                if i < ri.len() {
                    assert(ri[i] == x);
                    assert(ri.contains(x));
                    if s.drop_last().contains(x) {
                        let m = choose|m: int| 0 <= m < s.len() - 1 && s.drop_last()[m] == x;
                        assert(s[m] == x);
                    }
                } else {
                    assert(s[s.len() - 1] == x);
                }
            }
            if s.contains(x) {
                let i = choose|i: int| 0 <= i < s.len() && s[i] == x;
                if i < s.len() - 1 {
                    assert(s.drop_last()[i] == x);
                    assert(s.drop_last().contains(x));
                    assert(ri.contains(x));
                    let m = choose|m: int| 0 <= m < ri.len() && ri[m] == x;
                    assert(r[m] == x);
                } else {
                    assert(r[ri.len() as int] == x);
                }
            }
            if x == c {
                assert(ri.contains(x));
                let m = choose|m: int| 0 <= m < ri.len() && ri[m] == x;
                assert(r[m] == x);
            }
        }
        if sorted_desc(s) {
            assert(sorted_desc(s.drop_last())) by {
                assert(forall|i: int, j: int|
                    0 <= i < j < s.len() - 1 ==> #[trigger] s.drop_last()[i].data@.len()
                        >= #[trigger] s.drop_last()[j].data@.len());
            }
            assert forall|i: int, j: int| 0 <= i < j < r.len() implies r[i].data@.len()
                >= r[j].data@.len() by {
                if j == ri.len() {
                    assert(r[j] == s.last());
                    assert(ri.contains(ri[i]));
                    if s.drop_last().contains(ri[i]) {
                        let m = choose|m: int| 0 <= m < s.len() - 1 && s.drop_last()[m] == ri[i];
                        assert(s[m] == ri[i]);
                        assert(s[m].data@.len() >= s[s.len() - 1].data@.len());
                    } else {
                        assert(ri[i] == c);
                    }
                }
            }
        }
    }
}

/// What the stable sort guarantees: the result has the same length and the
/// same total member count, holds exactly the input's clusters, and is
/// ordered by non-increasing member count.
pub proof fn lemma_sort_desc_ensures(s: Seq<ColorCluster>)
    ensures
        sort_desc(s).len() == s.len(),
        sum_lens(sort_desc(s)) == sum_lens(s),
        forall|x: ColorCluster|
            #![trigger sort_desc(s).contains(x)]
            (sort_desc(s).contains(x) <==> s.contains(x)),
        sorted_desc(sort_desc(s)),
    decreases s.len(),
{
    if s.len() > 0 {
        lemma_sort_desc_ensures(s.drop_last());
        lemma_insert_desc_ensures(sort_desc(s.drop_last()), s.last());
        assert forall|x: ColorCluster| sort_desc(s).contains(x) <==> s.contains(x) by {
            if s.contains(x) {
                let i = choose|i: int| 0 <= i < s.len() && s[i] == x;
                if i < s.len() - 1 {
                    assert(s.drop_last()[i] == x);
                    assert(s.drop_last().contains(x));
                } else {
                    assert(x == s.last());
                }
            }
            if s.drop_last().contains(x) {
                let i = choose|i: int| 0 <= i < s.len() - 1 && s.drop_last()[i] == x;
                assert(s[i] == x);
            }
            if x == s.last() {
                assert(s[s.len() - 1] == x);
            }
        }
    }
}

/// Sorting a sequence that is already ordered by non-increasing member
/// count leaves it unchanged; in particular, re-sorting an already-sorted
/// collection reproduces the same order.
pub proof fn lemma_sort_desc_of_sorted(s: Seq<ColorCluster>)
    requires
        sorted_desc(s),
    ensures
        sort_desc(s) == s,
    decreases s.len(),
{
    if s.len() > 0 {
        assert(sorted_desc(s.drop_last())) by {
            assert(forall|i: int, j: int|
                0 <= i < j < s.len() - 1 ==> #[trigger] s.drop_last()[i].data@.len()
                    >= #[trigger] s.drop_last()[j].data@.len());
        }
        lemma_sort_desc_of_sorted(s.drop_last());
        if s.len() >= 2 {
            assert(s[s.len() - 2].data@.len() >= s[s.len() - 1].data@.len());
            assert(s.drop_last().last().data@.len() >= s.last().data@.len());
        }
        assert(s.drop_last().push(s.last()) =~= s);
    }
}

/// One placement fact: when every cluster before `p` counts at least
/// `c.data` members and every cluster from `p` on counts strictly fewer,
/// the stable insertion puts `c` exactly at index `p`.
proof fn lemma_insert_desc_at(s: Seq<ColorCluster>, c: ColorCluster, p: int)
    requires
        sorted_desc(s),
        0 <= p <= s.len(),
        forall|j: int| 0 <= j < p ==> #[trigger] s[j].data@.len() >= c.data@.len(),
        forall|j: int| p <= j < s.len() ==> #[trigger] s[j].data@.len() < c.data@.len(),
    ensures
        insert_desc(s, c) == s.insert(p, c),
    decreases s.len(),
{
    if s.len() == 0 {
        assert(insert_desc(s, c) =~= s.insert(p, c));
    } else if s.last().data@.len() >= c.data@.len() {
        assert(p == s.len()) by {
            if p < s.len() {
                assert(s[s.len() - 1].data@.len() < c.data@.len());
            }
        }
        assert(s.push(c) =~= s.insert(p, c));
    } else {
        assert(p < s.len()) by {
            if p == s.len() {
                assert(s[s.len() - 1].data@.len() >= c.data@.len());
            }
        }
        assert(sorted_desc(s.drop_last())) by {
            assert(forall|i: int, j: int|
                0 <= i < j < s.len() - 1 ==> #[trigger] s.drop_last()[i].data@.len()
                    >= #[trigger] s.drop_last()[j].data@.len());
        }
        assert(forall|j: int|
            0 <= j < p ==> #[trigger] s.drop_last()[j].data@.len() >= c.data@.len());
        assert(forall|j: int|
            p <= j < s.len() - 1 ==> #[trigger] s.drop_last()[j].data@.len() < c.data@.len());
        lemma_insert_desc_at(s.drop_last(), c, p);
        assert(insert_desc(s.drop_last(), c).push(s.last()) =~= s.insert(p, c));
    }
}

/// The clusters found in an image, sortable by population.
#[derive(Debug)]
pub struct Colors {
    /// The clusters, in insertion order until `sort` is called.
    pub data: Vec<ColorCluster>,
}

impl Colors {
    /// Creates an empty collection.
    pub fn new() -> (r: Colors)
        ensures
            r.data@ == Seq::<ColorCluster>::empty(),
    {
        Colors { data: Vec::new() }
    }

    /// Appends one cluster.
    pub fn add(&mut self, color_cluster: ColorCluster)
        ensures
            final(self).data@ == old(self).data@.push(color_cluster),
    {
        self.data.push(color_cluster);
    }

    /// The centroid of each cluster, in the collection's current order.
    pub fn get_colors(&self) -> (r: Vec<Rgb>)
        ensures
            r@.len() == self.data@.len(),
            forall|i: int| 0 <= i < r@.len() ==> r@[i] == self.data@[i].centroid,
    {
        let mut out: Vec<Rgb> = Vec::new();
        for i in 0..self.data.len()
            invariant
                out@.len() == i,
                forall|j: int| 0 <= j < i ==> out@[j] == self.data@[j].centroid,
        {
            out.push(self.data[i].centroid);
        }
        out
    }

    /// Stable sort by descending member count: afterwards the clusters
    /// stand exactly in the order `sort_desc` describes.
    pub fn sort(&mut self)
        ensures
            final(self).data@ == sort_desc(old(self).data@),
    {
        let ghost orig = self.data@;
        let mut out: Vec<ColorCluster> = Vec::new();
        while self.data.len() > 0
            invariant
                out@.len() + self.data@.len() == orig.len(),
                out@ == sort_desc(orig.take(orig.len() - self.data@.len())),
                self.data@ == orig.skip(orig.len() - self.data@.len()),
            decreases self.data@.len(),
        {
            let ghost i = orig.len() - self.data@.len();
            proof {
                assert(orig.take(i + 1).drop_last() =~= orig.take(i));
                assert(orig.take(i + 1).last() == orig[i]);
                lemma_sort_desc_ensures(orig.take(i));
            }
            let c = self.data.remove(0);
            proof {
                assert(c == orig.skip(i)[0]);
                assert(orig.skip(i).remove(0) =~= orig.skip(i + 1));
            }
            let pos = insert_position(&out, &c);
            proof {
                lemma_insert_desc_at(out@, c, pos as int);
            }
            out.insert(pos, c);
        }
        proof {
            assert(orig.take(orig.len() as int) =~= orig);
        }
        self.data = out;
    }
}

/// The index where the stable descending insertion places a cluster: just
/// past the last cluster whose member count is at least the new cluster's.
fn insert_position(s: &Vec<ColorCluster>, c: &ColorCluster) -> (r: usize)
    requires
        sorted_desc(s@),
    ensures
        r <= s@.len(),
        forall|j: int| 0 <= j < r ==> #[trigger] s@[j].data@.len() >= c.data@.len(),
        forall|j: int| r <= j < s@.len() ==> #[trigger] s@[j].data@.len() < c.data@.len(),
{
    let clen = c.len();
    let mut r = s.len();
    while r > 0
        invariant
            r <= s@.len(),
            sorted_desc(s@),
            clen == c.data@.len(),
            forall|j: int| r <= j < s@.len() ==> #[trigger] s@[j].data@.len() < clen,
        decreases r,
    {
        if s[r - 1].len() >= clen {
            proof {
                assert forall|j: int| 0 <= j < r implies #[trigger] s@[j].data@.len()
                    >= c.data@.len() by {
                    if j < r - 1 {
                        assert(s@[j].data@.len() >= s@[r - 1].data@.len());
                    }
                }
            }
            return r;
        }
        r = r - 1;
    }
    0
}

} // verus!
