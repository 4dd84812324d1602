//! The incoming partition: a grid and the clusters that divide it.

use vstd::prelude::*;
use crate::color::Color;
use crate::partition::Partition;

verus! {

/// One region of the incoming partition.
pub struct Cluster {
    /// The indices of the pixels of the region.
    pub indices: Vec<u32>,
    /// The representative color of the region.
    pub color: Color,
}

/// A grid of `width` x `height` pixels and the clusters that divide it. Pixel
/// `(x, y)` has the index `y * width + x`.
pub struct Input {
    /// Pixels per row.
    pub width: u32,
    /// Number of rows.
    pub height: u32,
    /// For every pixel index, the id that the producer gave its cluster. Only
    /// the length is read: it is the number of pixels.
    pub cluster_indices: Vec<u32>,
    /// The clusters, in the order in which they become aggregates.
    pub clusters: Vec<Cluster>,
}

/// Whether position `(c1, k1)` comes before position `(c, k)`, clusters first.
pub open spec fn before(c1: int, k1: int, c: int, k: int) -> bool {
    c1 < c || (c1 == c && k1 < k)
}

impl Input {
    /// The number of pixels of the grid.
    pub open spec fn size(&self) -> nat {
        self.width as nat * self.height as nat
    }

    /// The pixel lists of the clusters, in order.
    pub open spec fn lists(&self) -> Seq<Seq<u32>> {
        Seq::new(self.clusters@.len(), |c: int| self.clusters@[c].indices@)
    }

    /// The colors of the clusters, in order.
    pub open spec fn colors(&self) -> Seq<Color> {
        Seq::new(self.clusters@.len(), |c: int| self.clusters@[c].color)
    }

    /// Every listed pixel lies in the grid.
    pub open spec fn in_grid(&self) -> bool {
        forall|c: int, k: int|
            0 <= c < self.lists().len() && 0 <= k < self.lists()[c].len() ==> (
            #[trigger] self.lists()[c][k]) < self.size()
    }

    /// No pixel is listed twice, neither by two clusters nor by one.
    pub open spec fn disjoint(&self) -> bool {
        forall|c1: int, k1: int, c2: int, k2: int|
            0 <= c1 < self.lists().len() && 0 <= k1 < self.lists()[c1].len() && 0 <= c2
                < self.lists().len() && 0 <= k2 < self.lists()[c2].len() && (
            #[trigger] self.lists()[c1][k1]) == (#[trigger] self.lists()[c2][k2]) ==> c1 == c2 && k1
                == k2
    }

    /// Whether cluster `c` lists pixel `p`.
    pub open spec fn lists_pixel(&self, c: int, p: int) -> bool {
        0 <= c < self.lists().len() && exists|k: int|
            0 <= k < self.lists()[c].len() && (#[trigger] self.lists()[c][k]) == p
    }

    /// Whether some cluster lists pixel `p`.
    pub open spec fn is_listed(&self, p: int) -> bool {
        exists|c: int| self.lists_pixel(c, p)
    }

    /// Every pixel of the grid is listed.
    pub open spec fn covering(&self) -> bool {
        forall|p: int| 0 <= p < self.size() ==> #[trigger] self.is_listed(p)
    }

    /// Whether the input is a partition of the grid that the stage can hold:
    /// the flat index has one entry per pixel, the pixel lists of the clusters
    /// are disjoint and cover the grid, and the machine can number one slot
    /// more than there are clusters and address a raster of four bytes per
    /// pixel.
    pub open spec fn valid(&self) -> bool {
        &&& self.cluster_indices@.len() == self.size()
        &&& self.clusters@.len() < usize::MAX
        &&& 4 * self.size() <= usize::MAX
        &&& self.in_grid()
        &&& self.disjoint()
        &&& self.covering()
    }

    /// A cluster that lists pixel `p`.
    pub open spec fn cluster_of(&self, p: int) -> int {
        choose|c: int| self.lists_pixel(c, p)
    }

    /// The partition that the input describes. Slot 0 is the sentinel, black
    /// and empty; cluster `c` becomes aggregate `c + 1`, with its pixel list
    /// and its color.
    pub open spec fn partition(&self) -> Partition {
        Partition {
            width: self.width as nat,
            height: self.height as nat,
            owner: Seq::new(self.size(), |p: int| (self.cluster_of(p) + 1) as usize),
            pixels: seq![Seq::<u32>::empty()] + self.lists(),
            colors: seq![Color { r: 0, g: 0, b: 0, a: 255 }] + self.colors(),
        }
    }

    /// The pixels claimed by the positions before `(c, k)`: `owner` maps each
    /// of them to the slot of its cluster, every other pixel to the sentinel,
    /// and no two of those positions name the same pixel.
    pub open spec fn claimed(&self, owner: Seq<usize>, c: int, k: int) -> bool {
        &&& owner.len() == self.size()
        &&& forall|c1: int, k1: int|
            0 <= c1 < self.lists().len() && 0 <= k1 < self.lists()[c1].len() && before(c1, k1, c, k)
                ==> (#[trigger] self.lists()[c1][k1]) < self.size() && owner[self.lists()[c1][k1] as int]
                == c1 + 1
        &&& forall|q: int|
            0 <= q < self.size() && (#[trigger] owner[q]) != 0 ==> exists|c1: int, k1: int|
                0 <= c1 < self.lists().len() && 0 <= k1 < self.lists()[c1].len() && before(
                    c1,
                    k1,
                    c,
                    k,
                ) && (#[trigger] self.lists()[c1][k1]) == q
        &&& forall|c1: int, k1: int, c2: int, k2: int|
            0 <= c1 < self.lists().len() && 0 <= k1 < self.lists()[c1].len() && before(c1, k1, c, k)
                && 0 <= c2 < self.lists().len() && 0 <= k2 < self.lists()[c2].len() && before(
                c2,
                k2,
                c,
                k,
            ) && (#[trigger] self.lists()[c1][k1]) == (#[trigger] self.lists()[c2][k2]) ==> c1 == c2
                && k1 == k2
    }

    /// Checks that the input is valid and, where it is, gives the owner of
    /// every pixel.
    pub fn owners(&self) -> (owner: Option<Vec<usize>>)
        ensures
            owner.is_some() == self.valid(),
            owner matches Some(o) ==> o@ == self.partition().owner,
    {
        assert(self.width * self.height <= u64::MAX) by (nonlinear_arith)
            requires
                self.width <= u32::MAX,
                self.height <= u32::MAX,
        ;
        let size: u64 = (self.width as u64) * (self.height as u64);
        if size > 0x1_0000_0000 {
            proof {
                if self.covering() {
                    assert(self.is_listed(0x1_0000_0000));
                }
            }
            return None;
        }
        if self.cluster_indices.len() as u64 != size {
            return None;
        }
        if size > (usize::MAX as u64) / 4 || self.clusters.len() == usize::MAX {
            return None;
        }
        let n: usize = size as usize;
        let mut owner: Vec<usize> = vec![0usize; n];
        let mut c: usize = 0;
        while c < self.clusters.len()
            invariant
                n == self.size(),
                c <= self.clusters@.len(),
                self.claimed(owner@, c as int, 0),
            decreases self.clusters@.len() - c,
        {
            let mut k: usize = 0;
            while k < self.clusters[c].indices.len()
                invariant
                    n == self.size(),
                    c < self.clusters@.len(),
                    k <= self.clusters@[c as int].indices@.len(),
                    self.claimed(owner@, c as int, k as int),
                decreases self.clusters@[c as int].indices@.len() - k,
            {
                let v = self.clusters[c].indices[k];
                assert(v == self.lists()[c as int][k as int]);
                if v as usize >= n {
                    return None;
                }
                if owner[v as usize] != 0 {
                    return None;
                }
                let ghost prior = owner@;
                assert(c < self.clusters.len());
                owner[v as usize] = c + 1;
                proof {
                    self.lemma_claim(prior, c as int, k as int);
                }
                k += 1;
            }
            proof {
                self.lemma_claimed_cluster(owner@, c as int);
            }
            c += 1;
        }
        let mut p: usize = 0;
        while p < n
            invariant
                n == self.size(),
                n == owner@.len(),
                p <= n,
                self.claimed(owner@, self.lists().len() as int, 0),
                forall|q: int| 0 <= q < p ==> (#[trigger] owner@[q]) != 0,
            decreases n - p,
        {
            if owner[p] == 0 {
                proof {
                    if self.is_listed(p as int) {
                        let c1 = choose|c1: int| self.lists_pixel(c1, p as int);
                        let k1 = choose|k1: int|
                            0 <= k1 < self.lists()[c1].len() && (#[trigger] self.lists()[c1][k1]) == p;
                        assert(before(c1, k1, self.lists().len() as int, 0));
                    }
                }
                return None;
            }
            p += 1;
        }
        proof {
            self.lemma_claimed_all(owner@);
        }
        Some(owner)
    }

    /// Claiming the pixel at position `(c, k)`, which lies in the grid and is
    /// unclaimed so far, extends `claimed` to the next position.
    proof fn lemma_claim(&self, owner: Seq<usize>, c: int, k: int)
        requires
            self.claimed(owner, c, k),
            0 <= c < self.lists().len(),
            0 <= k < self.lists()[c].len(),
            self.lists()[c][k] < self.size(),
            owner[self.lists()[c][k] as int] == 0,
            c + 1 <= usize::MAX,
        ensures
            self.claimed(owner.update(self.lists()[c][k] as int, (c + 1) as usize), c, k + 1),
    {
        let v = self.lists()[c][k];
        let next = owner.update(v as int, (c + 1) as usize);
        assert forall|c1: int, k1: int|
            0 <= c1 < self.lists().len() && 0 <= k1 < self.lists()[c1].len() && before(
                c1,
                k1,
                c,
                k + 1,
            ) implies (#[trigger] self.lists()[c1][k1]) < self.size() && next[self.lists()[c1][k1] as int]
            == c1 + 1 by {
            if !(c1 == c && k1 == k) {
                assert(before(c1, k1, c, k));
            }
        }
        assert forall|q: int| 0 <= q < self.size() && (#[trigger] next[q]) != 0 implies exists|
            c1: int,
            k1: int,
        |
            0 <= c1 < self.lists().len() && 0 <= k1 < self.lists()[c1].len() && before(c1, k1, c, k + 1)
                && (#[trigger] self.lists()[c1][k1]) == q by {
            if q == v as int {
                assert(before(c, k, c, k + 1) && self.lists()[c][k] == q);
            } else {
                assert(owner[q] != 0);
                let (c1, k1) = choose|c1: int, k1: int|
                    0 <= c1 < self.lists().len() && 0 <= k1 < self.lists()[c1].len() && before(
                        c1,
                        k1,
                        c,
                        k,
                    ) && (#[trigger] self.lists()[c1][k1]) == q;
                assert(before(c1, k1, c, k + 1) && self.lists()[c1][k1] == q);
            }
        }
        assert forall|c1: int, k1: int, c2: int, k2: int|
            0 <= c1 < self.lists().len() && 0 <= k1 < self.lists()[c1].len() && before(
                c1,
                k1,
                c,
                k + 1,
            ) && 0 <= c2 < self.lists().len() && 0 <= k2 < self.lists()[c2].len() && before(
                c2,
                k2,
                c,
                k + 1,
            ) && (#[trigger] self.lists()[c1][k1]) == (#[trigger] self.lists()[c2][k2]) implies c1 == c2
            && k1 == k2 by {
            if !(c1 == c && k1 == k) {
                assert(before(c1, k1, c, k));
            }
            if !(c2 == c && k2 == k) {
                assert(before(c2, k2, c, k));
            }
        }
    }

    /// The end of cluster `c` is the start of cluster `c + 1`.
    proof fn lemma_claimed_cluster(&self, owner: Seq<usize>, c: int)
        requires
            0 <= c < self.lists().len(),
            self.claimed(owner, c, self.lists()[c].len() as int),
        ensures
            self.claimed(owner, c + 1, 0),
    {
        let end = self.lists()[c].len() as int;
        assert forall|c1: int, k1: int|
            0 <= c1 < self.lists().len() && 0 <= k1 < self.lists()[c1].len() implies (before(
            c1,
            k1,
            c + 1,
            0,
        ) <==> before(c1, k1, c, end)) by {}
        assert forall|q: int| 0 <= q < self.size() && (#[trigger] owner[q]) != 0 implies exists|
            c1: int,
            k1: int,
        |
            0 <= c1 < self.lists().len() && 0 <= k1 < self.lists()[c1].len() && before(c1, k1, c + 1, 0)
                && (#[trigger] self.lists()[c1][k1]) == q by {
            let (c1, k1) = choose|c1: int, k1: int|
                0 <= c1 < self.lists().len() && 0 <= k1 < self.lists()[c1].len() && before(
                    c1,
                    k1,
                    c,
                    end,
                ) && (#[trigger] self.lists()[c1][k1]) == q;
            assert(before(c1, k1, c + 1, 0) && self.lists()[c1][k1] == q);
        }
    }

    /// With every position claimed and no pixel left to the sentinel, the
    /// input is a partition and `owner` is the owner map of its model.
    proof fn lemma_claimed_all(&self, owner: Seq<usize>)
        requires
            self.claimed(owner, self.lists().len() as int, 0),
            forall|q: int| 0 <= q < self.size() ==> (#[trigger] owner[q]) != 0,
        ensures
            self.in_grid(),
            self.disjoint(),
            self.covering(),
            owner == self.partition().owner,
    {
        let end = self.lists().len() as int;
        assert forall|c1: int, k1: int|
            0 <= c1 < self.lists().len() && 0 <= k1 < self.lists()[c1].len() implies before(
            c1,
            k1,
            end,
            0,
        ) by {}
        assert forall|p: int| 0 <= p < self.size() implies self.is_listed(p) && owner[p]
            == self.cluster_of(p) + 1 by {
            assert(owner[p] != 0);
            let (c1, k1) = choose|c1: int, k1: int|
                0 <= c1 < self.lists().len() && 0 <= k1 < self.lists()[c1].len() && before(
                    c1,
                    k1,
                    end,
                    0,
                ) && (#[trigger] self.lists()[c1][k1]) == p;
            assert(self.lists_pixel(c1, p));
            let c2 = self.cluster_of(p);
            assert(self.lists_pixel(c2, p));
            let k2 = choose|k2: int|
                0 <= k2 < self.lists()[c2].len() && (#[trigger] self.lists()[c2][k2]) == p;
            assert(owner[self.lists()[c2][k2] as int] == c2 + 1);
            assert(owner[self.lists()[c1][k1] as int] == c1 + 1);
        }
        assert(owner =~= self.partition().owner);
    }

    /// A valid input describes a partition that meets the partition
    /// invariant.
    pub proof fn lemma_valid_is_partition(&self)
        requires
            self.valid(),
        ensures
            self.partition().wf(),
    {
        let part = self.partition();
        if self.size() > u32::MAX + 1 {
            assert(self.is_listed(u32::MAX + 1));
        }
        assert forall|a: int, k: int| 0 <= a < part.pixels.len() && 0 <= k < part.pixels[a].len() implies {
            &&& (#[trigger] part.pixels[a][k]) < part.owner.len()
            &&& part.owner[part.pixels[a][k] as int] == a
        } by {
            let v = part.pixels[a][k];
            assert(v == self.lists()[a - 1][k]);
            assert(self.lists_pixel(a - 1, v as int));
            let c = self.cluster_of(v as int);
            let j = choose|j: int| 0 <= j < self.lists()[c].len() && (#[trigger] self.lists()[c][j]) == v;
        }
        assert forall|a: int| 0 <= a < part.pixels.len() implies (#[trigger] part.pixels[a]).no_duplicates() by {
            if a > 0 {
                let list = self.lists()[a - 1];
                assert forall|i: int, j: int| 0 <= i < list.len() && 0 <= j < list.len() && i != j implies list[i]
                    != list[j] by {
                    assert(self.lists()[a - 1][i] == list[i]);
                    assert(self.lists()[a - 1][j] == list[j]);
                }
            }
        }
        assert forall|p: int| 0 <= p < part.owner.len() implies {
            &&& 0 < (#[trigger] part.owner[p]) < part.pixels.len()
            &&& part.pixels[part.owner[p] as int].contains(p as u32)
        } by {
            assert(self.is_listed(p));
            let c = self.cluster_of(p);
            let j = choose|j: int| 0 <= j < self.lists()[c].len() && (#[trigger] self.lists()[c][j]) == p;
            assert(part.pixels[c + 1] == self.lists()[c]);
            assert(part.pixels[c + 1][j] == p as u32);
        }
    }
}

} // verus!
