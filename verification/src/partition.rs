//! The mathematical model of a partition of a pixel grid into aggregates.
//!
//! A partition maps every pixel of a `width` x `height` grid to the aggregate
//! that owns it, and lists for every aggregate the pixels it owns. Slot 0 is a
//! sentinel that owns nothing and stands for "outside the image".

use vstd::prelude::*;
use crate::color::Color;

verus! {

/// A grid of pixels divided among aggregates.
pub struct Partition {
    /// Pixels per row.
    pub width: nat,
    /// Number of rows.
    pub height: nat,
    /// For every pixel index, the id of the aggregate that owns it.
    pub owner: Seq<usize>,
    /// For every aggregate id, the pixel indices it owns, in the order gained.
    pub pixels: Seq<Seq<u32>>,
    /// For every aggregate id, its representative color.
    pub colors: Seq<Color>,
}

/// The sum of the lengths of the lists.
pub open spec fn total_len(lists: Seq<Seq<u32>>) -> nat
    decreases lists.len(),
{
    if lists.len() == 0 {
        0
    } else {
        total_len(lists.drop_last()) + lists.last().len()
    }
}

/// The number of lists that are not empty.
pub open spec fn live_count(lists: Seq<Seq<u32>>) -> nat
    decreases lists.len(),
{
    if lists.len() == 0 {
        0
    } else {
        live_count(lists.drop_last()) + if lists.last().len() > 0 { 1nat } else { 0nat }
    }
}

/// The members of `set` below `bound`, in ascending order.
pub open spec fn ascending(set: Set<usize>, bound: nat) -> Seq<usize>
    decreases bound,
{
    if bound == 0 {
        Seq::empty()
    } else {
        let rest = ascending(set, (bound - 1) as nat);
        if set.contains((bound - 1) as usize) {
            rest.push((bound - 1) as usize)
        } else {
            rest
        }
    }
}

/// Every element is smaller than the one after it.
pub open spec fn strictly_ascending(list: Seq<usize>) -> bool {
    forall|i: int, j: int| 0 <= i < j < list.len() ==> list[i] < list[j]
}

/// Replacing one list changes the sum of the lengths by the difference of the
/// two lengths.
pub proof fn lemma_total_len_update(lists: Seq<Seq<u32>>, at: int, list: Seq<u32>)
    requires
        0 <= at < lists.len(),
    ensures
        total_len(lists.update(at, list)) == total_len(lists) - lists[at].len() + list.len(),
    decreases lists.len(),
{
    let changed = lists.update(at, list);
    if at == lists.len() - 1 {
        assert(changed.drop_last() =~= lists.drop_last());
    } else {
        assert(changed.drop_last() =~= lists.drop_last().update(at, list));
        lemma_total_len_update(lists.drop_last(), at, list);
    }
}

/// Replacing one list changes the number of lists that are not empty by one
/// where, of the old list and the new, just one is empty.
pub proof fn lemma_live_count_update(lists: Seq<Seq<u32>>, at: int, list: Seq<u32>)
    requires
        0 <= at < lists.len(),
    ensures
        live_count(lists.update(at, list)) == live_count(lists) - (if lists[at].len() > 0 {
            1int
        } else {
            0int
        }) + (if list.len() > 0 {
            1int
        } else {
            0int
        }),
    decreases lists.len(),
{
    let changed = lists.update(at, list);
    if at == lists.len() - 1 {
        assert(changed.drop_last() =~= lists.drop_last());
    } else {
        assert(changed.drop_last() =~= lists.drop_last().update(at, list));
        lemma_live_count_update(lists.drop_last(), at, list);
    }
}

/// The pixel indices below `n`.
pub open spec fn pixels_below(n: nat) -> Set<u32> {
    Set::new(|p: u32| (p as nat) < n)
}

/// There are `n` pixel indices below `n`.
pub proof fn lemma_pixels_below(n: nat)
    requires
        n <= u32::MAX + 1,
    ensures
        pixels_below(n).finite(),
        pixels_below(n).len() == n,
    decreases n,
{
    if n == 0 {
        assert(pixels_below(0) =~= Set::empty());
    } else {
        lemma_pixels_below((n - 1) as nat);
        assert(pixels_below(n) =~= pixels_below((n - 1) as nat).insert((n - 1) as u32));
    }
}

/// `ascending` is in strictly ascending order and holds the members of the
/// set below the bound, and nothing else.
pub proof fn lemma_ascending_members(set: Set<usize>, bound: nat)
    requires
        bound <= usize::MAX + 1,
    ensures
        strictly_ascending(ascending(set, bound)),
        forall|e: usize|
            #![trigger ascending(set, bound).contains(e)]
            #![trigger set.contains(e)]
            ascending(set, bound).contains(e) <==> (set.contains(e) && e < bound),
    decreases bound,
{
    let list = ascending(set, bound);
    if bound > 0 {
        let top = (bound - 1) as usize;
        let rest = ascending(set, (bound - 1) as nat);
        lemma_ascending_members(set, (bound - 1) as nat);
        if set.contains(top) {
            assert(list == rest.push(top));
            assert forall|i: int, j: int| 0 <= i < j < list.len() implies list[i] < list[j] by {
                assert(list.len() == rest.len() + 1);
                assert(list[i] == rest[i]);
                assert(rest.contains(rest[i]));
                if j < rest.len() {
                    assert(list[j] == rest[j]);
                    assert(rest[i] < rest[j]);
                } else {
                    assert(list[j] == top);
                    assert(rest[i] < bound - 1);
                }
            }
            assert forall|e: usize| list.contains(e) <==> (set.contains(e) && e < bound) by {
                if list.contains(e) {
                    let i = choose|i: int| 0 <= i < list.len() && list[i] == e;
                    if i < rest.len() {
                        assert(rest[i] == e);
                        assert(rest.contains(e));
                    }
                }
                if set.contains(e) && e < bound {
                    if e == top {
                        assert(list[rest.len() as int] == e);
                    } else {
                        assert(rest.contains(e));
                        let i = choose|i: int| 0 <= i < rest.len() && rest[i] == e;
                        assert(list[i] == e);
                    }
                }
            }
        } else {
            assert forall|e: usize| list.contains(e) <==> (set.contains(e) && e < bound) by {
                if set.contains(e) && e < bound {
                    assert(e != top);
                }
            }
        }
    } else {
        assert forall|e: usize| !list.contains(e) by {
            if list.contains(e) {
                let i = choose|i: int| 0 <= i < list.len() && list[i] == e;
            }
        }
    }
}

/// An ascending list is determined by its members: it is `ascending` of any
/// set that has, below `bound`, just those members.
pub proof fn lemma_ascending_is_unique(list: Seq<usize>, set: Set<usize>, bound: nat)
    requires
        bound <= usize::MAX + 1,
        strictly_ascending(list),
        forall|e: usize| list.contains(e) <==> (set.contains(e) && e < bound),
    ensures
        list == ascending(set, bound),
    decreases bound,
{
    if bound == 0 {
        if list.len() > 0 {
            assert(list.contains(list[0]));
        }
        assert(list =~= Seq::empty());
    } else {
        let top = (bound - 1) as usize;
        if set.contains(top) {
            assert(list.contains(top));
            let j = choose|j: int| 0 <= j < list.len() && list[j] == top;
            if j < list.len() - 1 {
                assert(list.contains(list[j + 1]));
            }
            let rest = list.drop_last();
            assert forall|e: usize| rest.contains(e) <==> (set.contains(e) && e < bound - 1) by {
                if rest.contains(e) {
                    let i = choose|i: int| 0 <= i < rest.len() && rest[i] == e;
                    assert(list[i] == e);
                    assert(list.contains(e));
                }
                if set.contains(e) && e < bound - 1 {
                    assert(list.contains(e));
                    let i = choose|i: int| 0 <= i < list.len() && list[i] == e;
                    assert(rest[i] == e);
                }
            }
            lemma_ascending_is_unique(rest, set, (bound - 1) as nat);
            assert(list =~= rest.push(top));
        } else {
            assert forall|e: usize| list.contains(e) <==> (set.contains(e) && e < bound - 1) by {
                if list.contains(e) && e >= bound - 1 {
                    assert(e == top);
                }
            }
            lemma_ascending_is_unique(list, set, (bound - 1) as nat);
        }
    }
}

impl Partition {
    /// The number of pixels of the grid.
    pub open spec fn size(self) -> nat {
        self.width * self.height
    }

    /// The number of aggregate slots, the sentinel included.
    pub open spec fn len(self) -> nat {
        self.pixels.len()
    }

    /// The number of pixels that aggregate `a` owns.
    pub open spec fn area(self, a: int) -> nat {
        self.pixels[a].len()
    }

    /// Every listed pixel lies in the grid and names its lister as owner.
    pub open spec fn lists_are_owned(self) -> bool {
        forall|a: int, k: int|
            0 <= a < self.pixels.len() && 0 <= k < self.pixels[a].len() ==> {
                &&& (#[trigger] self.pixels[a][k]) < self.owner.len()
                &&& self.owner[self.pixels[a][k] as int] == a
            }
    }

    /// No aggregate lists a pixel twice.
    pub open spec fn lists_are_distinct(self) -> bool {
        forall|a: int| 0 <= a < self.pixels.len() ==> (#[trigger] self.pixels[a]).no_duplicates()
    }

    /// Every pixel of the grid has an owner other than the sentinel, and that
    /// owner lists it.
    pub open spec fn owners_list(self) -> bool {
        forall|p: int|
            0 <= p < self.owner.len() ==> {
                &&& 0 < (#[trigger] self.owner[p]) < self.pixels.len()
                &&& self.pixels[self.owner[p] as int].contains(p as u32)
            }
    }

    /// The partition invariant: the lists of the aggregates other than the
    /// sentinel divide the pixel range `0 .. width * height` among them, each
    /// pixel in exactly one list and there exactly once, and `owner` is the
    /// inverse of the lists.
    pub open spec fn wf(self) -> bool {
        &&& self.owner.len() == self.width * self.height
        &&& self.owner.len() <= u32::MAX + 1
        &&& self.pixels.len() <= usize::MAX
        &&& self.colors.len() == self.pixels.len()
        &&& self.lists_are_owned()
        &&& self.lists_are_distinct()
        &&& self.owners_list()
    }

    /// The sum of the areas of all aggregates.
    pub open spec fn total_area(self) -> nat {
        total_len(self.pixels)
    }

    /// The number of aggregates that own at least one pixel.
    pub open spec fn live(self) -> nat {
        live_count(self.pixels)
    }

    /// The pixel next to `p` on side `k` (0 above, 1 below, 2 left, 3 right),
    /// where `p` has the coordinates `x = p mod width`, `y = p div width`;
    /// `None` where that side is the border of the grid.
    pub open spec fn beside(self, p: int, k: int) -> Option<int> {
        let x = p % (self.width as int);
        let y = p / (self.width as int);
        if k == 0 {
            if y > 0 { Some(self.width * (y - 1) + x) } else { None }
        } else if k == 1 {
            if y < self.height - 1 { Some(self.width * (y + 1) + x) } else { None }
        } else if k == 2 {
            if x > 0 { Some(self.width * y + (x - 1)) } else { None }
        } else {
            if x < self.width - 1 { Some(self.width * y + (x + 1)) } else { None }
        }
    }

    /// The owner of the pixel next to `p` on side `k`; the sentinel where that
    /// side is the border.
    pub open spec fn owner_beside(self, p: int, k: int) -> usize {
        match self.beside(p, k) {
            Some(q) => self.owner[q],
            None => 0,
        }
    }

    /// The aggregates met on the four sides of the first `i` pixels of
    /// aggregate `a` and on the first `k` sides of its pixel `i`, the sentinel
    /// and `a` itself left out.
    pub open spec fn met(self, a: int, i: int, k: int) -> Set<usize> {
        Set::new(
            |b: usize|
                b != 0 && b != a && exists|j: int, s: int|
                    0 <= j < self.pixels[a].len() && 0 <= s < 4 && (j < i || (j == i && s < k))
                        && #[trigger] self.owner_beside(self.pixels[a][j] as int, s) == b,
        )
    }

    /// The distinct aggregates that touch aggregate `a`: the owners found on
    /// the four sides of its pixels, the sentinel and `a` itself left out.
    pub open spec fn neighbours(self, a: int) -> Set<usize> {
        Set::new(
            |b: usize|
                b != 0 && b != a && exists|j: int, s: int|
                    0 <= j < self.pixels[a].len() && 0 <= s < 4 && #[trigger] self.owner_beside(
                        self.pixels[a][j] as int,
                        s,
                    ) == b,
        )
    }

    /// The neighbours of aggregate `a`, ascending by id.
    pub open spec fn candidates(self, a: int) -> Seq<usize> {
        ascending(self.neighbours(a), self.pixels.len())
    }

    /// The partition after aggregate `src` is absorbed by aggregate `dst`:
    /// every pixel listed by `src` is owned by `dst` and appended to its
    /// list, the list of `src` is empty, and no color changes.
    pub open spec fn merge(self, src: usize, dst: usize) -> Partition {
        Partition {
            owner: Seq::new(
                self.owner.len(),
                |p: int|
                    if self.pixels[src as int].contains(p as u32) {
                        dst
                    } else {
                        self.owner[p]
                    },
            ),
            pixels: self.pixels.update(
                dst as int,
                self.pixels[dst as int] + self.pixels[src as int],
            ).update(src as int, Seq::empty()),
            ..self
        }
    }

    /// Before any pixel of aggregate `a` is looked at, nothing is met.
    pub proof fn lemma_met_nothing(self, a: int)
        ensures
            self.met(a, 0, 0) =~= Set::empty(),
    {
    }

    /// Looking at side `k` of pixel `i` adds the owner found there, unless it
    /// is the sentinel or `a` itself.
    pub proof fn lemma_met_side(self, a: int, i: int, k: int)
        requires
            0 <= i < self.pixels[a].len(),
            0 <= k < 4,
        ensures
            self.met(a, i, k + 1) =~= ({
                let b = self.owner_beside(self.pixels[a][i] as int, k);
                if b != 0 && b != a {
                    self.met(a, i, k).insert(b)
                } else {
                    self.met(a, i, k)
                }
            }),
    {
        let b = self.owner_beside(self.pixels[a][i] as int, k);
        let grown = if b != 0 && b != a {
            self.met(a, i, k).insert(b)
        } else {
            self.met(a, i, k)
        };
        assert forall|e: usize| self.met(a, i, k + 1).contains(e) implies grown.contains(e) by {
            let (j, s) = choose|j: int, s: int|
                0 <= j < self.pixels[a].len() && 0 <= s < 4 && (j < i || (j == i && s < k + 1))
                    && #[trigger] self.owner_beside(self.pixels[a][j] as int, s) == e;
            if j == i && s == k {
                assert(e == b);
            } else {
                assert(self.met(a, i, k).contains(e));
            }
        }
        assert forall|e: usize| grown.contains(e) implies self.met(a, i, k + 1).contains(e) by {
            if self.met(a, i, k).contains(e) {
                let (j, s) = choose|j: int, s: int|
                    0 <= j < self.pixels[a].len() && 0 <= s < 4 && (j < i || (j == i && s < k))
                        && #[trigger] self.owner_beside(self.pixels[a][j] as int, s) == e;
                assert(self.owner_beside(self.pixels[a][j] as int, s) == e);
            } else {
                assert(self.owner_beside(self.pixels[a][i] as int, k) == e);
            }
        }
    }

    /// All four sides of pixel `i` looked at is the start of pixel `i + 1`.
    pub proof fn lemma_met_pixel(self, a: int, i: int)
        requires
            0 <= i < self.pixels[a].len(),
        ensures
            self.met(a, i, 4) =~= self.met(a, i + 1, 0),
    {
        assert forall|e: usize| self.met(a, i, 4).contains(e) implies self.met(a, i + 1, 0).contains(
            e,
        ) by {
            let (j, s) = choose|j: int, s: int|
                0 <= j < self.pixels[a].len() && 0 <= s < 4 && (j < i || (j == i && s < 4))
                    && #[trigger] self.owner_beside(self.pixels[a][j] as int, s) == e;
            assert(self.owner_beside(self.pixels[a][j] as int, s) == e);
        }
        assert forall|e: usize| self.met(a, i + 1, 0).contains(e) implies self.met(a, i, 4).contains(
            e,
        ) by {
            let (j, s) = choose|j: int, s: int|
                0 <= j < self.pixels[a].len() && 0 <= s < 4 && (j < i + 1 || (j == i + 1 && s < 0))
                    && #[trigger] self.owner_beside(self.pixels[a][j] as int, s) == e;
            assert(self.owner_beside(self.pixels[a][j] as int, s) == e);
        }
    }

    /// With every pixel of aggregate `a` looked at, what was met is its
    /// neighbours.
    pub proof fn lemma_met_everything(self, a: int)
        ensures
            self.met(a, self.pixels[a].len() as int, 0) =~= self.neighbours(a),
    {
        let n = self.pixels[a].len() as int;
        assert forall|e: usize| self.met(a, n, 0).contains(e) implies self.neighbours(a).contains(e) by {
            let (j, s) = choose|j: int, s: int|
                0 <= j < self.pixels[a].len() && 0 <= s < 4 && (j < n || (j == n && s < 0))
                    && #[trigger] self.owner_beside(self.pixels[a][j] as int, s) == e;
            assert(self.owner_beside(self.pixels[a][j] as int, s) == e);
        }
        assert forall|e: usize| self.neighbours(a).contains(e) implies self.met(a, n, 0).contains(e) by {
            let (j, s) = choose|j: int, s: int|
                0 <= j < self.pixels[a].len() && 0 <= s < 4 && #[trigger] self.owner_beside(
                    self.pixels[a][j] as int,
                    s,
                ) == e;
            assert(self.owner_beside(self.pixels[a][j] as int, s) == e);
        }
    }

    /// The owner found beside a pixel is the sentinel or an aggregate slot.
    pub proof fn lemma_owner_beside_is_slot(self, p: int, k: int)
        requires
            self.wf(),
            0 <= p < self.size(),
            0 <= k < 4,
        ensures
            self.owner_beside(p, k) < self.len(),
            self.beside(p, k) matches Some(q) ==> 0 <= q < self.size(),
    {
        let w = self.width as int;
        let h = self.height as int;
        assert(w > 0 && h > 0) by (nonlinear_arith)
            requires
                0 <= p < w * h,
                w >= 0,
                h >= 0,
        ;
        let x = p % w;
        let y = p / w;
        vstd::arithmetic::div_mod::lemma_fundamental_div_mod(p, w);
        assert(0 <= y < h) by (nonlinear_arith)
            requires
                p == w * y + x,
                0 <= p < w * h,
                0 <= x < w,
        ;
        assert(self.owner[p] < self.len());
        if k == 0 {
            if y > 0 {
                assert(0 <= w * (y - 1) + x < w * h) by (nonlinear_arith)
                    requires
                        0 < y < h,
                        0 <= x < w,
                ;
            }
        } else if k == 1 {
            if y < h - 1 {
                assert(0 <= w * (y + 1) + x < w * h) by (nonlinear_arith)
                    requires
                        0 <= y,
                        y + 1 < h,
                        0 <= x < w,
                ;
            }
        } else if k == 2 {
            if x > 0 {
                assert(0 <= w * y + (x - 1) < w * h) by (nonlinear_arith)
                    requires
                        0 <= y < h,
                        0 < x < w,
                ;
            }
        } else {
            if x < w - 1 {
                assert(0 <= w * y + (x + 1) < w * h) by (nonlinear_arith)
                    requires
                        0 <= y < h,
                        0 <= x,
                        x + 1 < w,
                ;
            }
        }
    }

    /// A merge of two distinct aggregates into one that is not the sentinel
    /// keeps the partition invariant.
    pub proof fn lemma_merge_wf(self, src: usize, dst: usize)
        requires
            self.wf(),
            src < self.len(),
            0 < dst < self.len(),
            src != dst,
        ensures
            self.merge(src, dst).wf(),
    {
        let m = self.merge(src, dst);
        let from = self.pixels[src as int];
        let into = self.pixels[dst as int];
        assert(m.pixels[dst as int] == into + from);
        assert(m.pixels[src as int] == Seq::<u32>::empty());
        assert forall|a: int, k: int| 0 <= a < m.pixels.len() && 0 <= k < m.pixels[a].len() implies {
            &&& (#[trigger] m.pixels[a][k]) < m.owner.len()
            &&& m.owner[m.pixels[a][k] as int] == a
        } by {
            let v = m.pixels[a][k];
            if a == dst {
                if k < into.len() {
                    assert(v == self.pixels[dst as int][k]);
                } else {
                    assert(v == self.pixels[src as int][k - into.len()]);
                    assert(from[k - into.len()] == v);
                    assert(from.contains(v));
                }
                assert(m.owner[v as int] == dst);
            } else {
                assert(a != src);
                assert(m.pixels[a] == self.pixels[a]);
                assert(v == self.pixels[a][k]);
                if from.contains(v) {
                    let j = choose|j: int| 0 <= j < from.len() && from[j] == v;
                    assert(self.pixels[src as int][j] == v);
                }
                assert(m.owner[v as int] == self.owner[v as int]);
            }
        }
        assert forall|a: int| 0 <= a < m.pixels.len() implies (#[trigger] m.pixels[a]).no_duplicates() by {
            if a == dst {
                assert(self.pixels[dst as int].no_duplicates());
                assert(self.pixels[src as int].no_duplicates());
                assert forall|i: int, j: int| 0 <= i < into.len() && 0 <= j < from.len() implies into[i]
                    != from[j] by {
                    assert(self.owner[self.pixels[dst as int][i] as int] == dst);
                    assert(self.owner[self.pixels[src as int][j] as int] == src);
                }
                vstd::seq_lib::lemma_no_dup_in_concat(into, from);
            } else if a != src {
                assert(self.pixels[a].no_duplicates());
            }
        }
        assert forall|p: int| 0 <= p < m.owner.len() implies {
            &&& 0 < (#[trigger] m.owner[p]) < m.pixels.len()
            &&& m.pixels[m.owner[p] as int].contains(p as u32)
        } by {
            let o = self.owner[p];
            assert(0 < o < self.pixels.len());
            assert(self.pixels[o as int].contains(p as u32));
            let j = choose|j: int|
                0 <= j < self.pixels[o as int].len() && self.pixels[o as int][j] == p as u32;
            if from.contains(p as u32) {
                let i = choose|i: int| 0 <= i < from.len() && from[i] == p as u32;
                assert(m.owner[p] == dst);
                assert((into + from)[into.len() + i] == p as u32);
            } else {
                assert(m.owner[p] == o);
                assert(o != src);
                if o == dst {
                    assert((into + from)[j] == p as u32);
                } else {
                    assert(m.pixels[o as int] == self.pixels[o as int]);
                }
            }
        }
    }

    /// A candidate of aggregate `a` is an aggregate slot other than the
    /// sentinel and other than `a`.
    pub proof fn lemma_candidates_are_others(self, a: int)
        requires
            self.wf(),
            0 <= a < self.len(),
        ensures
            strictly_ascending(self.candidates(a)),
            forall|i: int|
                0 <= i < self.candidates(a).len() ==> {
                    &&& 0 < (#[trigger] self.candidates(a)[i]) < self.len()
                    &&& self.candidates(a)[i] != a
                    &&& self.neighbours(a).contains(self.candidates(a)[i])
                },
    {
        lemma_ascending_members(self.neighbours(a), self.pixels.len());
        assert forall|i: int| 0 <= i < self.candidates(a).len() implies {
            &&& 0 < (#[trigger] self.candidates(a)[i]) < self.len()
            &&& self.candidates(a)[i] != a
            &&& self.neighbours(a).contains(self.candidates(a)[i])
        } by {
            let e = self.candidates(a)[i];
            assert(self.candidates(a).contains(e));
            assert(self.neighbours(a).contains(e));
            assert(e != 0 && e != a);
        }
    }

    /// An aggregate without pixels has no candidates.
    pub proof fn lemma_no_pixels_no_candidates(self, a: int)
        requires
            self.pixels.len() <= usize::MAX,
            0 <= a < self.pixels.len(),
            self.pixels[a].len() == 0,
        ensures
            self.candidates(a) =~= Seq::empty(),
    {
        lemma_ascending_members(self.neighbours(a), self.pixels.len());
        if self.candidates(a).len() > 0 {
            let e = self.candidates(a)[0];
            assert(self.candidates(a).contains(e));
            assert(self.neighbours(a).contains(e));
        }
    }

    /// The pixels whose owner is a slot before `m`.
    pub open spec fn owned_before(self, m: int) -> Set<u32> {
        Set::new(|p: u32| (p as int) < self.owner.len() && self.owner[p as int] < m)
    }

    /// The slots before `m` list as many pixels as they own.
    pub proof fn lemma_owned_before(self, m: int)
        requires
            self.wf(),
            0 <= m <= self.len(),
        ensures
            self.owned_before(m).finite(),
            self.owned_before(m).len() == total_len(self.pixels.take(m)),
        decreases m,
    {
        if m == 0 {
            assert(self.owned_before(0) =~= Set::empty());
            assert(self.pixels.take(0) =~= Seq::empty());
        } else {
            self.lemma_owned_before(m - 1);
            let list = self.pixels[m - 1];
            let mine = list.to_set();
            list.unique_seq_to_set();
            vstd::seq_lib::seq_to_set_is_finite(list);
            assert forall|p: u32| self.owned_before(m).contains(p) <==> (self.owned_before(
                m - 1,
            ).contains(p) || mine.contains(p)) by {
                if mine.contains(p) {
                    let k = choose|k: int| 0 <= k < list.len() && list[k] == p;
                    assert(self.pixels[m - 1][k] == p);
                }
                if self.owned_before(m).contains(p) && !self.owned_before(m - 1).contains(p) {
                    assert(self.owner[p as int] == m - 1);
                    assert(self.pixels[self.owner[p as int] as int].contains((p as int) as u32));
                }
            }
            assert(self.owned_before(m) =~= self.owned_before(m - 1) + mine);
            assert(self.owned_before(m - 1).disjoint(mine)) by {
                assert forall|p: u32| self.owned_before(m - 1).contains(p) implies !mine.contains(p) by {
                    if mine.contains(p) {
                        let k = choose|k: int| 0 <= k < list.len() && list[k] == p;
                        assert(self.pixels[m - 1][k] == p);
                    }
                }
            }
            vstd::set_lib::lemma_set_disjoint_lens(self.owned_before(m - 1), mine);
            assert(self.pixels.take(m).drop_last() =~= self.pixels.take(m - 1));
            assert(self.pixels.take(m).last() == list);
        }
    }

    /// Under the partition invariant the areas of the aggregates add up to
    /// the number of pixels of the grid.
    pub proof fn lemma_total_area(self)
        requires
            self.wf(),
        ensures
            self.total_area() == self.size(),
    {
        self.lemma_owned_before(self.len() as int);
        lemma_pixels_below(self.size());
        assert(self.pixels.take(self.len() as int) =~= self.pixels);
        assert forall|p: u32| self.owned_before(self.len() as int).contains(p) <==> pixels_below(
            self.size(),
        ).contains(p) by {
            if (p as int) < self.owner.len() {
                assert(self.owner[p as int] < self.len());
            }
        }
        assert(self.owned_before(self.len() as int) =~= pixels_below(self.size()));
    }

    /// A neighbour of an aggregate owns a pixel.
    pub proof fn lemma_neighbours_are_live(self, a: int, b: usize)
        requires
            self.wf(),
            0 <= a < self.len(),
            self.neighbours(a).contains(b),
        ensures
            0 < b < self.len(),
            b != a,
            self.pixels[b as int].len() > 0,
    {
        let (j, s) = choose|j: int, s: int|
            0 <= j < self.pixels[a].len() && 0 <= s < 4 && #[trigger] self.owner_beside(
                self.pixels[a][j] as int,
                s,
            ) == b;
        let p = self.pixels[a][j] as int;
        self.lemma_owner_beside_is_slot(p, s);
        let q = self.beside(p, s).unwrap();
        assert(self.owner[q] == b);
        assert(self.pixels[b as int].contains(q as u32));
    }

    /// A merge of an aggregate into another moves pixels and makes none: the
    /// sum of the areas stays.
    pub proof fn lemma_merge_total_area(self, src: usize, dst: usize)
        requires
            src < self.len(),
            dst < self.len(),
            src != dst,
        ensures
            self.merge(src, dst).total_area() == self.total_area(),
    {
        let joined = self.pixels[dst as int] + self.pixels[src as int];
        let first = self.pixels.update(dst as int, joined);
        lemma_total_len_update(self.pixels, dst as int, joined);
        lemma_total_len_update(first, src as int, Seq::empty());
    }

    /// A merge of an aggregate that owns a pixel into another that does
    /// leaves one aggregate less that owns a pixel.
    pub proof fn lemma_merge_live(self, src: usize, dst: usize)
        requires
            src < self.len(),
            dst < self.len(),
            src != dst,
            self.pixels[src as int].len() > 0,
            self.pixels[dst as int].len() > 0,
        ensures
            self.merge(src, dst).live() == self.live() - 1,
    {
        let joined = self.pixels[dst as int] + self.pixels[src as int];
        let first = self.pixels.update(dst as int, joined);
        lemma_live_count_update(self.pixels, dst as int, joined);
        lemma_live_count_update(first, src as int, Seq::empty());
    }
}

} // verus!
