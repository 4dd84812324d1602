//! The merge stage: a partition store that absorbs small or similar
//! aggregates into their closest neighbour, one aggregate per step.

use vstd::prelude::*;
use crate::color::Color;
use crate::input::Input;
use crate::params::Params;
use crate::partition::{strictly_ascending, Partition};
use crate::policy::best_vote;
use crate::raster::{blank_image, image_height, image_pixels, image_width, paint};
use visioncortex::ColorImage;
use crate::state::State;

verus! {

/// A region of the image: the pixels it covers and its representative color.
pub struct Aggregate {
    indices: Vec<u32>,
    color: Color,
}

/// What an aggregate stands for: its pixel list and its color.
pub struct AggregateView {
    pub pixels: Seq<u32>,
    pub color: Color,
}

impl View for Aggregate {
    type V = AggregateView;

    closed spec fn view(&self) -> AggregateView {
        AggregateView { pixels: self.indices@, color: self.color }
    }
}

impl Aggregate {
    /// The number of pixels that the aggregate covers.
    pub fn area(&self) -> (n: usize)
        ensures
            n == self@.pixels.len(),
    {
        self.indices.len()
    }

    /// The representative color of the aggregate.
    pub fn color(&self) -> (color: Color)
        ensures
            color == self@.color,
    {
        self.color
    }

    /// The indices of the pixels that the aggregate covers, in the order in
    /// which it gained them.
    pub fn indices(&self) -> (indices: &Vec<u32>)
        ensures
            indices@ == self@.pixels,
    {
        &self.indices
    }
}

/// What the stage gives back: the picture of the final partition.
pub type Output = ColorImage;

/// The merge stage. It is fed a partition once, then stepped until done.
pub struct Processor {
    params: Params,
    width: u32,
    height: u32,
    indices: Vec<usize>,
    aggregates: Vec<Aggregate>,
    counter: usize,
}

impl View for Processor {
    type V = State;

    closed spec fn view(&self) -> State {
        State {
            params: self.params,
            partition: Partition {
                width: self.width as nat,
                height: self.height as nat,
                owner: self.indices@,
                pixels: Seq::new(self.aggregates@.len(), |a: int| self.aggregates@[a].indices@),
                colors: Seq::new(self.aggregates@.len(), |a: int| self.aggregates@[a].color),
            },
            steps: self.counter as nat,
        }
    }
}

impl Default for Processor {
    /// The same as `Processor::new`.
    fn default() -> (fresh: Processor)
        ensures
            fresh.wf(),
            fresh@ == Processor::new_spec(),
    {
        Processor::new()
    }
}

/// Puts `id` into the ascending list `list` unless it is there.
fn insert_ascending(list: &mut Vec<usize>, id: usize)
    requires
        strictly_ascending(old(list)@),
    ensures
        strictly_ascending(final(list)@),
        final(list)@.to_set() =~= old(list)@.to_set().insert(id),
{
    let mut at: usize = 0;
    while at < list.len() && list[at] < id
        invariant
            at <= list@.len(),
            forall|j: int| 0 <= j < at ==> list@[j] < id,
        decreases list@.len() - at,
    {
        at += 1;
    }
    if at < list.len() && list[at] == id {
        assert(list@.contains(id));
    } else {
        let ghost before = list@;
        list.insert(at, id);
        assert(list@[at as int] == id);
        assert forall|e: usize| list@.contains(e) <==> (before.contains(e) || e == id) by {
            if before.contains(e) {
                let j = choose|j: int| 0 <= j < before.len() && before[j] == e;
                if j < at {
                    assert(list@[j] == e);
                } else {
                    assert(list@[j + 1] == e);
                }
            }
            if list@.contains(e) && e != id {
                let j = choose|j: int| 0 <= j < list@.len() && list@[j] == e;
                if j < at {
                    assert(before[j] == e);
                } else {
                    assert(before[j - 1] == e);
                }
            }
        }
    }
}

impl Processor {
    /// The partition invariant of the store, and a raster of four bytes per
    /// pixel that the machine can address.
    pub open spec fn wf(&self) -> bool {
        &&& self@.wf()
        &&& 4 * self@.partition.size() <= usize::MAX
    }

    /// The state of a stage that has not been fed: the default thresholds, a
    /// grid without pixels, no aggregate slot and no step taken.
    pub open spec fn new_spec() -> State {
        State {
            params: Params { deviation: 10000, min_size: 4096 },
            partition: Partition {
                width: 0,
                height: 0,
                owner: Seq::empty(),
                pixels: Seq::empty(),
                colors: Seq::empty(),
            },
            steps: 0,
        }
    }

    /// A stage with the default thresholds that has not been fed: it holds no
    /// aggregate, and its run is done.
    pub fn new() -> (fresh: Processor)
        ensures
            fresh.wf(),
            fresh@ == Processor::new_spec(),
    {
        let fresh = Processor {
            params: Params::default(),
            width: 0,
            height: 0,
            indices: Vec::new(),
            aggregates: Vec::new(),
            counter: 0,
        };
        assert(fresh@.partition.pixels =~= Seq::empty());
        assert(fresh@.partition.colors =~= Seq::empty());
        assert(fresh@.partition.owner =~= Seq::empty());
        assert(fresh@.partition.width * fresh@.partition.height == 0) by (nonlinear_arith)
            requires
                fresh@.partition.width == 0,
        ;
        fresh
    }

    /// Sets the thresholds. They may be set until the first step is taken.
    pub fn config(&mut self, params: Params) -> (ok: bool)
        requires
            !old(self)@.started(),
        ensures
            ok,
            final(self)@ == (State { params, ..old(self)@ }),
            final(self).wf() == old(self).wf(),
    {
        self.params = params;
        true
    }

    /// Feeds the stage. A valid input replaces whatever the stage held: one
    /// aggregate per cluster in the order given, after the sentinel, with the
    /// cursor on the first of them. An input that is not valid is refused and
    /// the stage is left as it was.
    pub fn input(&mut self, input: Input) -> (ok: bool)
        ensures
            ok == input.valid(),
            ok ==> final(self).wf() && final(self)@ == State::start(old(self)@.params, input),
            !ok ==> *final(self) == *old(self),
    {
        match input.owners() {
            None => false,
            Some(owner) => {
                let mut aggregates: Vec<Aggregate> = Vec::new();
                aggregates.push(Aggregate { indices: Vec::new(), color: Color::new(0, 0, 0) });
                let mut c: usize = 0;
                while c < input.clusters.len()
                    invariant
                        c <= input.clusters@.len(),
                        aggregates@.len() == c + 1,
                        aggregates@[0].indices@ == Seq::<u32>::empty(),
                        aggregates@[0].color == (Color { r: 0, g: 0, b: 0, a: 255 }),
                        forall|a: int|
                            1 <= a <= c ==> (#[trigger] aggregates@[a]).indices@ == input.clusters@[a
                                - 1].indices@ && aggregates@[a].color == input.clusters@[a - 1].color,
                    decreases input.clusters@.len() - c,
                {
                    let indices = input.clusters[c].indices.clone();
                    assert(indices@ =~= input.clusters@[c as int].indices@);
                    aggregates.push(Aggregate { indices, color: input.clusters[c].color });
                    c += 1;
                }
                self.width = input.width;
                self.height = input.height;
                self.indices = owner;
                self.aggregates = aggregates;
                self.counter = 0;
                proof {
                    input.lemma_valid_is_partition();
                    assert(self@.partition.pixels =~= input.partition().pixels);
                    assert(self@.partition.colors =~= input.partition().colors);
                }
                true
            },
        }
    }

    /// The completion of the run in percent. It is always 100: the position
    /// of the cursor is not taken into account. A caller that wants a true
    /// percentage derives it from `steps` and `len`.
    pub fn progress(&self) -> (percent: u32)
        ensures
            percent == 100,
    {
        100
    }

    /// The thresholds in force.
    pub fn params(&self) -> (params: Params)
        ensures
            params == self@.params,
    {
        self.params
    }

    /// The number of pixels in a row of the grid.
    pub fn width(&self) -> (width: u32)
        ensures
            width == self@.partition.width,
    {
        self.width
    }

    /// The number of rows of the grid.
    pub fn height(&self) -> (height: u32)
        ensures
            height == self@.partition.height,
    {
        self.height
    }

    /// The number of aggregate slots, the sentinel included; zero before the
    /// stage is fed.
    pub fn len(&self) -> (len: usize)
        ensures
            len == self@.partition.len(),
    {
        self.aggregates.len()
    }

    /// The number of steps taken since the stage was fed.
    pub fn steps(&self) -> (steps: usize)
        ensures
            steps == self@.steps,
    {
        self.counter
    }

    /// Whether a step has been taken since the stage was fed.
    pub fn started(&self) -> (started: bool)
        ensures
            started == self@.started(),
    {
        self.counter != 0
    }

    /// Whether every aggregate has been visited.
    pub fn done(&self) -> (done: bool)
        ensures
            done == self@.done(),
    {
        self.aggregates.len() <= 1 || self.counter >= self.aggregates.len() - 1
    }

    /// The aggregate in slot `index`.
    pub fn get_agg(&self, index: usize) -> (aggregate: &Aggregate)
        requires
            index < self@.partition.len(),
        ensures
            aggregate@.pixels == self@.partition.pixels[index as int],
            aggregate@.color == self@.partition.colors[index as int],
    {
        &self.aggregates[index]
    }

    /// The id of the aggregate that owns pixel `pixel`.
    pub fn owner(&self, pixel: usize) -> (id: usize)
        requires
            pixel < self@.partition.owner.len(),
        ensures
            id == self@.partition.owner[pixel as int],
    {
        self.indices[pixel]
    }

    /// The owner of the pixel next to `p` on side `k`, the sentinel where that
    /// side is the border of the grid.
    fn owner_beside(&self, p: u32, k: u8) -> (b: usize)
        requires
            self.wf(),
            p < self@.partition.size(),
            k < 4,
        ensures
            b == self@.partition.owner_beside(p as int, k as int),
            b < self@.partition.len(),
    {
        let w: usize = self.width as usize;
        let h: usize = self.height as usize;
        let p: usize = p as usize;
        assert(w > 0 && h > 0) by (nonlinear_arith)
            requires
                p < w * h,
        ;
        let x: usize = p % w;
        let y: usize = p / w;
        proof {
            assert(self@.partition.owner[p as int] < self@.partition.len());
            vstd::arithmetic::div_mod::lemma_fundamental_div_mod(p as int, w as int);
            assert(y < h) by (nonlinear_arith)
                requires
                    p == w * y + x,
                    p < w * h,
                    0 <= x,
                    w > 0,
            ;
        }
        if k == 0 {
            if y > 0 {
                assert(w * (y - 1) + x < w * h && w * (y - 1) >= 0) by (nonlinear_arith)
                    requires
                        y > 0,
                        y < h,
                        x < w,
                ;
                self.indices[w * (y - 1) + x]
            } else {
                0
            }
        } else if k == 1 {
            if y < h - 1 {
                assert(w * (y + 1) + x < w * h && w * (y + 1) >= 0) by (nonlinear_arith)
                    requires
                        y + 1 < h,
                        x < w,
                ;
                self.indices[w * (y + 1) + x]
            } else {
                0
            }
        } else if k == 2 {
            if x > 0 {
                assert(w * y >= 0 && w * y + x < w * h) by (nonlinear_arith)
                    requires
                        y < h,
                        x < w,
                ;
                self.indices[w * y + (x - 1)]
            } else {
                0
            }
        } else {
            if x < w - 1 {
                assert(w * y >= 0 && w * y + x + 1 < w * h) by (nonlinear_arith)
                    requires
                        y < h,
                        x + 1 < w,
                ;
                self.indices[w * y + (x + 1)]
            } else {
                0
            }
        }
    }

    /// The distinct aggregates that touch aggregate `index` along a side of
    /// one of its pixels, ascending by id. The sentinel and `index` itself are
    /// never among them.
    pub fn neighbours_of(&self, index: usize) -> (list: Vec<usize>)
        requires
            self.wf(),
            index < self@.partition.len(),
        ensures
            list@ == self@.partition.candidates(index as int),
    {
        let ghost part = self@.partition;
        let ghost a = index as int;
        let mut list: Vec<usize> = Vec::new();
        let n = self.aggregates[index].indices.len();
        let mut i: usize = 0;
        proof {
            part.lemma_met_nothing(a);
        }
        while i < n
            invariant
                self.wf(),
                part == self@.partition,
                a == index,
                index < part.len(),
                n == part.pixels[a].len(),
                i <= n,
                strictly_ascending(list@),
                list@.to_set() =~= part.met(a, i as int, 0),
            decreases n - i,
        {
            let p = self.aggregates[index].indices[i];
            assert(p == part.pixels[a][i as int]);
            let mut k: u8 = 0;
            while k < 4
                invariant
                    self.wf(),
                    part == self@.partition,
                    a == index,
                    index < part.len(),
                    i < part.pixels[a].len(),
                    p == part.pixels[a][i as int],
                    k <= 4,
                    strictly_ascending(list@),
                    list@.to_set() =~= part.met(a, i as int, k as int),
                decreases 4 - k,
            {
                let b = self.owner_beside(p, k);
                proof {
                    part.lemma_met_side(a, i as int, k as int);
                }
                if b != 0 && b != index {
                    insert_ascending(&mut list, b);
                }
                k += 1;
            }
            proof {
                part.lemma_met_pixel(a, i as int);
            }
            i += 1;
        }
        proof {
            part.lemma_met_everything(a);
            assert forall|e: usize| list@.contains(e) <==> (part.neighbours(a).contains(e) && e
                < part.pixels.len()) by {
                assert(list@.to_set().contains(e) <==> list@.contains(e));
                if part.neighbours(a).contains(e) {
                    part.lemma_neighbours_are_live(a, e);
                }
            }
            assert(part.pixels.len() == self.aggregates.len());
            crate::partition::lemma_ascending_is_unique(list@, part.neighbours(a), part.pixels.len());
        }
        list
    }

    /// Merges aggregate `src` into aggregate `dst`: every pixel of `src` is
    /// given to `dst` and appended to its list, and `src` is left empty.
    fn merge_into(&mut self, src: usize, dst: usize)
        requires
            old(self).wf(),
            src < old(self)@.partition.len(),
            0 < dst < old(self)@.partition.len(),
            src != dst,
        ensures
            final(self).wf(),
            final(self)@ == (State {
                partition: old(self)@.partition.merge(src, dst),
                ..old(self)@
            }),
    {
        let ghost before = self@.partition;
        let ghost from = before.pixels[src as int];
        let n = self.aggregates[src].indices.len();
        let mut i: usize = 0;
        while i < n
            invariant
                i <= n,
                n == from.len(),
                src < self.aggregates@.len(),
                dst < self.aggregates@.len(),
                before.wf(),
                from == before.pixels[src as int],
                self.aggregates == old(self).aggregates,
                self.params == old(self).params,
                self.width == old(self).width,
                self.height == old(self).height,
                self.counter == old(self).counter,
                before == old(self)@.partition,
                self.indices@.len() == before.owner.len(),
                forall|p: int|
                    0 <= p < before.owner.len() ==> #[trigger] self.indices@[p] == if from.take(
                        i as int,
                    ).contains(p as u32) {
                        dst
                    } else {
                        before.owner[p]
                    },
            decreases n - i,
        {
            let v = self.aggregates[src].indices[i];
            assert(v == before.pixels[src as int][i as int]);
            self.indices[v as usize] = dst;
            proof {
                let done = from.take(i as int);
                let next = from.take(i as int + 1);
                assert(next =~= done.push(v));
                assert forall|p: int| 0 <= p < before.owner.len() implies #[trigger] self.indices@[p]
                    == if next.contains(p as u32) {
                    dst
                } else {
                    before.owner[p]
                } by {
                    if done.contains(p as u32) {
                        let j = choose|j: int| 0 <= j < done.len() && done[j] == p as u32;
                        assert(next[j] == p as u32);
                    }
                    if p == v as int {
                        assert(next[i as int] == v);
                    }
                    if next.contains(p as u32) && p != v as int {
                        let j = choose|j: int| 0 <= j < next.len() && next[j] == p as u32;
                        assert(done[j] == p as u32);
                    }
                }
            }
            i += 1;
        }
        let mut moved: Vec<u32> = Vec::new();
        std::mem::swap(&mut self.aggregates[src].indices, &mut moved);
        self.aggregates[dst].indices.append(&mut moved);
        proof {
            let after = before.merge(src, dst);
            assert(from.take(n as int) =~= from);
            assert(self@.partition.owner =~= after.owner);
            assert(self@.partition.pixels =~= after.pixels);
            assert(self@.partition.colors =~= after.colors);
            before.lemma_merge_wf(src, dst);
        }
    }

    /// The neighbours of the aggregate under the cursor, ascending by id; none
    /// where it owns no pixel, and none once the run is done.
    pub fn candidates(&self) -> (list: Vec<usize>)
        requires
            self.wf(),
        ensures
            list@ == self@.candidates(),
    {
        if self.counter + 1 < self.aggregates.len() {
            if self.aggregates[self.counter + 1].indices.len() > 0 {
                self.neighbours_of(self.counter + 1)
            } else {
                proof {
                    self@.partition.lemma_no_pixels_no_candidates(self@.cursor() as int);
                }
                Vec::new()
            }
        } else {
            Vec::new()
        }
    }

    /// One step, given the candidates of the aggregate under the cursor and a
    /// score for each.
    fn settle(&mut self, candidates: &Vec<usize>, scores: &Vec<i32>) -> (done: bool)
        requires
            old(self).wf(),
            candidates@ == old(self)@.candidates(),
            old(self)@.admits(scores@),
        ensures
            final(self).wf(),
            final(self)@ == old(self)@.step(scores@),
            done == old(self)@.done(),
            done ==> *final(self) == *old(self),
    {
        if self.counter + 1 < self.aggregates.len() {
            let current = self.counter + 1;
            let area = self.aggregates[current].area();
            if area > 0 && scores.len() > 0 {
                let b = best_vote(scores);
                proof {
                    crate::policy::lemma_best_is_first_least(scores@);
                    self@.partition.lemma_candidates_are_others(current as int);
                }
                if self.params.should_merge(area, scores[b]) {
                    self.merge_into(current, candidates[b]);
                }
            }
            self.counter += 1;
            false
        } else {
            true
        }
    }

    /// One step of the run, given a score for each candidate of the aggregate
    /// under the cursor, in the order of `candidates`. Reports whether the run
    /// was done already; a run that is done is left as it is.
    pub fn step(&mut self, scores: &Vec<i32>) -> (done: bool)
        requires
            old(self).wf(),
            old(self)@.admits(scores@),
        ensures
            final(self).wf(),
            final(self)@ == old(self)@.step(scores@),
            done == old(self)@.done(),
            done ==> *final(self) == *old(self),
            final(self)@.partition.total_area() == old(self)@.partition.total_area(),
            final(self)@.partition.live() <= old(self)@.partition.live(),
    {
        proof {
            self@.lemma_step_conserves_area(scores@);
            self@.lemma_step_never_grows(scores@);
        }
        let candidates = self.candidates();
        self.settle(&candidates, scores)
    }

    /// One step of the run. The aggregate under the cursor is scored against
    /// each of its candidates by `metric`, called on its own color and the
    /// color of the candidate; it is absorbed by the best of them where the
    /// merge policy says so, and the cursor moves on. Reports whether the run
    /// was done already; a run that is done is left as it is.
    pub fn tick<F: Fn(Color, Color) -> i32>(&mut self, metric: F) -> (done: bool)
        requires
            old(self).wf(),
            forall|a: Color, b: Color| call_requires(metric, (a, b)),
        ensures
            final(self).wf(),
            done == old(self)@.done(),
            done ==> *final(self) == *old(self),
            exists|scores: Seq<i32>| #[trigger]
                old(self)@.scored_by(metric, scores) && final(self)@ == old(self)@.step(scores),
            forall|function: spec_fn(Color, Color) -> i32|
                State::computes(metric, function) ==> final(self)@ == old(self)@.step(
                    #[trigger] old(self)@.scores_by(function),
                ),
            final(self)@.partition.total_area() == old(self)@.partition.total_area(),
            final(self)@.partition.live() <= old(self)@.partition.live(),
    {
        let candidates = self.candidates();
        let mut scores: Vec<i32> = Vec::new();
        let mut i: usize = 0;
        proof {
            if candidates@.len() > 0 {
                self@.partition.lemma_candidates_are_others(self@.cursor() as int);
            }
        }
        while i < candidates.len()
            invariant
                self.wf(),
                *self == *old(self),
                candidates@ == self@.candidates(),
                i <= candidates@.len(),
                scores@.len() == i,
                forall|a: Color, b: Color| call_requires(metric, (a, b)),
                candidates@.len() > 0 ==> !self@.done(),
                forall|j: int| 0 <= j < candidates@.len() ==> (#[trigger] candidates@[j]) < self@.partition.len(),
                forall|j: int|
                    0 <= j < i ==> call_ensures(
                        metric,
                        (
                            self@.partition.colors[self@.cursor() as int],
                            self@.partition.colors[candidates@[j] as int],
                        ),
                        #[trigger] scores@[j],
                    ),
            decreases candidates@.len() - i,
        {
            let mine = self.aggregates[self.counter + 1].color;
            let other = self.aggregates[candidates[i]].color;
            let score = metric(mine, other);
            scores.push(score);
            i += 1;
        }
        proof {
            self@.lemma_step_conserves_area(scores@);
            self@.lemma_step_never_grows(scores@);
        }
        let done = self.settle(&candidates, &scores);
        proof {
            assert(old(self)@.scored_by(metric, scores@));
            assert forall|function: spec_fn(Color, Color) -> i32|
                State::computes(metric, function) implies self@ == old(self)@.step(
                #[trigger] old(self)@.scores_by(function),
            ) by {
                old(self)@.lemma_scores_of_function(metric, function, scores@);
            }
        }
        done
    }

    /// The picture of the partition: an image of the width and height of the
    /// grid in which every pixel has the color of the aggregate that owns it.
    /// It is taken when the run is done.
    pub fn output(&mut self) -> (image: Output)
        requires
            old(self).wf(),
            old(self)@.done(),
        ensures
            *final(self) == *old(self),
            image_width(image) == old(self)@.partition.width,
            image_height(image) == old(self)@.partition.height,
            image_pixels(image) == old(self)@.partition.raster(),
    {
        let ghost part = self@.partition;
        let mut image = blank_image(self.width as usize, self.height as usize);
        proof {
            part.lemma_painted_nothing();
        }
        let mut a: usize = 0;
        while a < self.aggregates.len()
            invariant
                *self == *old(self),
                self.wf(),
                part == self@.partition,
                a <= part.len(),
                part.len() == self.aggregates@.len(),
                image_width(image) == part.width,
                image_height(image) == part.height,
                image_pixels(image) == part.painted(a as int, 0),
            decreases part.len() - a,
        {
            let n = self.aggregates[a].indices.len();
            let color = self.aggregates[a].color;
            let mut k: usize = 0;
            while k < n
                invariant
                    *self == *old(self),
                    self.wf(),
                    part == self@.partition,
                    a < part.len(),
                    part.len() == self.aggregates@.len(),
                    n == part.pixels[a as int].len(),
                    color == part.colors[a as int],
                    k <= n,
                    image_width(image) == part.width,
                    image_height(image) == part.height,
                    image_pixels(image) == part.painted(a as int, k as int),
                decreases n - k,
            {
                let px = self.aggregates[a].indices[k];
                assert(px == part.pixels[a as int][k as int]);
                assert(px < part.owner.len());
                assert(self.width > 0) by (nonlinear_arith)
                    requires
                        px < self.width * self.height,
                ;
                let x = px % self.width;
                let y = px / self.width;
                proof {
                    vstd::arithmetic::div_mod::lemma_fundamental_div_mod(px as int, self.width as int);
                    assert(y * self.width + x == px) by (nonlinear_arith)
                        requires
                            px == self.width * y + x,
                    ;
                    part.lemma_painted_pixel(a as int, k as int);
                }
                paint(&mut image, x as usize, y as usize, color);
                k += 1;
            }
            proof {
                part.lemma_painted_aggregate(a as int);
            }
            a += 1;
        }
        proof {
            part.lemma_painted_all();
        }
        image
    }
}

} // verus!
