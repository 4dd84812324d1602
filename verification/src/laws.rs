//! What holds of every run: the partition invariant, the conservation of
//! area, the shrinking number of live aggregates, the finality of a finished
//! run, and that a run is a function of what it is given.

use vstd::prelude::*;
use crate::color::Color;
use crate::input::Input;
use crate::params::Params;
use crate::partition::Partition;
use crate::policy::{best, lemma_best_is_first_least};
use crate::state::State;

verus! {

impl Partition {
    /// Whether an aggregate other than the sentinel lists pixel `p`.
    pub open spec fn is_listed(self, p: int) -> bool {
        exists|a: int, k: int|
            0 < a < self.len() && 0 <= k < self.pixels[a].len() && (#[trigger] self.pixels[a][k]) == p
    }

    /// Under the partition invariant the pixel lists divide the grid: the
    /// sentinel lists nothing, every listed pixel lies in the grid, every pixel
    /// of the grid is listed by an aggregate, and no pixel is listed twice,
    /// neither by two aggregates nor by one.
    pub proof fn lemma_lists_divide_grid(self)
        requires
            self.wf(),
        ensures
            self.len() > 0 ==> self.pixels[0].len() == 0,
            forall|a: int, k: int|
                0 <= a < self.len() && 0 <= k < self.pixels[a].len() ==> (
                #[trigger] self.pixels[a][k]) < self.size(),
            forall|p: int| 0 <= p < self.size() ==> #[trigger] self.is_listed(p),
            forall|a1: int, k1: int, a2: int, k2: int|
                0 <= a1 < self.len() && 0 <= k1 < self.pixels[a1].len() && 0 <= a2 < self.len() && 0
                    <= k2 < self.pixels[a2].len() && (#[trigger] self.pixels[a1][k1]) == (
                #[trigger] self.pixels[a2][k2]) ==> a1 == a2 && k1 == k2,
    {
        if self.len() > 0 && self.pixels[0].len() > 0 {
            assert(self.owner[self.pixels[0][0] as int] == 0);
        }
        assert forall|p: int| 0 <= p < self.size() implies #[trigger] self.is_listed(p) by {
            let a = self.owner[p] as int;
            assert(self.pixels[a].contains(p as u32));
            let k = choose|k: int| 0 <= k < self.pixels[a].len() && self.pixels[a][k] == p as u32;
            assert(self.pixels[a][k] == p);
        }
        assert forall|a1: int, k1: int, a2: int, k2: int|
            0 <= a1 < self.len() && 0 <= k1 < self.pixels[a1].len() && 0 <= a2 < self.len() && 0 <= k2
                < self.pixels[a2].len() && (#[trigger] self.pixels[a1][k1]) == (
            #[trigger] self.pixels[a2][k2]) implies a1 == a2 && k1 == k2 by {
            assert(self.owner[self.pixels[a1][k1] as int] == a1);
            assert(self.owner[self.pixels[a2][k2] as int] == a2);
            assert(self.pixels[a1].no_duplicates());
        }
    }
}

impl State {
    /// Where a step merges, it merges the aggregate under the cursor, which
    /// owns a pixel, into another aggregate that owns one and is neither the
    /// sentinel nor the aggregate itself.
    pub proof fn lemma_fires_on_live_pair(self, scores: Seq<i32>)
        requires
            self.wf(),
            self.admits(scores),
            self.fires(scores),
        ensures
            0 <= best(scores) < self.candidates().len(),
            0 < self.cursor() < self.partition.len(),
            0 < self.candidates()[best(scores)] < self.partition.len(),
            self.candidates()[best(scores)] != self.cursor(),
            self.partition.area(self.cursor() as int) > 0,
            self.partition.area(self.candidates()[best(scores)] as int) > 0,
    {
        lemma_best_is_first_least(scores);
        self.partition.lemma_candidates_are_others(self.cursor() as int);
        self.partition.lemma_neighbours_are_live(self.cursor() as int, self.candidates()[best(scores)]);
    }

    /// Partition invariant: a step leaves the pixel lists of the aggregates a
    /// partition of the grid.
    pub proof fn lemma_step_keeps_partition(self, scores: Seq<i32>)
        requires
            self.wf(),
            self.admits(scores),
        ensures
            self.step(scores).wf(),
    {
        if self.fires(scores) {
            self.lemma_fires_on_live_pair(scores);
            self.partition.lemma_merge_wf(self.cursor() as usize, self.candidates()[best(scores)]);
        }
    }

    /// Conservation: a step moves pixels between aggregates and neither makes
    /// nor loses one. The sum of the areas stays what it is, the number of
    /// pixels of the grid.
    pub proof fn lemma_step_conserves_area(self, scores: Seq<i32>)
        requires
            self.wf(),
            self.admits(scores),
        ensures
            self.step(scores).partition.total_area() == self.partition.total_area(),
            self.partition.total_area() == self.partition.size(),
    {
        self.lemma_step_keeps_partition(scores);
        self.partition.lemma_total_area();
        self.step(scores).partition.lemma_total_area();
    }

    /// Monotonic shrinkage: a step that merges leaves one aggregate less that
    /// owns a pixel, and any other step leaves as many. The number never
    /// grows.
    pub proof fn lemma_step_never_grows(self, scores: Seq<i32>)
        requires
            self.wf(),
            self.admits(scores),
        ensures
            self.fires(scores) ==> self.step(scores).partition.live() == self.partition.live() - 1,
            !self.fires(scores) ==> self.step(scores).partition.live() == self.partition.live(),
            self.step(scores).partition.live() <= self.partition.live(),
    {
        if self.fires(scores) {
            self.lemma_fires_on_live_pair(scores);
            self.partition.lemma_merge_live(self.cursor() as usize, self.candidates()[best(scores)]);
        }
    }

    /// Idempotent termination: a step on a run that is done changes nothing,
    /// so the run stays done.
    pub proof fn lemma_done_is_final(self, scores: Seq<i32>)
        requires
            self.done(),
        ensures
            self.step(scores) == self,
            self.step(scores).done(),
    {
    }

    /// A run that is not done is one step further after a step; a run is never
    /// less done than before.
    pub proof fn lemma_step_moves_on(self, scores: Seq<i32>)
        requires
            self.wf(),
            self.admits(scores),
        ensures
            !self.done() ==> self.step(scores).steps == self.steps + 1,
            self.step(scores).partition.len() == self.partition.len(),
            self.step(scores).params == self.params,
    {
        if self.fires(scores) {
            self.lemma_fires_on_live_pair(scores);
        }
    }

    /// Partition invariant, conservation and shrinkage along a whole run: from
    /// a state that meets the invariant, any number of steps ends in one that
    /// meets it, with the same sum of areas and no more live aggregates.
    pub proof fn lemma_run_keeps_partition(self, rounds: Seq<Seq<i32>>)
        requires
            self.wf(),
            self.admits_all(rounds),
        ensures
            self.run(rounds).wf(),
            self.run(rounds).partition.total_area() == self.partition.total_area(),
            self.run(rounds).partition.live() <= self.partition.live(),
        decreases rounds.len(),
    {
        if rounds.len() > 0 {
            let before = self.run(rounds.drop_last());
            self.lemma_run_keeps_partition(rounds.drop_last());
            before.lemma_step_keeps_partition(rounds.last());
            before.lemma_step_conserves_area(rounds.last());
            before.lemma_step_never_grows(rounds.last());
        }
    }

    /// Every state that steps reach from a valid input meets the partition
    /// invariant, and its areas add up to the number of pixels of the grid.
    pub proof fn lemma_reachable_is_partition(params: Params, input: Input, rounds: Seq<Seq<i32>>)
        requires
            input.valid(),
            State::start(params, input).admits_all(rounds),
        ensures
            State::start(params, input).run(rounds).wf(),
            State::start(params, input).run(rounds).partition.total_area() == input.size(),
    {
        input.lemma_valid_is_partition();
        let first = State::start(params, input);
        first.lemma_run_keeps_partition(rounds);
        first.partition.lemma_total_area();
    }

    /// Determinism: where the metric is a function of the two colors, the
    /// scores of a step are determined by the state, and so is the state after
    /// the step.
    pub proof fn lemma_scores_of_function<F: Fn(Color, Color) -> i32>(
        self,
        metric: F,
        function: spec_fn(Color, Color) -> i32,
        scores: Seq<i32>,
    )
        requires
            State::computes(metric, function),
            self.scored_by(metric, scores),
        ensures
            scores == self.scores_by(function),
            self.step(scores) == self.step(self.scores_by(function)),
    {
        assert(scores =~= self.scores_by(function));
    }

    /// Determinism: two runs from one state, each scored by a metric that
    /// computes the same function of the two colors, are in the same state
    /// after the same number of steps, and so paint the same raster.
    pub proof fn lemma_runs_agree<F: Fn(Color, Color) -> i32, G: Fn(Color, Color) -> i32>(
        self,
        first: F,
        second: G,
        function: spec_fn(Color, Color) -> i32,
        rounds: Seq<Seq<i32>>,
        others: Seq<Seq<i32>>,
    )
        requires
            State::computes(first, function),
            State::computes(second, function),
            self.scored_all_by(first, rounds),
            self.scored_all_by(second, others),
            rounds.len() == others.len(),
        ensures
            rounds == others,
            self.run(rounds) == self.run(others),
            self.run(rounds).partition.raster() == self.run(others).partition.raster(),
        decreases rounds.len(),
    {
        if rounds.len() > 0 {
            self.lemma_runs_agree(first, second, function, rounds.drop_last(), others.drop_last());
            let before = self.run(rounds.drop_last());
            before.lemma_scores_of_function(first, function, rounds.last());
            before.lemma_scores_of_function(second, function, others.last());
            assert(rounds =~= rounds.drop_last().push(rounds.last()));
            assert(others =~= others.drop_last().push(others.last()));
        } else {
            assert(rounds =~= others);
        }
    }
}

} // verus!
