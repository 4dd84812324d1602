//! The mathematical model of a merge run: a partition, the thresholds and the
//! number of steps taken, with the step as a function on it.

use vstd::prelude::*;
use crate::color::Color;
use crate::input::Input;
use crate::params::Params;
use crate::partition::Partition;
use crate::policy::best;

verus! {

/// A merge run between two steps.
pub struct State {
    /// The thresholds of the merge policy.
    pub params: Params,
    /// The aggregates and the pixels they own.
    pub partition: Partition,
    /// The number of steps taken so far.
    pub steps: nat,
}

impl State {
    /// The id of the aggregate that the next step visits: ids are visited in
    /// ascending order from the lowest one after the sentinel.
    pub open spec fn cursor(self) -> nat {
        self.steps + 1
    }

    /// Whether every aggregate has been visited.
    pub open spec fn done(self) -> bool {
        self.cursor() >= self.partition.len()
    }

    /// Whether a step has been taken.
    pub open spec fn started(self) -> bool {
        self.steps > 0
    }

    /// The partition invariant, and a cursor that has not run past the end.
    pub open spec fn wf(self) -> bool {
        &&& self.partition.wf()
        &&& self.steps == 0 || self.steps < self.partition.len()
    }

    /// The neighbours of the aggregate under the cursor, ascending by id;
    /// none once the run is done.
    pub open spec fn candidates(self) -> Seq<usize> {
        if self.done() {
            Seq::empty()
        } else {
            self.partition.candidates(self.cursor() as int)
        }
    }

    /// Whether `scores` holds, for each candidate in order, a result of
    /// `metric` on the color of the aggregate under the cursor and the color
    /// of that candidate.
    pub open spec fn scored_by<F: Fn(Color, Color) -> i32>(self, metric: F, scores: Seq<i32>) -> bool {
        &&& scores.len() == self.candidates().len()
        &&& forall|i: int|
            0 <= i < scores.len() ==> call_ensures(
                metric,
                (
                    self.partition.colors[self.cursor() as int],
                    self.partition.colors[self.candidates()[i] as int],
                ),
                #[trigger] scores[i],
            )
    }

    /// Whether the step merges the aggregate under the cursor, given the
    /// scores of its candidates: it owns a pixel, it has a candidate, and the
    /// policy accepts its area and the least score.
    pub open spec fn fires(self, scores: Seq<i32>) -> bool {
        &&& !self.done()
        &&& self.partition.area(self.cursor() as int) > 0
        &&& scores.len() > 0
        &&& self.params.merges(self.partition.area(self.cursor() as int), scores[best(scores)] as int)
    }

    /// The state after one step, given the scores of the candidates in order.
    /// A finished run stays as it is. Otherwise the aggregate under the
    /// cursor is absorbed by its best candidate where `fires` holds, and the
    /// cursor moves on by one.
    pub open spec fn step(self, scores: Seq<i32>) -> State {
        if self.done() {
            self
        } else {
            State {
                partition: if self.fires(scores) {
                    self.partition.merge(self.cursor() as usize, self.candidates()[best(scores)])
                } else {
                    self.partition
                },
                steps: self.steps + 1,
                ..self
            }
        }
    }

    /// Whether `scores` can be handed to a step: a run that is not done takes
    /// one score for each candidate.
    pub open spec fn admits(self, scores: Seq<i32>) -> bool {
        self.done() || scores.len() == self.candidates().len()
    }

    /// The state at the start of a run: the partition that the input
    /// describes, the thresholds, and no step taken.
    pub open spec fn start(params: Params, input: Input) -> State {
        State { params, partition: input.partition(), steps: 0 }
    }

    /// The state after one step for each round of scores, in order.
    pub open spec fn run(self, rounds: Seq<Seq<i32>>) -> State
        decreases rounds.len(),
    {
        if rounds.len() == 0 {
            self
        } else {
            self.run(rounds.drop_last()).step(rounds.last())
        }
    }

    /// Whether each round of scores can be handed to its step.
    pub open spec fn admits_all(self, rounds: Seq<Seq<i32>>) -> bool
        decreases rounds.len(),
    {
        rounds.len() == 0 || (self.admits_all(rounds.drop_last()) && self.run(
            rounds.drop_last(),
        ).admits(rounds.last()))
    }

    /// The scores that the function `metric` gives the candidates, each
    /// against the aggregate under the cursor.
    pub open spec fn scores_by(self, metric: spec_fn(Color, Color) -> i32) -> Seq<i32> {
        Seq::new(
            self.candidates().len(),
            |i: int|
                metric(
                    self.partition.colors[self.cursor() as int],
                    self.partition.colors[self.candidates()[i] as int],
                ),
        )
    }

    /// Whether each round of scores is what `metric` gave at its step.
    pub open spec fn scored_all_by<F: Fn(Color, Color) -> i32>(
        self,
        metric: F,
        rounds: Seq<Seq<i32>>,
    ) -> bool
        decreases rounds.len(),
    {
        rounds.len() == 0 || (self.scored_all_by(metric, rounds.drop_last()) && self.run(
            rounds.drop_last(),
        ).scored_by(metric, rounds.last()))
    }

    /// Whether `metric` computes `function`: whatever it returns for two
    /// colors is the value of `function` on them.
    pub open spec fn computes<F: Fn(Color, Color) -> i32>(
        metric: F,
        function: spec_fn(Color, Color) -> i32,
    ) -> bool {
        forall|a: Color, b: Color, score: i32| #[trigger]
            call_ensures(metric, (a, b), score) ==> score == function(a, b)
    }
}

} // verus!
