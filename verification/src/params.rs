//! The thresholds of the merge policy.

use vstd::prelude::*;

verus! {

/// The number of score units in a color distance of one: scores and
/// deviations are held in ten-thousandths.
pub const SCORE_SCALE: u32 = 10000;

/// The two thresholds of the merge policy.
#[derive(Clone, Copy, Debug, PartialEq, Eq, Structural)]
pub struct Params {
    /// Allowed color difference between two aggregates that merge, in score
    /// units: `SCORE_SCALE` stands for a color distance of one.
    pub deviation: u32,
    /// The area, in pixels, from which an aggregate counts as large.
    pub min_size: u32,
}

impl Params {
    /// Whether an aggregate of `area` pixels is absorbed by its closest
    /// neighbour, `score` units away. With `d` the deviation and `m` the
    /// minimum size, it is when one of these holds:
    /// the aggregate is tiny (`area < m / 16`);
    /// it is small and close (`score < d`, `area < m`);
    /// it is very small and not far (`score < 2 d`, `area < m / 4`);
    /// it is not large and very close (`score < d / 2`, `area < 4 m`);
    /// the colors are all but equal (`score < d / 4`), whatever the area.
    pub open spec fn merges(self, area: nat, score: int) -> bool {
        ||| area < self.min_size / 16
        ||| (score < self.deviation && area < self.min_size)
        ||| (score < 2 * self.deviation && area < self.min_size / 4)
        ||| (2 * score < self.deviation && area < 4 * self.min_size)
        ||| 4 * score < self.deviation
    }

    /// Decides `merges` for an aggregate of `area` pixels whose closest
    /// neighbour is `score` units away.
    pub fn should_merge(&self, area: usize, score: i32) -> (yes: bool)
        ensures
            yes == self.merges(area as nat, score as int),
    {
        let area: u64 = area as u64;
        let size: u64 = self.min_size as u64;
        let score: i64 = score as i64;
        let deviation: i64 = self.deviation as i64;
        area < size / 16
            || (score < deviation && area < size)
            || (score < 2 * deviation && area < size / 4)
            || (2 * score < deviation && area < 4 * size)
            || 4 * score < deviation
    }
}

impl Default for Params {
    /// A deviation of one and a minimum size of 64 x 64 pixels.
    fn default() -> (params: Params)
        ensures
            params == (Params { deviation: 10000, min_size: 4096 }),
    {
        Params { deviation: SCORE_SCALE, min_size: 64 * 64 }
    }
}

} // verus!
