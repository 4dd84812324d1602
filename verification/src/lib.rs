//! Region merging for images that are already cut into flat-color clusters.
//!
//! Small clusters, and clusters whose colors are close, are absorbed by an
//! adjacent cluster, so that fewer and cleaner shapes are left. The stage is
//! stepped: each step visits one aggregate, looks up its neighbours on the
//! pixel grid, scores them by a color metric that the caller supplies, and
//! merges the aggregate into the closest one where the merge policy says so.
//!
//! - [`aggregation`] holds the stage itself: the partition store, neighbour
//!   discovery, the merge, the step and the renderer.
//! - [`input`] is what the stage is fed, and the test that it is a partition.
//! - [`params`] and [`policy`] are the thresholds and the choice of the best
//!   candidate.
//! - [`partition`] and [`state`] are the mathematical model that the
//!   contracts of the stage are stated over, and [`laws`] what is proved of
//!   every run.
//! - [`raster`] is the picture of a partition and the image type it is
//!   painted into.

pub mod aggregation;
pub mod color;
pub mod input;
pub mod laws;
pub mod params;
pub mod partition;
pub mod policy;
pub mod raster;
pub mod state;

pub use aggregation::Processor as Aggregation;
