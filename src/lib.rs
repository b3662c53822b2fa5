//! Disaggregation of zone-to-zone trip counts into individual point-to-point trips.
//!
//! An origin/destination table gives, for pairs of named zones, how many trips go between them.
//! This library turns each row into individual trips whose two ends are concrete points in the
//! zones: drawn uniformly inside a zone's shape, or from a pool of weighted candidate points
//! that lie inside it.
//!
//! - [`quantity`]: exact decimal numbers read from table cells; how many trips a demand becomes,
//!   and the share each carries, so that the shares add back up to the demand exactly.
//! - [`row`]: finding columns of a row and rescaling its cells.
//! - [`point`]: points as exact bit patterns of doubles, weighted candidate points, and the set of
//!   pairs already emitted.
//! - [`sampler`]: candidate pools per zone, and subsamplers that draw a zone's points.
//! - [`engine`]: the disaggregation of one row into trips, with its error cases.
//!
//! Geometry and chance are the caller's: the library asks for them through the
//! [`sampler::Draws`] trait, and what it states of its results holds whatever the answers.

pub mod engine;
pub mod point;
pub mod quantity;
pub mod row;
pub mod sampler;

pub use engine::{Jitter, JitterError, Options, Rules, Trip};
pub use point::{Coord, WeightedPoint};
pub use sampler::{Draws, Subsample, Subsampler};
