//! A rectangular self-organizing map over fixed-point feature vectors,
//! with its training loop.
//!
//! Numbers are `Fixed`: signed counts of units of 2^-32 with saturating
//! arithmetic, so that a run is the same on every machine.

pub mod error;
pub mod fixed;
pub mod grid;
pub mod kernel;
pub mod metric;
pub mod random;
mod signal;
pub mod trainer;

pub use crate::error::SomError;
pub use crate::fixed::Fixed;
pub use crate::grid::RectSom;
pub use crate::grid::RectSomDefn;
pub use crate::kernel::expon;
pub use crate::kernel::gaussian;
pub use crate::kernel::sinc_sq;
pub use crate::kernel::Neighbourhood;
pub use crate::kernel::NeighbourhoodKernel;
pub use crate::kernel::Uniform;
pub use crate::metric::sq_euclidean_dist;
pub use crate::metric::DistanceMetric;
pub use crate::metric::SquaredEuclidean;
pub use crate::random::RandomSource;
pub use crate::trainer::train;
pub use crate::trainer::train_epoch;
pub use crate::trainer::train_with;
pub use crate::trainer::Halt;
pub use crate::trainer::RunState;
pub use crate::trainer::TrainConfig;
pub use crate::trainer::TrainReport;
