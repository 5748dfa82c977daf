//! Work division across heterogeneous parallel workers.
//!
//! Each worker has a fixed transfer delay and a per-unit compute rate; the
//! solver picks the fraction of a unit workload for each worker so that all
//! workers finish as close to simultaneously as possible.  The quantities are
//! carried as fixed-point numbers (see [`fxp::SCALE`]), so the whole solver is
//! plain integer arithmetic and every step of it is verified.

pub mod fxp;
pub mod model;
pub mod solver;

pub use fxp::SCALE;
pub use solver::cost;
pub use solver::divide_work_smooth;
pub use solver::divide_work_smooth_budget;
pub use solver::SolveError;
