//! Chaos theory and nonlinear dynamics: the discrete, verified core.
//!
//! Shift spaces of symbolic dynamics, block and transition counting of
//! symbolic sequences, period-doubling detection over scans of orbit
//! periods, Poincaré return maps, grids of escape times, and the rules that
//! detect and classify bifurcations and behavioural regimes.

pub mod agent_unpredictability;
pub mod bifurcation;
pub mod fractal_gen;
pub mod period_doubling;
pub mod poincare;
pub mod symbolic;

pub use agent_unpredictability::{classify_regime, BehavioralRegime};
pub use bifurcation::{chaos_transitions, classify_crossing, hopf_indices, BifurcationType};
pub use fractal_gen::grid_of;
pub use period_doubling::period_increase_indices;
pub use poincare::return_map;
pub use symbolic::{count_distinct_blocks, count_transitions, ShiftSpace, TransitionCounts};
