//! State-space search over an implicit graph.
//!
//! A domain describes its configurations by implementing [`State`]; a
//! [`Problem`] binds a start state to a goal predicate and offers five
//! traversal strategies.  Every traversal is proved to return exactly what
//! the mathematical model in [`model`] prescribes.
//!
//! A state counts as seen from the moment it is first discovered: it is marked
//! and queued once, and any later rediscovery is dropped.  A state that
//! fails its validity check is neither expanded nor accepted as a goal.
//!
//! What follows from the model is proved in [`laws`] (every strategy),
//! [`shallowest`] (breadth-first), [`cheapest`] (uniform-cost), [`ranked`] and
//! [`zero_estimate`] (A*), and [`even_cost`] (uniform-cost with every step at
//! the same cost); [`least_first`] holds what the laws on costs share.
//!
//! Costs are added only along the walk by which a state is first discovered,
//! and such a walk repeats no state: a cycle is never walked twice, so sums
//! have to fit along walks without repetition only.
pub mod cheapest;
pub mod coherence;
pub mod even_cost;
mod frontier;
pub mod handle;
pub mod laws;
pub mod least_first;
pub mod model;
pub mod problem;
pub mod ranked;
pub mod scoring;
pub mod shallowest;
pub mod state;
pub mod strategy;
pub mod zero_estimate;

pub use problem::Problem;
pub use state::State;
