//! Exact success-probability analysis for faceting an ability stone.
//!
//! A stone is refined by probabilistic trials spread over three independent
//! lines. Every trial draws its success chance from a shared six-level
//! ladder that drops one step after a success and climbs one step after a
//! failure. Given a current stone, per-line success targets and per-line
//! trial budgets, the valuation engine computes the exact probability of
//! meeting the target under optimal play for each candidate first choice,
//! and the path search recovers the single most probable run of outcomes
//! that reaches the target.

pub mod chance;
pub mod engine;
pub mod index;
pub mod path;
pub mod stone;
pub mod u192;
pub mod valuation;

pub use chance::Chance;
pub use engine::expectimax;
pub use path::best_path;
pub use stone::Stone;
pub use u192::U192;
