//! A double-auction market simulator over fixed-point prices.
//!
//! A population of buyers and sellers draws private values, shades them into
//! bids, and trades through a call market or a continuous double auction.
//! Each round is scored against the allocation that a call market makes of
//! truthful bids, and the gap between the two is split into the trades that
//! the market missed and the trades that it should not have made.
//!
//! Every amount is an integer count of billionths of the unit interval, so
//! every contract is exact: where a formula divides, the contract says which
//! way it rounds.
//!
//! - [`fixed`]: the grid, division that rounds down, and the decay factor
//!   that stands for the exponential.
//! - [`style`], [`strategy`], [`text`]: shading styles and strategy labels.
//! - [`agent`]: a trader and the bidding model.
//! - [`book`]: the priority queue of resting orders.
//! - [`market`]: the contract of every clearing mechanism.
//! - [`call`]: the call market and its matching.
//! - [`floor`], [`cda`]: the continuous double auction, as a model and as
//!   code.
//! - [`tally`], [`welfare`]: sums over a population, the round, and the
//!   decomposition of its welfare.

pub mod agent;
pub mod book;
pub mod call;
pub mod cda;
mod chance;
pub mod fixed;
pub mod floor;
pub mod market;
pub mod strategy;
pub mod style;
pub mod tally;
pub mod text;
pub mod welfare;

pub use agent::Agent;
pub use call::Call;
pub use cda::Cda;
pub use market::Market;
pub use style::Style;
pub use welfare::{play_round, run_sim, Features};
