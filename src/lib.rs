//! Monte Carlo tree search over any game that implements [`GameState`]: an arena of
//! nodes with visit and win counts, the select / expand / simulate / backpropagate
//! iteration, the loop one worker runs, and the combination of several workers'
//! root statistics into one recommended move.

pub mod rng;
pub mod search;
pub mod tree;

pub use search::{aggregate, iteration_budget_reached, run_worker, BestResult};
pub use tree::{GameState, Node, SearchError, Tree};
