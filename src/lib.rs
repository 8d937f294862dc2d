//! Decides whether a randomized game world can be completed: a fixed-point search over a region
//! graph whose exits and pickups are gated by predicates on a growing inventory and on a small
//! global state (age, time of day, last savewarp).
//!
//! - `state`, `common`: the global state and the game's enumerations.
//! - `inventory`, `access`: what has been collected, and the predicates over it.
//! - `region`: the region graph and the per-world reachability maps.
//! - `explore`: the global state transitions and the fixed-point explorer.
//! - `fixpoint`: the explorer's result does not depend on the order of its actions.
//! - `closure`: the states that every state reaches, through petgraph.
//! - `search`: the reachability check and the win condition.
//! - `logic`, `helpers`: expansion of access expressions as logic files write them.

pub mod common;
pub mod state;
pub mod inventory;
pub mod access;
pub mod region;
pub mod explore;
pub mod closure;
pub mod search;
pub mod logic;
pub mod helpers;
pub mod fixpoint;
