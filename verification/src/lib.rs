//! A hierarchical, parallel statechart engine.
//!
//! A chart is a tree of states held in an arena, a table of prioritised edges
//! between them, and a machine record that tracks which states are active.
//! Every stimulus (an event, an entered state, a changed guard, elapsed time)
//! is turned into at most one transition per independent branch, and every
//! transition into an ordered list of exit, action and entry notifications.
pub mod chart;
pub mod deferral;
pub mod dispatch;
pub mod drill;
pub mod edges;
pub mod engine;
pub mod events;
pub mod graph;
pub mod guards;
pub mod history;
pub mod laws;
pub mod machine;
pub mod parameter;
pub mod plan;
pub mod prelude;
pub mod reset;
pub mod resting;
pub mod sets;
pub mod timers;
pub mod timing;
