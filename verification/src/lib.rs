//! Graceful shutdown coordination: a tree of shutdown scopes whose guards delay
//! completion and whose stop signal propagates to every descendant scope.

pub mod accounting;
pub mod counter;
pub mod counting;
pub mod handles;
pub mod laws;
pub mod model;
pub mod propagation;
pub mod report;
pub mod state;
pub mod tree;
pub mod wait;
pub mod wakeups;

pub use handles::{Guard, Guarded, Interrupt, ShutdownCompletion, ShuttingDown, Stop, Swansong};
pub use report::{GuardReport, GuardReportEntry};
pub use state::ShutdownState;
pub use tree::{Notice, ShutdownTree};
