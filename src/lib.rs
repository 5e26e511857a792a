//! Personal task lists as dependency graphs: symbolic-task resolution, a derived
//! display graph, merging of task sets, and a lint pass that checks the graph is
//! anchored, acyclic, fully resolvable and schedulable before its deadlines.

pub mod clock;
pub mod fixpoint;
pub mod graph;
pub mod laws;
pub mod lint;
pub mod model;
pub mod tree;

pub use lint::{ImpossibleTaskReason, TaskTreeCoreError};
pub use model::{Config, Task, TaskNode, TaskView};
pub use tree::{GraphTooLarge, Tree};
