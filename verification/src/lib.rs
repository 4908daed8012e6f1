//! Depth-bounded expansion of a seed statement into a tree of related
//! statements, and the condensation of that tree into a bounded report.
//!
//! The crate holds the decisions only. Talking to the text-generation service,
//! sleeping between retries and running tasks side by side is left to the
//! caller, which feeds the outcomes back into the state machines found here.

pub mod expand;
pub mod lines;
pub mod node;
pub mod orchestrator;
pub mod prompt;
pub mod query;
pub mod reduce;
pub mod text;

pub use expand::{Expansion, Outcome, Request, Stage};
pub use node::{node_to_dot, Node, Tree};
pub use orchestrator::Axiograph;
pub use prompt::Message;
pub use query::{QueryError, QueryLoop, Shape, Verdict};
pub use reduce::{ReduceError, Reducer, Round, THRESHOLD};
