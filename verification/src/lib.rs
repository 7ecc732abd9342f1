//! Hierarchical state machines (statecharts): the verified runtime and the
//! verified front-end rules behind the `statechart!` description language.

pub mod error;
pub mod graph;
pub mod hash;
pub mod intern;
pub mod ir;
pub mod chart;
pub mod duration;
pub mod journal;
pub mod laws;
pub mod machine;
pub mod messages;
pub mod parse;
pub mod parse_tree;
pub mod plan;
pub mod queue;
pub mod render;
pub mod semantics;
pub mod seqs;
pub mod tables;
pub mod timers;
pub mod validate;

pub use error::HsmcError;
pub use journal::{ActionKind, Journal, JournalSink, TraceEvent, TransitionReason};
pub use queue::{EmitProxy, EventQueue, QueuePush};
pub use timers::{TimerEntry, TimerTable};
