//! Streaming inner hash join: a partitioned key index is built over one
//! relation's batches (possibly by several independent sinks that are later
//! combined), and a second relation is probed against it to emit joined
//! rows, with multi-key equality preserved under hash collisions.

pub mod expr;
pub mod frame;
pub mod hashing;
pub mod index;
pub mod laws;
pub mod probe;
pub mod sink;

pub use expr::JoinError;
pub use expr::NamedColumnExpr;
pub use expr::PhysicalPipedExpr;
pub use frame::Column;
pub use frame::Frame;
pub use probe::InnerJoinProbe;
pub use sink::GenericBuild;
pub use sink::JoinType;
pub use sink::SinkResult;
