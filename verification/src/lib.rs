//! A persistent, log-structured key/value store with an in-memory index,
//! online compaction, and a framed request/response protocol.
//!
//! The store keeps every segment of its append-only log as an in-memory
//! character buffer; mutating operations return a list of [`SegmentOp`]
//! values describing, byte for byte, how the on-disk segment files must be
//! changed to stay in step.  An unverified shell performs the actual file
//! system work by applying those operations in order.

pub mod codec;
pub mod index;
pub mod laws;
pub mod log;
pub mod server;
pub mod store;
pub mod protocol;
pub mod text;

pub use protocol::Command;
pub use protocol::Error;
pub use protocol::Response;
pub use server::check_engine;
pub use server::handle_request;
pub use server::EngineKind;
pub use store::KvStore;
pub use store::SegmentOp;
