//! Synchronised event queues: a master record of the order in which events
//! were emitted, used to update event listeners in that order.

mod graph;
mod handler;
mod node;
mod record;
mod update;

pub use graph::{AnyQueueHandler, QueuedGraph};
pub use handler::QueueHandler;
pub use node::EventNode;
pub use record::{EventRecord, MasterNodeRecord, NodeId};
pub use update::{build_index, highest_common_record, update};
