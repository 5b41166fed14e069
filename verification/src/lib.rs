//! A versioned store for a small labeled teaching knowledge graph.
//!
//! The store keeps an immutable [`Snapshot`](snapshot::Snapshot) of the whole
//! graph, supports linear undo/redo over a bounded history window, and maps
//! snapshots to and from a fixed textual document format.

pub mod canon;
pub mod codec;
pub mod coll;
pub mod error;
pub mod graph;
pub mod node;
pub mod num;
pub mod roundtrip;
pub mod snapshot;
pub mod text;

pub use codec::{escape_non_ascii, SerializableEdge};
pub use error::{GraphError, SerdeError};
pub use graph::{KnowledgeGraph, MAX_HISTORY};
pub use node::{AddonEntityType, AddonSet, DistinctEntityType, EntityNode, Relation};
pub use snapshot::Snapshot;
