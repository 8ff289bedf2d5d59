//! Ordered update streams and search-index bookkeeping for collaborative
//! objects.

pub mod client;
pub mod collab_type;
pub mod controller;
pub mod decimal;
pub mod index;
pub mod messages;
pub mod object_id;
pub mod origin;
pub mod publish;
pub mod replica;
pub mod rid;
pub mod text;

pub use controller::{Options as WorkspaceControllerOptions, WorkspaceController};
pub use object_id::{ObjectId, WorkspaceId};
