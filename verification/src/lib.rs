//! A small task-list library: an ordered collection of tasks with unique
//! identifiers, basic CRUD operations, and a byte-level codec for durable
//! storage.

pub mod codec;
pub mod task;

pub use task::Status;
pub use task::Task;
pub use task::TaskError;
pub use task::TaskVec;
