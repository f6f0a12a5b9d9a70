//! Batch-write pipeline for a queue consumer.
//!
//! An inbound batch of queue messages is decoded into domain records, the
//! records are chunked to the store's batch-write limit, each chunk is handed
//! to the store, and store-level failures are correlated back to the
//! originating message identifiers.  The outcome of an invocation is a
//! partial-failure report: the message identifiers that must be redelivered.
//!
//! The store itself is an external collaborator; callers issue the actual
//! batch writes and feed each chunk's outcome back into the pipeline.

pub mod codec;
pub mod correlate;
pub mod laws;
pub mod message;
pub mod partition;
pub mod pipeline;
