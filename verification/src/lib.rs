//! The storage-and-protocol core of a message-streaming broker: an in-memory
//! catalog of streams, topics and partitions, the logs of the partitions as
//! chains of segments, the binary frames that commands and responses travel
//! in, and the rules by which bytes are handed to the byte store.
//!
//! The library does no input or output itself. Whatever changes what is
//! stored says which operations the byte store must take; the host carries
//! them out and says how that went.

pub mod catalog;
pub mod client;
pub mod command;
pub mod dispatcher;
pub mod error;
pub mod frame;
pub mod initializer;
pub mod message;
pub mod partition;
pub mod persister;
pub mod response;
pub mod segment;
pub mod storage;
pub mod stream;
pub mod topic;
pub mod wire;
