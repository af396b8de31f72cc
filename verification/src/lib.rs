//! Document segmentation and embedding-index planning.
//!
//! The library splits a document's text into prose and code chunks with a
//! small line-oriented state machine, and plans the synchronization of those
//! chunks into a vector index: identifiers are assigned sequentially per run,
//! every chunk is paired with the path of the document that produced it, and
//! a run first resets the collection and then only adds records.

pub mod contents;
pub mod errors;
pub mod pipeline;
