//! Sorting and deduplicating the lines of a byte stream by external merge sort.
//!
//! The input is cut into chunks of a bounded number of lines. Each chunk is
//! sorted and serialized as a spill unit. A k-way merge over the spill units
//! then yields every distinct line once, in increasing byte order.
//!
//! - [`order`]: the byte-lexicographic order on lines.
//! - [`lines`]: cutting a stream into lines and writing lines back.
//! - [`sorted`]: sorted sequences of lines and their canonical arrangements.
//! - [`chunk`]: the chunk phase, as a state machine and over a whole input.
//! - [`frontier`]: the priority queue of the merge.
//! - [`merge`]: the merge phase, as a state machine and over whole units.
//! - [`naming`]: names for spill units.
//! - [`pipeline`]: both phases together, and what holds of a whole run.
//!
//! The state machines, [`chunk::ChunkProducer`] and [`merge::Merger`], make
//! every decision of a run and leave reading and writing to the caller, so
//! that a caller can keep the spill units wherever it likes. The functions
//! over whole inputs drive the same state machines in memory.
//!
//! Three items are taken on trust: the parallel sort of rayon, the random tag
//! of uuid, and `String::push_str`. Everything else is proved.

pub mod chunk;
pub mod frontier;
pub mod lines;
pub mod merge;
pub mod naming;
pub mod order;
pub mod pipeline;
pub mod sorted;
