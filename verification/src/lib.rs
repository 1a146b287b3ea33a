//! A parallel-ready, single-pass CSV-to-columnar loader.
//!
//! The reader ingests a CSV byte buffer and materializes one typed column
//! per projected schema field. Chunk boundaries are located on record
//! boundaries so that disjoint regions parse independently, and the result
//! is proved equal to a sequential parse of the whole region.

pub mod cell;
pub mod chunks;
pub mod column;
pub mod err;
pub mod frame;
pub mod laws;
pub mod parser;
pub mod reader;
pub mod scan;
pub mod stats;
pub mod schema;
