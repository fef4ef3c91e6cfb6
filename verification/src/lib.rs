//! Verified core of a spatial block-extract pipeline: typed record model,
//! spatial id-set filter builder, batched emission, fan-out/merge accounting,
//! tile location index and time-travel reconstruction.

pub mod accumulator;
pub mod batch;
pub mod bbox;
pub mod block;
pub mod count;
pub mod elements;
pub mod error;
pub mod idset;
pub mod merge;
pub mod minimal;
pub mod pipeline;
pub mod progress;
pub mod rawblock;
pub mod tileindex;
pub mod timestamp;
