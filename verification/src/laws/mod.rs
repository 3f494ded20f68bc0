//! What the operations are for: laws over all inputs, stated of what goes in and what comes out.

pub mod asking;
pub mod blocking;
pub mod enrichment;
pub mod evaluation;
pub mod geography;
pub mod graph;
pub mod grounding;
pub mod lists;
pub mod matching;
pub mod mentions;
pub mod relations;
pub mod reporting;
pub mod resolution;
pub mod review;
pub mod serving;
pub mod sources;
pub mod texts;
pub mod writing;
