//! Splitting a file into fixed-size parts and merging the parts back into one.
//!
//! The library holds the chunked-transfer engine: the size-specification
//! parser, the part-naming convention shared by the splitter and the merger,
//! the bounded byte pump, the splitter (bytes to a sequence of parts) and the
//! merger (a sequence of parts back to bytes). File handling around the
//! engine is left to the caller, which hands the engine plain byte vectors.

pub mod merge;
pub mod naming;
pub mod pump;
pub mod size_spec;
pub mod split;
