//! Probabilistic disassembly for x86-64 executables.
//!
//! The library decodes an instruction at every byte offset of a code
//! section (the superset), extracts the hints that probabilistic disassembly
//! weighs, and provides the control-flow, occlusion and hint-propagation
//! structure that the posterior computation runs on.
pub mod analysis;
pub mod header;
pub mod hints;
pub mod superset;

pub use analysis::ReachingHints;
pub use header::extract_text_section;
pub use hints::{extract_all_hints, HintKey, HintLabel, HintSet};
pub use superset::{Instruction, Superset};
