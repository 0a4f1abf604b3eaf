//! Verified core of `hen`, a driver for splitting one Monte-Carlo transport
//! simulation into independently seeded sub-runs and statistically combining
//! their results.
//!
//! The library holds the logic that is worth proving: the configuration
//! tokenizer with its round-trip guarantee, the simulator-output parser, the
//! three-state `Omittable` wrapper, and the split / validate / combine rules
//! for simulation inputs and reports.  Process spawning, file persistence and
//! the command line live outside the library.
pub mod errors;
pub mod numbers;
pub mod omittable;
pub mod output_parser;
pub mod simulation;
pub mod text;
pub mod tokenizer;
pub mod util;
