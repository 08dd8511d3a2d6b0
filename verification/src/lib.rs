//! Media-pure compilation vocabulary and verified compiler phases.

pub mod cli;
pub mod compiler;
pub mod contracts;
pub mod diagnostic;
pub mod model;
pub mod program;
pub mod semantic;
pub mod source;
pub mod text;
