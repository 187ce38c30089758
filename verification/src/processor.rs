//! The streaming processors: the chunk-spanning state machines that drive
//! the matching engines and produce the tagged fragment stream.

pub mod tacam;
pub mod tmark;
pub mod tummy;
