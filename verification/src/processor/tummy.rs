//! The zero-pair specialization: a stateless pass-through that emits every
//! chunk as one content part.

use vstd::prelude::*;

use crate::{Part, Slob, State};

verus! {

/// The processor used when no marker pairs are configured: every chunk
/// comes straight back as a single `StateQuest` part.
pub struct TummyProcessor {}

impl TummyProcessor {
    /// Emits the whole chunk as one `StateQuest` part with no value.
    pub fn process(&mut self, chunk: &str) -> (parts: Vec<Part>)
        ensures
            parts@.len() == 1,
            parts@[0]@.content == chunk@,
            parts@[0]@.state == State::StateQuest,
            parts@[0]@.value is None,
    {
        let mut parts: Vec<Part> = Vec::new();
        parts.push(Part { content: chunk.to_owned(), state: State::StateQuest, value: None });
        parts
    }
}

impl Slob for TummyProcessor {
    open spec fn slob_wf(&self) -> bool {
        true
    }

    fn process(&mut self, chunk: &str) -> Vec<Part> {
        TummyProcessor::process(self, chunk)
    }
}

/// Builds the zero-pair pass-through processor.
pub fn new() -> (p: TummyProcessor)
{
    TummyProcessor {  }
}

} // verus!
