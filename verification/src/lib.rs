//! Blueprint procedural memory: the verified core of the agent's
//! blueprint authoring, parsing, matching and context formatting.

pub mod text;
pub mod model;
pub mod creation;
pub mod history;
pub mod formatting;
pub mod matching;
pub mod clock;
pub mod parsing;
pub mod prompts;
pub mod storage;
pub mod percent;
pub mod ranking;
