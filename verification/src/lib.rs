//! Client-side logic for a "how to" chat-completion command:
//! building the outgoing request, decoding the streamed event
//! protocol, and rendering responses.

pub mod decoder;
pub mod json;
pub mod prompt;
pub mod render;
