//! Verified core of `cm`, a non-interactive client for persistent conversations
//! against an OpenAI-compatible chat-completions endpoint.

pub mod text;
pub mod order;
pub mod state;
pub mod config;
pub mod json;
pub mod client;
pub mod sse;
pub mod session;
pub mod utf8_stream;
