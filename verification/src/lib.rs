//! Typed judgments over the TypeSafe System One API: what each tool asks, what it
//! makes of the answers, and which inputs it refuses.

pub mod answer;
pub mod bulk;
pub mod checks;
pub mod chunk;
pub mod claims;
pub mod classify;
pub mod cluster;
pub mod config;
pub mod dedupe;
pub mod document;
pub mod error;
pub mod extract;
pub mod filter;
pub mod json;
pub mod question;
pub mod rank;
pub mod ranking;
pub mod reals;
pub mod selection;
pub mod server;
pub mod stability;
pub mod systemone;
pub mod table;
pub mod text;
pub mod verify_output;
pub mod verify_tool_calls;

