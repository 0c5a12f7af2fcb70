//! Decisions of a semantic grep's model client: which provider to ask, how to
//! cut questions into requests, when to retry or fail over, and how to read
//! and merge the answers.

pub mod answer;
pub mod call;
pub mod chunk;
pub mod client;
pub mod error;
pub mod failover;
pub mod json;
pub mod laws;
pub mod merge;
pub mod number;
pub mod options;
pub mod order;
pub mod provider;
pub mod question;
pub mod request;
pub mod retry;
pub mod score;
pub mod sorted;
pub mod text;
