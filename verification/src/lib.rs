//! Small verified exercises: bracket balancing over a text, binary search
//! and opposite-pair counting over integer arrays, and the decision logic of
//! a group chat (server command handling and client message framing).

pub mod brackets;
pub mod chat;
pub mod client;
pub mod search;
pub mod sorting;
pub mod text;
