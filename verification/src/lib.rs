//! Verified core of `ng`, a local Apple Notes search tool: protobuf body
//! text extraction, nested folder paths and moves, and note search.

pub mod text;
pub mod body;
pub mod notes;
pub mod folder;
pub mod search;
pub mod ancestry;
pub mod output;
