//! Bounded request history for a coding assistant: a sliding window over the
//! newest conversation items, a turn index that is always visible in the
//! prompt, and paged reads of the complete history by turn id.

pub mod handler;
pub mod history;
pub mod instructions;
pub mod item;
pub mod json;
pub mod render;
pub mod settings;
pub mod snapshot;
pub mod strings;
pub mod tokens;
pub mod turn;
pub mod window;
