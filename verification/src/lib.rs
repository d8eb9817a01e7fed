use vstd::prelude::*;

pub mod additional_context;
pub mod assoc;
pub mod catalog_render;
pub mod code_mode_catalog;
pub mod code_mode_tools;
pub mod context_store;
pub mod describe;
pub mod engine;
pub mod image_artifact;
pub mod listing_budget;
pub mod maintenance;
pub mod memory_scopes;
pub mod realtime;
pub mod scoped;
pub mod scoped_prompt;
pub mod scopes;
pub mod structured_result;
pub mod text;
pub mod tool_catalog;

verus! {
} // verus!
