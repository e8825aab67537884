//! What every prompt ends with, and the text form of values in prompts.
use vstd::prelude::*;

pub use crate::json::to_prompt_json;

verus! {

/// Ends every system message.
pub const DO_NOT_ESCAPE_UNICODE: &'static str = "\nDo not escape unicode characters.\n";

} // verus!
