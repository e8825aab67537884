//! The settings of a language model.
use vstd::prelude::*;

verus! {

/// The most tokens that an answer may have, unless configured otherwise.
pub const DEFAULT_MAX_TOKENS: u32 = 16384;

/// The sampling temperature zero, as the bits of a single-precision number.
pub const DEFAULT_TEMPERATURE: u32 = 0;

/// The settings of a language model.
#[derive(Debug)]
pub struct LlmConfig {
    pub api_key: Option<String>,
    pub model: Option<String>,
    pub small_model: Option<String>,
    pub base_url: Option<String>,
    /// The bits of a single-precision number.
    pub temperature: u32,
    pub max_tokens: u32,
}

impl Default for LlmConfig {
    fn default() -> (r: Self)
        ensures
            r.api_key is None,
            r.model is None,
            r.small_model is None,
            r.base_url is None,
            r.temperature == DEFAULT_TEMPERATURE,
            r.max_tokens == DEFAULT_MAX_TOKENS,
    {
        LlmConfig {
            api_key: None,
            model: None,
            small_model: None,
            base_url: None,
            temperature: DEFAULT_TEMPERATURE,
            max_tokens: DEFAULT_MAX_TOKENS,
        }
    }
}

} // verus!
