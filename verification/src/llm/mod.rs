//! Requests to a language model.
use crate::json::Json;
use crate::text::{chars_of, owned, string_of};
use vstd::prelude::*;

pub mod config;
pub mod message;
pub mod retry;

pub use config::{LlmConfig, DEFAULT_MAX_TOKENS, DEFAULT_TEMPERATURE};
pub use message::{Message, MessageView, Role};

verus! {

/// Which of the configured models a request goes to.
#[derive(Clone, Copy, Debug, PartialEq, Eq, Structural)]
pub enum ModelSize {
    Small,
    Medium,
}

impl Default for ModelSize {
    fn default() -> (r: Self)
        ensures
            r == ModelSize::Medium,
    {
        ModelSize::Medium
    }
}

/// A failure of the language model.
#[derive(Debug)]
pub enum LlmError {
    RateLimit,
    /// The model declined to answer.
    Refusal(String),
    EmptyResponse,
    /// The server answered with the status of an error.
    Server { status: u16, message: String },
    /// The answer is not the JSON that was asked for.
    InvalidJson(serde_json::Error),
    Transport(String),
}

/// Holds where trying again may help: after a rate limit, an unreadable answer or a status in the
/// 500s.
pub open spec fn retryable(e: LlmError) -> bool {
    ||| e is RateLimit
    ||| e is InvalidJson
    ||| e matches LlmError::Server { status, .. } && 500 <= status < 600
}

impl LlmError {
    /// Tells whether trying again may help: after a rate limit, an unreadable answer or a
    /// failure of the server with a status in the 500s.
    pub fn is_retryable(&self) -> (r: bool)
        ensures
            r == retryable(*self),
    {
        match self {
            LlmError::RateLimit => true,
            LlmError::InvalidJson(_) => true,
            LlmError::Server { status, .. } => 500 <= *status && *status < 600,
            LlmError::Refusal(_) => false,
            LlmError::EmptyResponse => false,
            LlmError::Transport(_) => false,
        }
    }
}

/// The last part of a path whose parts are apart by two colons.
pub open spec fn last_segment(path: Seq<char>) -> Seq<char>
    decreases path.len(),
{
    if path.len() < 2 {
        path
    } else if path[path.len() - 1] == ':' && path[path.len() - 2] == ':' {
        Seq::empty()
    } else {
        last_segment(path.drop_last()).push(path.last())
    }
}

/// The last part of a path is what stands behind the last two colons in a row: all of the path where
/// it has none. It has none itself.
pub proof fn law_last_segment_stands_behind_the_colons(path: Seq<char>) -> (n: int)
    ensures
        0 <= n <= path.len(),
        last_segment(path) == path.skip(n),
        n == 0 || (n >= 2 && path[n - 1] == ':' && path[n - 2] == ':'),
        forall|i: int|
            #![trigger path[i]]
            n <= i < path.len() - 1 ==> !(path[i] == ':' && path[i + 1] == ':'),
        0 < n < path.len() ==> path[n] != ':',
    decreases path.len(),
{
    if path.len() < 2 {
        assert(path.skip(0) =~= path);
        0
    } else if path[path.len() - 1] == ':' && path[path.len() - 2] == ':' {
        assert(path.skip(path.len() as int) =~= Seq::<char>::empty());
        path.len() as int
    } else {
        let init = path.drop_last();
        let n = law_last_segment_stands_behind_the_colons(init);
        assert(path.skip(n) =~= init.skip(n).push(path.last()));
        if n > 0 {
            assert(init[n - 1] == path[n - 1] && init[n - 2] == path[n - 2]);
        }
        assert forall|i: int|
            #![trigger path[i]]
            n <= i < path.len() - 1 implies !(path[i] == ':' && path[i + 1] == ':') by {
            if i < init.len() - 1 {
                assert(init[i] == path[i] && init[i + 1] == path[i + 1]);
            }
        }
        if 0 < n < init.len() {
            assert(init[n] == path[n]);
        }
        n
    }
}

/// The name of a response schema for a type: the last part of the type's path.
pub fn schema_name(type_path: &str) -> (r: String)
    ensures
        r@ == (if last_segment(type_path@).len() == 0 {
            "structured_response"@
        } else {
            last_segment(type_path@)
        }),
{
    let chars = chars_of(type_path);
    let n = chars.len();
    let mut start: usize = n;
    let ghost s = type_path@;
    assert(s.subrange(n as int, n as int) =~= Seq::<char>::empty());
    assert(s.take(n as int) =~= s);
    assert(last_segment(s.take(n as int)) + Seq::<char>::empty() =~= last_segment(s));
    while start >= 2 && !(chars[start - 1] == ':' && chars[start - 2] == ':')
        invariant
            start <= n,
            n == chars@.len(),
            chars@ == s,
            last_segment(s) == last_segment(s.take(start as int)) + s.subrange(
                start as int,
                n as int,
            ),
        decreases start,
    {
        proof {
            let t = s.take(start as int);
            assert(t.drop_last() =~= s.take(start - 1));
            assert(last_segment(t) == last_segment(s.take(start - 1)).push(s[start - 1]));
            assert(last_segment(s.take(start - 1)).push(s[start - 1]) + s.subrange(
                start as int,
                n as int,
            ) =~= last_segment(s.take(start - 1)) + s.subrange(start - 1, n as int));
        }
        start -= 1;
    }
    if start == 1 {
        proof {
            assert(last_segment(s.take(1)) =~= s.take(1));
            assert(s.take(1) + s.subrange(1, n as int) =~= s.subrange(0, n as int));
        }
        start = 0;
    } else {
        proof {
            assert(last_segment(s.take(start as int)) =~= Seq::<char>::empty());
            assert(Seq::<char>::empty() + s.subrange(start as int, n as int) =~= s.subrange(
                start as int,
                n as int,
            ));
        }
    }
    if start == n {
        owned("structured_response")
    } else {
        string_of(&chars, start, n)
    }
}

/// The shape that an answer has to have.
#[derive(Debug)]
pub struct ResponseSchema {
    pub name: String,
    pub schema: Json,
}

/// A request to a language model.
#[derive(Debug)]
pub struct LlmRequest {
    pub messages: Vec<Message>,
    pub response_schema: Option<ResponseSchema>,
    pub max_tokens: Option<u32>,
    pub model_size: ModelSize,
    pub prompt_name: Option<String>,
}

impl LlmRequest {
    /// A request for the medium model, without a schema or a name.
    pub fn new(messages: Vec<Message>) -> (r: LlmRequest)
        ensures
            r.messages == messages,
            r.response_schema is None,
            r.max_tokens is None,
            r.model_size == ModelSize::Medium,
            r.prompt_name is None,
    {
        LlmRequest {
            messages,
            response_schema: None,
            max_tokens: None,
            model_size: ModelSize::Medium,
            prompt_name: None,
        }
    }

    /// The request with a schema for its answer.
    pub fn with_schema(self, schema: ResponseSchema) -> (r: LlmRequest)
        ensures
            r == (LlmRequest { response_schema: Some(schema), ..self }),
    {
        LlmRequest {
            messages: self.messages,
            response_schema: Some(schema),
            max_tokens: self.max_tokens,
            model_size: self.model_size,
            prompt_name: self.prompt_name,
        }
    }

    /// The request for the small model.
    pub fn small(self) -> (r: LlmRequest)
        ensures
            r == (LlmRequest { model_size: ModelSize::Small, ..self }),
    {
        LlmRequest {
            messages: self.messages,
            response_schema: self.response_schema,
            max_tokens: self.max_tokens,
            model_size: ModelSize::Small,
            prompt_name: self.prompt_name,
        }
    }

    /// The request under a name.
    pub fn named(self, name: &str) -> (r: LlmRequest)
        ensures
            r == (LlmRequest { prompt_name: r.prompt_name, ..self }),
            r.prompt_name is Some,
            r.prompt_name->0@ == name@,
    {
        LlmRequest {
            messages: self.messages,
            response_schema: self.response_schema,
            max_tokens: self.max_tokens,
            model_size: self.model_size,
            prompt_name: Some(owned(name)),
        }
    }
}

/// Holds where a request puts messages to a model of a size under a name.
pub open spec fn asks(
    request: LlmRequest,
    messages: Seq<MessageView>,
    size: ModelSize,
    name: Seq<char>,
) -> bool {
    &&& message::message_views(request.messages@) == messages
    &&& request.response_schema is None
    &&& request.max_tokens is None
    &&& request.model_size == size
    &&& request.prompt_name is Some
    &&& request.prompt_name->0@ == name
}

} // verus!
