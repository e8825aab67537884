//! Requests to a language model and its errors.
use chronicle_core::embedder::EmbedderError;
use chronicle_core::llm::{schema_name, LlmError, LlmRequest, Message, ModelSize};

#[test]
fn rate_limit_is_retryable() {
    assert!(LlmError::RateLimit.is_retryable());
}

#[test]
fn invalid_json_is_retryable() {
    let err: serde_json::Error = serde_json::from_str::<serde_json::Value>("bad").unwrap_err();
    assert!(LlmError::InvalidJson(err).is_retryable());
}

#[test]
fn server_5xx_is_retryable() {
    assert!(
        LlmError::Server {
            status: 503,
            message: "overloaded".into()
        }
        .is_retryable()
    );
}

#[test]
fn refusal_is_not_retryable() {
    assert!(!LlmError::Refusal("nope".into()).is_retryable());
}

#[test]
fn empty_response_is_not_retryable() {
    assert!(!LlmError::EmptyResponse.is_retryable());
}

#[test]
fn transport_is_not_retryable() {
    assert!(!LlmError::Transport("timeout".into()).is_retryable());
}

#[test]
fn llm_request_builder_methods_work() {
    let req = LlmRequest::new(vec![Message::user("hi".to_string())])
        .small()
        .named("test-prompt");
    assert_eq!(req.model_size, ModelSize::Small);
    assert_eq!(req.prompt_name.as_deref(), Some("test-prompt"));
    assert!(req.response_schema.is_none());
}

#[test]
fn response_schema_of_extracts_short_name() {
    assert_eq!(schema_name("crate_name::module::MyPayload"), "MyPayload");
    assert_eq!(schema_name("MyPayload"), "MyPayload");
}

#[test]
fn rate_limit_is_retryable_transport_and_provider_are_not() {
    assert!(EmbedderError::RateLimit.is_retryable());
    assert!(!EmbedderError::Transport("conn reset".to_string()).is_retryable());
    assert!(!EmbedderError::Provider("bad key".to_string()).is_retryable());
}
