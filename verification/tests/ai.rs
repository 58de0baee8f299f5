//! AI provider and errors.

use jotlog::ai::{provider_from_config, read_reply, AiError, OpenAiCompatProvider};
use jotlog::config::AiConfig;

#[test]
fn provider_from_config_with_key() {
    let cfg = AiConfig {
        provider: "openai".into(),
        model: "gpt-4o-mini".into(),
        base_url: "https://api.openai.com/v1".into(),
        api_key_env: Some("NOTESAPP_TEST_AI_KEY".into()),
    };
    let p = provider_from_config(&cfg, "test-key-123").unwrap();
    assert_eq!(p.api_key.as_deref(), Some("test-key-123"));
    assert_eq!(p.model, "gpt-4o-mini");
}

#[test]
fn provider_from_config_missing_key() {
    let cfg = AiConfig {
        provider: "openai".into(),
        model: "gpt-4o-mini".into(),
        base_url: "https://api.openai.com/v1".into(),
        api_key_env: Some("NOTESAPP_TEST_AI_NONE".into()),
    };
    let err = provider_from_config(&cfg, "").unwrap_err();
    assert!(matches!(err, AiError::NoApiKey(_)));
}

#[test]
fn provider_from_config_no_env_var() {
    // Ollama-style: api_key_env is None → no key required.
    let cfg = AiConfig {
        provider: "ollama".into(),
        model: "llama3.2".into(),
        base_url: "http://localhost:11434/v1".into(),
        api_key_env: None,
    };
    let p = provider_from_config(&cfg, "").unwrap();
    assert!(p.api_key.is_none());
}

#[test]
fn error_display() {
    let e = AiError::NoApiKey("OPENAI_API_KEY".into());
    assert_eq!(e.message(), "API key env var OPENAI_API_KEY not set");

    let e = AiError::Api {
        status: 401,
        body: "unauthorized".into(),
    };
    assert_eq!(e.message(), "API error 401: unauthorized");
}

#[test]
fn every_error_says_what_happened() {
    assert_eq!(AiError::Http("refused".into()).message(), "network error: refused");
    assert_eq!(AiError::Parse("eof".into()).message(), "response parse error: eof");
}

#[test]
fn the_request_holds_prompt_and_text() {
    let p = OpenAiCompatProvider {
        base_url: "http://localhost:11434/v1//".into(),
        model: "llama3.2".into(),
        api_key: None,
    };
    assert_eq!(p.endpoint(), "http://localhost:11434/v1/chat/completions");
    let r = p.request("polish", "text");
    assert_eq!(r.model, "llama3.2");
    assert_eq!(r.role, "user");
    assert_eq!(r.content, "polish\n\ntext");
    assert!(!r.stream);
}

#[test]
fn the_first_choice_is_the_reply() {
    let two = Ok(vec!["a".to_string(), "b".to_string()]);
    assert_eq!(read_reply(200, String::new(), two).unwrap(), "a");
    let none = read_reply(200, String::new(), Ok(Vec::new())).unwrap_err();
    assert_eq!(none.message(), "response parse error: no choices in response");
    let bad = read_reply(200, String::new(), Err("eof".to_string())).unwrap_err();
    assert_eq!(bad.message(), "response parse error: eof");
    let denied = read_reply(401, "no".to_string(), Ok(vec!["a".to_string()])).unwrap_err();
    assert_eq!(denied.message(), "API error 401: no");
}
