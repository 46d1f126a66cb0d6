use cm::client::{
    build_request, completions_url, reply_from_body, reply_from_lookup, streamed_result,
    ReplyError,
};
use cm::config::Config;
use std::path::PathBuf;

fn cfg() -> Config {
    Config::from_values(None, None, Some("auto".to_string()), None, None, PathBuf::from("/s"))
}

#[test]
fn request_for_new_thread_with_system_prompt() {
    let r = build_request(&cfg(), "hi", Some("be terse"), None, None, true);
    assert_eq!(r.model, "auto");
    assert_eq!(r.messages.len(), 2);
    assert_eq!(r.messages[0].role, "system");
    assert_eq!(r.messages[0].content, "be terse");
    assert_eq!(r.messages[1].role, "user");
    assert_eq!(r.messages[1].content, "hi");
    assert!(r.stream);
    assert!(r.store);
    assert_eq!(r.metadata.unwrap().conversation_id, None);
}

#[test]
fn request_continuing_a_conversation() {
    let r = build_request(&cfg(), "more", None, Some("conv-9"), Some("gpt-5"), false);
    assert_eq!(r.model, "gpt-5");
    assert_eq!(r.messages.len(), 1);
    assert_eq!(r.messages[0].role, "user");
    assert_eq!(r.messages[0].content, "more");
    assert!(!r.stream);
    assert!(r.store);
    assert_eq!(r.metadata.unwrap().conversation_id, Some("conv-9".to_string()));
}

#[test]
fn endpoint_url() {
    assert_eq!(completions_url("http://localhost:8799"), "http://localhost:8799/v1/chat/completions");
}

#[test]
fn reply_from_complete_body() {
    let body = r#"{"choices":[{"message":{"role":"assistant","content":"Paris."}}]}"#;
    let r = reply_from_body(body, Some("c1".to_string())).unwrap();
    assert_eq!(r.reply, "Paris.");
    assert_eq!(r.conversation_id, Some("c1".to_string()));
}

#[test]
fn reply_errors() {
    assert_eq!(reply_from_body("not json", None).err(), Some(ReplyError::InvalidJson));
    assert_eq!(
        reply_from_body(r#"{"choices":[]}"#, None).err(),
        Some(ReplyError::UnexpectedShape)
    );
    assert_eq!(
        reply_from_body(r#"{"choices":[{"message":{"content":7}}]}"#, None).err(),
        Some(ReplyError::UnexpectedShape)
    );
}

#[test]
fn reply_from_lookup_cases() {
    assert_eq!(reply_from_lookup(None, None).err(), Some(ReplyError::InvalidJson));
    assert_eq!(reply_from_lookup(Some(None), None).err(), Some(ReplyError::UnexpectedShape));
    let r = reply_from_lookup(Some(Some("x".to_string())), None).unwrap();
    assert_eq!(r.reply, "x");
    assert_eq!(r.conversation_id, None);
}

#[test]
fn header_id_wins_over_stream_id() {
    let r = streamed_result(Some("h".to_string()), "text".to_string(), Some("s".to_string()));
    assert_eq!(r.conversation_id, Some("h".to_string()));
    let r = streamed_result(None, "text".to_string(), Some("s".to_string()));
    assert_eq!(r.conversation_id, Some("s".to_string()));
    assert_eq!(r.reply, "text");
    let r = streamed_result(None, String::new(), None);
    assert_eq!(r.conversation_id, None);
}
