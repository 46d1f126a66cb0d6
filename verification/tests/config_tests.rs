use cm::config::{
    first_listed_key, non_empty, normalize_base_url, resolve_api_key, stream_setting, Config,
};
use std::path::PathBuf;

fn s(v: &str) -> Option<String> {
    Some(v.to_string())
}

#[test]
fn api_key_priority_order() {
    assert_eq!(resolve_api_key(s("cm"), s("mirror"), s("k1,k2"), s("openai")), s("cm"));
    assert_eq!(resolve_api_key(None, s("mirror"), s("k1,k2"), s("openai")), s("mirror"));
    assert_eq!(resolve_api_key(None, None, s("k1,k2"), s("openai")), s("k1"));
    assert_eq!(resolve_api_key(None, None, None, s("openai")), s("openai"));
    assert_eq!(resolve_api_key(None, None, None, None), None);
}

#[test]
fn blank_api_keys_are_skipped() {
    assert_eq!(resolve_api_key(s("   "), s(""), s(" , ,"), s("openai")), s("openai"));
    assert_eq!(resolve_api_key(s("\t"), s(" mirror "), None, None), s(" mirror "));
}

#[test]
fn listed_keys_are_trimmed() {
    assert_eq!(resolve_api_key(None, None, s(" , key-two ,key3"), None), s("key-two"));
    assert_eq!(first_listed_key("  a  "), s("a"));
    assert_eq!(first_listed_key(",,,b"), s("b"));
    assert_eq!(first_listed_key(",, ,"), None);
    assert_eq!(first_listed_key(""), None);
}

#[test]
fn non_empty_uses_unicode_whitespace() {
    assert_eq!(non_empty(s("\u{3000}\u{a0}")), None);
    assert_eq!(non_empty(s(" x ")), s(" x "));
    assert_eq!(non_empty(None), None);
}

#[test]
fn stream_flag_values() {
    assert!(stream_setting(None));
    assert!(!stream_setting(Some("0")));
    assert!(!stream_setting(Some("false")));
    assert!(!stream_setting(Some("no")));
    assert!(stream_setting(Some("1")));
    assert!(stream_setting(Some("FALSE")));
    assert!(stream_setting(Some("")));
}

#[test]
fn base_url_loses_trailing_slashes() {
    assert_eq!(normalize_base_url("http://h:1///"), "http://h:1");
    assert_eq!(normalize_base_url("http://h:1"), "http://h:1");
    assert_eq!(normalize_base_url("///"), "");
}

#[test]
fn config_defaults() {
    let c = Config::from_values(None, None, None, None, None, PathBuf::from("/tmp/x"));
    assert_eq!(c.base_url, "http://localhost:8799");
    assert_eq!(c.api_key, None);
    assert_eq!(c.model, "auto");
    assert_eq!(c.thread, "default");
    assert!(c.stream);
    assert_eq!(c.state_dir, PathBuf::from("/tmp/x"));
}

#[test]
fn config_from_values() {
    let c = Config::from_values(
        s("http://mirror:9/"),
        s("key"),
        s("gpt"),
        s("work"),
        s("no"),
        PathBuf::from("/s"),
    );
    assert_eq!(c.base_url, "http://mirror:9");
    assert_eq!(c.api_key, s("key"));
    assert_eq!(c.model, "gpt");
    assert_eq!(c.thread, "work");
    assert!(!c.stream);
}
