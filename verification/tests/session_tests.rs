use cm::session::{
    exec_message, join_with_spaces, message_text, plan_turn, replace_chars, MessageError,
    SOURCED_SHELL_NOTE,
};

fn words(v: &[&str]) -> Vec<String> {
    v.iter().map(|s| s.to_string()).collect()
}

#[test]
fn words_are_joined_with_spaces() {
    assert_eq!(join_with_spaces(&words(&["what's", "the", "capital"])), "what's the capital");
    assert_eq!(join_with_spaces(&words(&[])), "");
    assert_eq!(join_with_spaces(&words(&["one"])), "one");
    assert_eq!(join_with_spaces(&words(&[" a ", "b"])), " a  b");
}

#[test]
fn message_from_words_or_stdin() {
    assert_eq!(message_text(&words(&["hi", "there"]), None), Ok("hi there".to_string()));
    assert_eq!(message_text(&words(&["hi"]), Some("ignored")), Ok("hi".to_string()));
    assert_eq!(message_text(&words(&[]), Some("  piped\n")), Ok("piped".to_string()));
    assert_eq!(message_text(&words(&[]), None), Err(MessageError::NoInput));
    assert_eq!(message_text(&words(&[]), Some(" \n\t")), Err(MessageError::Empty));
    assert_eq!(message_text(&words(&[""]), None), Err(MessageError::Empty));
    assert_eq!(message_text(&words(&["", ""]), None), Ok(" ".to_string()));
}

#[test]
fn replace_is_left_to_right_without_overlap() {
    let c = |s: &str| s.chars().collect::<Vec<char>>();
    let r = replace_chars(&c("aaaa"), &c("aa"), &c("b"));
    assert_eq!(r, c("bb"));
    let r = replace_chars(&c("xaaay"), &c("aa"), &c("<>"));
    assert_eq!(r, c("x<>ay"));
    let r = replace_chars(&c("{shell} and {shell}"), &c("{shell}"), &c("bash"));
    assert_eq!(r, c("bash and bash"));
    assert_eq!(replace_chars(&c("{shel"), &c("{shell}"), &c("x")), c("{shel"));
}

#[test]
fn exec_message_layout() {
    let m = exec_message("list files", "Write {shell} code for {shell}.", "/bin/bash", false);
    assert_eq!(m, "list files\n\nWrite /bin/bash code for /bin/bash.");
    let m = exec_message("pwd", "P", "zsh", true);
    assert_eq!(m, format!("pwd\n\nP{}", SOURCED_SHELL_NOTE));
    assert!(m.contains("sourced in the user's current Bash shell"));
}

#[test]
fn first_message_starts_a_conversation() {
    let p = plan_turn(None, false, Some("sys"), false, false, true);
    assert_eq!(p.conversation_id, None);
    assert!(p.new_conversation);
    assert_eq!(p.system, Some("sys".to_string()));
    assert!(!p.prime_first);
    assert!(p.stream);
}

#[test]
fn second_message_continues() {
    let p = plan_turn(Some("c1"), false, Some("sys"), false, false, true);
    assert_eq!(p.conversation_id, Some("c1".to_string()));
    assert!(!p.new_conversation);
    assert_eq!(p.system, None);
    assert!(!p.prime_first);
}

#[test]
fn new_flag_starts_fresh() {
    let p = plan_turn(Some("c1"), true, None, false, true, true);
    assert_eq!(p.conversation_id, None);
    assert!(p.new_conversation);
    assert!(!p.stream);
}

#[test]
fn exec_mode_primes_and_never_streams() {
    let mut p = plan_turn(None, false, Some("sys"), true, false, true);
    assert!(p.prime_first);
    assert!(!p.stream);
    p.continue_after_priming(Some("primed".to_string()));
    assert_eq!(p.conversation_id, Some("primed".to_string()));
    assert!(p.new_conversation);
    assert_eq!(p.system, Some("sys".to_string()));
    let mut q = plan_turn(None, false, None, true, false, true);
    q.continue_after_priming(None);
    assert_eq!(q.conversation_id, None);
    let r = plan_turn(Some("c"), false, None, true, false, true);
    assert!(!r.prime_first);
    assert!(!r.stream);
}

#[test]
fn config_can_switch_streaming_off() {
    assert!(!plan_turn(None, false, None, false, false, false).stream);
}
