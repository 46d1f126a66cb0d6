use cm::sse::SseDecoder;

fn delta(s: &str) -> String {
    format!("data: {{\"choices\":[{{\"delta\":{{\"content\":{}}}}}]}}\n", serde_json_string(s))
}

fn serde_json_string(s: &str) -> String {
    let mut out = String::from("\"");
    for c in s.chars() {
        match c {
            '"' => out.push_str("\\\""),
            '\\' => out.push_str("\\\\"),
            '\n' => out.push_str("\\n"),
            c => out.push(c),
        }
    }
    out.push('"');
    out
}

#[test]
fn decodes_deltas_and_done() {
    let mut d = SseDecoder::new();
    let text = format!("{}{}data: [DONE]\n{}", delta("Hel"), delta("lo"), delta("ignored"));
    let pieces = d.push_chunk(text.as_bytes());
    assert_eq!(pieces, vec!["Hel".to_string(), "lo".to_string()]);
    assert!(d.is_done());
    assert!(d.push_chunk(delta("late").as_bytes()).is_empty());
    assert_eq!(d.finish(), ("Hello".to_string(), None));
}

#[test]
fn conversation_id_comment() {
    let mut d = SseDecoder::new();
    let text = format!(": mirror-conversation-id  abc-123 \r\n{}: keep-alive\n", delta("x"));
    let pieces = d.push_chunk(text.as_bytes());
    assert_eq!(pieces, vec!["x".to_string()]);
    assert!(!d.is_done());
    assert_eq!(d.finish(), ("x".to_string(), Some("abc-123".to_string())));
}

#[test]
fn lines_split_across_chunks() {
    let text = format!("{}{}data: [DONE]\n", delta("ab"), delta("cd"));
    let bytes = text.as_bytes();
    for cut in 0..bytes.len() {
        let mut d = SseDecoder::new();
        let mut all = Vec::new();
        all.extend(d.push_chunk(&bytes[..cut]));
        all.extend(d.push_chunk(&bytes[cut..]));
        assert_eq!(all, vec!["ab".to_string(), "cd".to_string()], "cut at {}", cut);
        assert!(d.is_done());
        assert_eq!(d.finish().0, "abcd");
    }
}

#[test]
fn data_without_space_and_crlf() {
    let mut d = SseDecoder::new();
    let text = "data:{\"choices\":[{\"delta\":{\"content\":\"ok\"}}]}\r\r\ndata:   [DONE]  \r\n";
    assert_eq!(d.push_chunk(text.as_bytes()), vec!["ok".to_string()]);
    assert!(d.is_done());
}

#[test]
fn skipped_lines() {
    let mut d = SseDecoder::new();
    let text = "event: message\ndata: \ndata: not json\ndata: {\"choices\":[{\"delta\":{}}]}\n\n";
    assert!(d.push_chunk(text.as_bytes()).is_empty());
    assert!(!d.is_done());
    assert_eq!(d.finish(), (String::new(), None));
}

#[test]
fn incomplete_last_line_is_not_part_of_reply() {
    let mut d = SseDecoder::new();
    let text = format!("{}data: {{\"choices\":[{{\"delta\":{{\"content\":\"tail\"}}}}]}}", delta("a"));
    assert_eq!(d.push_chunk(text.as_bytes()), vec!["a".to_string()]);
    assert_eq!(d.finish().0, "a");
}

#[test]
fn invalid_utf8_is_replaced() {
    let mut d = SseDecoder::new();
    let mut bytes = b"data: {\"choices\":[{\"delta\":{\"content\":\"a".to_vec();
    bytes.push(0xff);
    bytes.extend_from_slice(b"b\"}}]}\n");
    assert_eq!(d.push_chunk(&bytes), vec!["a\u{fffd}b".to_string()]);
}

#[test]
fn multibyte_text_in_one_chunk() {
    let mut d = SseDecoder::new();
    assert_eq!(d.push_chunk(delta("日本語 🎉").as_bytes()), vec!["日本語 🎉".to_string()]);
    assert_eq!(d.finish().0, "日本語 🎉");
}

#[test]
fn push_text_matches_push_chunk() {
    let text = format!("{}{}", delta("1"), delta("2"));
    let mut a = SseDecoder::new();
    let chars: Vec<char> = text.chars().collect();
    let pa = a.push_text(&chars);
    let mut b = SseDecoder::new();
    let pb = b.push_chunk(text.as_bytes());
    assert_eq!(pa, pb);
}

#[test]
fn multibyte_split_at_every_byte_boundary() {
    let text = format!(
        ": mirror-conversation-id ïd-日本\n{}{}data: [DONE]\n",
        delta("héllo 日本語 "),
        delta("🎉 done")
    );
    let bytes = text.as_bytes();
    for cut in 0..=bytes.len() {
        let mut d = SseDecoder::new();
        let mut all = Vec::new();
        all.extend(d.push_chunk(&bytes[..cut]));
        all.extend(d.push_chunk(&bytes[cut..]));
        assert_eq!(all, vec!["héllo 日本語 ".to_string(), "🎉 done".to_string()], "cut at {}", cut);
        assert!(d.is_done());
        assert_eq!(
            d.finish(),
            ("héllo 日本語 🎉 done".to_string(), Some("ïd-日本".to_string())),
            "cut at {}",
            cut
        );
    }
}

#[test]
fn multibyte_split_into_single_bytes() {
    let text = format!("{}data: [DONE]\n", delta("ünï 😀"));
    let mut d = SseDecoder::new();
    let mut all = Vec::new();
    for b in text.as_bytes() {
        all.extend(d.push_chunk(std::slice::from_ref(b)));
    }
    assert_eq!(all, vec!["ünï 😀".to_string()]);
    assert_eq!(d.finish().0, "ünï 😀");
}

#[test]
fn truncated_and_overlong_bytes_become_replacement_characters() {
    let mut d = SseDecoder::new();
    let mut bytes = b"data: {\"choices\":[{\"delta\":{\"content\":\"".to_vec();
    bytes.extend_from_slice(&[0xc0, 0xaf, b'x', 0xed, 0xa0, 0x80, b'y', 0xe6, b'z']);
    bytes.extend_from_slice(b"\"}}]}\n");
    let expected = "\u{fffd}\u{fffd}x\u{fffd}\u{fffd}\u{fffd}y\u{fffd}z";
    assert_eq!(d.push_chunk(&bytes), vec![expected.to_string()]);
}
