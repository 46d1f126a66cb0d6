use cm::order::str_less;
use cm::text::{chars_of, is_white_space, trim_chars};
use cm::utf8_stream::decode_utf8_prefix;

#[test]
fn whitespace_matches_std_for_every_char() {
    for v in 0u32..=0x10ffff {
        if let Some(c) = char::from_u32(v) {
            assert_eq!(is_white_space(c), c.is_whitespace(), "U+{:04X}", v);
        }
    }
}

#[test]
fn trim_matches_std() {
    for s in ["  a b  ", "\u{3000}x\u{85}", "", " \t\n", "日本 "] {
        let t: String = trim_chars(&chars_of(s)).into_iter().collect();
        assert_eq!(t, s.trim());
    }
}

#[test]
fn str_less_matches_std() {
    let words = ["", "a", "ab", "b", "B", "é", "z", "日本", "日", "a\u{0}", "\u{10ffff}"];
    for a in words {
        for b in words {
            assert_eq!(str_less(a, b), a < b, "{:?} < {:?}", a, b);
        }
    }
}

#[test]
fn valid_utf8_decodes_like_std() {
    for s in ["", "abc", "héllo", "日本語", "😀🎉", "\u{7f}\u{80}\u{7ff}\u{800}\u{ffff}\u{10000}\u{10ffff}"] {
        let (chars, rest) = decode_utf8_prefix(s.as_bytes());
        assert_eq!(chars, s.chars().collect::<Vec<char>>());
        assert!(rest.is_empty());
    }
}

#[test]
fn incomplete_tail_waits() {
    let bytes = "a日".as_bytes();
    let (chars, rest) = decode_utf8_prefix(&bytes[..3]);
    assert_eq!(chars, vec!['a']);
    assert_eq!(rest, bytes[1..3].to_vec());
    let (chars, rest) = decode_utf8_prefix(&[0xf0, 0x9f]);
    assert!(chars.is_empty());
    assert_eq!(rest, vec![0xf0, 0x9f]);
}

#[test]
fn invalid_bytes_are_replaced() {
    let (chars, rest) = decode_utf8_prefix(&[b'a', 0xff, 0x80, b'b']);
    assert_eq!(chars, vec!['a', '\u{fffd}', '\u{fffd}', 'b']);
    assert!(rest.is_empty());
    let (chars, rest) = decode_utf8_prefix(&[0xe6, b'z']);
    assert_eq!(chars, vec!['\u{fffd}', 'z']);
    assert!(rest.is_empty());
}

/// What the decoder gives for a complete input: a waiting incomplete
/// encoding at the end counts as one replacement, as at the end of input.
fn decode_all(bytes: &[u8]) -> String {
    let (chars, rest) = decode_utf8_prefix(bytes);
    let mut s: String = chars.into_iter().collect();
    if !rest.is_empty() {
        s.push('\u{fffd}');
    }
    s
}

#[test]
fn maximal_invalid_prefix_is_one_replacement() {
    assert_eq!(decode_all(&[0xe6, 0x97, b'z']), "\u{fffd}z");
    assert_eq!(decode_all(&[0xf0, 0x9f, 0x98, b'A']), "\u{fffd}A");
    assert_eq!(decode_all(&[0xe0, 0x80, 0x80]), "\u{fffd}\u{fffd}\u{fffd}");
    assert_eq!(decode_all(&[0xed, 0xa0, 0x80]), "\u{fffd}\u{fffd}\u{fffd}");
    assert_eq!(decode_all(&[0xf4, 0x90, 0x80, 0x80]), "\u{fffd}\u{fffd}\u{fffd}\u{fffd}");
}

#[test]
fn replacement_matches_std_on_all_two_byte_inputs() {
    for a in 0u16..=255 {
        for b in 0u16..=255 {
            let bytes = [a as u8, b as u8, b'.'];
            assert_eq!(decode_all(&bytes), String::from_utf8_lossy(&bytes), "{:02x} {:02x}", a, b);
        }
    }
}

#[test]
fn replacement_matches_std_on_multi_byte_inputs() {
    let leads = [0xc2u8, 0xdf, 0xe0, 0xe1, 0xec, 0xed, 0xee, 0xef, 0xf0, 0xf1, 0xf3, 0xf4, 0xf5];
    let seconds = [0x41u8, 0x7f, 0x80, 0x8f, 0x90, 0x9f, 0xa0, 0xbf, 0xc0];
    let thirds = [0x41u8, 0x80, 0xbf, 0xc0];
    for &l in &leads {
        for &s2 in &seconds {
            for &s3 in &thirds {
                for &s4 in &thirds {
                    for len in 1..=4 {
                        let full = [l, s2, s3, s4];
                        let mut bytes = full[..len].to_vec();
                        bytes.push(b'!');
                        assert_eq!(decode_all(&bytes), String::from_utf8_lossy(&bytes), "{:02x?}", bytes);
                        assert_eq!(decode_all(&full[..len]), String::from_utf8_lossy(&full[..len]), "{:02x?}", &full[..len]);
                    }
                }
            }
        }
    }
}
