use identify_saml::text::{ascii_space, byte_offset, chars_of, replace, string_of, trim_range, white_space};

#[test]
fn white_space_is_what_trim_removes() {
    for code in 0u32..=0x10FFFF {
        if let Some(c) = char::from_u32(code) {
            assert_eq!(white_space(c), c.is_whitespace(), "{code:#x}");
        }
    }
}

#[test]
fn ascii_space_is_ascii_white_space() {
    for byte in 0u8..=0x7F {
        assert_eq!(ascii_space(byte as char), byte.is_ascii_whitespace(), "{byte:#x}");
    }
}

#[test]
fn replace_replaces_as_str_replace_does() {
    let cases = [
        ("", "&lt;", "<"),
        ("&lt;&lt;", "&lt;", "<"),
        ("a&amp;lt;b", "&amp;", "&"),
        ("aaaa", "aa", "b"),
        ("&l&lt;t;", "&lt;", "<"),
        ("ü&quot;€", "&quot;", "\""),
    ];
    for (text, pattern, with) in cases {
        let out = replace(&chars_of(text), &chars_of(pattern), &chars_of(with));
        assert_eq!(string_of(&out), text.replace(pattern, with), "{text}");
    }
}

#[test]
fn trimming_matches_str_trim() {
    let text = "\u{2028} a b\u{A0}\t";
    let chars = chars_of(text);
    let (lo, hi) = trim_range(&chars, 0, chars.len());
    assert_eq!(string_of(&chars[lo..hi]), text.trim());
    let blank = chars_of(" \u{3000} ");
    let (lo, hi) = trim_range(&blank, 0, blank.len());
    assert_eq!(lo, hi);
}

#[test]
fn byte_offsets_count_utf8_bytes() {
    let text = "aé€𝄞b";
    let chars = chars_of(text);
    let offsets: Vec<usize> = (0..=chars.len()).map(|k| byte_offset(&chars, k)).collect();
    assert_eq!(offsets, vec![0, 1, 3, 6, 10, 11]);
    assert_eq!(string_of(&chars), text);
}
