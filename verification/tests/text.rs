use uvr::text::{chars_of, is_whitespace, lines_of, trimmed};
use uvr::version::Version;

#[test]
fn whitespace_agrees_with_char_is_whitespace() {
    for u in 0u32..0x3100 {
        if let Some(c) = char::from_u32(u) {
            assert_eq!(is_whitespace(c), c.is_whitespace(), "U+{u:04X}");
        }
    }
    assert!(!is_whitespace('\u{FEFF}'));
}

#[test]
fn trim_agrees_with_str_trim() {
    for s in ["", "  ", " a b ", "\u{3000}x\u{2028}", "\t\nq\r", "x"] {
        let v = chars_of(s);
        let t: String = trimmed(&v, 0, v.len()).into_iter().collect();
        assert_eq!(t, s.trim());
    }
}

#[test]
fn lines_agree_with_str_lines() {
    for s in ["", "\n", "a", "a\n", "a\r\nb", "a\n\nb\n", "x\r", "x\r\ny\r", "\r\n\r\n", "a\rb\n"] {
        let v = chars_of(s);
        let ours: Vec<String> = lines_of(&v).into_iter().map(|l| l.into_iter().collect()).collect();
        let std: Vec<String> = s.lines().map(|l| l.to_string()).collect();
        assert_eq!(ours, std, "{s:?}");
    }
}

#[test]
fn version_parse_agrees_with_u64_from_str() {
    for s in ["1.2.3", "3.4-1", "+1", "+", "-1", "1..2", "", "0x1", "01.002", "1_0", " 1", "99999999999999999999", "1.+2", "++1"] {
        let expected: Option<Vec<u64>> = s
            .split(['.', '-'])
            .map(|p| p.parse::<u64>().ok())
            .collect();
        let got = Version::parse(s).map(|v| v.parts().clone());
        assert_eq!(got, expected, "{s:?}");
    }
}
