use terax::text::{chars_of, is_whitespace, split_lines, split_words, string_from, trim_chars};

const SAMPLES: &[&str] = &[
    "", " ", "a", " a ", "a b", "  a  b  ", "\t\na\u{a0}b\u{3000}", "a\nb", "a\nb\n", "a\r\nb\r\n",
    "\n", "\n\n", "a\r", "a\r\n\r\n", "x\u{2028}y", "\u{85}z\u{200b}",
];

fn to_strings(v: Vec<Vec<char>>) -> Vec<String> {
    v.iter().map(|w| string_from(w)).collect()
}

#[test]
fn whitespace_matches_std() {
    for c in (0u32..0x3100).filter_map(char::from_u32) {
        assert_eq!(is_whitespace(c), c.is_whitespace(), "{c:?}");
    }
}

#[test]
fn trim_matches_std() {
    for s in SAMPLES {
        assert_eq!(string_from(&trim_chars(&chars_of(s))), s.trim(), "{s:?}");
    }
}

#[test]
fn words_match_split_whitespace() {
    for s in SAMPLES {
        let ours = to_strings(split_words(&chars_of(s)));
        let theirs: Vec<String> = s.split_whitespace().map(str::to_string).collect();
        assert_eq!(ours, theirs, "{s:?}");
    }
}

#[test]
fn lines_match_std() {
    for s in SAMPLES {
        let ours = to_strings(split_lines(&chars_of(s)));
        let theirs: Vec<String> = s.lines().map(str::to_string).collect();
        assert_eq!(ours, theirs, "{s:?}");
    }
}
