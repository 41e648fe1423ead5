use contenedores::text::{is_whitespace, split_whitespace, trim, trim_start_matches};

fn chars(s: &str) -> Vec<char> {
    s.chars().collect()
}

#[test]
fn whitespace_characters() {
    for c in ['\t', '\n', '\u{b}', '\u{c}', '\r', ' ', '\u{85}', '\u{a0}', '\u{1680}', '\u{2000}', '\u{200a}', '\u{2028}', '\u{2029}', '\u{202f}', '\u{205f}', '\u{3000}'] {
        assert!(is_whitespace(c));
        assert_eq!(is_whitespace(c), c.is_whitespace());
    }
    for c in ['a', '-', '\u{200b}', '\u{0}', '\u{feff}', '\u{180e}'] {
        assert!(!is_whitespace(c));
        assert_eq!(is_whitespace(c), c.is_whitespace());
    }
}

#[test]
fn tokens_of_text() {
    let toks = split_whitespace("  a bb\t\tccc \n");
    assert_eq!(toks, vec![chars("a"), chars("bb"), chars("ccc")]);
    assert!(split_whitespace("   ").is_empty());
    assert!(split_whitespace("").is_empty());
    assert_eq!(split_whitespace("x"), vec![chars("x")]);
}

#[test]
fn trim_leading_characters() {
    assert_eq!(trim_start_matches(&chars("--cpu"), '-'), chars("cpu"));
    assert_eq!(trim_start_matches(&chars("cpu-"), '-'), chars("cpu-"));
    assert_eq!(trim_start_matches(&chars("---"), '-'), chars(""));
}

#[test]
fn trim_both_ends() {
    assert_eq!(trim(&chars(" \t true \n")), chars("true"));
    assert_eq!(trim(&chars("  ")), chars(""));
    assert_eq!(trim(&chars("a b")), chars("a b"));
}

#[test]
fn tokens_are_clean() {
    for t in split_whitespace(" a\u{2003}b\u{85}c  dd\u{3000}") {
        assert!(!t.is_empty());
        assert!(t.iter().all(|c| !is_whitespace(*c)));
    }
    assert_eq!(split_whitespace(" a\u{2003}b\u{85}c  dd\u{3000}").len(), 4);
}

#[test]
fn trim_start_twice_changes_nothing() {
    let once = trim_start_matches(&chars("--x-"), '-');
    assert_eq!(trim_start_matches(&once, '-'), once);
    assert_ne!(once.first(), Some(&'-'));
}
