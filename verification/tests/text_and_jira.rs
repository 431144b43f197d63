use commit_clock::jira::{find_jira_in_line, is_jira_key, jira_url};
use commit_clock::text::{
    char_len_utf8, is_whitespace_char, same_text, split_lines, split_words, trim,
};

#[test]
fn trim_removes_outer_white_space() {
    assert_eq!(trim("  a b \t\n"), "a b");
    assert_eq!(trim("\u{3000}x\u{a0}"), "x");
    assert_eq!(trim("   "), "");
    assert_eq!(trim(""), "");
    assert_eq!(trim("inner  space"), "inner  space");
}

#[test]
fn trim_twice_is_trim_once() {
    for s in ["  a ", "\tb\n", "", " ", "x"] {
        let once = trim(s);
        assert_eq!(trim(&once), once);
        assert_eq!(once, s.trim());
    }
}

#[test]
fn whitespace_matches_std() {
    for c in [' ', '\t', '\n', '\r', '\u{b}', '\u{c}', '\u{85}', '\u{a0}', '\u{1680}', '\u{2000}',
        '\u{200a}', '\u{2028}', '\u{2029}', '\u{202f}', '\u{205f}', '\u{3000}', 'a', '-', '\u{200b}',
        '\u{feff}', '0', 'é']
    {
        assert_eq!(is_whitespace_char(c), c.is_whitespace(), "{:?}", c);
    }
}

#[test]
fn words_split_at_white_space() {
    assert_eq!(split_words("  fix   the\tbug \n"), vec!["fix", "the", "bug"]);
    assert_eq!(split_words(""), Vec::<String>::new());
    assert_eq!(split_words("   "), Vec::<String>::new());
    let s = "a\u{3000}b  c";
    assert_eq!(split_words(s), s.split_whitespace().collect::<Vec<_>>());
}

#[test]
fn lines_follow_std() {
    for s in ["a\r\nb\n", "x\ry", "", "\n", "one", "a\n\nb", "end\r\n", "\r\n\r\n"] {
        assert_eq!(split_lines(s), s.lines().collect::<Vec<_>>(), "{:?}", s);
    }
    assert_eq!(split_lines("a\r\nb\n"), vec!["a", "b"]);
}

#[test]
fn utf8_lengths() {
    for c in ['a', 'é', '€', '😀'] {
        assert_eq!(char_len_utf8(c), c.len_utf8());
    }
    assert_eq!(char_len_utf8('€'), 3);
}

#[test]
fn same_text_compares_characters() {
    assert!(same_text("octocat", "octocat"));
    assert!(!same_text("octocat", "octocats"));
    assert!(!same_text("Octocat", "octocat"));
    assert!(same_text("", ""));
}

#[test]
fn jira_keys() {
    assert!(is_jira_key("ABC-123"));
    assert!(is_jira_key("AB-1"));
    assert!(!is_jira_key("A-1"));
    assert!(!is_jira_key("ABC-"));
    assert!(!is_jira_key("abc-1"));
    assert!(!is_jira_key("ABC-12a"));
    assert!(!is_jira_key("ABC-1-2"));
    assert!(!is_jira_key("ABC"));
    assert!(!is_jira_key("-12"));
    assert!(!is_jira_key("ÉÉ-1"));
}

#[test]
fn jira_in_line_reports_byte_offsets() {
    assert_eq!(
        find_jira_in_line("Fix ABC-123: bug"),
        Some((4, 11, "ABC-123".to_string()))
    );
    let line = "é ABC-1";
    let (s, e, key) = find_jira_in_line(line).unwrap();
    assert_eq!((s, e, key.as_str()), (3, 8, "ABC-1"));
    assert_eq!(&line[s..e], "ABC-1");
    assert_eq!(e, line.len());
    assert_eq!(find_jira_in_line("no key here"), None);
    assert_eq!(find_jira_in_line(""), None);
}

#[test]
fn jira_in_line_takes_first_whole_token() {
    assert_eq!(
        find_jira_in_line("xABC-1 DEF-22 GHI-3"),
        Some((7, 13, "DEF-22".to_string()))
    );
    assert_eq!(find_jira_in_line("AB-12x"), None);
    assert_eq!(find_jira_in_line("AB-12"), Some((0, 5, "AB-12".to_string())));
}

#[test]
fn jira_links() {
    assert_eq!(jira_url("ABC-1"), "https://gspcloud.atlassian.net/browse/ABC-1");
}
