use char_escape::{Escaper, MissingEscapeCharRule, Rule, UnescapeError};

fn rule(unescaped: char, escaped: char) -> Rule {
    Rule { unescaped, escaped }
}

fn rust_rules() -> Vec<Rule> {
    vec![
        rule('\n', 'n'),
        rule('\r', 'r'),
        rule('\t', 't'),
        rule('\\', '\\'),
        rule('\'', '\''),
        rule('"', '"'),
    ]
}

#[test]
fn scenario_rust_escape_sequences() {
    let rules = rust_rules();
    let escaper = Escaper::new('\\', &rules).expect("rules are valid");
    let unescaped = "\n\r\t\\\'\"";
    let escaped = r#"\n\r\t\\\'\""#;
    assert_eq!(escaper.escape(unescaped), escaped);
    assert_eq!(escaper.unescape(escaped), Ok(unescaped.to_string()));
    assert!(escaper.is_escaped(escaped));
}

#[test]
fn scenario_whitespace_rules() {
    let rules = vec![rule('\n', 'n'), rule(' ', 'w'), rule('\\', '\\')];
    let escaper = Escaper::new('\\', &rules).expect("rules are valid");
    let unescaped = "line1\nline2\n\nline3 with whitespace";
    let escaped = r"line1\nline2\n\nline3\wwith\wwhitespace";
    assert_eq!(escaper.escape(unescaped), escaped);
    assert_eq!(escaper.unescape(escaped), Ok(unescaped.to_string()));
}

fn newline_tab_rules() -> Vec<Rule> {
    vec![rule('\n', 'n'), rule('\t', 't'), rule('\\', '\\')]
}

#[test]
fn unescape_invalid_sequence() {
    let rules = newline_tab_rules();
    let escaper = Escaper::new('\\', &rules).expect("rules are valid");
    let result = escaper.unescape(r"\nval\d escape sequence");
    assert_eq!(result, Err(UnescapeError::Invalid(r"\d".to_string())));
}

#[test]
fn unescape_incomplete_sequence() {
    let rules = newline_tab_rules();
    let escaper = Escaper::new('\\', &rules).expect("rules are valid");
    assert_eq!(escaper.unescape(r"another failure\"), Err(UnescapeError::Incomplete));
    assert_eq!(escaper.unescape(r"\"), Err(UnescapeError::Incomplete));
}

#[test]
fn unescape_stops_at_first_error() {
    let rules = newline_tab_rules();
    let escaper = Escaper::new('\\', &rules).expect("rules are valid");
    assert_eq!(escaper.unescape(r"\x\"), Err(UnescapeError::Invalid(r"\x".to_string())));
}

#[test]
fn unescape_spaces() {
    let rules = vec![rule(' ', 'w'), rule('\\', '\\')];
    let escaper = Escaper::new('\\', &rules).expect("rules are valid");
    assert_eq!(escaper.unescape(r"S\wP\wA\wC\wE"), Ok("S P A C E".to_string()));
}

#[test]
fn new_without_escape_char_rule() {
    let rules = vec![rule('\n', 'n'), rule('\t', 't')];
    assert_eq!(Escaper::new('\\', &rules), Err(MissingEscapeCharRule::new()));
    assert_eq!(Escaper::new('\\', &[]), Err(MissingEscapeCharRule::new()));
}

#[test]
fn new_with_escape_char_rule() {
    let rules = vec![rule('\n', 'n'), rule('#', '#')];
    assert!(Escaper::new('#', &rules).is_ok());
    assert_eq!(Escaper::new('#', &rules), Ok(Escaper::new_unchecked('#', &rules)));
    // The escape character may be escaped to any character, not only itself.
    let other = vec![rule('#', 'h')];
    assert!(Escaper::new('#', &other).is_ok());
    assert!(Escaper::new('\\', &other).is_err());
}

#[test]
fn escape_with_custom_escape_char() {
    let rules = vec![
        rule('a', 'a'),
        rule('c', 'c'),
        rule('e', 'e'),
        rule('p', 'p'),
        rule('s', 's'),
        rule('%', '%'),
    ];
    let escaper = Escaper::new('%', &rules).expect("rules are valid");
    let unescaped = "escaper.escape(\"escaper\")";
    let escaped = "%e%s%c%a%p%er.%e%s%c%a%p%e(\"%e%s%c%a%p%er\")";
    assert_eq!(escaper.escape(unescaped), escaped);
    assert_eq!(escaper.unescape(escaped), Ok(unescaped.to_string()));
}

#[test]
fn is_escaped_examples() {
    let rules = vec![
        rule('&', 'a'),
        rule('\\', 'b'),
        rule('%', 'm'),
        rule('|', 'p'),
        rule('/', 's'),
    ];
    let escaper = Escaper::new('\\', &rules).expect("rules are valid");
    assert!(!escaper.is_escaped(r"\a  \b  \c  \d  \e"));
    assert!(!escaper.is_escaped(r"\a  \b  \m  \p  \s  \"));
    assert!(!escaper.is_escaped(r"\a  \b  \m  \|  \s"));
    assert!(escaper.is_escaped(r"\a  \b  \m  \p  \s"));
}

#[test]
fn is_escaped_edge_cases() {
    let rules = rust_rules();
    let escaper = Escaper::new('\\', &rules).expect("rules are valid");
    assert!(escaper.is_escaped(""));
    assert!(escaper.is_escaped("plain text"));
    assert!(!escaper.is_escaped("\\"));
    assert!(!escaper.is_escaped("tab\there"));
    assert!(escaper.is_escaped(r"tab\there"));
}

#[test]
fn escaped_strings_unescape() {
    let rules = rust_rules();
    let escaper = Escaper::new('\\', &rules).expect("rules are valid");
    for s in ["", "abc", r"\n\\", r#"\"quoted\""#, r"a\tb\rc"] {
        assert!(escaper.is_escaped(s));
        assert!(escaper.unescape(s).is_ok());
    }
}

#[test]
fn not_escaped_yet_unescapable() {
    // A bare character that should have been escaped makes the string not escaped,
    // yet unescaping it succeeds: `is_escaped` is the stronger test.
    let rules = rust_rules();
    let escaper = Escaper::new('\\', &rules).expect("rules are valid");
    assert!(!escaper.is_escaped("line\nbreak"));
    assert_eq!(escaper.unescape("line\nbreak"), Ok("line\nbreak".to_string()));
}

#[test]
fn unescape_failures_are_not_escaped() {
    let rules = rust_rules();
    let escaper = Escaper::new('\\', &rules).expect("rules are valid");
    for s in [r"\q", r"end\", r"a\\\"] {
        assert!(escaper.unescape(s).is_err());
        assert!(!escaper.is_escaped(s));
    }
}

#[test]
fn round_trip_on_many_inputs() {
    let rules = rust_rules();
    let escaper = Escaper::new('\\', &rules).expect("rules are valid");
    let inputs = [
        "",
        "\\",
        "\\\\n",
        "no escapes at all",
        "mixed \"quotes\" and 'apostrophes'\r\n",
        "trailing backslash \\",
        "non-ascii: héllo wörld ✓ 日本語\t",
    ];
    for x in inputs {
        let escaped = escaper.escape(x);
        assert!(escaper.is_escaped(&escaped));
        assert_eq!(escaper.unescape(&escaped), Ok(x.to_string()));
    }
}

#[test]
fn round_trip_with_non_ascii_rules() {
    let rules = vec![rule('é', 'e'), rule('✓', 'v'), rule('§', '§')];
    let escaper = Escaper::new('§', &rules).expect("rules are valid");
    let x = "café ✓ §1";
    let escaped = escaper.escape(x);
    assert_eq!(escaped, "caf§e §v §§1");
    assert!(escaper.is_escaped(&escaped));
    assert_eq!(escaper.unescape(&escaped), Ok(x.to_string()));
}

#[test]
fn escape_grows_only_on_rules() {
    let rules = rust_rules();
    let escaper = Escaper::new('\\', &rules).expect("rules are valid");
    assert_eq!(escaper.escape(""), "");
    assert_eq!(escaper.escape("abc"), "abc");
    assert_eq!(escaper.escape("\n"), r"\n");
}

#[test]
fn duplicate_unescaped_first_rule_wins() {
    let first = vec![rule('\n', 'n'), rule('\n', 'l'), rule('\\', '\\')];
    let escaper = Escaper::new('\\', &first).expect("rules are valid");
    assert_eq!(escaper.escape("a\nb"), r"a\nb");
    assert_eq!(escaper.escape("a\nb"), r"a\nb");

    let swapped = vec![rule('\n', 'l'), rule('\n', 'n'), rule('\\', '\\')];
    let escaper = Escaper::new('\\', &swapped).expect("rules are valid");
    assert_eq!(escaper.escape("a\nb"), r"a\lb");
    assert_eq!(escaper.escape("a\nb"), r"a\lb");
}

#[test]
fn duplicate_escaped_first_rule_wins() {
    let rules = vec![rule('\n', 'n'), rule('\r', 'n'), rule('\\', '\\')];
    let escaper = Escaper::new('\\', &rules).expect("rules are valid");
    assert_eq!(escaper.unescape(r"\n"), Ok("\n".to_string()));
    let swapped = vec![rule('\r', 'n'), rule('\n', 'n'), rule('\\', '\\')];
    let escaper = Escaper::new('\\', &swapped).expect("rules are valid");
    assert_eq!(escaper.unescape(r"\n"), Ok("\r".to_string()));
}

#[test]
fn unchecked_without_escape_char_rule_copies_marker() {
    let rules = vec![rule('\n', 'n')];
    let escaper = Escaper::new_unchecked('\\', &rules);
    assert_eq!(escaper.escape("a\\b\n"), "a\\b\\n");
}

#[test]
fn error_messages() {
    assert_eq!(
        UnescapeError::Invalid(r"\d".to_string()).message(),
        r"invalid escape sequence: \d"
    );
    assert_eq!(UnescapeError::Incomplete.message(), "incomplete escape sequence");
    assert_eq!(
        MissingEscapeCharRule::new().message(),
        "no escape sequence defined for the escape character"
    );
}
