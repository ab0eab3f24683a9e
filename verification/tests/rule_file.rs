use kubevault::rule_file::{is_whitespace_char, parse_access_rules, trim};

fn expected(content: &str) -> Vec<String> {
    content
        .lines()
        .filter(|line| !line.starts_with('#'))
        .map(|line| line.trim().to_string())
        .filter(|rule| !rule.is_empty())
        .collect()
}

#[test]
fn rules_one_a_line() {
    assert_eq!(parse_access_rules("a/**\n!a/b/**\n"), vec!["a/**", "!a/b/**"]);
    assert_eq!(parse_access_rules("a/**\n!a/b/**"), vec!["a/**", "!a/b/**"]);
}

#[test]
fn comments_and_empty_lines_hold_no_rule() {
    let content = "# Access to all secrets\n**\n\n# but one\n!dir1/secret1\n";
    assert_eq!(parse_access_rules(content), vec!["**", "!dir1/secret1"]);
    assert_eq!(parse_access_rules("# No access rules"), Vec::<String>::new());
    assert_eq!(parse_access_rules(""), Vec::<String>::new());
    assert_eq!(parse_access_rules("\n\n\n"), Vec::<String>::new());
}

#[test]
fn whitespace_at_the_ends_is_taken_away() {
    assert_eq!(parse_access_rules("  a/*  \n\tb c\t\n"), vec!["a/*", "b c"]);
    assert_eq!(parse_access_rules("a\u{a0}\u{3000}\n"), vec!["a"]);
}

#[test]
fn blank_line_holds_no_rule() {
    assert_eq!(parse_access_rules("   \n"), Vec::<String>::new());
    assert_eq!(parse_access_rules(" \t\u{a0}\u{3000}"), Vec::<String>::new());
    assert_eq!(parse_access_rules("a/**\n   "), vec!["a/**"]);
    assert_eq!(parse_access_rules("a/**\n   \n\t\nb/*\n"), vec!["a/**", "b/*"]);
}

#[test]
fn no_rule_is_empty() {
    for content in ["", "\n", " ", " \n \n", "#\n \n", "\r", "\r\r\n", "a\n \n\nb"] {
        assert!(parse_access_rules(content).iter().all(|rule| !rule.is_empty()), "{content:?}");
    }
}

#[test]
fn comment_mark_begins_a_comment_only_at_the_head_of_a_line() {
    assert_eq!(parse_access_rules("# a comment\n#\n#a/*\n"), Vec::<String>::new());
    assert_eq!(parse_access_rules("  # no comment\n"), vec!["# no comment"]);
    assert_eq!(parse_access_rules("a#b\n"), vec!["a#b"]);
}

#[test]
fn carriage_return_belongs_to_the_line_ending() {
    assert_eq!(parse_access_rules("a/*\r\nb/*\r\n"), vec!["a/*", "b/*"]);
    assert_eq!(parse_access_rules("a/*\r\n\r\n# c\r\nb/*"), vec!["a/*", "b/*"]);
    // Without a line feed behind it, a carriage return is part of the line,
    // where it is whitespace.
    assert_eq!(parse_access_rules("\r"), Vec::<String>::new());
    assert_eq!(parse_access_rules("a\r"), vec!["a"]);
    assert_eq!(parse_access_rules("a\rb\n"), vec!["a\rb"]);
    assert_eq!(parse_access_rules("\r\r\n"), Vec::<String>::new());
}

#[test]
fn parsing_agrees_with_lines_and_trim_of_std() {
    let pieces = ["", "a", "#", " ", "\t", "\r", "\n", "\r\n", "!x/*", "\u{e9}", "\u{2003}", "b c"];
    let mut contents = vec![String::new()];
    for _ in 0..4 {
        let mut longer = Vec::new();
        for content in &contents {
            for piece in pieces {
                longer.push(format!("{content}{piece}"));
            }
        }
        contents = longer;
    }
    assert_eq!(contents.len(), 20736);
    for content in &contents {
        assert_eq!(parse_access_rules(content), expected(content), "{content:?}");
    }
}

#[test]
fn whitespace_agrees_with_std() {
    let mut count = 0;
    for code in 0..=0x10ffffu32 {
        if let Some(c) = char::from_u32(code) {
            assert_eq!(is_whitespace_char(c), c.is_whitespace(), "{code:#x}");
            if is_whitespace_char(c) {
                count += 1;
            }
        }
    }
    assert_eq!(count, 25);
}

#[test]
fn trim_takes_both_ends() {
    let line: Vec<char> = " \t a b \u{2028}".chars().collect();
    assert_eq!(trim(&line), &['a', ' ', 'b']);
    let blank: Vec<char> = " \t ".chars().collect();
    assert_eq!(trim(&blank), &[] as &[char]);
    assert_eq!(trim(&[]), &[] as &[char]);
    assert_eq!(trim(&['a']), &['a']);
}
