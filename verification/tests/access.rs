use kubevault::access::{decide, get_access_control_list};
use kubevault::glob::{has_closed_braces, matches_glob};
use kubevault::order::{chars_le, str_le};
use kubevault::rules::{apply_rule, is_deny_rule, rule_pattern};
use kubevault::text::chars_of;

fn strings(texts: &[&str]) -> Vec<String> {
    texts.iter().map(|text| text.to_string()).collect()
}

fn decisions(list: &[(bool, &str)]) -> Vec<(bool, String)> {
    list.iter().map(|(allowed, path)| (*allowed, path.to_string())).collect()
}

fn secrets() -> Vec<String> {
    strings(&[
        "x/file-a",
        "x/file-b",
        "y/file-a",
        "y/file-b",
        "z/file-a",
        "z/folder-a/file-a",
        "z/folder-b/file-a",
        "z/folder-b/file-b",
        "a/b/c/file-a",
        "a/b/c/file-b",
        "a/b/d/file-a",
        "a/b/d/file-b",
    ])
}

#[test]
fn test_list_accessible_secret_simple() {
    let access_rules = vec![
        "{y,z}/*".to_string(),
        "a/**".to_string(),
        "!a/b/c/**".to_string(),
        "**/*{b,c}/file-b".to_string(),
        "!z/folder-b/file-b".to_string(),
    ];
    let secrets = vec![
        String::from("x/file-a"),
        String::from("x/file-b"),
        String::from("y/file-a"),
        String::from("y/file-b"),
        String::from("z/file-a"),
        String::from("z/folder-a/file-a"),
        String::from("z/folder-b/file-a"),
        String::from("z/folder-b/file-b"),
        String::from("a/b/c/file-a"),
        String::from("a/b/c/file-b"),
        String::from("a/b/d/file-a"),
        String::from("a/b/d/file-b"),
    ];

    assert_eq!(
        get_access_control_list(&access_rules, &secrets),
        vec![
            (false, String::from("a/b/c/file-a")),
            (true, String::from("a/b/c/file-b")),
            (true, String::from("a/b/d/file-a")),
            (true, String::from("a/b/d/file-b")),
            (false, String::from("x/file-a")),
            (false, String::from("x/file-b")),
            (true, String::from("y/file-a")),
            (true, String::from("y/file-b")),
            (true, String::from("z/file-a")),
            (false, String::from("z/folder-a/file-a")),
            (false, String::from("z/folder-b/file-a")),
            (false, String::from("z/folder-b/file-b")),
        ]
    );
}

#[test]
fn test_list_accessible_secret_shuffled() {
    let access_rules = vec![
        "a/**".to_string(),
        "!z/folder-b/file-b".to_string(),
        "{y,z}/*".to_string(),
        "**/*{b,c}/file-b".to_string(),
        "!a/b/c/**".to_string(),
    ];
    let secrets = vec![
        String::from("x/file-a"),
        String::from("x/file-b"),
        String::from("y/file-a"),
        String::from("y/file-b"),
        String::from("z/file-a"),
        String::from("z/folder-a/file-a"),
        String::from("z/folder-b/file-a"),
        String::from("z/folder-b/file-b"),
        String::from("a/b/c/file-a"),
        String::from("a/b/c/file-b"),
        String::from("a/b/d/file-a"),
        String::from("a/b/d/file-b"),
    ];

    assert_eq!(
        get_access_control_list(&access_rules, &secrets),
        vec![
            (false, String::from("a/b/c/file-a")),
            (false, String::from("a/b/c/file-b")),
            (true, String::from("a/b/d/file-a")),
            (true, String::from("a/b/d/file-b")),
            (false, String::from("x/file-a")),
            (false, String::from("x/file-b")),
            (true, String::from("y/file-a")),
            (true, String::from("y/file-b")),
            (true, String::from("z/file-a")),
            (false, String::from("z/folder-a/file-a")),
            (false, String::from("z/folder-b/file-a")),
            (true, String::from("z/folder-b/file-b")),
        ]
    );
}

#[test]
fn no_rule_denies_every_path() {
    let list = get_access_control_list(&[], &secrets());
    assert_eq!(list.len(), 12);
    assert!(list.iter().all(|(allowed, _)| !allowed));
    assert_eq!(list[0].1, "a/b/c/file-a");
    assert_eq!(list[11].1, "z/folder-b/file-b");
}

#[test]
fn no_path_gives_an_empty_list() {
    assert_eq!(get_access_control_list(&strings(&["**"]), &[]), vec![]);
    assert_eq!(get_access_control_list(&[], &[]), vec![]);
}

#[test]
fn unmatched_path_is_denied() {
    let list = get_access_control_list(&strings(&["a/*", "!b/*"]), &strings(&["c/d", "a/d"]));
    assert_eq!(list, decisions(&[(true, "a/d"), (false, "c/d")]));
}

#[test]
fn same_call_gives_the_same_list() {
    let rules = strings(&["{y,z}/*", "a/**", "!a/b/c/**"]);
    let first = get_access_control_list(&rules, &secrets());
    let second = get_access_control_list(&rules, &secrets());
    assert_eq!(first, second);
}

#[test]
fn order_of_paths_does_not_matter() {
    let rules = strings(&["{y,z}/*", "a/**", "!a/b/c/**", "**/*{b,c}/file-b", "!z/folder-b/file-b"]);
    let mut reversed = secrets();
    reversed.reverse();
    let mut rotated = secrets();
    rotated.rotate_left(5);
    let list = get_access_control_list(&rules, &secrets());
    assert_eq!(get_access_control_list(&rules, &reversed), list);
    assert_eq!(get_access_control_list(&rules, &rotated), list);
}

#[test]
fn order_of_rules_matters() {
    let path = strings(&["a/b/c"]);
    assert_eq!(
        get_access_control_list(&strings(&["a/**", "!a/b/**"]), &path),
        decisions(&[(false, "a/b/c")])
    );
    assert_eq!(
        get_access_control_list(&strings(&["!a/b/**", "a/**"]), &path),
        decisions(&[(true, "a/b/c")])
    );
}

#[test]
fn denial_does_not_allow() {
    // A denying rule that does not match leaves a denied path denied.
    let list = get_access_control_list(&strings(&["!x/*"]), &strings(&["a/b", "x/y"]));
    assert_eq!(list, decisions(&[(false, "a/b"), (false, "x/y")]));
}

#[test]
fn path_given_twice_is_listed_twice() {
    let list = get_access_control_list(&strings(&["a/*"]), &strings(&["b/c", "a/c", "b/c", "a/c"]));
    assert_eq!(list, decisions(&[(true, "a/c"), (true, "a/c"), (false, "b/c"), (false, "b/c")]));
}

#[test]
fn list_is_in_order_of_characters() {
    // A hyphen comes before a slash, a prefix before what it begins, upper
    // case before lower case.
    let paths = strings(&["a/b", "a-b", "a", "B", "ab", ""]);
    let list = get_access_control_list(&[], &paths);
    let order: Vec<&str> = list.iter().map(|(_, path)| path.as_str()).collect();
    assert_eq!(order, vec!["", "B", "a", "a-b", "a/b", "ab"]);
}

#[test]
fn decide_keeps_the_order_of_the_paths() {
    let rules = strings(&["{y,z}/*", "a/**", "!a/b/c/**", "**/*{b,c}/file-b", "!z/folder-b/file-b"]);
    assert_eq!(
        decide(&rules, &secrets()),
        vec![false, false, true, true, true, false, false, false, false, true, true, true]
    );
}

#[test]
fn apply_rule_table() {
    // (deny, matched, allowed) -> next
    assert!(!apply_rule(false, false, false));
    assert!(apply_rule(false, false, true));
    assert!(apply_rule(false, true, false));
    assert!(apply_rule(false, true, true));
    assert!(!apply_rule(true, false, false));
    assert!(apply_rule(true, false, true));
    assert!(!apply_rule(true, true, false));
    assert!(!apply_rule(true, true, true));
}

#[test]
fn deny_rule_and_its_pattern() {
    assert!(is_deny_rule("!a/b"));
    assert!(!is_deny_rule("a/!b"));
    assert!(!is_deny_rule(""));
    assert_eq!(rule_pattern("!a/b"), "a/b");
    assert_eq!(rule_pattern("a/b"), "a/b");
    assert_eq!(rule_pattern("!"), "");
    assert_eq!(rule_pattern("!!a"), "!a");
    assert_eq!(rule_pattern("!\u{e9}/*"), "\u{e9}/*");
    assert_eq!(rule_pattern(""), "");
}

#[test]
fn glob_matches_paths() {
    assert!(matches_glob("a/*", "a/b"));
    assert!(!matches_glob("a/*", "a/b/c"));
    assert!(matches_glob("a/**", "a/b/c"));
    assert!(matches_glob("{y,z}/*", "z/file-a"));
    assert!(!matches_glob("{y,z}/*", "x/file-a"));
    assert!(matches_glob("*/*{1,2}", "dir/secret2"));
    assert!(!matches_glob("*/*{1,2}", "dir/secret3"));
    assert!(matches_glob("**/*{b,c}/file-b", "a/b/c/file-b"));
    assert!(!matches_glob("a/B", "a/b"));
    assert!(!matches_glob("a/b", "a/c"));
}

#[test]
fn pattern_with_an_open_alternative_matches_nothing() {
    assert!(!matches_glob("{a", "a"));
    assert!(!matches_glob("{a,b", "a"));
    assert!(!matches_glob("{a,b", "b"));
    assert!(!matches_glob("{a,b", "c"));
    assert!(!matches_glob("a/{b", "a/b"));
    assert!(!matches_glob("{a,{b,c}", "a"));
    assert!(!matches_glob("{", ""));
    assert!(!matches_glob("{", "{"));
    assert!(!matches_glob("!{a", "b"));
    assert!(!matches_glob("**/{x,y", "d/x"));
}

#[test]
fn closed_alternatives_are_told_from_open_ones() {
    assert!(has_closed_braces(""));
    assert!(has_closed_braces("a/**"));
    assert!(has_closed_braces("{y,z}/*"));
    assert!(has_closed_braces("{a,{b,c}}"));
    assert!(has_closed_braces("**/*{b,c}/file-b"));
    assert!(!has_closed_braces("{a"));
    assert!(!has_closed_braces("{a,{b,c}"));
    assert!(!has_closed_braces("{a}{"));
    // A closing brace with nothing open is an ordinary character.
    assert!(has_closed_braces("a}"));
    assert!(!has_closed_braces("}{"));
    // So is a brace behind a backslash or in a character class.
    assert!(has_closed_braces("a\\{b"));
    assert!(!has_closed_braces("{a\\}"));
    assert!(has_closed_braces("[{]"));
    assert!(has_closed_braces("{a,[}]}"));
    assert!(!has_closed_braces("{[}]"));
    assert!(has_closed_braces("\\"));
    assert!(!has_closed_braces("\\\\{"));
}

#[test]
fn ordinary_braces_still_match() {
    assert!(matches_glob("a\\{b", "a{b"));
    assert!(matches_glob("a[{]b", "a{b"));
    assert!(matches_glob("a}", "a}"));
    assert!(matches_glob("{a,b}", "b"));
    assert!(matches_glob("{a,{b,c}}", "c"));
}

#[test]
fn malformed_rule_is_ignored() {
    let paths = strings(&["a", "b", "c", "x/y"]);
    for malformed in ["{a", "{a,b", "!{a,b", "{"] {
        let with = strings(&["x/*", malformed, "b", "!c"]);
        let without = strings(&["x/*", "b", "!c"]);
        let list = get_access_control_list(&with, &paths);
        assert_eq!(list, get_access_control_list(&without, &paths), "{malformed}");
        assert_eq!(list, decisions(&[(false, "a"), (true, "b"), (false, "c"), (true, "x/y")]));
    }
    // A malformed denial takes nothing away.
    let list = get_access_control_list(&strings(&["*", "!{a"]), &strings(&["a"]));
    assert_eq!(list, decisions(&[(true, "a")]));
}

#[test]
fn order_of_two_paths() {
    assert!(str_le("", ""));
    assert!(str_le("", "a"));
    assert!(!str_le("a", ""));
    assert!(str_le("a", "a"));
    assert!(str_le("a", "ab"));
    assert!(!str_le("ab", "a"));
    assert!(str_le("a-b", "a/b"));
    assert!(!str_le("a/b", "a-b"));
    assert!(str_le("z", "\u{e9}"));
    assert!(!str_le("\u{e9}", "z"));
    assert!(str_le("\u{ffff}", "\u{10000}"));
    assert!(chars_le(&['a', 'b'], &['a', 'c']));
    assert!(!chars_le(&['b'], &['a', 'c']));
}

#[test]
fn chars_of_text() {
    assert_eq!(chars_of("a\u{e9}/"), vec!['a', '\u{e9}', '/']);
    assert_eq!(chars_of(""), Vec::<char>::new());
}
