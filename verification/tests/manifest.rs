use kubevault::manifest::{
    is_service_account_token, role_name, rules_annotation, source_annotation, store_secret_name,
    OPAQUE_TYPE, RULES_ANNOTATION, SERVICE_ACCOUNT_ANNOTATION, SERVICE_ACCOUNT_TOKEN_TYPE,
    SOURCE_ANNOTATION,
};
use kubevault::order::ascending_order;

fn strings(texts: &[&str]) -> Vec<String> {
    texts.iter().map(|text| text.to_string()).collect()
}

#[test]
fn annotation_keys_and_types() {
    assert_eq!(SOURCE_ANNOTATION, "kubevault.chezmoi.sh/source");
    assert_eq!(RULES_ANNOTATION, "kubevault.chezmoi.sh/rules");
    assert_eq!(SERVICE_ACCOUNT_ANNOTATION, "kubernetes.io/service-account.name");
    assert_eq!(OPAQUE_TYPE, "Opaque");
    assert_eq!(SERVICE_ACCOUNT_TOKEN_TYPE, "kubernetes.io/service-account-token");
}

#[test]
fn source_has_forward_slashes() {
    assert_eq!(source_annotation("dir1\\sub\\secret"), "dir1/sub/secret");
    assert_eq!(source_annotation("dir1/secret"), "dir1/secret");
    assert_eq!(source_annotation(""), "");
    assert_eq!(source_annotation("\\"), "/");
    assert_eq!(source_annotation("\u{e9}\\\u{e9}"), "\u{e9}/\u{e9}");
}

#[test]
fn rules_are_joined_by_line_feeds() {
    assert_eq!(rules_annotation(&strings(&["**", "!dir1/secret1"])), "**\n!dir1/secret1");
    assert_eq!(rules_annotation(&strings(&["**"])), "**");
    assert_eq!(rules_annotation(&[]), "");
    assert_eq!(rules_annotation(&strings(&["", "a", ""])), "\na\n");
}

#[test]
fn blank_line_of_a_rule_file_is_not_in_the_annotation() {
    let rules = kubevault::rule_file::parse_access_rules("a/**\n   ");
    assert_eq!(rules_annotation(&rules), "a/**");
    let rules = kubevault::rule_file::parse_access_rules("# head\n\na/**\n \n!a/b\n\n");
    assert_eq!(rules_annotation(&rules), "a/**\n!a/b");
}

#[test]
fn role_is_named_after_the_account() {
    assert_eq!(role_name("user1"), "kubevault:user1:read");
    assert_eq!(role_name(""), "kubevault::read");
}

#[test]
fn store_secret_is_named_after_the_user() {
    assert_eq!(store_secret_name("user1"), "kubevault-user1");
}

#[test]
fn token_secret_is_told_by_its_type() {
    assert!(is_service_account_token("kubernetes.io/service-account-token"));
    assert!(!is_service_account_token("Opaque"));
    assert!(!is_service_account_token(""));
    assert!(!is_service_account_token("kubernetes.io/service-account-tokens"));
    assert!(!is_service_account_token("kubernetes.io/service-account-tokeN"));
}

#[test]
fn ascending_order_of_names() {
    assert_eq!(ascending_order(&strings(&["user2", "user10", "admin", "user1"])), vec![2, 3, 1, 0]);
    assert_eq!(ascending_order(&[]), Vec::<usize>::new());
    assert_eq!(ascending_order(&strings(&["a"])), vec![0]);
}

#[test]
fn ascending_order_keeps_equal_names_in_place() {
    assert_eq!(ascending_order(&strings(&["b", "a", "b", "a", "b"])), vec![1, 3, 0, 2, 4]);
}

#[test]
fn ascending_order_agrees_with_std() {
    let names = strings(&["z/file-a", "a-b", "a/b", "", "a", "\u{e9}", "B", "ab", "a/b", "Z"]);
    let mut expected: Vec<usize> = (0..names.len()).collect();
    expected.sort_by(|a, b| names[*a].cmp(&names[*b]));
    assert_eq!(ascending_order(&names), expected);
}
