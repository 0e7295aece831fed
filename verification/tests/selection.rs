use swarm_deploy::order::sort_strings;
use swarm_deploy::select::parse_index;
use swarm_deploy::select::select_files;
use swarm_deploy::text::dec_str;
use swarm_deploy::text::has_yaml_ext_str;
use swarm_deploy::text::stem_str;

fn paths(items: &[&str]) -> Vec<String> {
    items.iter().map(|s| s.to_string()).collect()
}

#[test]
fn parse_index_accepts_plain_and_signed_numbers() {
    assert_eq!(parse_index("2"), Some(2));
    assert_eq!(parse_index("+2"), Some(2));
    assert_eq!(parse_index("0"), Some(0));
    assert_eq!(parse_index("007"), Some(7));
}

#[test]
fn parse_index_rejects_other_text_and_overflow() {
    assert_eq!(parse_index(""), None);
    assert_eq!(parse_index("+"), None);
    assert_eq!(parse_index("abc"), None);
    assert_eq!(parse_index("2a"), None);
    assert_eq!(parse_index("-1"), None);
    assert_eq!(parse_index("2 "), None);
    assert_eq!(parse_index("99999999999999999999999999999999"), None);
}

#[test]
fn tokens_pick_the_one_based_indices() {
    let all = paths(&["a/one.yaml", "a/two.yaml", "b/three.yaml"]);
    let sel = select_files("1 3", &all);
    assert_eq!(sel.paths, paths(&["a/one.yaml", "b/three.yaml"]));
}

#[test]
fn out_of_range_and_junk_tokens_select_nothing() {
    let all = paths(&["a/one.yaml", "a/two.yaml", "b/three.yaml"]);
    assert_eq!(select_files("4", &all).len(), 0);
    assert_eq!(select_files("", &all).len(), 0);
    assert_eq!(select_files("x y z", &all).len(), 0);
    let sel = select_files("abc 2", &all);
    assert_eq!(sel.paths, paths(&["a/two.yaml"]));
}

#[test]
fn duplicate_indices_collapse() {
    let all = paths(&["a/one.yaml", "a/two.yaml", "b/three.yaml"]);
    let sel = select_files("2 2 2", &all);
    assert_eq!(sel.paths, paths(&["a/two.yaml"]));
}

#[test]
fn sentinel_works_on_an_empty_list() {
    let all: Vec<String> = Vec::new();
    let sel = select_files("0", &all);
    assert_eq!(sel.len(), 0);
}

#[test]
fn sentinel_needs_to_be_the_only_token() {
    let all = paths(&["a/one.yaml", "a/two.yaml"]);
    assert_eq!(select_files("  0  ", &all).len(), 2);
    let sel = select_files("0 1", &all);
    assert_eq!(sel.paths, paths(&["a/one.yaml"]));
}

#[test]
fn decimal_rendering_is_exact() {
    assert_eq!(dec_str(0), "0");
    assert_eq!(dec_str(7), "7");
    assert_eq!(dec_str(10), "10");
    assert_eq!(dec_str(907), "907");
}

#[test]
fn stems_drop_only_the_last_extension() {
    assert_eq!(stem_str("a/one.yaml"), "one");
    assert_eq!(stem_str("one.yaml"), "one");
    assert_eq!(stem_str("a/b/archive.tar.gz"), "archive.tar");
    assert_eq!(stem_str("a/.hidden"), ".hidden");
    assert_eq!(stem_str("a/plain"), "plain");
}

#[test]
fn extension_check_matches_whole_last_suffix() {
    assert!(has_yaml_ext_str("/r/a/one.yaml"));
    assert!(has_yaml_ext_str("one.yaml"));
    assert!(!has_yaml_ext_str("one.yml"));
    assert!(!has_yaml_ext_str(".yaml"));
    assert!(!has_yaml_ext_str("/r/.yaml"));
    assert!(!has_yaml_ext_str("one.yaml.bak"));
    assert!(!has_yaml_ext_str("yaml"));
}

#[test]
fn string_sort_is_lexicographic() {
    let v = paths(&["pear", "apple", "fig", "apple"]);
    let sorted = sort_strings(&v);
    assert_eq!(sorted, paths(&["apple", "apple", "fig", "pear"]));
}
