use toml_sort::config::Config;
use toml_sort::config::ProcessedConfig;
use toml_sort::config::build_priority_index;

fn b(s: &str) -> Vec<u8> {
    s.as_bytes().to_vec()
}

#[test]
fn rank_is_position_in_list() {
    let idx = build_priority_index(vec![b("name"), b("version"), b("edition")]);
    assert_eq!(idx.rank(&b("name")), Some(0));
    assert_eq!(idx.rank(&b("version")), Some(1));
    assert_eq!(idx.rank(&b("edition")), Some(2));
    assert_eq!(idx.rank(&b("missing")), None);
}

#[test]
fn rank_of_duplicate_name_is_first_occurrence() {
    let idx = build_priority_index(vec![b("a"), b("b"), b("a")]);
    assert_eq!(idx.rank(&b("a")), Some(0));
    assert_eq!(idx.rank(&b("b")), Some(1));
}

#[test]
fn empty_list_ranks_nothing() {
    let idx = build_priority_index(Vec::new());
    assert_eq!(idx.rank(&b("a")), None);
}

#[test]
fn default_config_is_empty() {
    let c = Config::default();
    assert!(c.keys.is_empty());
    assert!(c.inline_keys.is_empty());
    assert!(!c.sort_string_arrays);
}

#[test]
fn processed_config_keeps_lists() {
    let p = ProcessedConfig::from(Config {
        keys: vec![b("k1")],
        inline_keys: vec![b("k2")],
        sort_string_arrays: true,
    });
    assert_eq!(p.keys.rank(&b("k1")), Some(0));
    assert_eq!(p.inline_keys.rank(&b("k2")), Some(0));
    assert!(p.sort_string_arrays);
}

#[test]
fn priority_keys_compare_before_others() {
    let p = ProcessedConfig::from(Config {
        keys: vec![b("z")],
        inline_keys: Vec::new(),
        sort_string_arrays: false,
    });
    assert!(p.key_lt_table(&b("z"), &b("a")));
    assert!(!p.key_lt_table(&b("a"), &b("z")));
    assert!(p.key_lt_table(&b("a"), &b("b")));
    assert!(!p.key_lt_table(&b("b"), &b("a")));
    assert!(!p.key_lt_table(&b("a"), &b("a")));
}
