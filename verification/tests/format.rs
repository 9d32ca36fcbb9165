use toml_sort::config::Config;
use toml_sort::config::ProcessedConfig;
use toml_sort::model::Array;
use toml_sort::model::Decor;
use toml_sort::model::Doc;
use toml_sort::model::InlineEntry;
use toml_sort::model::InlineTable;
use toml_sort::model::Item;
use toml_sort::model::Scalar;
use toml_sort::model::Table;
use toml_sort::model::TableEntry;
use toml_sort::model::Value;

fn b(s: &str) -> Vec<u8> {
    s.as_bytes().to_vec()
}

fn decor(p: &str, s: &str) -> Decor {
    Decor { prefix: b(p), suffix: b(s) }
}

fn str_scalar(content: &str, repr: &str, p: &str, s: &str) -> Value {
    Value::Scalar {
        scalar: Scalar { is_string: true, content: b(content), repr: b(repr) },
        decor: decor(p, s),
    }
}

fn num_scalar(repr: &str, p: &str, s: &str) -> Value {
    Value::Scalar {
        scalar: Scalar { is_string: false, content: b(""), repr: b(repr) },
        decor: decor(p, s),
    }
}

fn cfg(keys: &[&str], inline_keys: &[&str], sort_string_arrays: bool) -> ProcessedConfig {
    ProcessedConfig::from(Config {
        keys: keys.iter().map(|k| b(k)).collect(),
        inline_keys: inline_keys.iter().map(|k| b(k)).collect(),
        sort_string_arrays,
    })
}

fn entry(key: &str, p: &str, s: &str, item: Item) -> TableEntry {
    TableEntry { key: b(key), decor: decor(p, s), item }
}

fn table_keys(t: &Table) -> Vec<String> {
    t.entries
        .iter()
        .map(|e| String::from_utf8(e.key.clone()).unwrap())
        .collect()
}

#[test]
fn priority_precedence_sorts_priority_keys_first() {
    let c = cfg(&["b", "a"], &[], false);
    for order in [
        ["z", "a", "b"],
        ["z", "b", "a"],
        ["a", "z", "b"],
        ["a", "b", "z"],
        ["b", "z", "a"],
        ["b", "a", "z"],
    ] {
        let t = Table {
            entries: order.iter().map(|k| entry(k, "", "", Item::Nothing)).collect(),
            decor: decor("", ""),
        };
        let r = c.format_table(&t);
        assert_eq!(table_keys(&r), vec!["b", "a", "z"]);
    }
}

#[test]
fn empty_priority_list_sorts_lexicographically() {
    let c = cfg(&[], &[], false);
    let t = Table {
        entries: vec![
            entry("banana", "", "", Item::Nothing),
            entry("apple", "", "", Item::Nothing),
            entry("cherry", "", "", Item::Nothing),
        ],
        decor: decor("", ""),
    };
    let r = c.format_table(&t);
    assert_eq!(table_keys(&r), vec!["apple", "banana", "cherry"]);
}

#[test]
fn duplicate_priority_name_first_occurrence_wins() {
    let c = cfg(&["a", "b", "a"], &[], false);
    let t = Table {
        entries: vec![entry("b", "", "", Item::Nothing), entry("a", "", "", Item::Nothing)],
        decor: decor("", ""),
    };
    let r = c.format_table(&t);
    assert_eq!(table_keys(&r), vec!["a", "b"]);
}

#[test]
fn section_isolation_groups_never_interleave() {
    let c = cfg(&[], &[], false);
    // B, A | D, C  — the blank line before D opens a new section
    let t = Table {
        entries: vec![
            entry("b", "", "", Item::Nothing),
            entry("a", "", "", Item::Nothing),
            entry("d", "\n", "", Item::Nothing),
            entry("c", "", "", Item::Nothing),
        ],
        decor: decor("", ""),
    };
    let r = c.format_table(&t);
    assert_eq!(table_keys(&r), vec!["a", "b", "c", "d"]);
    // the second section still starts with the blank-line trivia
    assert_eq!(r.entries[2].decor.prefix, b("\n"));
    assert_eq!(r.entries[0].decor.prefix, b(""));
}

#[test]
fn comment_anchoring_follows_first_sorted_key() {
    let c = cfg(&[], &[], false);
    let t = Table {
        entries: vec![
            entry("b", "# section comment\n", "", Item::Nothing),
            entry("a", "", "", Item::Nothing),
        ],
        decor: decor("", ""),
    };
    let r = c.format_table(&t);
    assert_eq!(table_keys(&r), vec!["a", "b"]);
    assert_eq!(r.entries[0].decor.prefix, b("# section comment\n"));
    assert_eq!(r.entries[1].decor.prefix, b(""));
}

#[test]
fn key_suffix_trailing_newlines_are_stripped() {
    let c = cfg(&[], &[], false);
    let t = Table {
        entries: vec![entry("a", "", " # note\n\n", Item::Nothing)],
        decor: decor("", ""),
    };
    let r = c.format_table(&t);
    assert_eq!(r.entries[0].decor.suffix, b(" # note"));
}

#[test]
fn quote_normalization_rewrites_plain_single_quotes() {
    let c = cfg(&[], &[], false);
    let v = str_scalar("hello", "'hello'", "", "");
    let r = c.format_value(&v, false);
    match r {
        Value::Scalar { scalar, decor } => {
            assert!(scalar.is_string);
            assert_eq!(scalar.content, b("hello"));
            assert_eq!(scalar.repr, b("\"hello\""));
            assert_eq!(decor.prefix, b(" "));
            assert_eq!(decor.suffix, b(""));
        }
        _ => panic!("expected a scalar"),
    }
}

#[test]
fn quote_normalization_keeps_backslash_strings_single_quoted() {
    let c = cfg(&[], &[], false);
    let v = str_scalar("a\\b", "'a\\b'", "", "");
    let r = c.format_value(&v, false);
    match r {
        Value::Scalar { scalar, .. } => {
            assert_eq!(scalar.repr, b("'a\\b'"));
        }
        _ => panic!("expected a scalar"),
    }
}

#[test]
fn quote_normalization_keeps_doubled_quote_marker() {
    let c = cfg(&[], &[], false);
    let v = str_scalar("raw", "''raw''", "", "");
    let r = c.format_value(&v, false);
    match r {
        Value::Scalar { scalar, .. } => {
            assert_eq!(scalar.repr, b("''raw''"));
        }
        _ => panic!("expected a scalar"),
    }
}

#[test]
fn quote_normalization_keeps_double_quote_content() {
    let c = cfg(&[], &[], false);
    let v = str_scalar("say \"hi\"", "'say \"hi\"'", "", "");
    let r = c.format_value(&v, false);
    match r {
        Value::Scalar { scalar, .. } => {
            assert_eq!(scalar.repr, b("'say \"hi\"'"));
        }
        _ => panic!("expected a scalar"),
    }
}

#[test]
fn scalar_spacing_last_gets_trailing_space() {
    let c = cfg(&[], &[], false);
    let v = num_scalar("1", "   ", "  # end  ");
    let r = c.format_value(&v, true);
    match r {
        Value::Scalar { decor, .. } => {
            assert_eq!(decor.prefix, b(" "));
            assert_eq!(decor.suffix, b(" # end "));
        }
        _ => panic!("expected a scalar"),
    }
}

#[test]
fn string_array_partition_strings_first_rest_in_order() {
    let c = cfg(&[], &[], true);
    let a = Array {
        values: vec![
            str_scalar("banana", "\"banana\"", "", ""),
            num_scalar("3", "", ""),
            str_scalar("apple", "\"apple\"", "", ""),
            num_scalar("true", "", ""),
        ],
        trailing: b(""),
        trailing_comma: false,
        decor: decor("", ""),
    };
    let r = c.format_value(&Value::Arr { arr: a }, false);
    match r {
        Value::Arr { arr } => {
            let reprs: Vec<Vec<u8>> = arr
                .values
                .iter()
                .map(|v| match v {
                    Value::Scalar { scalar, .. } => scalar.repr.clone(),
                    _ => panic!("expected scalars"),
                })
                .collect();
            assert_eq!(reprs, vec![b("\"apple\""), b("\"banana\""), b("3"), b("true")]);
            assert!(!arr.trailing_comma);
            assert_eq!(arr.trailing, b(""));
            assert_eq!(arr.decor.prefix, b(" "));
            assert_eq!(arr.decor.suffix, b(""));
            // only the final element carries the closing-bracket space
            match &arr.values[3] {
                Value::Scalar { decor, .. } => assert_eq!(decor.suffix, b(" ")),
                _ => panic!(),
            }
            match &arr.values[0] {
                Value::Scalar { decor, .. } => {
                    assert_eq!(decor.prefix, b(" "));
                    assert_eq!(decor.suffix, b(""));
                }
                _ => panic!(),
            }
        }
        _ => panic!("expected an array"),
    }
}

#[test]
fn multiline_array_round_trip_keeps_comments_and_comma() {
    let c = cfg(&[], &[], false);
    let a = Array {
        values: vec![
            num_scalar("1", "\n    # first\n    ", " # after"),
            num_scalar("2", "\n    ", ""),
        ],
        trailing: b("\n"),
        trailing_comma: false,
        decor: decor("", ""),
    };
    let once = c.format_value(&Value::Arr { arr: a }, false);
    match &once {
        Value::Arr { arr } => {
            assert!(arr.trailing_comma);
            assert_eq!(arr.trailing, b("\n"));
            match &arr.values[0] {
                Value::Scalar { decor, .. } => {
                    assert_eq!(decor.prefix, b("\n\t# first\n\t"));
                    assert_eq!(decor.suffix, b("# after"));
                }
                _ => panic!(),
            }
            match &arr.values[1] {
                Value::Scalar { decor, .. } => {
                    assert_eq!(decor.prefix, b("\n\t"));
                    assert_eq!(decor.suffix, b(""));
                }
                _ => panic!(),
            }
        }
        _ => panic!("expected an array"),
    }
    let twice = c.format_value(&once, false);
    assert_eq!(once, twice);
}

#[test]
fn inline_table_sorted_and_respaced() {
    let c = cfg(&[], &["id"], false);
    let t = InlineTable {
        entries: vec![
            InlineEntry { key: b("b"), decor: decor("", ""), value: num_scalar("2", "", "") },
            InlineEntry { key: b("a"), decor: decor("  ", ""), value: num_scalar("1", "", "") },
            InlineEntry { key: b("id"), decor: decor("", ""), value: num_scalar("7", "", "") },
        ],
        decor: decor("", ""),
    };
    let r = c.format_inline_table(&t, false);
    let keys: Vec<Vec<u8>> = r.entries.iter().map(|e| e.key.clone()).collect();
    assert_eq!(keys, vec![b("id"), b("a"), b("b")]);
    for e in &r.entries {
        assert_eq!(e.decor.prefix, b(" "));
        assert_eq!(e.decor.suffix, b(" "));
    }
    // the last entry's value takes the closing-brace space
    match &r.entries[2].value {
        Value::Scalar { decor, .. } => assert_eq!(decor.suffix, b(" ")),
        _ => panic!(),
    }
    match &r.entries[0].value {
        Value::Scalar { decor, .. } => assert_eq!(decor.suffix, b("")),
        _ => panic!(),
    }
    assert_eq!(r.decor.prefix, b(" "));
    assert_eq!(r.decor.suffix, b(""));
}

#[test]
fn nested_tables_format_recursively() {
    let c = cfg(&["priority"], &[], false);
    let inner = Table {
        entries: vec![
            entry("z", "", "", Item::Nothing),
            entry("priority", "", "", Item::Nothing),
        ],
        decor: decor("inner-p", "inner-s"),
    };
    let t = Table {
        entries: vec![entry("outer", "", "", Item::Tab { table: inner })],
        decor: decor("", ""),
    };
    let r = c.format_table(&t);
    match &r.entries[0].item {
        Item::Tab { table } => {
            assert_eq!(table_keys(table), vec!["priority", "z"]);
            assert_eq!(table.decor.prefix, b("inner-p"));
            assert_eq!(table.decor.suffix, b("inner-s"));
        }
        _ => panic!("expected a nested table"),
    }
}

#[test]
fn array_of_tables_passes_through() {
    let c = cfg(&[], &[], false);
    let t = Table {
        entries: vec![entry("a", "", "", Item::ArrayOfTables { handle: 42 })],
        decor: decor("", ""),
    };
    let r = c.format_table(&t);
    assert_eq!(r.entries[0].item, Item::ArrayOfTables { handle: 42 });
}

#[test]
fn document_trailing_trivia_is_kept_verbatim() {
    let c = cfg(&[], &[], false);
    let d = Doc {
        root: Table { entries: vec![entry("a", "", "", Item::Nothing)], decor: decor("", "") },
        trailing: b("\n# final comment"),
    };
    let r = c.format_document(&d);
    assert_eq!(r.trailing, b("\n# final comment"));
}

#[test]
fn formatting_is_idempotent_on_a_mixed_document() {
    let c = cfg(&["name"], &["id"], true);
    let arr = Array {
        values: vec![
            str_scalar("pear", "'pear'", "", ""),
            str_scalar("fig", "\"fig\"", "", ""),
            num_scalar("9", " ", ""),
        ],
        trailing: b(""),
        trailing_comma: false,
        decor: decor("", ""),
    };
    let inline = InlineTable {
        entries: vec![
            InlineEntry { key: b("y"), decor: decor("", ""), value: num_scalar("2", "", "") },
            InlineEntry { key: b("id"), decor: decor("", ""), value: num_scalar("1", "", "") },
        ],
        decor: decor("", ""),
    };
    let nested = Table {
        entries: vec![
            entry("w", "", " # w\n", Item::Val { value: num_scalar("0", " ", "") }),
            entry("name", "", "", Item::Val { value: str_scalar("n", "'n'", "", "") }),
        ],
        decor: decor("", ""),
    };
    let d = Doc {
        root: Table {
            entries: vec![
                entry("beta", "# top\n", "", Item::Val { value: Value::Arr { arr } }),
                entry("alpha", "", "", Item::Val { value: Value::Inline { table: inline } }),
                entry("gamma", "\n# second section\n", "", Item::Tab { table: nested }),
                entry("delta", "", "", Item::Nothing),
            ],
            decor: decor("", ""),
        },
        trailing: b("# tail\n"),
    };
    let once = c.format_document(&d);
    let twice = c.format_document(&once);
    assert_eq!(once, twice);
}
