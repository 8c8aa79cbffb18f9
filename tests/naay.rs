use naay::{dump_naay, is_well_formed, parse_naay, map_insert, CommentLine, ParseError, YamlNode, YamlValue};

fn entry<'a>(v: &'a YamlValue, key: &str) -> &'a YamlNode {
    match v {
        YamlValue::Mapping(entries) => {
            for (k, n) in entries {
                if k == key {
                    return n;
                }
            }
            panic!("no entry {key}");
        }
        _ => panic!("not a mapping"),
    }
}

fn scalar(v: &YamlValue) -> &str {
    match v {
        YamlValue::Str(s) => s.as_str(),
        _ => panic!("not a scalar"),
    }
}

fn keys(v: &YamlValue) -> Vec<String> {
    match v {
        YamlValue::Mapping(entries) => entries.iter().map(|(k, _)| k.clone()).collect(),
        _ => panic!("not a mapping"),
    }
}

fn error_line(e: &ParseError) -> usize {
    match e {
        ParseError::Generic { line, .. } => *line,
    }
}

fn error_message(e: &ParseError) -> String {
    match e {
        ParseError::Generic { message, .. } => message.clone(),
    }
}

#[test]
fn preserves_single_line_comments() {
    let input = r#"
    # preface
    _naay_version: "2025.01.01-0" # force version
defaults:
    # nested
    alignment: "TRUE NEUTRAL"
"#;

    let parsed = parse_naay(input).expect("parse should succeed");
    let dumped = dump_naay(&parsed).expect("dump should succeed");

    assert!(dumped.contains("# preface"));
    assert!(dumped.contains("# force version"));
    assert!(dumped.contains("# nested"));
}

#[test]
fn dedented_document_keeps_later_entries() {
    let input = "    _naay_version: \"2025.01.01-0\"\ndefaults:\n    alignment: \"TRUE NEUTRAL\"\n";
    let v = parse_naay(input).unwrap();
    let d = entry(&v, "defaults");
    assert_eq!(scalar(&entry(&d.value, "alignment").value), "TRUE NEUTRAL");
}

#[test]
fn version_missing_fails() {
    let e = parse_naay("name: x\n").unwrap_err();
    assert_eq!(error_line(&e), 1);
    assert!(error_message(&e).contains("missing"));
}

#[test]
fn version_with_invalid_month_fails() {
    let e = parse_naay("_naay_version: \"2025.13.01-0\"\n").unwrap_err();
    assert!(error_message(&e).contains("malformed"));
}

#[test]
fn version_exact_succeeds() {
    let v = parse_naay("_naay_version: \"2025.01.01-0\"\n").unwrap();
    assert_eq!(scalar(&entry(&v, "_naay_version").value), "2025.01.01-0");
    let v = parse_naay("_naay_version: 2025.01.01-0\n").unwrap();
    assert_eq!(scalar(&entry(&v, "_naay_version").value), "2025.01.01-0");
}

#[test]
fn version_well_formed_but_different_fails() {
    let e = parse_naay("_naay_version: \"2025.01.02-0\"\n").unwrap_err();
    assert!(error_message(&e).contains("unsupported"));
    assert!(parse_naay("_naay_version: \"2025.01.01-0 \"\n").is_err());
    assert!(parse_naay("_naay_version: \" 2025.01.01-0\"\n").is_err());
}

#[test]
fn version_not_a_scalar_fails() {
    let e = parse_naay("_naay_version:\n  - \"2025.01.01-0\"\n").unwrap_err();
    assert!(error_message(&e).contains("string scalar"));
}

#[test]
fn root_not_a_mapping_fails() {
    let e = parse_naay("- a\n- b\n").unwrap_err();
    assert!(error_message(&e).contains("root"));
}

#[test]
fn empty_document_fails() {
    assert!(parse_naay("").is_err());
    assert!(parse_naay("\n   \n").is_err());
}

#[test]
fn tab_is_refused_at_its_line() {
    let e = parse_naay("_naay_version: \"2025.01.01-0\"\na:\n\tb: c\n").unwrap_err();
    assert_eq!(error_line(&e), 3);
    assert!(error_message(&e).contains("tabs"));
}

#[test]
fn missing_colon_is_refused() {
    let e = parse_naay("_naay_version: \"2025.01.01-0\"\nfoo\n").unwrap_err();
    assert_eq!(error_line(&e), 2);
    assert!(error_message(&e).contains("':'"));
}

#[test]
fn merge_explicit_entry_wins() {
    let input = "_naay_version: \"2025.01.01-0\"\na: &a\n  x: \"1\"\nb:\n  <<: *a\n  x: \"2\"\nc:\n  x: \"3\"\n  <<: *a\n";
    let v = parse_naay(input).unwrap();
    assert_eq!(scalar(&entry(&entry(&v, "b").value, "x").value), "2");
    assert_eq!(scalar(&entry(&entry(&v, "c").value, "x").value), "3");
}

#[test]
fn merge_fills_missing_keys() {
    let input = "_naay_version: \"2025.01.01-0\"\na: &a\n  x: \"1\"\n  y: \"2\"\nb:\n  <<: *a\n";
    let v = parse_naay(input).unwrap();
    let b = &entry(&v, "b").value;
    assert_eq!(keys(b), vec!["x".to_string(), "y".to_string()]);
    assert_eq!(scalar(&entry(b, "x").value), "1");
    assert_eq!(scalar(&entry(b, "y").value), "2");
}

#[test]
fn merge_source_must_be_a_mapping() {
    let input = "_naay_version: \"2025.01.01-0\"\na: &a\n  - x\nb:\n  <<: *a\n";
    let e = parse_naay(input).unwrap_err();
    assert!(error_message(&e).contains("merge source"));
}

#[test]
fn alias_yields_the_anchored_value() {
    let input = "_naay_version: \"2025.01.01-0\"\na: &n\n  x: \"1\"\n  y:\n    - p\n    - q\nb: *n\n";
    let v = parse_naay(input).unwrap();
    assert_eq!(entry(&v, "a").value, entry(&v, "b").value);
}

#[test]
fn alias_in_sequence_item() {
    let input = "_naay_version: \"2025.01.01-0\"\nl:\n  - &n\n    k: v\n  - *n\n";
    let v = parse_naay(input).unwrap();
    match &entry(&v, "l").value {
        YamlValue::Sequence(items) => {
            assert_eq!(items.len(), 2);
            assert_eq!(items[0].value, items[1].value);
        }
        _ => panic!("not a sequence"),
    }
}

#[test]
fn unknown_anchor_fails() {
    let e = parse_naay("_naay_version: \"2025.01.01-0\"\nb: *nope\n").unwrap_err();
    assert_eq!(error_line(&e), 2);
    assert!(error_message(&e).contains("unknown anchor: nope"));
}

#[test]
fn anchor_without_nested_value_fails() {
    let e = parse_naay("_naay_version: \"2025.01.01-0\"\nb: &x\nc: d\n").unwrap_err();
    assert!(error_message(&e).contains("anchor without nested value"));
}

#[test]
fn block_literal_round_trip() {
    let mut entries = Vec::new();
    map_insert(&mut entries, "_naay_version".to_string(), YamlNode::new(YamlValue::Str("2025.01.01-0".to_string())));
    map_insert(&mut entries, "text".to_string(), YamlNode::new(YamlValue::Str("line1\nline2".to_string())));
    let doc = YamlValue::Mapping(entries);
    let dumped = dump_naay(&doc).unwrap();
    assert_eq!(dumped, "_naay_version: \"2025.01.01-0\"\ntext: |\n  line1\n  line2\n");
    let back = parse_naay(&dumped).unwrap();
    assert_eq!(scalar(&entry(&back, "text").value), "line1\nline2");
}

#[test]
fn block_literal_keeps_relative_indentation() {
    let input = "_naay_version: \"2025.01.01-0\"\ns: |\n    a\n      b\n    c\n";
    let v = parse_naay(input).unwrap();
    assert_eq!(scalar(&entry(&v, "s").value), "a\n  b\nc");
}

#[test]
fn comments_survive_parse_and_dump() {
    let input = "_naay_version: \"2025.01.01-0\"\n# about name\nname: \"x\" # inline note\n";
    let v = parse_naay(input).unwrap();
    let n = entry(&v, "name");
    assert_eq!(n.leading_comments, vec![CommentLine { indent: 0, text: "# about name".to_string() }]);
    assert_eq!(n.inline_comment, Some("# inline note".to_string()));
    let dumped = dump_naay(&v).unwrap();
    assert_eq!(dumped, "_naay_version: \"2025.01.01-0\"\n# about name\nname: \"x\" # inline note\n");
}

#[test]
fn hash_inside_quotes_is_not_a_comment() {
    let v = parse_naay("_naay_version: \"2025.01.01-0\"\nk: \"a # b\" # c\n").unwrap();
    let n = entry(&v, "k");
    assert_eq!(scalar(&n.value), "a # b");
    assert_eq!(n.inline_comment, Some("# c".to_string()));
    let v = parse_naay("_naay_version: \"2025.01.01-0\"\nk: a#b\n").unwrap();
    assert_eq!(scalar(&entry(&v, "k").value), "a#b");
}

#[test]
fn keys_are_dumped_in_order() {
    let v = parse_naay("_naay_version: \"2025.01.01-0\"\nzeta: \"1\"\nalpha: \"2\"\nmid: \"3\"\n").unwrap();
    assert_eq!(keys(&v), vec!["_naay_version", "alpha", "mid", "zeta"]);
    let dumped = dump_naay(&v).unwrap();
    assert_eq!(dumped, "_naay_version: \"2025.01.01-0\"\nalpha: \"2\"\nmid: \"3\"\nzeta: \"1\"\n");
}

#[test]
fn map_insert_replaces_and_sorts() {
    let mut entries = Vec::new();
    map_insert(&mut entries, "b".to_string(), YamlNode::new(YamlValue::Str("1".to_string())));
    map_insert(&mut entries, "a".to_string(), YamlNode::new(YamlValue::Str("2".to_string())));
    map_insert(&mut entries, "b".to_string(), YamlNode::new(YamlValue::Str("3".to_string())));
    let v = YamlValue::Mapping(entries);
    assert_eq!(keys(&v), vec!["a", "b"]);
    assert_eq!(scalar(&entry(&v, "b").value), "3");
}

#[test]
fn sequences_and_inline_maps() {
    let input = "_naay_version: \"2025.01.01-0\"\npeople:\n  - name: ann\n    age: \"3\"\n  - bob\n  - []\n  - {}\n  -\n";
    let v = parse_naay(input).unwrap();
    match &entry(&v, "people").value {
        YamlValue::Sequence(items) => {
            assert_eq!(items.len(), 5);
            assert_eq!(keys(&items[0].value), vec!["age", "name"]);
            assert_eq!(scalar(&entry(&items[0].value, "name").value), "ann");
            assert_eq!(scalar(&items[1].value), "bob");
            assert_eq!(items[2].value, YamlValue::Sequence(Vec::new()));
            assert_eq!(items[3].value, YamlValue::Mapping(Vec::new()));
            assert_eq!(scalar(&items[4].value), "");
        }
        _ => panic!("not a sequence"),
    }
}

#[test]
fn quoted_keys_and_escapes_are_written() {
    let mut entries = Vec::new();
    map_insert(&mut entries, "a key".to_string(), YamlNode::new(YamlValue::Str("say \"hi\" \\".to_string())));
    let dumped = dump_naay(&YamlValue::Mapping(entries)).unwrap();
    assert_eq!(dumped, "\"a key\": \"say \\\"hi\\\" \\\\\"\n");
}

#[test]
fn empty_collections_are_written_inline() {
    assert_eq!(dump_naay(&YamlValue::Sequence(Vec::new())).unwrap(), "[]\n");
    assert_eq!(dump_naay(&YamlValue::Mapping(Vec::new())).unwrap(), "{}\n");
    assert_eq!(dump_naay(&YamlValue::Str("x".to_string())).unwrap(), "\"x\"\n");
}

#[test]
fn dump_is_a_fixed_point() {
    let input = "_naay_version: \"2025.01.01-0\"\n# c1\nb:\n  - x # i\n  - k: v\n    j: w\nt: |\n  one\n  two\na: {}\n";
    let v = parse_naay(input).unwrap();
    let d1 = dump_naay(&v).unwrap();
    let v2 = parse_naay(&d1).unwrap();
    let d2 = dump_naay(&v2).unwrap();
    assert_eq!(d1, d2);
    assert_eq!(v, v2);
}

#[test]
fn deep_nesting_parses() {
    let depth = 3000;
    let mut input = String::from("_naay_version: \"2025.01.01-0\"\n");
    for i in 0..depth {
        input.push_str(&" ".repeat(i));
        input.push_str("k:\n");
    }
    input.push_str(&" ".repeat(depth));
    input.push_str("leaf: \"x\"\n");
    let v = parse_naay(&input).expect("deep document parses");
    let mut seen = 0;
    let mut cur = &entry(&v, "k").value;
    loop {
        match cur {
            YamlValue::Mapping(entries) if entries.len() == 1 && entries[0].0 == "k" => {
                seen += 1;
                cur = &entries[0].1.value;
            }
            _ => break,
        }
    }
    assert_eq!(seen, depth - 1);
    assert_eq!(scalar(&entry(cur, "leaf").value), "x");
    std::mem::forget(v);
}

#[test]
fn anchored_value_inside_item_mapping() {
    let input = "_naay_version: \"2025.01.01-0\"\nl:\n  - k: &a\n      x: \"1\"\n    j: \"2\"\n  - *a\n";
    let v = parse_naay(input).unwrap();
    match &entry(&v, "l").value {
        YamlValue::Sequence(items) => {
            assert_eq!(items.len(), 2);
            assert_eq!(keys(&items[0].value), vec!["j", "k"]);
            assert_eq!(scalar(&entry(&items[0].value, "j").value), "2");
            let k = &entry(&items[0].value, "k").value;
            assert_eq!(scalar(&entry(k, "x").value), "1");
            assert_eq!(&items[1].value, k);
        }
        _ => panic!("not a sequence"),
    }
}

#[test]
fn block_literal_inside_item_mapping() {
    let input = "_naay_version: \"2025.01.01-0\"\nl:\n  - t: |\n      a\n      b\n";
    let v = parse_naay(input).unwrap();
    match &entry(&v, "l").value {
        YamlValue::Sequence(items) => {
            assert_eq!(scalar(&entry(&items[0].value, "t").value), "a\nb");
        }
        _ => panic!("not a sequence"),
    }
}

#[test]
fn merge_inside_item_mapping() {
    let input = "_naay_version: \"2025.01.01-0\"\nbase: &b\n  x: \"1\"\n  y: \"2\"\nl:\n  - <<: *b\n    y: \"3\"\n";
    let v = parse_naay(input).unwrap();
    match &entry(&v, "l").value {
        YamlValue::Sequence(items) => {
            assert_eq!(scalar(&entry(&items[0].value, "x").value), "1");
            assert_eq!(scalar(&entry(&items[0].value, "y").value), "3");
        }
        _ => panic!("not a sequence"),
    }
}

#[test]
fn nested_sequences_and_dash_blocks() {
    let input = "_naay_version: \"2025.01.01-0\"\nm:\n  -\n    - a\n    - b\n  - 'q'\n";
    let v = parse_naay(input).unwrap();
    match &entry(&v, "m").value {
        YamlValue::Sequence(items) => {
            assert_eq!(items.len(), 2);
            match &items[0].value {
                YamlValue::Sequence(inner) => {
                    assert_eq!(scalar(&inner[0].value), "a");
                    assert_eq!(scalar(&inner[1].value), "b");
                }
                _ => panic!("not a sequence"),
            }
            assert_eq!(scalar(&items[1].value), "q");
        }
        _ => panic!("not a sequence"),
    }
}

#[test]
fn quoted_keys_are_unquoted() {
    let v = parse_naay("_naay_version: \"2025.01.01-0\"\n\"a b\": c\n'd': e\n").unwrap();
    assert_eq!(scalar(&entry(&v, "a b").value), "c");
    assert_eq!(scalar(&entry(&v, "d").value), "e");
    let dumped = dump_naay(&v).unwrap();
    assert!(dumped.contains("\"a b\": \"c\"\n"));
}

#[test]
fn date_versions_are_recognised() {
    let chars = |s: &str| s.chars().collect::<Vec<char>>();
    assert!(naay::is_date_version(&chars("2025.01.31-7")));
    assert!(!naay::is_date_version(&chars("2025.13.01-0")));
    assert!(!naay::is_date_version(&chars("1969.01.01-0")));
    assert!(!naay::is_date_version(&chars("2025.01.32-0")));
    assert!(!naay::is_date_version(&chars("2025.01.01-")));
}

#[test]
fn comment_inside_sequence_is_kept() {
    let input = "_naay_version: \"2025.01.01-0\"\nl:\n  - a\n  # c\n  - b\nz: \"1\"\n";
    let v = parse_naay(input).unwrap();
    match &entry(&v, "l").value {
        YamlValue::Sequence(items) => {
            assert_eq!(items.len(), 2);
            assert_eq!(scalar(&items[1].value), "b");
            assert_eq!(items[1].leading_comments, vec![CommentLine { indent: 2, text: "# c".to_string() }]);
        }
        _ => panic!("not a sequence"),
    }
    assert_eq!(scalar(&entry(&v, "z").value), "1");
}

#[test]
fn unsorted_mapping_is_not_well_formed() {
    let unsorted = YamlValue::Mapping(vec![
        ("b".to_string(), YamlNode::new(YamlValue::Mapping(Vec::new()))),
        ("a".to_string(), YamlNode::new(YamlValue::Mapping(Vec::new()))),
    ]);
    assert!(!is_well_formed(&unsorted));
    let dup = YamlValue::Mapping(vec![
        ("a".to_string(), YamlNode::new(YamlValue::Str("1".to_string()))),
        ("a".to_string(), YamlNode::new(YamlValue::Str("2".to_string()))),
    ]);
    assert!(!is_well_formed(&dup));
    let mut entries = Vec::new();
    map_insert(&mut entries, "b".to_string(), YamlNode::new(YamlValue::Str("1".to_string())));
    map_insert(&mut entries, "a".to_string(), YamlNode::new(YamlValue::Str("2".to_string())));
    let sorted = YamlValue::Mapping(entries);
    assert!(is_well_formed(&sorted));
    assert_eq!(dump_naay(&sorted).unwrap(), "a: \"2\"\nb: \"1\"\n");
}


#[test]
fn version_without_date_shape_is_malformed() {
    let e = parse_naay("_naay_version: \"1.0\"\n").unwrap_err();
    assert_eq!(error_line(&e), 1);
    assert!(error_message(&e).contains("malformed _naay_version"));
    assert!(error_message(&e).ends_with(": 1.0"));
}
