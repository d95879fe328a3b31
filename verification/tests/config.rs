use vidzy::helpers::{_filtered, _single, brace_dirs, cuts_cleanly_check, parse_conf, sort_paths};

fn pairs(v: &[(&str, &str)]) -> Vec<(String, String)> {
    v.iter().map(|(a, b)| (a.to_string(), b.to_string())).collect()
}

#[test]
fn conf_lines_are_read_in_order() {
    let raw = "a = 1\n# only a comment\nb=2 # trailing\n=no name\nno equals\n  name  =  value  \n";
    assert_eq!(parse_conf(raw), pairs(&[("a", "1"), ("b", "2"), ("name", "value")]));
}

#[test]
fn conf_keeps_later_equals_in_value() {
    assert_eq!(parse_conf("k=a=b"), pairs(&[("k", "a=b")]));
}

#[test]
fn conf_empty_text_has_no_entries() {
    assert_eq!(parse_conf(""), pairs(&[]));
    assert_eq!(parse_conf("\n\n"), pairs(&[]));
}

#[test]
fn conf_trims_unicode_white_space() {
    assert_eq!(parse_conf("\u{3000}k\u{00a0}=\tv\u{2003}"), pairs(&[("k", "v")]));
}

#[test]
fn conf_join_is_concatenation() {
    let a = "x = 1\ny=2";
    let b = "# c\nz = 3";
    let joined = format!("{}\n{}", a, b);
    let mut both = parse_conf(a);
    both.extend(parse_conf(b));
    assert_eq!(parse_conf(&joined), both);
}

#[test]
fn filtered_renames_by_prefix_length() {
    let src = pairs(&[
        ("feeder.items.tv", "/m/tv"),
        ("other", "x"),
        ("xfeeder.items.", "y"),
        ("feeder.items.", "z"),
    ]);
    assert!(cuts_cleanly_check(&src, "feeder.items."));
    assert_eq!(
        _filtered(&src, "feeder.items."),
        pairs(&[("tv", "/m/tv"), (".", "y"), ("feeder.items.", "z")])
    );
}

#[test]
fn filtered_empty_pattern_keeps_all() {
    let src = pairs(&[("a", "1"), ("b", "2")]);
    assert_eq!(_filtered(&src, ""), src);
}

#[test]
fn filtered_detects_unclean_cut() {
    let src = pairs(&[("é.x", "1")]);
    assert!(!cuts_cleanly_check(&src, "x"));
    assert!(cuts_cleanly_check(&src, "é"));
}

#[test]
fn single_takes_first_value() {
    let src = pairs(&[("feeder.order", "random"), ("feeder.order", "second")]);
    assert_eq!(_single(&src, "feeder.order"), "random".to_string());
}

#[test]
fn brace_pattern_expands_in_written_order() {
    let dirs = brace_dirs("/m/{b|a|}").unwrap();
    assert_eq!(dirs, vec!["/m//b".to_string(), "/m//a".to_string(), "/m//".to_string()]);
    assert_eq!(brace_dirs("/plain/dir"), None);
}

#[test]
fn sort_paths_orders_by_code_point() {
    let v = vec!["b".to_string(), "a".to_string(), "B".to_string(), "ab".to_string(), "é".to_string(), "a".to_string()];
    let s = sort_paths(v);
    assert_eq!(
        s,
        vec!["B".to_string(), "a".to_string(), "a".to_string(), "ab".to_string(), "b".to_string(), "é".to_string()]
    );
}

#[test]
fn sort_paths_ignores_input_order() {
    let a = vec!["z".to_string(), "m".to_string(), "a".to_string()];
    let b = vec!["a".to_string(), "z".to_string(), "m".to_string()];
    assert_eq!(sort_paths(a), sort_paths(b));
}
