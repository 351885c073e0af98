use genj::substitute::{apply_replacements, replace_all_bytes};

fn table(pairs: &[(&str, &str)]) -> Vec<(Vec<u8>, Vec<u8>)> {
    pairs
        .iter()
        .map(|(t, v)| (t.as_bytes().to_vec(), v.as_bytes().to_vec()))
        .collect()
}

#[test]
fn two_tokens_substituted() {
    let t = table(&[("${X}", "1"), ("${Y}", "2")]);
    let out = apply_replacements(b"${X}-${Y}", &t);
    assert_eq!(out, b"1-2".to_vec());
}

#[test]
fn unknown_token_left_unchanged() {
    let t = table(&[("${X}", "1"), ("${Y}", "2")]);
    let out = apply_replacements(b"only ${Z} here", &t);
    assert_eq!(out, b"only ${Z} here".to_vec());
}

#[test]
fn empty_table_leaves_input() {
    let t = table(&[]);
    let out = apply_replacements(b"anything ${X}", &t);
    assert_eq!(out, b"anything ${X}".to_vec());
}

#[test]
fn earlier_value_feeds_later_pair() {
    // the fold applies each pair to the cumulative result, so a value that
    // contains a later pair's token is substituted again
    let t = table(&[("${A}", "${B}"), ("${B}", "x")]);
    let out = apply_replacements(b"${A}", &t);
    assert_eq!(out, b"x".to_vec());
}

#[test]
fn later_value_does_not_feed_earlier_pair() {
    let t = table(&[("${B}", "x"), ("${A}", "${B}")]);
    let out = apply_replacements(b"${A}", &t);
    assert_eq!(out, b"${B}".to_vec());
}

#[test]
fn replace_is_leftmost_non_overlapping() {
    let out = replace_all_bytes(b"aaa", b"aa", b"b");
    assert_eq!(out, b"ba".to_vec());
}

#[test]
fn replace_every_occurrence() {
    let out = replace_all_bytes(b"x.y.z", b".", b"/");
    assert_eq!(out, b"x/y/z".to_vec());
}

#[test]
fn empty_pattern_is_no_op() {
    let out = replace_all_bytes(b"abc", b"", b"zz");
    assert_eq!(out, b"abc".to_vec());
}

#[test]
fn replacement_value_may_be_empty() {
    let out = replace_all_bytes(b"a-b-c", b"-", b"");
    assert_eq!(out, b"abc".to_vec());
}
