use genj::path_template::{replace_package_in_path, split_bytes};

fn table(pairs: &[(&str, &str)]) -> Vec<(Vec<u8>, Vec<u8>)> {
    pairs
        .iter()
        .map(|(t, v)| (t.as_bytes().to_vec(), v.as_bytes().to_vec()))
        .collect()
}

fn comps(parts: &[&str]) -> Vec<Vec<u8>> {
    parts.iter().map(|p| p.as_bytes().to_vec()).collect()
}

#[test]
fn exact_package_segment_expands() {
    let t = table(&[("${PACKAGE}", "com.example.app")]);
    let out = replace_package_in_path(b"${PACKAGE}/App.java", &t, b"com.example.app");
    assert_eq!(out, comps(&["com", "example", "app", "App.java"]));
}

#[test]
fn package_segment_in_the_middle() {
    let t = table(&[("${PACKAGE}", "a.b")]);
    let out = replace_package_in_path(b"src/${PACKAGE}/Main.java", &t, b"a.b");
    assert_eq!(out, comps(&["src", "a", "b", "Main.java"]));
}

#[test]
fn partial_package_segment_stays_single() {
    let t = table(&[("${PACKAGE}", "com.example.app")]);
    let out = replace_package_in_path(b"prefix_${PACKAGE}/x", &t, b"com.example.app");
    assert_eq!(out, comps(&["prefix_com.example.app", "x"]));
}

#[test]
fn ordinary_tokens_substituted_per_segment() {
    let t = table(&[("${PROJECT_NAME}", "Demo"), ("${PACKAGE}", "com.demo")]);
    let out = replace_package_in_path(b"src/${PROJECT_NAME}.java", &t, b"com.demo");
    assert_eq!(out, comps(&["src", "Demo.java"]));
}

#[test]
fn dotted_package_of_one_piece() {
    let t = table(&[("${PACKAGE}", "single")]);
    let out = replace_package_in_path(b"${PACKAGE}/f", &t, b"single");
    assert_eq!(out, comps(&["single", "f"]));
}

#[test]
fn empty_path_is_one_empty_component() {
    let t = table(&[]);
    let out = replace_package_in_path(b"", &t, b"");
    assert_eq!(out, comps(&[""]));
}

#[test]
fn split_keeps_empty_chunks() {
    let out = split_bytes(b"a//b", b'/');
    assert_eq!(out, comps(&["a", "", "b"]));
}

#[test]
fn split_with_trailing_separator() {
    let out = split_bytes(b"dir/", b'/');
    assert_eq!(out, comps(&["dir", ""]));
}

#[test]
fn split_without_separator() {
    let out = split_bytes(b"plain", b'/');
    assert_eq!(out, comps(&["plain"]));
}
