use dir_cmp::{apply_filter, Filter, Pattern};

fn pat(text: &str) -> Pattern {
    Pattern::new(text).unwrap()
}

#[test]
fn empty() {
    let path = ".git/config";
    let filter = Some(Filter::Include(Vec::new()));

    assert!(!apply_filter(path, &filter));
}

#[test]
fn none() {
    let path = ".git/config";
    let filter = None;

    assert!(!apply_filter(path, &filter));
}

#[test]
fn inclusion() {
    let path = "src/main.rs";
    let regex = pat(r".rs");
    let filter = Some(Filter::Include(vec![regex]));

    assert!(!apply_filter(path, &filter));
}

#[test]
fn exclude() {
    let path = ".git/config";
    let regex = pat(".git");
    let filter = Some(Filter::Exclude(vec![regex]));

    assert!(apply_filter(path, &filter));
}

#[test]
fn exclude_without_match_keeps() {
    let path = ".git/config";
    let filter = Some(Filter::Exclude(vec![pat("target")]));

    assert!(!apply_filter(path, &filter));
}

#[test]
fn include_without_match_drops() {
    let path = "readme.md";
    let filter = Some(Filter::Include(vec![pat(r"\.rs$")]));

    assert!(apply_filter(path, &filter));
}

#[test]
fn invalid_pattern_is_rejected() {
    assert!(Pattern::new("foo(bar").is_none());
}
