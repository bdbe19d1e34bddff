use dir_cmp::{zip_dir_entries, AlignedEntry, FsEntry, FsTree};

fn file(name: &str, content: &str) -> FsEntry {
    FsEntry { name: name.to_string(), node: FsTree::File(content.as_bytes().to_vec()) }
}

#[test]
fn emtpy() {
    let left: Vec<FsEntry> = Vec::new();
    let right: Vec<FsEntry> = Vec::new();

    let result = zip_dir_entries(&left, &right, "", &None);

    assert_eq!(result, Vec::<AlignedEntry>::new());
}

#[test]
fn both() {
    let left = vec![file("file1", "Hello, world!")];
    let right = vec![file("file1", "Hello, world!")];

    let result = zip_dir_entries(&left, &right, "", &None);

    assert_eq!(result, vec![AlignedEntry::Both(0, 0)]);
}

#[test]
fn both_subdir() {
    let left = vec![file("file1", "Hello, world!")];
    let right = vec![file("file1", "Hello, world!")];

    let result = zip_dir_entries(&left, &right, "subdir", &None);

    assert_eq!(result, vec![AlignedEntry::Both(0, 0)]);
}

#[test]
fn left() {
    let left = vec![file("file1", "Hello, world!")];
    let right: Vec<FsEntry> = Vec::new();

    let result = zip_dir_entries(&left, &right, "", &None);

    assert_eq!(result, vec![AlignedEntry::Left(0)]);
}

#[test]
fn right() {
    let left: Vec<FsEntry> = Vec::new();
    let right = vec![file("file1", "Hello, world!")];

    let result = zip_dir_entries(&left, &right, "", &None);

    assert_eq!(result, vec![AlignedEntry::Right(0)]);
}

#[test]
fn matched_pairs_not_reemitted_in_right_pass() {
    let left = vec![file("a", "x"), file("b", "y")];
    let right = vec![file("b", "z"), file("c", "w")];

    let result = zip_dir_entries(&left, &right, "", &None);

    assert_eq!(
        result,
        vec![AlignedEntry::Left(0), AlignedEntry::Both(1, 0), AlignedEntry::Right(1)]
    );
}

#[test]
fn filtered_on_each_side_independently() {
    // The exclude pattern matches the left-only child and the right-only
    // child by their shared name prefix; the remaining pair still aligns.
    let left = vec![file("skip_left", "x"), file("keep", "y")];
    let right = vec![file("keep", "y"), file("skip_right", "z")];
    let filter = Some(dir_cmp::Filter::Exclude(vec![dir_cmp::Pattern::new("skip").unwrap()]));

    let result = zip_dir_entries(&left, &right, "", &filter);

    assert_eq!(result, vec![AlignedEntry::Both(1, 0)]);
}
