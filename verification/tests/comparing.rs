use dir_cmp::full::{compare_dirs, DirCmpEntry};
use dir_cmp::{
    compare_two_files, list_files, EitherOrBoth, FileCompResult, Filter, FsEntry, FsTree, Options,
    Pattern,
};

fn file(name: &str, content: &str) -> FsEntry {
    FsEntry { name: name.to_string(), node: FsTree::File(content.as_bytes().to_vec()) }
}

fn dir(name: &str, children: Vec<FsEntry>) -> FsEntry {
    FsEntry { name: name.to_string(), node: FsTree::Dir(children) }
}

fn symlink(name: &str) -> FsEntry {
    FsEntry { name: name.to_string(), node: FsTree::Symlink }
}

fn options() -> Options {
    Options {
        ignore_equal: false,
        ignore_left_only: false,
        ignore_right_only: false,
        filter: None,
        recursive: true,
    }
}

fn left_tree() -> FsTree {
    FsTree::Dir(vec![
        file("left_only.txt", "Lefty left"),
        file("both_diff.txt", "differnt"),
        file("both_equal.txt", "same same"),
    ])
}

fn right_tree() -> FsTree {
    FsTree::Dir(vec![
        file("both_equal.txt", "same same"),
        file("both_diff.txt", "more different"),
        file("right_only.txt", "Righty right"),
    ])
}

fn s(text: &str) -> String {
    text.to_string()
}

#[test]
fn no_restictions() {
    let diff_options = Options {
        ignore_left_only: false,
        ignore_right_only: false,
        filter: None,
        ignore_equal: false,
        recursive: true,
    };

    let expected: Vec<DirCmpEntry> = vec![
        DirCmpEntry::Left(s("left/left_only.txt")),
        DirCmpEntry::Both(
            s("left/both_diff.txt"),
            s("right/both_diff.txt"),
            FileCompResult::Different,
        ),
        DirCmpEntry::Both(
            s("left/both_equal.txt"),
            s("right/both_equal.txt"),
            FileCompResult::Equal,
        ),
        DirCmpEntry::Right(s("right/right_only.txt")),
    ];

    let result = compare_dirs(&left_tree(), &right_tree(), "left", "right", diff_options);

    assert_eq!(result, expected);
}

#[test]
fn ignore_equal() {
    let diff_options = Options {
        ignore_equal: true,
        ignore_left_only: false,
        ignore_right_only: false,
        filter: None,
        recursive: true,
    };

    let expected: Vec<DirCmpEntry> = vec![
        DirCmpEntry::Left(s("left/left_only.txt")),
        DirCmpEntry::Both(
            s("left/both_diff.txt"),
            s("right/both_diff.txt"),
            FileCompResult::Different,
        ),
        DirCmpEntry::Right(s("right/right_only.txt")),
    ];

    let result = compare_dirs(&left_tree(), &right_tree(), "left", "right", diff_options);

    assert_eq!(result, expected);
}

#[test]
fn ignore_left_only() {
    let diff_options = Options {
        ignore_equal: false,
        ignore_left_only: true,
        ignore_right_only: false,
        filter: None,
        recursive: true,
    };

    let expected: Vec<DirCmpEntry> = vec![
        DirCmpEntry::Both(
            s("left/both_diff.txt"),
            s("right/both_diff.txt"),
            FileCompResult::Different,
        ),
        DirCmpEntry::Both(
            s("left/both_equal.txt"),
            s("right/both_equal.txt"),
            FileCompResult::Equal,
        ),
        DirCmpEntry::Right(s("right/right_only.txt")),
    ];

    let result = compare_dirs(&left_tree(), &right_tree(), "left", "right", diff_options);

    assert_eq!(result, expected);
}

#[test]
fn ignore_right_only() {
    let diff_options = Options {
        ignore_equal: false,
        ignore_left_only: false,
        ignore_right_only: true,
        filter: None,
        recursive: true,
    };

    let expected: Vec<DirCmpEntry> = vec![
        DirCmpEntry::Left(s("left/left_only.txt")),
        DirCmpEntry::Both(
            s("left/both_diff.txt"),
            s("right/both_diff.txt"),
            FileCompResult::Different,
        ),
        DirCmpEntry::Both(
            s("left/both_equal.txt"),
            s("right/both_equal.txt"),
            FileCompResult::Equal,
        ),
    ];

    let result = compare_dirs(&left_tree(), &right_tree(), "left", "right", diff_options);

    assert_eq!(result, expected);
}

#[test]
fn default_options_example() {
    let left = FsTree::Dir(vec![file("a.txt", "hi"), file("b.txt", "yo")]);
    let right = FsTree::Dir(vec![file("a.txt", "hi"), file("c.txt", "yo")]);

    let result = compare_dirs(&left, &right, "left", "right", options());

    assert_eq!(
        result,
        vec![
            DirCmpEntry::Both(s("left/a.txt"), s("right/a.txt"), FileCompResult::Equal),
            DirCmpEntry::Left(s("left/b.txt")),
            DirCmpEntry::Right(s("right/c.txt")),
        ]
    );
}

#[test]
fn one_sided_subdir_expands_to_file_leaves() {
    let left = FsTree::Dir(vec![dir("d", vec![file("x.txt", "content")])]);
    let right = FsTree::Dir(Vec::new());

    let result = compare_dirs(&left, &right, "left", "right", options());

    // The file leaf is reported; the directory itself never is.
    assert_eq!(result, vec![DirCmpEntry::Left(s("left/d/x.txt"))]);
}

#[test]
fn one_sided_nested_dirs_flatten_in_order() {
    let left = FsTree::Dir(vec![dir(
        "d",
        vec![
            file("a.txt", "1"),
            dir("sub", vec![file("b.txt", "2"), symlink("ln")]),
            file("c.txt", "3"),
        ],
    )]);
    let right = FsTree::Dir(Vec::new());

    let result = compare_dirs(&left, &right, "left", "right", options());

    assert_eq!(
        result,
        vec![
            DirCmpEntry::Left(s("left/d/a.txt")),
            DirCmpEntry::Left(s("left/d/sub/b.txt")),
            DirCmpEntry::Left(s("left/d/c.txt")),
        ]
    );
}

#[test]
fn symlinks_never_reported() {
    let left = FsTree::Dir(vec![symlink("s"), file("f.txt", "x"), symlink("t")]);
    let right = FsTree::Dir(vec![symlink("s"), file("g.txt", "y")]);

    let result = compare_dirs(&left, &right, "left", "right", options());

    assert_eq!(
        result,
        vec![DirCmpEntry::Left(s("left/f.txt")), DirCmpEntry::Right(s("right/g.txt"))]
    );
}

#[test]
fn type_mismatch_is_dropped() {
    let left = FsTree::Dir(vec![file("x", "as a file")]);
    let right = FsTree::Dir(vec![dir("x", vec![file("inner.txt", "hidden")])]);

    let result = compare_dirs(&left, &right, "left", "right", options());

    assert_eq!(result, Vec::<DirCmpEntry>::new());
}

#[test]
fn identical_trees_all_equal() {
    let make = || {
        FsTree::Dir(vec![
            file("a.txt", "one"),
            dir("sub", vec![file("b.txt", "two")]),
        ])
    };

    let result = compare_dirs(&make(), &make(), "left", "right", options());

    assert_eq!(
        result,
        vec![
            DirCmpEntry::Both(s("left/a.txt"), s("right/a.txt"), FileCompResult::Equal),
            DirCmpEntry::Both(
                s("left/sub/b.txt"),
                s("right/sub/b.txt"),
                FileCompResult::Equal
            ),
        ]
    );
}

#[test]
fn identical_trees_ignore_equal_is_empty() {
    let make = || {
        FsTree::Dir(vec![
            file("a.txt", "one"),
            dir("sub", vec![file("b.txt", "two")]),
        ])
    };
    let diff_options = Options { ignore_equal: true, ..options() };

    let result = compare_dirs(&make(), &make(), "left", "right", diff_options);

    assert_eq!(result, Vec::<DirCmpEntry>::new());
}

#[test]
fn empty_dirs_compare_empty() {
    let left = FsTree::Dir(Vec::new());
    let right = FsTree::Dir(Vec::new());

    let result = compare_dirs(&left, &right, "left", "right", options());

    assert_eq!(result, Vec::<DirCmpEntry>::new());
}

#[test]
fn repeated_runs_agree() {
    let first = compare_dirs(&left_tree(), &right_tree(), "left", "right", options());
    let second = compare_dirs(&left_tree(), &right_tree(), "left", "right", options());

    assert_eq!(first, second);
}

#[test]
fn exclude_filter_removes_path_from_both_sides() {
    let filter = Some(Filter::Exclude(vec![Pattern::new("both_").unwrap()]));
    let diff_options = Options { filter, ..options() };

    let result = compare_dirs(&left_tree(), &right_tree(), "left", "right", diff_options);

    assert_eq!(
        result,
        vec![
            DirCmpEntry::Left(s("left/left_only.txt")),
            DirCmpEntry::Right(s("right/right_only.txt")),
        ]
    );
}

#[test]
fn excluded_on_one_side_only_still_surfaces_on_the_other() {
    // The pattern matches only the right-only child's relative path; every
    // other path is kept, and the kept right-only child still surfaces.
    let filter = Some(Filter::Exclude(vec![Pattern::new("right_only").unwrap()]));
    let diff_options = Options { filter, ..options() };

    let result = compare_dirs(&left_tree(), &right_tree(), "left", "right", diff_options);

    assert_eq!(
        result,
        vec![
            DirCmpEntry::Left(s("left/left_only.txt")),
            DirCmpEntry::Both(
                s("left/both_diff.txt"),
                s("right/both_diff.txt"),
                FileCompResult::Different,
            ),
            DirCmpEntry::Both(
                s("left/both_equal.txt"),
                s("right/both_equal.txt"),
                FileCompResult::Equal,
            ),
        ]
    );
}

#[test]
fn include_filter_keeps_only_matching_paths() {
    let filter = Some(Filter::Include(vec![Pattern::new("both_").unwrap()]));
    let diff_options = Options { filter, ..options() };

    let result = compare_dirs(&left_tree(), &right_tree(), "left", "right", diff_options);

    assert_eq!(
        result,
        vec![
            DirCmpEntry::Both(
                s("left/both_diff.txt"),
                s("right/both_diff.txt"),
                FileCompResult::Different,
            ),
            DirCmpEntry::Both(
                s("left/both_equal.txt"),
                s("right/both_equal.txt"),
                FileCompResult::Equal,
            ),
        ]
    );
}

#[test]
fn compare_two_files_exact() {
    assert_eq!(
        compare_two_files(&b"same same".to_vec(), &b"same same".to_vec()),
        FileCompResult::Equal
    );
    assert_eq!(
        compare_two_files(&b"differnt".to_vec(), &b"more different".to_vec()),
        FileCompResult::Different
    );
    assert_eq!(
        compare_two_files(&Vec::new(), &Vec::new()),
        FileCompResult::Equal
    );
    assert_eq!(
        compare_two_files(&b"a".to_vec(), &b"b".to_vec()),
        FileCompResult::Different
    );
}

#[test]
fn list_files_flattens_and_skips_symlinks() {
    let tree = FsTree::Dir(vec![
        file("a.txt", "1"),
        symlink("ln"),
        dir("sub", vec![file("b.txt", "2")]),
        file("c.txt", "3"),
    ]);

    let result = list_files(&tree, "root");

    assert_eq!(
        result,
        vec![s("root/a.txt"), s("root/sub/b.txt"), s("root/c.txt")]
    );
}

#[test]
fn light_equal_pair_is_silent() {
    let left = FsTree::Dir(vec![file("a.txt", "same")]);
    let right = FsTree::Dir(vec![file("a.txt", "same")]);

    let result = dir_cmp::light::compare_dirs(&left, &right, "left", "right", options());

    assert_eq!(result, Vec::<EitherOrBoth>::new());
}

#[test]
fn light_different_pair_reports_both_sides() {
    let left = FsTree::Dir(vec![file("a.txt", "one")]);
    let right = FsTree::Dir(vec![file("a.txt", "two")]);

    let result = dir_cmp::light::compare_dirs(&left, &right, "left", "right", options());

    assert_eq!(
        result,
        vec![
            EitherOrBoth::Left(s("left/a.txt")),
            EitherOrBoth::Right(s("right/a.txt")),
        ]
    );
}

#[test]
fn light_one_sided_and_recursive() {
    let left = FsTree::Dir(vec![
        dir("sub", vec![file("deep.txt", "x")]),
        file("only_left.txt", "y"),
    ]);
    let right = FsTree::Dir(vec![
        dir("sub", vec![file("deep.txt", "x")]),
        file("only_right.txt", "z"),
    ]);

    let result = dir_cmp::light::compare_dirs(&left, &right, "left", "right", options());

    assert_eq!(
        result,
        vec![
            EitherOrBoth::Left(s("left/only_left.txt")),
            EitherOrBoth::Right(s("right/only_right.txt")),
        ]
    );
}
