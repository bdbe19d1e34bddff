//! Laws of the comparison: facts that relate the aligner, the file listing
//! and the two comparison policies, proved once and for all inputs.

use vstd::prelude::*;

use crate::full::{full_dir, full_step, full_upto, DirCmpView};
use crate::light::{light_dir, light_step, light_upto};
use crate::full::{spec_compare_dirs, views_of, DirCmpEntry};
use crate::{
    child_path, child_rel, files_under, files_under_upto, lemma_spec_find_at, spec_excluded,
    spec_find, spec_zip, zip_left_step, zip_left_upto, zip_right_step, zip_right_upto,
    AlignedEntry, EobView, FileCompResult, Filter, FsEntry, FsTree, Options,
};

verus! {

/// A path of `sub` also stands in `whole` whenever `sub` is a segment of
/// `whole`.
proof fn lemma_contains_concat_left(a: Seq<Seq<char>>, b: Seq<Seq<char>>, p: Seq<char>)
    requires
        a.contains(p),
    ensures
        (a + b).contains(p),
{
    let idx = choose|idx: int| 0 <= idx < a.len() && a[idx] == p;
    assert((a + b)[idx] == p);
}

proof fn lemma_contains_concat_right(a: Seq<Seq<char>>, b: Seq<Seq<char>>, p: Seq<char>)
    requires
        b.contains(p),
    ensures
        (a + b).contains(p),
{
    let idx = choose|idx: int| 0 <= idx < b.len() && b[idx] == p;
    assert((a + b)[idx + a.len()] == p);
}

/// Every file path under the child at position `i` also stands in the file
/// listing of the first `n` children, for `i < n`.
proof fn lemma_files_under_child(es: Vec<FsEntry>, path: Seq<char>, n: int, i: int, p: Seq<char>)
    requires
        0 <= i < n <= es@.len(),
        files_under(es@[i].node, child_path(path, es@[i].name@)).contains(p),
    ensures
        files_under_upto(es, path, n).contains(p),
    decreases n,
{
    if i == n - 1 {
        lemma_contains_concat_right(
            files_under_upto(es, path, n - 1),
            files_under(es@[n - 1].node, child_path(path, es@[n - 1].name@)),
            p,
        );
    } else {
        lemma_files_under_child(es, path, n - 1, i, p);
        lemma_contains_concat_left(
            files_under_upto(es, path, n - 1),
            files_under(es@[n - 1].node, child_path(path, es@[n - 1].name@)),
            p,
        );
    }
}

/// Soundness of one full-comparison record with respect to the two trees it
/// was produced from: every path in it is the path of a regular file of its
/// side, so no symbolic link and no directory ever stands in a record.
pub open spec fn full_record_sound(
    left: FsTree,
    right: FsTree,
    left_dir: Seq<char>,
    right_dir: Seq<char>,
    rec: DirCmpView,
) -> bool {
    match rec {
        DirCmpView::Both(a, b, _) => files_under(left, left_dir).contains(a) && files_under(
            right,
            right_dir,
        ).contains(b),
        DirCmpView::Left(a) => files_under(left, left_dir).contains(a),
        DirCmpView::Right(b) => files_under(right, right_dir).contains(b),
    }
}

proof fn lemma_full_upto_sound(
    lc: Vec<FsEntry>,
    rc: Vec<FsEntry>,
    left_dir: Seq<char>,
    right_dir: Seq<char>,
    rel_dir: Seq<char>,
    opts: Options,
    n: int,
)
    ensures
        forall|m: int|
            0 <= m < full_upto(lc, rc, left_dir, right_dir, rel_dir, opts, n).len()
                ==> full_record_sound(
                FsTree::Dir(lc),
                FsTree::Dir(rc),
                left_dir,
                right_dir,
                #[trigger] full_upto(lc, rc, left_dir, right_dir, rel_dir, opts, n)[m],
            ),
    decreases lc, 1nat, n,
{
    let z = spec_zip(lc@, rc@, rel_dir, opts.filter);
    if n <= 0 || n > z.len() {
    } else {
        lemma_full_upto_sound(lc, rc, left_dir, right_dir, rel_dir, opts, n - 1);
        let prev = full_upto(lc, rc, left_dir, right_dir, rel_dir, opts, n - 1);
        let step = full_step(lc, rc, left_dir, right_dir, rel_dir, opts, z[n - 1]);
        assert forall|m: int|
            0 <= m < step.len() implies full_record_sound(
            FsTree::Dir(lc),
            FsTree::Dir(rc),
            left_dir,
            right_dir,
            step[m],
        ) by {
            lemma_full_step_sound(lc, rc, left_dir, right_dir, rel_dir, opts, z[n - 1], m);
        }
        assert forall|m: int|
            0 <= m < full_upto(lc, rc, left_dir, right_dir, rel_dir, opts, n).len()
            implies full_record_sound(
            FsTree::Dir(lc),
            FsTree::Dir(rc),
            left_dir,
            right_dir,
            full_upto(lc, rc, left_dir, right_dir, rel_dir, opts, n)[m],
        ) by {
            if m < prev.len() {
                assert(full_upto(lc, rc, left_dir, right_dir, rel_dir, opts, n)[m] == prev[m]);
            } else {
                assert(full_upto(lc, rc, left_dir, right_dir, rel_dir, opts, n)[m] == step[m
                    - prev.len()]);
            }
        }
    }
}

proof fn lemma_full_step_sound(
    lc: Vec<FsEntry>,
    rc: Vec<FsEntry>,
    left_dir: Seq<char>,
    right_dir: Seq<char>,
    rel_dir: Seq<char>,
    opts: Options,
    e: crate::AlignedEntry,
    m: int,
)
    requires
        0 <= m < full_step(lc, rc, left_dir, right_dir, rel_dir, opts, e).len(),
    ensures
        full_record_sound(
            FsTree::Dir(lc),
            FsTree::Dir(rc),
            left_dir,
            right_dir,
            full_step(lc, rc, left_dir, right_dir, rel_dir, opts, e)[m],
        ),
    decreases lc, 0nat, 1int,
{
    let step = full_step(lc, rc, left_dir, right_dir, rel_dir, opts, e);
    match e {
        crate::AlignedEntry::Both(i, j) => {
            let lpath = child_path(left_dir, lc@[i as int].name@);
            let rpath = child_path(right_dir, rc@[j as int].name@);
            match (lc@[i as int].node, rc@[j as int].node) {
                (FsTree::File(_), FsTree::File(_)) => {
                    assert(files_under(lc@[i as int].node, lpath)[0] == lpath);
                    assert(files_under(lc@[i as int].node, lpath).contains(lpath));
                    assert(files_under(rc@[j as int].node, rpath)[0] == rpath);
                    assert(files_under(rc@[j as int].node, rpath).contains(rpath));
                    lemma_files_under_child(lc, left_dir, lc@.len() as int, i as int, lpath);
                    lemma_files_under_child(rc, right_dir, rc@.len() as int, j as int, rpath);
                },
                (FsTree::Dir(_), FsTree::Dir(_)) => {
                    lemma_full_dir_sound(
                        lc@[i as int].node,
                        rc@[j as int].node,
                        lpath,
                        rpath,
                        child_rel(rel_dir, lc@[i as int].name@),
                        opts,
                    );
                    let sub = full_dir(
                        lc@[i as int].node,
                        rc@[j as int].node,
                        lpath,
                        rpath,
                        child_rel(rel_dir, lc@[i as int].name@),
                        opts,
                    );
                    assert(step[m] == sub[m]);
                    assert(full_record_sound(
                        lc@[i as int].node,
                        rc@[j as int].node,
                        lpath,
                        rpath,
                        sub[m],
                    ));
                    match step[m] {
                        DirCmpView::Both(a, b, _) => {
                            lemma_files_under_child(lc, left_dir, lc@.len() as int, i as int, a);
                            lemma_files_under_child(rc, right_dir, rc@.len() as int, j as int, b);
                        },
                        DirCmpView::Left(a) => {
                            lemma_files_under_child(lc, left_dir, lc@.len() as int, i as int, a);
                        },
                        DirCmpView::Right(b) => {
                            lemma_files_under_child(rc, right_dir, rc@.len() as int, j as int, b);
                        },
                    }
                },
                _ => {},
            }
        },
        crate::AlignedEntry::Left(i) => {
            let lpath = child_path(left_dir, lc@[i as int].name@);
            let files = files_under(lc@[i as int].node, lpath);
            match step[m] {
                DirCmpView::Left(a) => {
                    assert(files.contains(a)) by {
                        match lc@[i as int].node {
                            FsTree::Dir(_) => {
                                assert(step[m] == files.map_values(
                                    |p: Seq<char>| DirCmpView::Left(p),
                                )[m]);
                                assert(a == files[m]);
                            },
                            FsTree::File(_) => {
                                assert(a == lpath);
                                assert(files[0] == lpath);
                            },
                            FsTree::Symlink => {
                                assert(false);
                            },
                        }
                    }
                    lemma_files_under_child(lc, left_dir, lc@.len() as int, i as int, a);
                },
                _ => {
                    assert(false);
                },
            }
        },
        crate::AlignedEntry::Right(j) => {
            let rpath = child_path(right_dir, rc@[j as int].name@);
            let files = files_under(rc@[j as int].node, rpath);
            match step[m] {
                DirCmpView::Right(b) => {
                    assert(files.contains(b)) by {
                        match rc@[j as int].node {
                            FsTree::Dir(_) => {
                                assert(step[m] == files.map_values(
                                    |p: Seq<char>| DirCmpView::Right(p),
                                )[m]);
                                assert(b == files[m]);
                            },
                            FsTree::File(_) => {
                                assert(b == rpath);
                                assert(files[0] == rpath);
                            },
                            FsTree::Symlink => {
                                assert(false);
                            },
                        }
                    }
                    lemma_files_under_child(rc, right_dir, rc@.len() as int, j as int, b);
                },
                _ => {
                    assert(false);
                },
            }
        },
    }
}

/// Every record of the full comparison names only regular files that stand
/// in the compared trees: a `Both` record pairs a file path of the left
/// tree with one of the right tree, and a one-sided record names a file
/// path of its own side.  In particular no symbolic link and no directory
/// ever appears in a record, at any depth, on either side.
pub proof fn lemma_full_dir_sound(
    left: FsTree,
    right: FsTree,
    left_dir: Seq<char>,
    right_dir: Seq<char>,
    rel_dir: Seq<char>,
    opts: Options,
)
    ensures
        forall|m: int|
            0 <= m < full_dir(left, right, left_dir, right_dir, rel_dir, opts).len()
                ==> full_record_sound(
                left,
                right,
                left_dir,
                right_dir,
                #[trigger] full_dir(left, right, left_dir, right_dir, rel_dir, opts)[m],
            ),
    decreases left, 2nat, 0int,
{
    match (left, right) {
        (FsTree::Dir(lc), FsTree::Dir(rc)) => {
            let z = spec_zip(lc@, rc@, rel_dir, opts.filter);
            lemma_full_upto_sound(lc, rc, left_dir, right_dir, rel_dir, opts, z.len() as int);
            assert(left == FsTree::Dir(lc));
            assert(right == FsTree::Dir(rc));
            let whole = full_dir(left, right, left_dir, right_dir, rel_dir, opts);
            assert(whole == full_upto(lc, rc, left_dir, right_dir, rel_dir, opts, z.len() as int));
            assert forall|m: int| 0 <= m < whole.len() implies full_record_sound(
                left,
                right,
                left_dir,
                right_dir,
                whole[m],
            ) by {
                assert(whole[m] == full_upto(
                    lc,
                    rc,
                    left_dir,
                    right_dir,
                    rel_dir,
                    opts,
                    z.len() as int,
                )[m]);
            }
        },
        _ => {},
    }
}

/// Soundness of one light-comparison record: it is one-sided (a matched
/// record never appears in light output), and the path it names is the path
/// of a regular file of its side, so no symbolic link and no directory ever
/// stands in a record.
pub open spec fn light_record_sound(
    left: FsTree,
    right: FsTree,
    left_dir: Seq<char>,
    right_dir: Seq<char>,
    rec: EobView,
) -> bool {
    match rec {
        EobView::Both(_, _) => false,
        EobView::Left(a) => files_under(left, left_dir).contains(a),
        EobView::Right(b) => files_under(right, right_dir).contains(b),
    }
}

proof fn lemma_light_upto_sound(
    lc: Vec<FsEntry>,
    rc: Vec<FsEntry>,
    left_dir: Seq<char>,
    right_dir: Seq<char>,
    rel_dir: Seq<char>,
    opts: Options,
    n: int,
)
    ensures
        forall|m: int|
            0 <= m < light_upto(lc, rc, left_dir, right_dir, rel_dir, opts, n).len()
                ==> light_record_sound(
                FsTree::Dir(lc),
                FsTree::Dir(rc),
                left_dir,
                right_dir,
                #[trigger] light_upto(lc, rc, left_dir, right_dir, rel_dir, opts, n)[m],
            ),
    decreases lc, 1nat, n,
{
    let z = spec_zip(lc@, rc@, rel_dir, opts.filter);
    if n <= 0 || n > z.len() {
    } else {
        lemma_light_upto_sound(lc, rc, left_dir, right_dir, rel_dir, opts, n - 1);
        let prev = light_upto(lc, rc, left_dir, right_dir, rel_dir, opts, n - 1);
        let step = light_step(lc, rc, left_dir, right_dir, rel_dir, opts, z[n - 1]);
        assert forall|m: int|
            0 <= m < step.len() implies light_record_sound(
            FsTree::Dir(lc),
            FsTree::Dir(rc),
            left_dir,
            right_dir,
            step[m],
        ) by {
            lemma_light_step_sound(lc, rc, left_dir, right_dir, rel_dir, opts, z[n - 1], m);
        }
        assert forall|m: int|
            0 <= m < light_upto(lc, rc, left_dir, right_dir, rel_dir, opts, n).len()
            implies light_record_sound(
            FsTree::Dir(lc),
            FsTree::Dir(rc),
            left_dir,
            right_dir,
            light_upto(lc, rc, left_dir, right_dir, rel_dir, opts, n)[m],
        ) by {
            if m < prev.len() {
                assert(light_upto(lc, rc, left_dir, right_dir, rel_dir, opts, n)[m] == prev[m]);
            } else {
                assert(light_upto(lc, rc, left_dir, right_dir, rel_dir, opts, n)[m] == step[m
                    - prev.len()]);
            }
        }
    }
}

proof fn lemma_light_step_sound(
    lc: Vec<FsEntry>,
    rc: Vec<FsEntry>,
    left_dir: Seq<char>,
    right_dir: Seq<char>,
    rel_dir: Seq<char>,
    opts: Options,
    e: crate::AlignedEntry,
    m: int,
)
    requires
        0 <= m < light_step(lc, rc, left_dir, right_dir, rel_dir, opts, e).len(),
    ensures
        light_record_sound(
            FsTree::Dir(lc),
            FsTree::Dir(rc),
            left_dir,
            right_dir,
            light_step(lc, rc, left_dir, right_dir, rel_dir, opts, e)[m],
        ),
    decreases lc, 0nat, 1int,
{
    let step = light_step(lc, rc, left_dir, right_dir, rel_dir, opts, e);
    match e {
        crate::AlignedEntry::Both(i, j) => {
            let lpath = child_path(left_dir, lc@[i as int].name@);
            let rpath = child_path(right_dir, rc@[j as int].name@);
            match (lc@[i as int].node, rc@[j as int].node) {
                (FsTree::File(_), FsTree::File(_)) => {
                    assert(files_under(lc@[i as int].node, lpath)[0] == lpath);
                    assert(files_under(lc@[i as int].node, lpath).contains(lpath));
                    assert(files_under(rc@[j as int].node, rpath)[0] == rpath);
                    assert(files_under(rc@[j as int].node, rpath).contains(rpath));
                    lemma_files_under_child(lc, left_dir, lc@.len() as int, i as int, lpath);
                    lemma_files_under_child(rc, right_dir, rc@.len() as int, j as int, rpath);
                    if m == 0 {
                        assert(step[0] == EobView::Left(lpath));
                    } else {
                        assert(step[1] == EobView::Right(rpath));
                    }
                },
                (FsTree::Dir(_), FsTree::Dir(_)) => {
                    lemma_light_dir_sound(
                        lc@[i as int].node,
                        rc@[j as int].node,
                        lpath,
                        rpath,
                        child_rel(rel_dir, lc@[i as int].name@),
                        opts,
                    );
                    let sub = light_dir(
                        lc@[i as int].node,
                        rc@[j as int].node,
                        lpath,
                        rpath,
                        child_rel(rel_dir, lc@[i as int].name@),
                        opts,
                    );
                    assert(step[m] == sub[m]);
                    assert(light_record_sound(
                        lc@[i as int].node,
                        rc@[j as int].node,
                        lpath,
                        rpath,
                        sub[m],
                    ));
                    match step[m] {
                        EobView::Both(_, _) => {
                            assert(false);
                        },
                        EobView::Left(a) => {
                            lemma_files_under_child(lc, left_dir, lc@.len() as int, i as int, a);
                        },
                        EobView::Right(b) => {
                            lemma_files_under_child(rc, right_dir, rc@.len() as int, j as int, b);
                        },
                    }
                },
                _ => {},
            }
        },
        crate::AlignedEntry::Left(i) => {
            let lpath = child_path(left_dir, lc@[i as int].name@);
            let files = files_under(lc@[i as int].node, lpath);
            match step[m] {
                EobView::Left(a) => {
                    assert(files.contains(a)) by {
                        match lc@[i as int].node {
                            FsTree::Dir(_) => {
                                assert(step[m] == files.map_values(
                                    |p: Seq<char>| EobView::Left(p),
                                )[m]);
                                assert(a == files[m]);
                            },
                            FsTree::File(_) => {
                                assert(a == lpath);
                                assert(files[0] == lpath);
                            },
                            FsTree::Symlink => {
                                assert(false);
                            },
                        }
                    }
                    lemma_files_under_child(lc, left_dir, lc@.len() as int, i as int, a);
                },
                _ => {
                    assert(false);
                },
            }
        },
        crate::AlignedEntry::Right(j) => {
            let rpath = child_path(right_dir, rc@[j as int].name@);
            let files = files_under(rc@[j as int].node, rpath);
            match step[m] {
                EobView::Right(b) => {
                    assert(files.contains(b)) by {
                        match rc@[j as int].node {
                            FsTree::Dir(_) => {
                                assert(step[m] == files.map_values(
                                    |p: Seq<char>| EobView::Right(p),
                                )[m]);
                                assert(b == files[m]);
                            },
                            FsTree::File(_) => {
                                assert(b == rpath);
                                assert(files[0] == rpath);
                            },
                            FsTree::Symlink => {
                                assert(false);
                            },
                        }
                    }
                    lemma_files_under_child(rc, right_dir, rc@.len() as int, j as int, b);
                },
                _ => {
                    assert(false);
                },
            }
        },
    }
}

/// Every record of the light comparison is one-sided and names only a
/// regular file that stands in its own side's tree.  In particular a
/// matched record never appears, and no symbolic link and no directory
/// ever appears in a record, at any depth, on either side.
pub proof fn lemma_light_dir_sound(
    left: FsTree,
    right: FsTree,
    left_dir: Seq<char>,
    right_dir: Seq<char>,
    rel_dir: Seq<char>,
    opts: Options,
)
    ensures
        forall|m: int|
            0 <= m < light_dir(left, right, left_dir, right_dir, rel_dir, opts).len()
                ==> light_record_sound(
                left,
                right,
                left_dir,
                right_dir,
                #[trigger] light_dir(left, right, left_dir, right_dir, rel_dir, opts)[m],
            ),
    decreases left, 2nat, 0int,
{
    match (left, right) {
        (FsTree::Dir(lc), FsTree::Dir(rc)) => {
            let z = spec_zip(lc@, rc@, rel_dir, opts.filter);
            lemma_light_upto_sound(lc, rc, left_dir, right_dir, rel_dir, opts, z.len() as int);
            assert(left == FsTree::Dir(lc));
            assert(right == FsTree::Dir(rc));
            let whole = light_dir(left, right, left_dir, right_dir, rel_dir, opts);
            assert(whole == light_upto(lc, rc, left_dir, right_dir, rel_dir, opts, z.len() as int));
            assert forall|m: int| 0 <= m < whole.len() implies light_record_sound(
                left,
                right,
                left_dir,
                right_dir,
                whole[m],
            ) by {
                assert(whole[m] == light_upto(
                    lc,
                    rc,
                    left_dir,
                    right_dir,
                    rel_dir,
                    opts,
                    z.len() as int,
                )[m]);
            }
        },
        _ => {},
    }
}

/// No two children of one directory level share a name.
pub open spec fn distinct_names(entries: Seq<FsEntry>) -> bool {
    forall|a: int, b: int|
        0 <= a < b < entries.len() ==> (#[trigger] entries[a].name@) != (#[trigger] entries[b].name@)
}

/// A well-formed tree: at every directory level the child names are
/// distinct, as they are in a real directory listing.
pub open spec fn tree_wf(t: FsTree) -> bool
    decreases t, 0nat, 0int,
{
    match t {
        FsTree::Dir(entries) => distinct_names(entries@) && (forall|i: int|
            0 <= i < entries@.len() ==> tree_wf(#[trigger] entries@[i].node)),
        _ => true,
    }
}

/// Aligning a directory level with itself pairs every child with itself,
/// in order, when no filter is given and the names are distinct.
proof fn lemma_zip_identical(c: Vec<FsEntry>, rel_dir: Seq<char>)
    requires
        distinct_names(c@),
    ensures
        spec_zip(c@, c@, rel_dir, Option::None) =~= Seq::new(
            c@.len(),
            |i: int| AlignedEntry::Both(i as usize, i as usize),
        ),
{
    assert(c@.len() == c.len());
    let f: Option<crate::Filter> = Option::None;
    assert forall|n: int| 0 <= n <= c@.len() implies zip_left_upto(c@, c@, rel_dir, f, n) =~= Seq::new(
        n as nat,
        |i: int| AlignedEntry::Both(i as usize, i as usize),
    ) by {
        lemma_zip_identical_left(c, rel_dir, n);
    }
    assert forall|n: int| 0 <= n <= c@.len() implies zip_right_upto(c@, c@, rel_dir, f, n)
        =~= Seq::<AlignedEntry>::empty() by {
        lemma_zip_identical_right(c, rel_dir, n);
    }
    assert(spec_zip(c@, c@, rel_dir, f) =~= Seq::new(
        c@.len(),
        |i: int| AlignedEntry::Both(i as usize, i as usize),
    ));
}

proof fn lemma_zip_identical_left(c: Vec<FsEntry>, rel_dir: Seq<char>, n: int)
    requires
        distinct_names(c@),
        0 <= n <= c@.len(),
    ensures
        zip_left_upto(c@, c@, rel_dir, Option::None, n) =~= Seq::new(
            n as nat,
            |i: int| AlignedEntry::Both(i as usize, i as usize),
        ),
    decreases n,
{
    assert(c@.len() == c.len());
    let f: Option<crate::Filter> = Option::None;
    if n > 0 {
        lemma_zip_identical_left(c, rel_dir, n - 1);
        lemma_spec_find_at(c@, c@[n - 1].name@, n - 1);
        assert(zip_left_step(c@, c@, rel_dir, f, n - 1) =~= seq![
            AlignedEntry::Both((n - 1) as usize, (n - 1) as usize),
        ]);
    }
}

proof fn lemma_zip_identical_right(c: Vec<FsEntry>, rel_dir: Seq<char>, n: int)
    requires
        distinct_names(c@),
        0 <= n <= c@.len(),
    ensures
        zip_right_upto(c@, c@, rel_dir, Option::None, n) =~= Seq::<AlignedEntry>::empty(),
    decreases n,
{
    let f: Option<crate::Filter> = Option::None;
    if n > 0 {
        lemma_zip_identical_right(c, rel_dir, n - 1);
        lemma_spec_find_at(c@, c@[n - 1].name@, n - 1);
        assert(zip_right_step(c@, c@, rel_dir, f, n - 1) =~= Seq::<AlignedEntry>::empty());
    }
}

/// The sequence that pairs the two file listings positionally, every pair
/// marked equal.
pub open spec fn both_equal_of(fl: Seq<Seq<char>>, fr: Seq<Seq<char>>) -> Seq<DirCmpView> {
    Seq::new(fl.len(), |k: int| DirCmpView::Both(fl[k], fr[k], FileCompResult::Equal))
}

proof fn lemma_both_equal_concat(a: Seq<Seq<char>>, b: Seq<Seq<char>>, c: Seq<Seq<char>>, d: Seq<
    Seq<char>,
>)
    requires
        a.len() == b.len(),
        c.len() == d.len(),
    ensures
        both_equal_of(a + c, b + d) == both_equal_of(a, b) + both_equal_of(c, d),
{
    assert(both_equal_of(a + c, b + d) =~= both_equal_of(a, b) + both_equal_of(c, d));
}

proof fn lemma_identical_upto(
    c: Vec<FsEntry>,
    left_dir: Seq<char>,
    right_dir: Seq<char>,
    rel_dir: Seq<char>,
    opts: Options,
    n: int,
)
    requires
        tree_wf(FsTree::Dir(c)),
        opts.filter is None,
        0 <= n <= c@.len(),
    ensures
        files_under_upto(c, right_dir, n).len() == files_under_upto(c, left_dir, n).len(),
        full_upto(c, c, left_dir, right_dir, rel_dir, opts, n) == (if opts.ignore_equal {
            Seq::<DirCmpView>::empty()
        } else {
            both_equal_of(files_under_upto(c, left_dir, n), files_under_upto(c, right_dir, n))
        }),
    decreases c, 1nat, n,
{
    assert(c@.len() == c.len());
    lemma_zip_identical(c, rel_dir);
    let z = spec_zip(c@, c@, rel_dir, opts.filter);
    if n <= 0 {
        assert(both_equal_of(
            files_under_upto(c, left_dir, 0),
            files_under_upto(c, right_dir, 0),
        ) =~= Seq::<DirCmpView>::empty());
    } else {
        lemma_identical_upto(c, left_dir, right_dir, rel_dir, opts, n - 1);
        let i = n - 1;
        assert(z[i] == AlignedEntry::Both(i as usize, i as usize));
        let node = c@[i].node;
        let lpath = child_path(left_dir, c@[i].name@);
        let rpath = child_path(right_dir, c@[i].name@);
        let step = full_step(c, c, left_dir, right_dir, rel_dir, opts, z[i]);
        let fl_prev = files_under_upto(c, left_dir, n - 1);
        let fr_prev = files_under_upto(c, right_dir, n - 1);
        let fl_new = files_under(node, lpath);
        let fr_new = files_under(node, rpath);
        match node {
            FsTree::File(_) => {
                assert(fl_new =~= seq![lpath]);
                assert(fr_new =~= seq![rpath]);
                if opts.ignore_equal {
                    assert(step =~= Seq::<DirCmpView>::empty());
                } else {
                    assert(step =~= seq![
                        DirCmpView::Both(lpath, rpath, FileCompResult::Equal),
                    ]);
                    assert(both_equal_of(fl_new, fr_new) =~= step);
                }
            },
            FsTree::Dir(_) => {
                assert(tree_wf(node));
                lemma_identical_dir(node, lpath, rpath, child_rel(rel_dir, c@[i].name@), opts);
                assert(step == full_dir(
                    node,
                    node,
                    lpath,
                    rpath,
                    child_rel(rel_dir, c@[i].name@),
                    opts,
                ));
            },
            FsTree::Symlink => {
                assert(step =~= Seq::<DirCmpView>::empty());
                assert(fl_new =~= Seq::<Seq<char>>::empty());
            },
        }
        assert(files_under_upto(c, left_dir, n) == fl_prev + fl_new);
        assert(files_under_upto(c, right_dir, n) == fr_prev + fr_new);
        assert(fr_new.len() == fl_new.len());
        if opts.ignore_equal {
            assert(full_upto(c, c, left_dir, right_dir, rel_dir, opts, n)
                =~= Seq::<DirCmpView>::empty());
        } else {
            assert(step == both_equal_of(fl_new, fr_new));
            lemma_both_equal_concat(fl_prev, fr_prev, fl_new, fr_new);
            assert(full_upto(c, c, left_dir, right_dir, rel_dir, opts, n) == both_equal_of(
                files_under_upto(c, left_dir, n),
                files_under_upto(c, right_dir, n),
            ));
        }
    }
}

/// Comparing a well-formed directory tree with itself under the full
/// policy, with no filter: with `ignore_equal` set the result is empty, and
/// without it every file appears exactly once, as a matched pair marked
/// equal, pairing the file listing under the left root with the same
/// listing under the right root, position by position.
pub proof fn lemma_identical_dir(
    t: FsTree,
    left_dir: Seq<char>,
    right_dir: Seq<char>,
    rel_dir: Seq<char>,
    opts: Options,
)
    requires
        t is Dir,
        tree_wf(t),
        opts.filter is None,
    ensures
        files_under(t, right_dir).len() == files_under(t, left_dir).len(),
        full_dir(t, t, left_dir, right_dir, rel_dir, opts) == (if opts.ignore_equal {
            Seq::<DirCmpView>::empty()
        } else {
            both_equal_of(files_under(t, left_dir), files_under(t, right_dir))
        }),
    decreases t, 2nat, 0int,
{
    match t {
        FsTree::Dir(c) => {
            assert(t == FsTree::Dir(c));
            assert(c@.len() == c.len());
            lemma_zip_identical(c, rel_dir);
            let z = spec_zip(c@, c@, rel_dir, opts.filter);
            assert(z.len() == c@.len());
            lemma_identical_upto(c, left_dir, right_dir, rel_dir, opts, c@.len() as int);
            assert(files_under(t, left_dir) == files_under_upto(c, left_dir, c@.len() as int));
            assert(files_under(t, right_dir) == files_under_upto(c, right_dir, c@.len() as int));
            assert(full_dir(t, t, left_dir, right_dir, rel_dir, opts) == full_upto(
                c,
                c,
                left_dir,
                right_dir,
                rel_dir,
                opts,
                c@.len() as int,
            ));
        },
        _ => {},
    }
}

proof fn lemma_map_concat<A, B>(a: Seq<A>, b: Seq<A>, f: spec_fn(A) -> B)
    ensures
        (a + b).map_values(f) == a.map_values(f) + b.map_values(f),
{
    assert((a + b).map_values(f) =~= a.map_values(f) + b.map_values(f));
}

/// A surviving one-sided left entry contributes exactly the file leaves of
/// its subtree, each as a `Left` record: the same paths that a plain
/// recursive file listing of that subtree yields, symbolic links omitted at
/// every level, and never a record for a directory itself.
pub proof fn lemma_one_sided_left_expands(
    lc: Vec<FsEntry>,
    rc: Vec<FsEntry>,
    left_dir: Seq<char>,
    right_dir: Seq<char>,
    rel_dir: Seq<char>,
    opts: Options,
    i: usize,
)
    requires
        i < lc@.len(),
        !opts.ignore_left_only,
    ensures
        full_step(lc, rc, left_dir, right_dir, rel_dir, opts, AlignedEntry::Left(i))
            == files_under(lc@[i as int].node, child_path(left_dir, lc@[i as int].name@)).map_values(
            |p: Seq<char>| DirCmpView::Left(p),
        ),
{
    let node = lc@[i as int].node;
    let lpath = child_path(left_dir, lc@[i as int].name@);
    match node {
        FsTree::File(_) => {
            assert(files_under(node, lpath) =~= seq![lpath]);
            assert(files_under(node, lpath).map_values(|p: Seq<char>| DirCmpView::Left(p)) =~= seq![
                DirCmpView::Left(lpath),
            ]);
        },
        FsTree::Dir(_) => {},
        FsTree::Symlink => {
            assert(files_under(node, lpath).map_values(|p: Seq<char>| DirCmpView::Left(p))
                =~= Seq::<DirCmpView>::empty());
        },
    }
}

/// The mirror of `lemma_one_sided_left_expands` for right entries.
pub proof fn lemma_one_sided_right_expands(
    lc: Vec<FsEntry>,
    rc: Vec<FsEntry>,
    left_dir: Seq<char>,
    right_dir: Seq<char>,
    rel_dir: Seq<char>,
    opts: Options,
    j: usize,
)
    requires
        j < rc@.len(),
        !opts.ignore_right_only,
    ensures
        full_step(lc, rc, left_dir, right_dir, rel_dir, opts, AlignedEntry::Right(j))
            == files_under(rc@[j as int].node, child_path(right_dir, rc@[j as int].name@)).map_values(
            |p: Seq<char>| DirCmpView::Right(p),
        ),
{
    let node = rc@[j as int].node;
    let rpath = child_path(right_dir, rc@[j as int].name@);
    match node {
        FsTree::File(_) => {
            assert(files_under(node, rpath) =~= seq![rpath]);
            assert(files_under(node, rpath).map_values(|p: Seq<char>| DirCmpView::Right(p))
                =~= seq![DirCmpView::Right(rpath)]);
        },
        FsTree::Dir(_) => {},
        FsTree::Symlink => {
            assert(files_under(node, rpath).map_values(|p: Seq<char>| DirCmpView::Right(p))
                =~= Seq::<DirCmpView>::empty());
        },
    }
}

/// No child name occurs on both sides.
pub open spec fn no_shared_names(lc: Seq<FsEntry>, rc: Seq<FsEntry>) -> bool {
    forall|i: int, j: int|
        0 <= i < lc.len() && 0 <= j < rc.len() ==> (#[trigger] lc[i].name@) != (
        #[trigger] rc[j].name@)
}

proof fn lemma_find_none(entries: Seq<FsEntry>, name: Seq<char>)
    requires
        forall|i: int| 0 <= i < entries.len() ==> (#[trigger] entries[i].name@) != name,
    ensures
        spec_find(entries, name) is None,
{
    crate::lemma_spec_find(entries, name);
    match spec_find(entries, name) {
        Option::Some(j) => {
            assert(entries[j].name@ == name);
            assert(false);
        },
        Option::None => {},
    }
}

proof fn lemma_zip_disjoint_left(lc: Vec<FsEntry>, rc: Vec<FsEntry>, rel_dir: Seq<char>, n: int)
    requires
        no_shared_names(lc@, rc@),
        0 <= n <= lc@.len(),
    ensures
        zip_left_upto(lc@, rc@, rel_dir, Option::None, n) =~= Seq::new(
            n as nat,
            |i: int| AlignedEntry::Left(i as usize),
        ),
    decreases n,
{
    assert(lc@.len() == lc.len());
    let f: Option<crate::Filter> = Option::None;
    if n > 0 {
        lemma_zip_disjoint_left(lc, rc, rel_dir, n - 1);
        lemma_find_none(rc@, lc@[n - 1].name@);
        assert(zip_left_step(lc@, rc@, rel_dir, f, n - 1) =~= seq![
            AlignedEntry::Left((n - 1) as usize),
        ]);
    }
}

proof fn lemma_zip_disjoint_right(lc: Vec<FsEntry>, rc: Vec<FsEntry>, rel_dir: Seq<char>, n: int)
    requires
        no_shared_names(lc@, rc@),
        0 <= n <= rc@.len(),
    ensures
        zip_right_upto(lc@, rc@, rel_dir, Option::None, n) =~= Seq::new(
            n as nat,
            |j: int| AlignedEntry::Right(j as usize),
        ),
    decreases n,
{
    assert(rc@.len() == rc.len());
    let f: Option<crate::Filter> = Option::None;
    if n > 0 {
        lemma_zip_disjoint_right(lc, rc, rel_dir, n - 1);
        lemma_find_none(lc@, rc@[n - 1].name@);
        assert(zip_right_step(lc@, rc@, rel_dir, f, n - 1) =~= seq![
            AlignedEntry::Right((n - 1) as usize),
        ]);
    }
}

proof fn lemma_disjoint_upto(
    lc: Vec<FsEntry>,
    rc: Vec<FsEntry>,
    left_dir: Seq<char>,
    right_dir: Seq<char>,
    rel_dir: Seq<char>,
    opts: Options,
    n: int,
)
    requires
        no_shared_names(lc@, rc@),
        opts.filter is None,
        !opts.ignore_left_only,
        !opts.ignore_right_only,
        0 <= n <= lc@.len() + rc@.len(),
    ensures
        full_upto(lc, rc, left_dir, right_dir, rel_dir, opts, n) == (if n <= lc@.len() {
            files_under_upto(lc, left_dir, n).map_values(|p: Seq<char>| DirCmpView::Left(p))
        } else {
            files_under_upto(lc, left_dir, lc@.len() as int).map_values(
                |p: Seq<char>| DirCmpView::Left(p),
            ) + files_under_upto(rc, right_dir, n - lc@.len()).map_values(
                |p: Seq<char>| DirCmpView::Right(p),
            )
        }),
    decreases n,
{
    assert(lc@.len() == lc.len());
    assert(rc@.len() == rc.len());
    let f: Option<crate::Filter> = Option::None;
    let z = spec_zip(lc@, rc@, rel_dir, opts.filter);
    lemma_zip_disjoint_left(lc, rc, rel_dir, lc@.len() as int);
    lemma_zip_disjoint_right(lc, rc, rel_dir, rc@.len() as int);
    assert(z.len() == lc@.len() + rc@.len());
    if n <= 0 {
        assert(files_under_upto(lc, left_dir, 0).map_values(|p: Seq<char>| DirCmpView::Left(p))
            =~= Seq::<DirCmpView>::empty());
    } else {
        lemma_disjoint_upto(lc, rc, left_dir, right_dir, rel_dir, opts, n - 1);
        let step = full_step(lc, rc, left_dir, right_dir, rel_dir, opts, z[n - 1]);
        if n - 1 < lc@.len() {
            let i = n - 1;
            assert(z[i] == zip_left_upto(lc@, rc@, rel_dir, f, lc@.len() as int)[i]);
            assert(z[i] == AlignedEntry::Left(i as usize));
            lemma_one_sided_left_expands(
                lc,
                rc,
                left_dir,
                right_dir,
                rel_dir,
                opts,
                i as usize,
            );
            assert(files_under_upto(lc, left_dir, n) == files_under_upto(lc, left_dir, n - 1)
                + files_under(lc@[i].node, child_path(left_dir, lc@[i].name@)));
            lemma_map_concat(
                files_under_upto(lc, left_dir, n - 1),
                files_under(lc@[i].node, child_path(left_dir, lc@[i].name@)),
                |p: Seq<char>| DirCmpView::Left(p),
            );
        } else {
            let j = n - 1 - lc@.len();
            assert(z[n - 1] == zip_right_upto(lc@, rc@, rel_dir, f, rc@.len() as int)[j]);
            assert(z[n - 1] == AlignedEntry::Right(j as usize));
            lemma_one_sided_right_expands(
                lc,
                rc,
                left_dir,
                right_dir,
                rel_dir,
                opts,
                j as usize,
            );
            assert(files_under_upto(rc, right_dir, j + 1) == files_under_upto(rc, right_dir, j)
                + files_under(rc@[j].node, child_path(right_dir, rc@[j].name@)));
            lemma_map_concat(
                files_under_upto(rc, right_dir, j),
                files_under(rc@[j].node, child_path(right_dir, rc@[j].name@)),
                |p: Seq<char>| DirCmpView::Right(p),
            );
            if n - 1 == lc@.len() {
                assert(files_under_upto(rc, right_dir, 0).map_values(
                    |p: Seq<char>| DirCmpView::Right(p),
                ) =~= Seq::<DirCmpView>::empty());
                assert(full_upto(lc, rc, left_dir, right_dir, rel_dir, opts, n - 1)
                    + Seq::<DirCmpView>::empty() =~= full_upto(
                    lc,
                    rc,
                    left_dir,
                    right_dir,
                    rel_dir,
                    opts,
                    n - 1,
                ));
            }
            assert((files_under_upto(lc, left_dir, lc@.len() as int).map_values(
                |p: Seq<char>| DirCmpView::Left(p),
            ) + files_under_upto(rc, right_dir, j).map_values(
                |p: Seq<char>| DirCmpView::Right(p),
            )) + files_under(rc@[j].node, child_path(right_dir, rc@[j].name@)).map_values(
                |p: Seq<char>| DirCmpView::Right(p),
            ) =~= files_under_upto(lc, left_dir, lc@.len() as int).map_values(
                |p: Seq<char>| DirCmpView::Left(p),
            ) + (files_under_upto(rc, right_dir, j).map_values(|p: Seq<char>| DirCmpView::Right(p))
                + files_under(rc@[j].node, child_path(right_dir, rc@[j].name@)).map_values(
                |p: Seq<char>| DirCmpView::Right(p),
            )));
        }
    }
}

/// When no relative path occurs on both sides, the full comparison reports
/// every file of the left tree exactly once as a `Left` record, in listing
/// order, followed by every file of the right tree exactly once as a
/// `Right` record: each entry one-sided, classified by its origin side.
pub proof fn lemma_disjoint_dirs_one_sided(
    left: FsTree,
    right: FsTree,
    left_dir: Seq<char>,
    right_dir: Seq<char>,
    rel_dir: Seq<char>,
    opts: Options,
)
    requires
        left matches FsTree::Dir(lc) && right matches FsTree::Dir(rc) && no_shared_names(lc@, rc@),
        opts.filter is None,
        !opts.ignore_left_only,
        !opts.ignore_right_only,
    ensures
        full_dir(left, right, left_dir, right_dir, rel_dir, opts) == files_under(
            left,
            left_dir,
        ).map_values(|p: Seq<char>| DirCmpView::Left(p)) + files_under(right, right_dir).map_values(
            |p: Seq<char>| DirCmpView::Right(p),
        ),
{
    match (left, right) {
        (FsTree::Dir(lc), FsTree::Dir(rc)) => {
            assert(left == FsTree::Dir(lc));
            assert(right == FsTree::Dir(rc));
            assert(lc@.len() == lc.len());
            assert(rc@.len() == rc.len());
            let z = spec_zip(lc@, rc@, rel_dir, opts.filter);
            lemma_zip_disjoint_left(lc, rc, rel_dir, lc@.len() as int);
            lemma_zip_disjoint_right(lc, rc, rel_dir, rc@.len() as int);
            assert(z.len() == lc@.len() + rc@.len());
            lemma_disjoint_upto(
                lc,
                rc,
                left_dir,
                right_dir,
                rel_dir,
                opts,
                z.len() as int,
            );
            assert(files_under(left, left_dir) == files_under_upto(lc, left_dir, lc@.len() as int));
            assert(files_under(right, right_dir) == files_under_upto(
                rc,
                right_dir,
                rc@.len() as int,
            ));
            assert(full_dir(left, right, left_dir, right_dir, rel_dir, opts) == full_upto(
                lc,
                rc,
                left_dir,
                right_dir,
                rel_dir,
                opts,
                z.len() as int,
            ));
        },
        _ => {},
    }
}

/// What the filter guarantees of one aligned entry: the relative path of
/// every child it references was kept by the filter, on that child's own
/// side.
pub open spec fn zip_entry_respects_filter(
    lc: Seq<FsEntry>,
    rc: Seq<FsEntry>,
    rel_dir: Seq<char>,
    filter_opt: Option<Filter>,
    e: AlignedEntry,
) -> bool {
    match e {
        AlignedEntry::Both(i, j) => i < lc.len() && j < rc.len() && !spec_excluded(
            child_rel(rel_dir, lc[i as int].name@),
            filter_opt,
        ) && !spec_excluded(child_rel(rel_dir, rc[j as int].name@), filter_opt),
        AlignedEntry::Left(i) => i < lc.len() && !spec_excluded(
            child_rel(rel_dir, lc[i as int].name@),
            filter_opt,
        ),
        AlignedEntry::Right(j) => j < rc.len() && !spec_excluded(
            child_rel(rel_dir, rc[j as int].name@),
            filter_opt,
        ),
    }
}

proof fn lemma_zip_left_respects_filter(
    lc: Seq<FsEntry>,
    rc: Seq<FsEntry>,
    rel_dir: Seq<char>,
    filter_opt: Option<Filter>,
    n: int,
)
    requires
        n <= lc.len(),
        lc.len() <= usize::MAX,
        rc.len() <= usize::MAX,
    ensures
        forall|k: int|
            0 <= k < zip_left_upto(lc, rc, rel_dir, filter_opt, n).len()
                ==> zip_entry_respects_filter(
                lc,
                rc,
                rel_dir,
                filter_opt,
                #[trigger] zip_left_upto(lc, rc, rel_dir, filter_opt, n)[k],
            ),
    decreases n,
{
    if n > 0 {
        lemma_zip_left_respects_filter(lc, rc, rel_dir, filter_opt, n - 1);
        crate::lemma_spec_find(rc, lc[n - 1].name@);
        let prev = zip_left_upto(lc, rc, rel_dir, filter_opt, n - 1);
        let step = zip_left_step(lc, rc, rel_dir, filter_opt, n - 1);
        assert forall|k: int|
            0 <= k < zip_left_upto(lc, rc, rel_dir, filter_opt, n).len()
            implies zip_entry_respects_filter(
            lc,
            rc,
            rel_dir,
            filter_opt,
            zip_left_upto(lc, rc, rel_dir, filter_opt, n)[k],
        ) by {
            if k < prev.len() {
                assert(zip_left_upto(lc, rc, rel_dir, filter_opt, n)[k] == prev[k]);
            } else {
                assert(zip_left_upto(lc, rc, rel_dir, filter_opt, n)[k] == step[k - prev.len()]);
                if !spec_excluded(child_rel(rel_dir, lc[n - 1].name@), filter_opt) {
                    match spec_find(rc, lc[n - 1].name@) {
                        Option::Some(j0) => {
                            assert(step[0] == AlignedEntry::Both((n - 1) as usize, j0 as usize));
                            assert(rc[j0].name@ == lc[n - 1].name@);
                        },
                        Option::None => {
                            assert(step[0] == AlignedEntry::Left((n - 1) as usize));
                        },
                    }
                }
            }
        }
    }
}

proof fn lemma_zip_right_respects_filter(
    lc: Seq<FsEntry>,
    rc: Seq<FsEntry>,
    rel_dir: Seq<char>,
    filter_opt: Option<Filter>,
    n: int,
)
    requires
        n <= rc.len(),
        rc.len() <= usize::MAX,
    ensures
        forall|k: int|
            0 <= k < zip_right_upto(lc, rc, rel_dir, filter_opt, n).len()
                ==> zip_entry_respects_filter(
                lc,
                rc,
                rel_dir,
                filter_opt,
                #[trigger] zip_right_upto(lc, rc, rel_dir, filter_opt, n)[k],
            ),
    decreases n,
{
    if n > 0 {
        lemma_zip_right_respects_filter(lc, rc, rel_dir, filter_opt, n - 1);
        let prev = zip_right_upto(lc, rc, rel_dir, filter_opt, n - 1);
        let step = zip_right_step(lc, rc, rel_dir, filter_opt, n - 1);
        assert forall|k: int|
            0 <= k < zip_right_upto(lc, rc, rel_dir, filter_opt, n).len()
            implies zip_entry_respects_filter(
            lc,
            rc,
            rel_dir,
            filter_opt,
            zip_right_upto(lc, rc, rel_dir, filter_opt, n)[k],
        ) by {
            if k < prev.len() {
                assert(zip_right_upto(lc, rc, rel_dir, filter_opt, n)[k] == prev[k]);
            } else {
                assert(zip_right_upto(lc, rc, rel_dir, filter_opt, n)[k] == step[k - prev.len()]);
            }
        }
    }
}

/// Filtering is a pure pre-step of the aligner, decided per side on each
/// child's relative path alone: no aligned entry references a child whose
/// relative path the filter dropped on that side.  In particular a child
/// whose relative path is excluded contributes no entry at all.
pub proof fn lemma_zip_respects_filter(
    lc: Seq<FsEntry>,
    rc: Seq<FsEntry>,
    rel_dir: Seq<char>,
    filter_opt: Option<Filter>,
)
    requires
        lc.len() <= usize::MAX,
        rc.len() <= usize::MAX,
    ensures
        forall|k: int|
            0 <= k < spec_zip(lc, rc, rel_dir, filter_opt).len() ==> zip_entry_respects_filter(
                lc,
                rc,
                rel_dir,
                filter_opt,
                #[trigger] spec_zip(lc, rc, rel_dir, filter_opt)[k],
            ),
{
    lemma_zip_left_respects_filter(lc, rc, rel_dir, filter_opt, lc.len() as int);
    lemma_zip_right_respects_filter(lc, rc, rel_dir, filter_opt, rc.len() as int);
    let lpart = zip_left_upto(lc, rc, rel_dir, filter_opt, lc.len() as int);
    let rpart = zip_right_upto(lc, rc, rel_dir, filter_opt, rc.len() as int);
    assert forall|k: int|
        0 <= k < spec_zip(lc, rc, rel_dir, filter_opt).len() implies zip_entry_respects_filter(
        lc,
        rc,
        rel_dir,
        filter_opt,
        spec_zip(lc, rc, rel_dir, filter_opt)[k],
    ) by {
        if k < lpart.len() {
            assert(spec_zip(lc, rc, rel_dir, filter_opt)[k] == lpart[k]);
        } else {
            assert(spec_zip(lc, rc, rel_dir, filter_opt)[k] == rpart[k - lpart.len()]);
        }
    }
}

/// The converse side of the pre-step: a left child whose relative path the
/// filter keeps is aligned, as a matched pair or as a left-only entry,
/// whatever the filter decided about any other path.
pub proof fn lemma_kept_left_child_is_aligned(
    lc: Seq<FsEntry>,
    rc: Seq<FsEntry>,
    rel_dir: Seq<char>,
    filter_opt: Option<Filter>,
    i: int,
)
    requires
        0 <= i < lc.len(),
        lc.len() <= usize::MAX,
        !spec_excluded(child_rel(rel_dir, lc[i].name@), filter_opt),
    ensures
        exists|k: int|
            0 <= k < spec_zip(lc, rc, rel_dir, filter_opt).len() && (match #[trigger] spec_zip(
                lc,
                rc,
                rel_dir,
                filter_opt,
            )[k] {
                AlignedEntry::Both(a, _) => a == i,
                AlignedEntry::Left(a) => a == i,
                AlignedEntry::Right(_) => false,
            }),
{
    lemma_kept_left_child_upto(lc, rc, rel_dir, filter_opt, i, lc.len() as int);
    let lpart = zip_left_upto(lc, rc, rel_dir, filter_opt, lc.len() as int);
    let k0 = choose|k: int|
        0 <= k < lpart.len() && (match #[trigger] lpart[k] {
            AlignedEntry::Both(a, _) => a == i,
            AlignedEntry::Left(a) => a == i,
            AlignedEntry::Right(_) => false,
        });
    assert(spec_zip(lc, rc, rel_dir, filter_opt)[k0] == lpart[k0]);
}

proof fn lemma_kept_left_child_upto(
    lc: Seq<FsEntry>,
    rc: Seq<FsEntry>,
    rel_dir: Seq<char>,
    filter_opt: Option<Filter>,
    i: int,
    n: int,
)
    requires
        0 <= i < n <= lc.len(),
        lc.len() <= usize::MAX,
        !spec_excluded(child_rel(rel_dir, lc[i].name@), filter_opt),
    ensures
        exists|k: int|
            0 <= k < zip_left_upto(lc, rc, rel_dir, filter_opt, n).len() && (
            match #[trigger] zip_left_upto(lc, rc, rel_dir, filter_opt, n)[k] {
                AlignedEntry::Both(a, _) => a == i,
                AlignedEntry::Left(a) => a == i,
                AlignedEntry::Right(_) => false,
            }),
    decreases n,
{
    let prev = zip_left_upto(lc, rc, rel_dir, filter_opt, n - 1);
    let step = zip_left_step(lc, rc, rel_dir, filter_opt, n - 1);
    if i == n - 1 {
        let k0 = prev.len() as int;
        match spec_find(rc, lc[i].name@) {
            Option::Some(j0) => {
                assert(step[0] == AlignedEntry::Both(i as usize, j0 as usize));
            },
            Option::None => {
                assert(step[0] == AlignedEntry::Left(i as usize));
            },
        }
        assert(zip_left_upto(lc, rc, rel_dir, filter_opt, n)[k0] == step[0]);
    } else {
        lemma_kept_left_child_upto(lc, rc, rel_dir, filter_opt, i, n - 1);
        let k0 = choose|k: int|
            0 <= k < prev.len() && (match #[trigger] prev[k] {
                AlignedEntry::Both(a, _) => a == i,
                AlignedEntry::Left(a) => a == i,
                AlignedEntry::Right(_) => false,
            });
        assert(zip_left_upto(lc, rc, rel_dir, filter_opt, n)[k0] == prev[k0]);
    }
}

/// The same for the right side: a right child whose relative path the
/// filter keeps, and whose name no left child bears, surfaces as a
/// right-only entry — whatever the filter did to paths of the left side.
pub proof fn lemma_kept_right_child_is_aligned(
    lc: Seq<FsEntry>,
    rc: Seq<FsEntry>,
    rel_dir: Seq<char>,
    filter_opt: Option<Filter>,
    j: int,
)
    requires
        0 <= j < rc.len(),
        lc.len() <= usize::MAX,
        rc.len() <= usize::MAX,
        !spec_excluded(child_rel(rel_dir, rc[j].name@), filter_opt),
        spec_find(lc, rc[j].name@) is None,
    ensures
        exists|k: int|
            0 <= k < spec_zip(lc, rc, rel_dir, filter_opt).len() && #[trigger] spec_zip(
                lc,
                rc,
                rel_dir,
                filter_opt,
            )[k] == AlignedEntry::Right(j as usize),
{
    lemma_kept_right_child_upto(lc, rc, rel_dir, filter_opt, j, rc.len() as int);
    let lpart = zip_left_upto(lc, rc, rel_dir, filter_opt, lc.len() as int);
    let rpart = zip_right_upto(lc, rc, rel_dir, filter_opt, rc.len() as int);
    let k0 = choose|k: int|
        0 <= k < rpart.len() && rpart[k] == AlignedEntry::Right(j as usize);
    assert(spec_zip(lc, rc, rel_dir, filter_opt)[lpart.len() + k0] == rpart[k0]);
}

proof fn lemma_kept_right_child_upto(
    lc: Seq<FsEntry>,
    rc: Seq<FsEntry>,
    rel_dir: Seq<char>,
    filter_opt: Option<Filter>,
    j: int,
    n: int,
)
    requires
        0 <= j < n <= rc.len(),
        rc.len() <= usize::MAX,
        !spec_excluded(child_rel(rel_dir, rc[j].name@), filter_opt),
        spec_find(lc, rc[j].name@) is None,
    ensures
        exists|k: int|
            0 <= k < zip_right_upto(lc, rc, rel_dir, filter_opt, n).len() && #[trigger] zip_right_upto(
                lc,
                rc,
                rel_dir,
                filter_opt,
                n,
            )[k] == AlignedEntry::Right(j as usize),
    decreases n,
{
    let prev = zip_right_upto(lc, rc, rel_dir, filter_opt, n - 1);
    let step = zip_right_step(lc, rc, rel_dir, filter_opt, n - 1);
    if j == n - 1 {
        let k0 = prev.len() as int;
        assert(step[0] == AlignedEntry::Right(j as usize));
        assert(zip_right_upto(lc, rc, rel_dir, filter_opt, n)[k0] == step[0]);
    } else {
        lemma_kept_right_child_upto(lc, rc, rel_dir, filter_opt, j, n - 1);
        let k0 = choose|k: int|
            0 <= k < prev.len() && prev[k] == AlignedEntry::Right(j as usize);
        assert(zip_right_upto(lc, rc, rel_dir, filter_opt, n)[k0] == prev[k0]);
    }
}

/// Two comparison runs over unchanged trees return record-for-record equal
/// results, so in particular set-equal ones: the comparison is a function
/// of the trees, the roots and the options alone.
pub proof fn lemma_comparison_repeatable(
    left: FsTree,
    right: FsTree,
    left_root: Seq<char>,
    right_root: Seq<char>,
    opts: Options,
    first: Seq<DirCmpEntry>,
    second: Seq<DirCmpEntry>,
)
    requires
        views_of(first) == spec_compare_dirs(left, right, left_root, right_root, opts),
        views_of(second) == spec_compare_dirs(left, right, left_root, right_root, opts),
    ensures
        views_of(first) == views_of(second),
        views_of(first).to_multiset() == views_of(second).to_multiset(),
{
}

/// The position of the left child that an aligned entry speaks for, or -1
/// for a right-only entry.
pub open spec fn left_ref(e: AlignedEntry) -> int {
    match e {
        AlignedEntry::Both(i, _) => i as int,
        AlignedEntry::Left(i) => i as int,
        AlignedEntry::Right(_) => -1,
    }
}

proof fn lemma_zip_left_refs_increasing(
    lc: Seq<FsEntry>,
    rc: Seq<FsEntry>,
    rel_dir: Seq<char>,
    filter_opt: Option<Filter>,
    n: int,
)
    requires
        0 <= n <= lc.len(),
        lc.len() <= usize::MAX,
    ensures
        forall|k: int|
            0 <= k < zip_left_upto(lc, rc, rel_dir, filter_opt, n).len() ==> 0 <= #[trigger] left_ref(
                zip_left_upto(lc, rc, rel_dir, filter_opt, n)[k],
            ) < n,
        forall|k1: int, k2: int|
            0 <= k1 < k2 < zip_left_upto(lc, rc, rel_dir, filter_opt, n).len() ==> left_ref(
                #[trigger] zip_left_upto(lc, rc, rel_dir, filter_opt, n)[k1],
            ) < left_ref(#[trigger] zip_left_upto(lc, rc, rel_dir, filter_opt, n)[k2]),
    decreases n,
{
    if n > 0 {
        lemma_zip_left_refs_increasing(lc, rc, rel_dir, filter_opt, n - 1);
        let prev = zip_left_upto(lc, rc, rel_dir, filter_opt, n - 1);
        let step = zip_left_step(lc, rc, rel_dir, filter_opt, n - 1);
        assert forall|k: int| #![trigger zip_left_upto(lc, rc, rel_dir, filter_opt, n)[k]]
            0 <= k < zip_left_upto(lc, rc, rel_dir, filter_opt, n).len() implies 0 <= left_ref(
            zip_left_upto(lc, rc, rel_dir, filter_opt, n)[k],
        ) < n by {
            if k < prev.len() {
                assert(zip_left_upto(lc, rc, rel_dir, filter_opt, n)[k] == prev[k]);
            } else {
                assert(zip_left_upto(lc, rc, rel_dir, filter_opt, n)[k] == step[k - prev.len()]);
                if !spec_excluded(child_rel(rel_dir, lc[n - 1].name@), filter_opt) {
                    match spec_find(rc, lc[n - 1].name@) {
                        Option::Some(j0) => {
                            crate::lemma_spec_find(rc, lc[n - 1].name@);
                            assert(step[0] == AlignedEntry::Both((n - 1) as usize, j0 as usize));
                        },
                        Option::None => {
                            assert(step[0] == AlignedEntry::Left((n - 1) as usize));
                        },
                    }
                }
            }
        }
        assert forall|k1: int, k2: int|
            #![trigger zip_left_upto(lc, rc, rel_dir, filter_opt, n)[k1], zip_left_upto(lc, rc, rel_dir, filter_opt, n)[k2]]
            0 <= k1 < k2 < zip_left_upto(lc, rc, rel_dir, filter_opt, n).len() implies left_ref(
            zip_left_upto(lc, rc, rel_dir, filter_opt, n)[k1],
        ) < left_ref(zip_left_upto(lc, rc, rel_dir, filter_opt, n)[k2]) by {
            if k2 < prev.len() {
                assert(zip_left_upto(lc, rc, rel_dir, filter_opt, n)[k1] == prev[k1]);
                assert(zip_left_upto(lc, rc, rel_dir, filter_opt, n)[k2] == prev[k2]);
            } else {
                assert(zip_left_upto(lc, rc, rel_dir, filter_opt, n)[k1] == prev[k1]);
                assert(zip_left_upto(lc, rc, rel_dir, filter_opt, n)[k2] == step[k2 - prev.len()]);
                assert(left_ref(prev[k1]) < n - 1);
                if !spec_excluded(child_rel(rel_dir, lc[n - 1].name@), filter_opt) {
                    match spec_find(rc, lc[n - 1].name@) {
                        Option::Some(j0) => {
                            crate::lemma_spec_find(rc, lc[n - 1].name@);
                            assert(step[0] == AlignedEntry::Both((n - 1) as usize, j0 as usize));
                        },
                        Option::None => {
                            assert(step[0] == AlignedEntry::Left((n - 1) as usize));
                        },
                    }
                }
            }
        }
    }
}

proof fn lemma_zip_right_no_left_refs(
    lc: Seq<FsEntry>,
    rc: Seq<FsEntry>,
    rel_dir: Seq<char>,
    filter_opt: Option<Filter>,
    n: int,
)
    ensures
        forall|k: int|
            0 <= k < zip_right_upto(lc, rc, rel_dir, filter_opt, n).len() ==> #[trigger] left_ref(
                zip_right_upto(lc, rc, rel_dir, filter_opt, n)[k],
            ) == -1,
    decreases n,
{
    if n > 0 {
        lemma_zip_right_no_left_refs(lc, rc, rel_dir, filter_opt, n - 1);
        let prev = zip_right_upto(lc, rc, rel_dir, filter_opt, n - 1);
        let step = zip_right_step(lc, rc, rel_dir, filter_opt, n - 1);
        assert forall|k: int| #![trigger zip_right_upto(lc, rc, rel_dir, filter_opt, n)[k]]
            0 <= k < zip_right_upto(lc, rc, rel_dir, filter_opt, n).len() implies left_ref(
            zip_right_upto(lc, rc, rel_dir, filter_opt, n)[k],
        ) == -1 by {
            if k < prev.len() {
                assert(zip_right_upto(lc, rc, rel_dir, filter_opt, n)[k] == prev[k]);
            } else {
                assert(zip_right_upto(lc, rc, rel_dir, filter_opt, n)[k] == step[k - prev.len()]);
            }
        }
    }
}

/// No left child is aligned twice: two distinct aligned entries never speak
/// for the same left child.  With `lemma_kept_left_child_is_aligned`, each
/// kept left child is aligned exactly once.
pub proof fn lemma_left_child_aligned_at_most_once(
    lc: Seq<FsEntry>,
    rc: Seq<FsEntry>,
    rel_dir: Seq<char>,
    filter_opt: Option<Filter>,
    k1: int,
    k2: int,
)
    requires
        lc.len() <= usize::MAX,
        0 <= k1 < k2 < spec_zip(lc, rc, rel_dir, filter_opt).len(),
    ensures
        left_ref(spec_zip(lc, rc, rel_dir, filter_opt)[k1]) == left_ref(
            spec_zip(lc, rc, rel_dir, filter_opt)[k2],
        ) ==> left_ref(spec_zip(lc, rc, rel_dir, filter_opt)[k1]) == -1,
{
    lemma_zip_left_refs_increasing(lc, rc, rel_dir, filter_opt, lc.len() as int);
    lemma_zip_right_no_left_refs(lc, rc, rel_dir, filter_opt, rc.len() as int);
    let lpart = zip_left_upto(lc, rc, rel_dir, filter_opt, lc.len() as int);
    let rpart = zip_right_upto(lc, rc, rel_dir, filter_opt, rc.len() as int);
    let z = spec_zip(lc, rc, rel_dir, filter_opt);
    if k1 < lpart.len() {
        assert(z[k1] == lpart[k1]);
    } else {
        assert(z[k1] == rpart[k1 - lpart.len()]);
    }
    if k2 < lpart.len() {
        assert(z[k2] == lpart[k2]);
    } else {
        assert(z[k2] == rpart[k2 - lpart.len()]);
    }
}

} // verus!
