//! The light comparison policy: only paths that differ or are missing are
//! reported, as one-sided records; matched equal files are never emitted,
//! and a matched file pair with different content is reported as a `Left`
//! and a `Right` record at once.

use vstd::prelude::*;

use crate::{
    child_path, child_rel, compare_two_files, files_under, join_path, join_rel, lemma_zip_wf,
    list_files, spec_file_comp, spec_zip, zip_dir_entries, zip_entry_wf, AlignedEntry, EobView,
    EitherOrBoth, FileCompResult, FsEntry, FsTree, Options,
};

verus! {

/// The spec-level values of a record sequence, in order.
pub open spec fn views_of(s: Seq<EitherOrBoth>) -> Seq<EobView> {
    s.map_values(|e: EitherOrBoth| e@)
}

/// What one aligned entry contributes to the light comparison of one
/// directory level.  A matched file pair contributes nothing when equal,
/// and a `Left` plus a `Right` record when different; a matched directory
/// pair contributes its whole recursive comparison; a matched pair of
/// mismatched types, and every symbolic link, contributes nothing; a
/// one-sided file contributes one record and a one-sided directory its
/// file leaves, unless that side is ignored.
pub open spec fn light_step(
    lc: Vec<FsEntry>,
    rc: Vec<FsEntry>,
    left_dir: Seq<char>,
    right_dir: Seq<char>,
    rel_dir: Seq<char>,
    opts: Options,
    e: AlignedEntry,
) -> Seq<EobView>
    decreases lc, 0nat, 0int,
{
    match e {
        AlignedEntry::Both(i, j) => {
            if i < lc@.len() && j < rc@.len() {
                let lpath = child_path(left_dir, lc@[i as int].name@);
                let rpath = child_path(right_dir, rc@[j as int].name@);
                match (lc@[i as int].node, rc@[j as int].node) {
                    (FsTree::File(lb), FsTree::File(rb)) => {
                        if spec_file_comp(lb@, rb@) == FileCompResult::Equal {
                            Seq::empty()
                        } else {
                            seq![EobView::Left(lpath), EobView::Right(rpath)]
                        }
                    },
                    (FsTree::Dir(_), FsTree::Dir(_)) => light_dir(
                        lc@[i as int].node,
                        rc@[j as int].node,
                        lpath,
                        rpath,
                        child_rel(rel_dir, lc@[i as int].name@),
                        opts,
                    ),
                    _ => Seq::empty(),
                }
            } else {
                Seq::empty()
            }
        },
        AlignedEntry::Left(i) => {
            if i < lc@.len() && !opts.ignore_left_only {
                let lpath = child_path(left_dir, lc@[i as int].name@);
                match lc@[i as int].node {
                    FsTree::Dir(_) => files_under(lc@[i as int].node, lpath).map_values(
                        |p: Seq<char>| EobView::Left(p),
                    ),
                    FsTree::File(_) => seq![EobView::Left(lpath)],
                    FsTree::Symlink => Seq::empty(),
                }
            } else {
                Seq::empty()
            }
        },
        AlignedEntry::Right(j) => {
            if j < rc@.len() && !opts.ignore_right_only {
                let rpath = child_path(right_dir, rc@[j as int].name@);
                match rc@[j as int].node {
                    FsTree::Dir(_) => files_under(rc@[j as int].node, rpath).map_values(
                        |p: Seq<char>| EobView::Right(p),
                    ),
                    FsTree::File(_) => seq![EobView::Right(rpath)],
                    FsTree::Symlink => Seq::empty(),
                }
            } else {
                Seq::empty()
            }
        },
    }
}

/// The light comparison records contributed by the first `n` aligned
/// entries of one directory level.
pub open spec fn light_upto(
    lc: Vec<FsEntry>,
    rc: Vec<FsEntry>,
    left_dir: Seq<char>,
    right_dir: Seq<char>,
    rel_dir: Seq<char>,
    opts: Options,
    n: int,
) -> Seq<EobView>
    decreases lc, 1nat, n,
{
    let z = spec_zip(lc@, rc@, rel_dir, opts.filter);
    if n <= 0 || n > z.len() {
        Seq::empty()
    } else {
        light_upto(lc, rc, left_dir, right_dir, rel_dir, opts, n - 1) + light_step(
            lc,
            rc,
            left_dir,
            right_dir,
            rel_dir,
            opts,
            z[n - 1],
        )
    }
}

/// The light comparison of the directories `left` (at `left_dir`) and
/// `right` (at `right_dir`), both with relative path `rel_dir` under their
/// roots: the concatenation, in alignment order, of what every aligned
/// entry contributes.
pub open spec fn light_dir(
    left: FsTree,
    right: FsTree,
    left_dir: Seq<char>,
    right_dir: Seq<char>,
    rel_dir: Seq<char>,
    opts: Options,
) -> Seq<EobView>
    recommends
        left is Dir,
        right is Dir,
    decreases left, 2nat, 0int,
{
    match (left, right) {
        (FsTree::Dir(lc), FsTree::Dir(rc)) => light_upto(
            lc,
            rc,
            left_dir,
            right_dir,
            rel_dir,
            opts,
            spec_zip(lc@, rc@, rel_dir, opts.filter).len() as int,
        ),
        _ => Seq::empty(),
    }
}

/// The light comparison of two whole trees rooted at `left_root` and
/// `right_root`.
pub open spec fn spec_compare_dirs(
    left: FsTree,
    right: FsTree,
    left_root: Seq<char>,
    right_root: Seq<char>,
    opts: Options,
) -> Seq<EobView> {
    light_dir(left, right, left_root, right_root, Seq::empty(), opts)
}

fn compare_dirs_inner(
    left: &FsTree,
    right: &FsTree,
    left_dir: &str,
    right_dir: &str,
    rel_dir: &str,
    options: &Options,
) -> (res: Vec<EitherOrBoth>)
    requires
        *left is Dir,
        *right is Dir,
    ensures
        views_of(res@) == light_dir(*left, *right, left_dir@, right_dir@, rel_dir@, *options),
    decreases *left,
{
    let mut results: Vec<EitherOrBoth> = Vec::new();
    match (left, right) {
        (FsTree::Dir(lc), FsTree::Dir(rc)) => {
            let aligned = zip_dir_entries(lc, rc, rel_dir, &options.filter);
            proof {
                assert(lc@.len() == lc.len());
                assert(rc@.len() == rc.len());
                lemma_zip_wf(lc@, rc@, rel_dir@, options.filter);
            }
            let mut k: usize = 0;
            while k < aligned.len()
                invariant
                    k <= aligned.len(),
                    *left is Dir,
                    *right is Dir,
                    left->Dir_0 == *lc,
                    right->Dir_0 == *rc,
                    aligned@ == spec_zip(lc@, rc@, rel_dir@, options.filter),
                    forall|m: int|
                        0 <= m < aligned@.len() ==> zip_entry_wf(lc@, rc@, #[trigger] aligned@[m]),
                    views_of(results@) == light_upto(
                        *lc,
                        *rc,
                        left_dir@,
                        right_dir@,
                        rel_dir@,
                        *options,
                        k as int,
                    ),
                decreases aligned.len() - k,
            {
                let ghost base = views_of(results@);
                let ghost stepv = light_step(
                    *lc,
                    *rc,
                    left_dir@,
                    right_dir@,
                    rel_dir@,
                    *options,
                    aligned@[k as int],
                );
                match aligned[k] {
                    AlignedEntry::Both(i, j) => {
                        let le = &lc[i];
                        let re = &rc[j];
                        let lpath = join_path(left_dir, le.name.as_str());
                        let rpath = join_path(right_dir, re.name.as_str());
                        match (&le.node, &re.node) {
                            (FsTree::File(lb), FsTree::File(rb)) => {
                                let comp = compare_two_files(lb, rb);
                                if comp != FileCompResult::Equal {
                                    results.push(EitherOrBoth::Left(lpath));
                                    results.push(EitherOrBoth::Right(rpath));
                                }
                            },
                            (FsTree::Dir(_), FsTree::Dir(_)) => {
                                let sub_rel = join_rel(rel_dir, le.name.as_str());
                                proof {
                                    assert(decreases_to!(*left => *lc));
                                    assert(decreases_to!(*lc => lc@));
                                    assert(decreases_to!(lc@ => lc@[i as int]));
                                    assert(decreases_to!(lc@[i as int] => lc@[i as int].node));
                                }
                                let mut sub = compare_dirs_inner(
                                    &le.node,
                                    &re.node,
                                    lpath.as_str(),
                                    rpath.as_str(),
                                    sub_rel.as_str(),
                                    options,
                                );
                                let ghost subv = sub@;
                                results.append(&mut sub);
                                proof {
                                    assert(views_of(results@) =~= base + views_of(subv));
                                }
                            },
                            _ => {},
                        }
                    },
                    AlignedEntry::Left(i) => {
                        if !options.ignore_left_only {
                            let le = &lc[i];
                            let lpath = join_path(left_dir, le.name.as_str());
                            match &le.node {
                                FsTree::Dir(_) => {
                                    let files = list_files(&le.node, lpath.as_str());
                                    let ghost fseq = files_under(le.node, lpath@).map_values(
                                        |p: Seq<char>| EobView::Left(p),
                                    );
                                    let mut fk: usize = 0;
                                    while fk < files.len()
                                        invariant
                                            fk <= files.len(),
                                            files@.map_values(|s: String| s@) == files_under(
                                                le.node,
                                                lpath@,
                                            ),
                                            fseq == files_under(le.node, lpath@).map_values(
                                                |p: Seq<char>| EobView::Left(p),
                                            ),
                                            views_of(results@) == base + fseq.take(fk as int),
                                        decreases files.len() - fk,
                                    {
                                        let item = EitherOrBoth::Left(files[fk].clone());
                                        let ghost itemv = item@;
                                        let ghost r_prev = results@;
                                        results.push(item);
                                        proof {
                                            assert(files@.map_values(|s: String| s@)[fk as int]
                                                == files@[fk as int]@);
                                            assert(fseq[fk as int] == EobView::Left(
                                                files@[fk as int]@,
                                            ));
                                            assert(itemv == fseq[fk as int]);
                                            assert(views_of(results@) =~= views_of(r_prev).push(
                                                itemv,
                                            ));
                                            assert(fseq.take(fk as int + 1) =~= fseq.take(
                                                fk as int,
                                            ).push(fseq[fk as int]));
                                            assert(views_of(results@) =~= base + fseq.take(
                                                fk as int + 1,
                                            ));
                                        }
                                        fk = fk + 1;
                                    }
                                    proof {
                                        assert(fseq.take(files@.len() as int) =~= fseq);
                                    }
                                },
                                FsTree::File(_) => {
                                    results.push(EitherOrBoth::Left(lpath));
                                },
                                FsTree::Symlink => {},
                            }
                        }
                    },
                    AlignedEntry::Right(j) => {
                        if !options.ignore_right_only {
                            let re = &rc[j];
                            let rpath = join_path(right_dir, re.name.as_str());
                            match &re.node {
                                FsTree::Dir(_) => {
                                    let files = list_files(&re.node, rpath.as_str());
                                    let ghost fseq = files_under(re.node, rpath@).map_values(
                                        |p: Seq<char>| EobView::Right(p),
                                    );
                                    let mut fk: usize = 0;
                                    while fk < files.len()
                                        invariant
                                            fk <= files.len(),
                                            files@.map_values(|s: String| s@) == files_under(
                                                re.node,
                                                rpath@,
                                            ),
                                            fseq == files_under(re.node, rpath@).map_values(
                                                |p: Seq<char>| EobView::Right(p),
                                            ),
                                            views_of(results@) == base + fseq.take(fk as int),
                                        decreases files.len() - fk,
                                    {
                                        let item = EitherOrBoth::Right(files[fk].clone());
                                        let ghost itemv = item@;
                                        let ghost r_prev = results@;
                                        results.push(item);
                                        proof {
                                            assert(files@.map_values(|s: String| s@)[fk as int]
                                                == files@[fk as int]@);
                                            assert(fseq[fk as int] == EobView::Right(
                                                files@[fk as int]@,
                                            ));
                                            assert(itemv == fseq[fk as int]);
                                            assert(views_of(results@) =~= views_of(r_prev).push(
                                                itemv,
                                            ));
                                            assert(fseq.take(fk as int + 1) =~= fseq.take(
                                                fk as int,
                                            ).push(fseq[fk as int]));
                                            assert(views_of(results@) =~= base + fseq.take(
                                                fk as int + 1,
                                            ));
                                        }
                                        fk = fk + 1;
                                    }
                                    proof {
                                        assert(fseq.take(files@.len() as int) =~= fseq);
                                    }
                                },
                                FsTree::File(_) => {
                                    results.push(EitherOrBoth::Right(rpath));
                                },
                                FsTree::Symlink => {},
                            }
                        }
                    },
                }
                proof {
                    assert(views_of(results@) =~= base + stepv);
                    assert(views_of(results@) =~= light_upto(
                        *lc,
                        *rc,
                        left_dir@,
                        right_dir@,
                        rel_dir@,
                        *options,
                        k as int + 1,
                    ));
                }
                k = k + 1;
            }
        },
        _ => {
            proof {
                assert(false);
            }
        },
    }
    results
}

/// Compares two directory trees under the light policy.  The result holds,
/// in alignment order: a `Left` and a `Right` record for every matched file
/// pair whose contents differ, and the file leaves of every one-sided entry
/// as `Left` or `Right` records (unless that side is ignored); equal pairs,
/// symbolic links and type mismatches leave no record.
pub fn compare_dirs(
    left: &FsTree,
    right: &FsTree,
    left_root: &str,
    right_root: &str,
    options: Options,
) -> (res: Vec<EitherOrBoth>)
    requires
        *left is Dir,
        *right is Dir,
    ensures
        views_of(res@) == spec_compare_dirs(*left, *right, left_root@, right_root@, options),
{
    proof {
        reveal_strlit("");
        assert(""@ =~= Seq::<char>::empty());
    }
    compare_dirs_inner(left, right, left_root, right_root, "", &options)
}

} // verus!
