//! The full comparison policy: one record per surviving aligned path,
//! keeping the equal-or-different outcome of every matched file pair.

use vstd::prelude::*;

use crate::{
    child_path, child_rel, compare_two_files, files_under, join_path, join_rel, lemma_zip_wf,
    list_files, spec_file_comp, spec_zip, zip_dir_entries, zip_entry_wf, AlignedEntry,
    FileCompResult, FsEntry, FsTree, Options,
};

verus! {

/// One record of the full comparison: a matched file pair with its content
/// comparison outcome, or a file present on one side only.
#[derive(Debug)]
pub enum DirCmpEntry {
    Both(String, String, FileCompResult),
    Left(String),
    Right(String),
}

/// The spec-level value of a `DirCmpEntry`: the same shape over
/// mathematical strings.
pub enum DirCmpView {
    Both(Seq<char>, Seq<char>, FileCompResult),
    Left(Seq<char>),
    Right(Seq<char>),
}

impl View for DirCmpEntry {
    type V = DirCmpView;

    open spec fn view(&self) -> DirCmpView {
        match self {
            DirCmpEntry::Both(l, r, c) => DirCmpView::Both(l@, r@, *c),
            DirCmpEntry::Left(l) => DirCmpView::Left(l@),
            DirCmpEntry::Right(r) => DirCmpView::Right(r@),
        }
    }
}

impl PartialEq for DirCmpEntry {
    fn eq(&self, other: &DirCmpEntry) -> (r: bool) {
        match (self, other) {
            (DirCmpEntry::Both(a, b, c), DirCmpEntry::Both(d, e, f)) => *a == *d && *b == *e && *c
                == *f,
            (DirCmpEntry::Left(a), DirCmpEntry::Left(d)) => *a == *d,
            (DirCmpEntry::Right(a), DirCmpEntry::Right(d)) => *a == *d,
            _ => false,
        }
    }
}

impl vstd::std_specs::cmp::PartialEqSpecImpl for DirCmpEntry {
    open spec fn obeys_eq_spec() -> bool {
        true
    }

    open spec fn eq_spec(&self, other: &DirCmpEntry) -> bool {
        match (self, other) {
            (DirCmpEntry::Both(a, b, c), DirCmpEntry::Both(d, e, f)) => a@ == d@ && b@ == e@ && c
                == f,
            (DirCmpEntry::Left(a), DirCmpEntry::Left(d)) => a@ == d@,
            (DirCmpEntry::Right(a), DirCmpEntry::Right(d)) => a@ == d@,
            _ => false,
        }
    }
}

/// The spec-level values of a record sequence, in order.
pub open spec fn views_of(s: Seq<DirCmpEntry>) -> Seq<DirCmpView> {
    s.map_values(|e: DirCmpEntry| e@)
}

/// What one aligned entry contributes to the full comparison of one
/// directory level.  A matched file pair contributes its comparison record
/// unless it is equal and equal pairs are ignored; a matched directory pair
/// contributes its whole recursive comparison; a matched pair of mismatched
/// types, and every symbolic link, contributes nothing; a one-sided file
/// contributes one record and a one-sided directory its file leaves, unless
/// that side is ignored.
pub open spec fn full_step(
    lc: Vec<FsEntry>,
    rc: Vec<FsEntry>,
    left_dir: Seq<char>,
    right_dir: Seq<char>,
    rel_dir: Seq<char>,
    opts: Options,
    e: AlignedEntry,
) -> Seq<DirCmpView>
    decreases lc, 0nat, 0int,
{
    match e {
        AlignedEntry::Both(i, j) => {
            if i < lc@.len() && j < rc@.len() {
                let lpath = child_path(left_dir, lc@[i as int].name@);
                let rpath = child_path(right_dir, rc@[j as int].name@);
                match (lc@[i as int].node, rc@[j as int].node) {
                    (FsTree::File(lb), FsTree::File(rb)) => {
                        let comp = spec_file_comp(lb@, rb@);
                        if comp == FileCompResult::Equal && opts.ignore_equal {
                            Seq::empty()
                        } else {
                            seq![DirCmpView::Both(lpath, rpath, comp)]
                        }
                    },
                    (FsTree::Dir(_), FsTree::Dir(_)) => full_dir(
                        lc@[i as int].node,
                        rc@[j as int].node,
                        lpath,
                        rpath,
                        child_rel(rel_dir, lc@[i as int].name@),
                        opts,
                    ),
                    _ => Seq::empty(),
                }
            } else {
                Seq::empty()
            }
        },
        AlignedEntry::Left(i) => {
            if i < lc@.len() && !opts.ignore_left_only {
                let lpath = child_path(left_dir, lc@[i as int].name@);
                match lc@[i as int].node {
                    FsTree::Dir(_) => files_under(lc@[i as int].node, lpath).map_values(
                        |p: Seq<char>| DirCmpView::Left(p),
                    ),
                    FsTree::File(_) => seq![DirCmpView::Left(lpath)],
                    FsTree::Symlink => Seq::empty(),
                }
            } else {
                Seq::empty()
            }
        },
        AlignedEntry::Right(j) => {
            if j < rc@.len() && !opts.ignore_right_only {
                let rpath = child_path(right_dir, rc@[j as int].name@);
                match rc@[j as int].node {
                    FsTree::Dir(_) => files_under(rc@[j as int].node, rpath).map_values(
                        |p: Seq<char>| DirCmpView::Right(p),
                    ),
                    FsTree::File(_) => seq![DirCmpView::Right(rpath)],
                    FsTree::Symlink => Seq::empty(),
                }
            } else {
                Seq::empty()
            }
        },
    }
}

/// The full comparison records contributed by the first `n` aligned entries
/// of one directory level.
pub open spec fn full_upto(
    lc: Vec<FsEntry>,
    rc: Vec<FsEntry>,
    left_dir: Seq<char>,
    right_dir: Seq<char>,
    rel_dir: Seq<char>,
    opts: Options,
    n: int,
) -> Seq<DirCmpView>
    decreases lc, 1nat, n,
{
    let z = spec_zip(lc@, rc@, rel_dir, opts.filter);
    if n <= 0 || n > z.len() {
        Seq::empty()
    } else {
        full_upto(lc, rc, left_dir, right_dir, rel_dir, opts, n - 1) + full_step(
            lc,
            rc,
            left_dir,
            right_dir,
            rel_dir,
            opts,
            z[n - 1],
        )
    }
}

/// The full comparison of the directories `left` (at `left_dir`) and
/// `right` (at `right_dir`), both with relative path `rel_dir` under their
/// roots: the concatenation, in alignment order, of what every aligned
/// entry contributes.
pub open spec fn full_dir(
    left: FsTree,
    right: FsTree,
    left_dir: Seq<char>,
    right_dir: Seq<char>,
    rel_dir: Seq<char>,
    opts: Options,
) -> Seq<DirCmpView>
    recommends
        left is Dir,
        right is Dir,
    decreases left, 2nat, 0int,
{
    match (left, right) {
        (FsTree::Dir(lc), FsTree::Dir(rc)) => full_upto(
            lc,
            rc,
            left_dir,
            right_dir,
            rel_dir,
            opts,
            spec_zip(lc@, rc@, rel_dir, opts.filter).len() as int,
        ),
        _ => Seq::empty(),
    }
}

/// The full comparison of two whole trees rooted at `left_root` and
/// `right_root`.
pub open spec fn spec_compare_dirs(
    left: FsTree,
    right: FsTree,
    left_root: Seq<char>,
    right_root: Seq<char>,
    opts: Options,
) -> Seq<DirCmpView> {
    full_dir(left, right, left_root, right_root, Seq::empty(), opts)
}

fn compare_dirs_inner(
    left: &FsTree,
    right: &FsTree,
    left_dir: &str,
    right_dir: &str,
    rel_dir: &str,
    options: &Options,
) -> (res: Vec<DirCmpEntry>)
    requires
        *left is Dir,
        *right is Dir,
    ensures
        views_of(res@) == full_dir(*left, *right, left_dir@, right_dir@, rel_dir@, *options),
    decreases *left,
{
    let mut results: Vec<DirCmpEntry> = Vec::new();
    match (left, right) {
        (FsTree::Dir(lc), FsTree::Dir(rc)) => {
            let aligned = zip_dir_entries(lc, rc, rel_dir, &options.filter);
            proof {
                assert(lc@.len() == lc.len());
                assert(rc@.len() == rc.len());
                lemma_zip_wf(lc@, rc@, rel_dir@, options.filter);
            }
            let mut k: usize = 0;
            while k < aligned.len()
                invariant
                    k <= aligned.len(),
                    *left is Dir,
                    *right is Dir,
                    left->Dir_0 == *lc,
                    right->Dir_0 == *rc,
                    aligned@ == spec_zip(lc@, rc@, rel_dir@, options.filter),
                    forall|m: int|
                        0 <= m < aligned@.len() ==> zip_entry_wf(lc@, rc@, #[trigger] aligned@[m]),
                    views_of(results@) == full_upto(
                        *lc,
                        *rc,
                        left_dir@,
                        right_dir@,
                        rel_dir@,
                        *options,
                        k as int,
                    ),
                decreases aligned.len() - k,
            {
                let ghost base = views_of(results@);
                let ghost stepv = full_step(
                    *lc,
                    *rc,
                    left_dir@,
                    right_dir@,
                    rel_dir@,
                    *options,
                    aligned@[k as int],
                );
                match aligned[k] {
                    AlignedEntry::Both(i, j) => {
                        let le = &lc[i];
                        let re = &rc[j];
                        let lpath = join_path(left_dir, le.name.as_str());
                        let rpath = join_path(right_dir, re.name.as_str());
                        match (&le.node, &re.node) {
                            (FsTree::File(lb), FsTree::File(rb)) => {
                                let comp = compare_two_files(lb, rb);
                                if comp != FileCompResult::Equal || !options.ignore_equal {
                                    results.push(DirCmpEntry::Both(lpath, rpath, comp));
                                }
                            },
                            (FsTree::Dir(_), FsTree::Dir(_)) => {
                                let sub_rel = join_rel(rel_dir, le.name.as_str());
                                proof {
                                    assert(decreases_to!(*left => *lc));
                                    assert(decreases_to!(*lc => lc@));
                                    assert(decreases_to!(lc@ => lc@[i as int]));
                                    assert(decreases_to!(lc@[i as int] => lc@[i as int].node));
                                }
                                let mut sub = compare_dirs_inner(
                                    &le.node,
                                    &re.node,
                                    lpath.as_str(),
                                    rpath.as_str(),
                                    sub_rel.as_str(),
                                    options,
                                );
                                let ghost subv = sub@;
                                results.append(&mut sub);
                                proof {
                                    assert(views_of(results@) =~= base + views_of(subv));
                                }
                            },
                            _ => {},
                        }
                    },
                    AlignedEntry::Left(i) => {
                        if !options.ignore_left_only {
                            let le = &lc[i];
                            let lpath = join_path(left_dir, le.name.as_str());
                            match &le.node {
                                FsTree::Dir(_) => {
                                    let files = list_files(&le.node, lpath.as_str());
                                    let ghost fseq = files_under(le.node, lpath@).map_values(
                                        |p: Seq<char>| DirCmpView::Left(p),
                                    );
                                    let mut fk: usize = 0;
                                    while fk < files.len()
                                        invariant
                                            fk <= files.len(),
                                            files@.map_values(|s: String| s@) == files_under(
                                                le.node,
                                                lpath@,
                                            ),
                                            fseq == files_under(le.node, lpath@).map_values(
                                                |p: Seq<char>| DirCmpView::Left(p),
                                            ),
                                            views_of(results@) == base + fseq.take(fk as int),
                                        decreases files.len() - fk,
                                    {
                                        let item = DirCmpEntry::Left(files[fk].clone());
                                        let ghost itemv = item@;
                                        let ghost r_prev = results@;
                                        results.push(item);
                                        proof {
                                            assert(files@.map_values(|s: String| s@)[fk as int]
                                                == files@[fk as int]@);
                                            assert(fseq[fk as int] == DirCmpView::Left(
                                                files@[fk as int]@,
                                            ));
                                            assert(itemv == fseq[fk as int]);
                                            assert(views_of(results@) =~= views_of(r_prev).push(
                                                itemv,
                                            ));
                                            assert(fseq.take(fk as int + 1) =~= fseq.take(
                                                fk as int,
                                            ).push(fseq[fk as int]));
                                            assert(views_of(results@) =~= base + fseq.take(
                                                fk as int + 1,
                                            ));
                                        }
                                        fk = fk + 1;
                                    }
                                    proof {
                                        assert(fseq.take(files@.len() as int) =~= fseq);
                                    }
                                },
                                FsTree::File(_) => {
                                    results.push(DirCmpEntry::Left(lpath));
                                },
                                FsTree::Symlink => {},
                            }
                        }
                    },
                    AlignedEntry::Right(j) => {
                        if !options.ignore_right_only {
                            let re = &rc[j];
                            let rpath = join_path(right_dir, re.name.as_str());
                            match &re.node {
                                FsTree::Dir(_) => {
                                    let files = list_files(&re.node, rpath.as_str());
                                    let ghost fseq = files_under(re.node, rpath@).map_values(
                                        |p: Seq<char>| DirCmpView::Right(p),
                                    );
                                    let mut fk: usize = 0;
                                    while fk < files.len()
                                        invariant
                                            fk <= files.len(),
                                            files@.map_values(|s: String| s@) == files_under(
                                                re.node,
                                                rpath@,
                                            ),
                                            fseq == files_under(re.node, rpath@).map_values(
                                                |p: Seq<char>| DirCmpView::Right(p),
                                            ),
                                            views_of(results@) == base + fseq.take(fk as int),
                                        decreases files.len() - fk,
                                    {
                                        let item = DirCmpEntry::Right(files[fk].clone());
                                        let ghost itemv = item@;
                                        let ghost r_prev = results@;
                                        results.push(item);
                                        proof {
                                            assert(files@.map_values(|s: String| s@)[fk as int]
                                                == files@[fk as int]@);
                                            assert(fseq[fk as int] == DirCmpView::Right(
                                                files@[fk as int]@,
                                            ));
                                            assert(itemv == fseq[fk as int]);
                                            assert(views_of(results@) =~= views_of(r_prev).push(
                                                itemv,
                                            ));
                                            assert(fseq.take(fk as int + 1) =~= fseq.take(
                                                fk as int,
                                            ).push(fseq[fk as int]));
                                            assert(views_of(results@) =~= base + fseq.take(
                                                fk as int + 1,
                                            ));
                                        }
                                        fk = fk + 1;
                                    }
                                    proof {
                                        assert(fseq.take(files@.len() as int) =~= fseq);
                                    }
                                },
                                FsTree::File(_) => {
                                    results.push(DirCmpEntry::Right(rpath));
                                },
                                FsTree::Symlink => {},
                            }
                        }
                    },
                }
                proof {
                    assert(views_of(results@) =~= base + stepv);
                    assert(views_of(results@) =~= full_upto(
                        *lc,
                        *rc,
                        left_dir@,
                        right_dir@,
                        rel_dir@,
                        *options,
                        k as int + 1,
                    ));
                }
                k = k + 1;
            }
        },
        _ => {
            proof {
                assert(false);
            }
        },
    }
    results
}

/// Compares two directory trees under the full policy.  The result holds,
/// in alignment order: one `Both` record per matched file pair (omitting
/// equal pairs when `ignore_equal` is set), the file leaves of every
/// one-sided entry as `Left` or `Right` records (unless that side is
/// ignored), and nothing for symbolic links or type mismatches.
pub fn compare_dirs(
    left: &FsTree,
    right: &FsTree,
    left_root: &str,
    right_root: &str,
    options: Options,
) -> (res: Vec<DirCmpEntry>)
    requires
        *left is Dir,
        *right is Dir,
    ensures
        views_of(res@) == spec_compare_dirs(*left, *right, left_root@, right_root@, options),
{
    proof {
        reveal_strlit("");
        assert(""@ =~= Seq::<char>::empty());
    }
    compare_dirs_inner(left, right, left_root, right_root, "", &options)
}

} // verus!
