//! Comparison of two in-memory directory trees.
//!
//! The library aligns two file hierarchies by relative path, classifies each
//! path as present on the left only, on the right only, or on both sides, and
//! for matched regular files compares their byte content.  Pattern-based
//! include/exclude filtering shapes which entries take part.  Reading trees
//! from disk and printing results is left to the callers; the algorithms here
//! work on plain values.

pub mod full;
pub mod laws;
pub mod light;

use vstd::prelude::*;
use vstd::string::StringExecFns;

verus! {

#[verifier::external_type_specification]
#[verifier::external_body]
pub struct ExRegex(regex::Regex);

/// What `regex::Regex::is_match` returns for the regular expression compiled
/// from `pattern`, run over `text`: whether the pattern matches anywhere in
/// the text, not anchored to either end.  The result depends on the two
/// strings alone.
pub uninterp spec fn regex_match(pattern: Seq<char>, text: Seq<char>) -> bool;

/// A compiled matcher paired with the pattern text it was compiled from.
/// Its view is the pattern text.
pub struct Pattern {
    re: regex::Regex,
    source: String,
}

impl View for Pattern {
    type V = Seq<char>;

    closed spec fn view(&self) -> Seq<char> {
        self.source@
    }
}

impl Pattern {
    /// Relies on `regex::Regex::new`: the matcher is compiled from exactly
    /// the given pattern text; compilation fails only on an invalid pattern
    /// or on one over the default size limit.
    #[verifier::external_body]
    pub fn new(pattern: &str) -> (r: Option<Pattern>)
        ensures
            r is Some ==> r.unwrap()@ == pattern@,
    {
        match regex::Regex::new(pattern) {
            Ok(re) => Some(Pattern { re, source: pattern.to_owned() }),
            Err(_) => None,
        }
    }

    /// Relies on `regex::Regex::is_match`: true if and only if the pattern
    /// matches anywhere in `text`; the result depends on the pattern text
    /// and `text` alone.
    #[verifier::external_body]
    pub(crate) fn is_match(&self, text: &str) -> (r: bool)
        ensures
            r == regex_match(self@, text@),
    {
        self.re.is_match(text)
    }
}

/// An inclusion or exclusion policy over relative paths: an exclude set
/// drops a path that any of its patterns matches; an include set drops a
/// path that any of its patterns fails to match.
pub enum Filter {
    Exclude(Vec<Pattern>),
    Include(Vec<Pattern>),
}

/// Whether `path` is dropped from consideration under `filter_opt`.  With no
/// filter nothing is dropped; an empty include set also drops nothing, since
/// no pattern of it fails to match.
pub open spec fn spec_excluded(path: Seq<char>, filter_opt: Option<Filter>) -> bool {
    match filter_opt {
        Option::None => false,
        Option::Some(Filter::Exclude(patterns)) => exists|k: int|
            0 <= k < patterns@.len() && regex_match(#[trigger] patterns@[k]@, path),
        Option::Some(Filter::Include(patterns)) => exists|k: int|
            0 <= k < patterns@.len() && !regex_match(#[trigger] patterns@[k]@, path),
    }
}

proof fn lemma_excluded_by_exclude(path: Seq<char>, f: Option<Filter>, k: int)
    requires
        f matches Option::Some(Filter::Exclude(ps)) && 0 <= k < ps@.len() && regex_match(
            ps@[k]@,
            path,
        ),
    ensures
        spec_excluded(path, f),
{
}

proof fn lemma_excluded_by_include(path: Seq<char>, f: Option<Filter>, k: int)
    requires
        f matches Option::Some(Filter::Include(ps)) && 0 <= k < ps@.len() && !regex_match(
            ps@[k]@,
            path,
        ),
    ensures
        spec_excluded(path, f),
{
}

/// True if `path` should be dropped from consideration under `filter_opt`.
pub fn apply_filter(path: &str, filter_opt: &Option<Filter>) -> (r: bool)
    ensures
        r == spec_excluded(path@, *filter_opt),
{
    match filter_opt {
        Option::Some(Filter::Exclude(pattern_list)) => {
            let mut k: usize = 0;
            while k < pattern_list.len()
                invariant
                    k <= pattern_list.len(),
                    *filter_opt == Option::Some(Filter::Exclude(*pattern_list)),
                    forall|j: int| 0 <= j < k ==> !regex_match(#[trigger] pattern_list@[j]@, path@),
                decreases pattern_list.len() - k,
            {
                if pattern_list[k].is_match(path) {
                    proof {
                        lemma_excluded_by_exclude(path@, *filter_opt, k as int);
                    }
                    return true;
                }
                k = k + 1;
            }
            false
        },
        Option::Some(Filter::Include(pattern_list)) => {
            let mut k: usize = 0;
            while k < pattern_list.len()
                invariant
                    k <= pattern_list.len(),
                    *filter_opt == Option::Some(Filter::Include(*pattern_list)),
                    forall|j: int| 0 <= j < k ==> regex_match(#[trigger] pattern_list@[j]@, path@),
                decreases pattern_list.len() - k,
            {
                if !pattern_list[k].is_match(path) {
                    proof {
                        lemma_excluded_by_include(path@, *filter_opt, k as int);
                    }
                    return true;
                }
                k = k + 1;
            }
            false
        },
        Option::None => false,
    }
}

/// Configuration for one comparison run, passed unchanged down every
/// recursive call.
pub struct Options {
    pub ignore_equal: bool,
    pub ignore_left_only: bool,
    pub ignore_right_only: bool,
    pub filter: Option<Filter>,
    pub recursive: bool,
}

/// The outcome of a whole-content comparison of two regular files.
#[derive(Debug, PartialEq, Eq, Structural)]
pub enum FileCompResult {
    Equal,
    Different,
}

/// The comparison outcome for the file contents `left` and `right`: `Equal`
/// exactly when the bytes are identical.
pub open spec fn spec_file_comp(left: Seq<u8>, right: Seq<u8>) -> FileCompResult {
    if left == right {
        FileCompResult::Equal
    } else {
        FileCompResult::Different
    }
}

/// Compares the byte contents of two regular files for exact equality.
pub fn compare_two_files(left: &Vec<u8>, right: &Vec<u8>) -> (r: FileCompResult)
    ensures
        r == spec_file_comp(left@, right@),
{
    if left.len() != right.len() {
        return FileCompResult::Different;
    }
    let mut i: usize = 0;
    while i < left.len()
        invariant
            left@.len() == right@.len(),
            i <= left@.len(),
            forall|j: int| 0 <= j < i ==> left@[j] == right@[j],
        decreases left@.len() - i,
    {
        if left[i] != right[i] {
            return FileCompResult::Different;
        }
        i = i + 1;
    }
    proof {
        assert(left@ =~= right@);
    }
    FileCompResult::Equal
}

/// One node of an in-memory directory tree: a regular file with its byte
/// content, a directory with its immediate children, or a symbolic link
/// (which the comparison never follows and never reports).
pub enum FsTree {
    File(Vec<u8>),
    Dir(Vec<FsEntry>),
    Symlink,
}

/// An immediate child of a directory: its name and its subtree.
pub struct FsEntry {
    pub name: String,
    pub node: FsTree,
}

/// The relative path of a child named `name` inside the directory whose own
/// relative path is `rel`.  At the root, `rel` is empty and the child's
/// relative path is its bare name.
pub open spec fn child_rel(rel: Seq<char>, name: Seq<char>) -> Seq<char> {
    if rel.len() == 0 {
        name
    } else {
        rel + seq!['/'] + name
    }
}

/// The full path of a child named `name` of the directory at `dir`.
pub open spec fn child_path(dir: Seq<char>, name: Seq<char>) -> Seq<char> {
    dir + seq!['/'] + name
}

/// The full paths of every regular file anywhere under `t`, in listing order,
/// where `t` itself stands at `path`.  Directories contribute their contents
/// in place; symbolic links contribute nothing.
pub open spec fn files_under(t: FsTree, path: Seq<char>) -> Seq<Seq<char>>
    decreases t, 0nat, 0int,
{
    match t {
        FsTree::File(_) => seq![path],
        FsTree::Dir(entries) => files_under_upto(entries, path, entries@.len() as int),
        FsTree::Symlink => Seq::empty(),
    }
}

/// The full paths of every regular file under the first `n` children in
/// `entries`, whose parent directory stands at `path`.
pub open spec fn files_under_upto(entries: Vec<FsEntry>, path: Seq<char>, n: int) -> Seq<Seq<char>>
    decreases entries, 1nat, n,
{
    if n <= 0 || n > entries@.len() {
        Seq::empty()
    } else {
        files_under_upto(entries, path, n - 1) + files_under(
            entries@[n - 1].node,
            child_path(path, entries@[n - 1].name@),
        )
    }
}

/// Appends `"/"` and `name` to `dir`.
pub fn join_path(dir: &str, name: &str) -> (r: String)
    ensures
        r@ == child_path(dir@, name@),
{
    proof {
        reveal_strlit("/");
    }
    let mut s = dir.to_owned();
    s.append("/");
    s.append(name);
    assert(s@ =~= child_path(dir@, name@));
    s
}

/// Appends `name` to the relative path `rel`, with a `"/"` separator unless
/// `rel` is empty.
pub fn join_rel(rel: &str, name: &str) -> (r: String)
    ensures
        r@ == child_rel(rel@, name@),
{
    if rel.unicode_len() == 0 {
        name.to_owned()
    } else {
        join_path(rel, name)
    }
}

/// Every file anywhere under the directory `t` (standing at `path`), depth
/// first in listing order, with directories flattened in place and symbolic
/// links ignored at every level.
pub fn list_files(t: &FsTree, path: &str) -> (r: Vec<String>)
    requires
        t is Dir,
    ensures
        r@.map_values(|s: String| s@) == files_under(*t, path@),
    decreases *t,
{
    let mut r: Vec<String> = Vec::new();
    match t {
        FsTree::Dir(entries) => {
            let ghost gpath = path@;
            let mut i: usize = 0;
            while i < entries.len()
                invariant
                    i <= entries.len(),
                    t is Dir,
                    t->Dir_0 == *entries,
                    gpath == path@,
                    r@.map_values(|s: String| s@) == files_under_upto(*entries, gpath, i as int),
                decreases entries.len() - i,
            {
                let entry = &entries[i];
                let sub_path = join_path(path, entry.name.as_str());
                let ghost r_prev = r@;
                match &entry.node {
                    FsTree::Dir(_) => {
                        proof {
                            assert(decreases_to!(*t => *entries));
                            assert(decreases_to!(*entries => entries@));
                            assert(decreases_to!(entries@ => entries@[i as int]));
                            assert(decreases_to!(entries@[i as int] => entries@[i as int].node));
                        }
                        let mut sub = list_files(&entry.node, sub_path.as_str());
                        let ghost gsub = sub@;
                        r.append(&mut sub);
                        proof {
                            assert(r@.map_values(|s: String| s@) =~= r_prev.map_values(
                                |s: String| s@,
                            ) + gsub.map_values(|s: String| s@));
                        }
                    },
                    FsTree::File(_) => {
                        let ghost gp = sub_path@;
                        r.push(sub_path);
                        proof {
                            assert(r@.map_values(|s: String| s@) =~= r_prev.map_values(
                                |s: String| s@,
                            ).push(gp));
                        }
                    },
                    FsTree::Symlink => {},
                }
                proof {
                    assert(files_under_upto(*entries, gpath, i as int + 1) == files_under_upto(
                        *entries,
                        gpath,
                        i as int,
                    ) + files_under(
                        entries@[i as int].node,
                        child_path(gpath, entries@[i as int].name@),
                    ));
                    assert(r@.map_values(|s: String| s@) =~~= files_under_upto(
                        *entries,
                        gpath,
                        i as int + 1,
                    ));
                }
                i = i + 1;
            }
            assert(files_under_upto(*entries, gpath, entries@.len() as int) == files_under(
                *t,
                gpath,
            ));
        },
        _ => {
            assert(false);
        },
    }
    r
}

/// A path classified by the side it was found on: the record type of the
/// light comparison, and the spec-level shape of one aligned pair.
#[derive(Debug)]
pub enum EitherOrBoth {
    Both(String, String),
    Left(String),
    Right(String),
}

/// The spec-level value of an `EitherOrBoth` record: the same shape over
/// mathematical strings.
pub enum EobView {
    Both(Seq<char>, Seq<char>),
    Left(Seq<char>),
    Right(Seq<char>),
}

impl View for EitherOrBoth {
    type V = EobView;

    open spec fn view(&self) -> EobView {
        match self {
            EitherOrBoth::Both(l, r) => EobView::Both(l@, r@),
            EitherOrBoth::Left(l) => EobView::Left(l@),
            EitherOrBoth::Right(r) => EobView::Right(r@),
        }
    }
}

impl PartialEq for EitherOrBoth {
    fn eq(&self, other: &EitherOrBoth) -> (r: bool) {
        match (self, other) {
            (EitherOrBoth::Both(a, b), EitherOrBoth::Both(c, d)) => *a == *c && *b == *d,
            (EitherOrBoth::Left(a), EitherOrBoth::Left(c)) => *a == *c,
            (EitherOrBoth::Right(a), EitherOrBoth::Right(c)) => *a == *c,
            _ => false,
        }
    }
}

impl vstd::std_specs::cmp::PartialEqSpecImpl for EitherOrBoth {
    open spec fn obeys_eq_spec() -> bool {
        true
    }

    open spec fn eq_spec(&self, other: &EitherOrBoth) -> bool {
        match (self, other) {
            (EitherOrBoth::Both(a, b), EitherOrBoth::Both(c, d)) => a@ == c@ && b@ == d@,
            (EitherOrBoth::Left(a), EitherOrBoth::Left(c)) => a@ == c@,
            (EitherOrBoth::Right(a), EitherOrBoth::Right(c)) => a@ == c@,
            _ => false,
        }
    }
}

/// One aligned child position produced by `zip_dir_entries`: positions into
/// the left and right child lists of one directory level.
#[derive(Debug, Clone, Copy, PartialEq, Eq, Structural)]
pub enum AlignedEntry {
    Both(usize, usize),
    Left(usize),
    Right(usize),
}

/// The position of the first entry in `entries` whose name is `name`, if
/// any entry has that name.
pub open spec fn spec_find(entries: Seq<FsEntry>, name: Seq<char>) -> Option<int>
    decreases entries.len(),
{
    if entries.len() == 0 {
        Option::None
    } else if entries[0].name@ == name {
        Option::Some(0int)
    } else {
        match spec_find(entries.drop_first(), name) {
            Option::Some(j) => Option::Some(j + 1),
            Option::None => Option::None,
        }
    }
}

/// `spec_find` returns the position of the first occurrence of `name`, and
/// `None` exactly when no entry has that name.
pub proof fn lemma_spec_find(entries: Seq<FsEntry>, name: Seq<char>)
    ensures
        match spec_find(entries, name) {
            Option::Some(j) => 0 <= j < entries.len() && entries[j].name@ == name && forall|i: int|
                0 <= i < j ==> (#[trigger] entries[i].name@) != name,
            Option::None => forall|i: int|
                0 <= i < entries.len() ==> (#[trigger] entries[i].name@) != name,
        },
    decreases entries.len(),
{
    if entries.len() == 0 {
    } else if entries[0].name@ == name {
    } else {
        lemma_spec_find(entries.drop_first(), name);
        assert forall|i: int| 0 <= i < entries.len() && i >= 1 implies entries.drop_first()[i - 1]
            == entries[i] by {}
    }
}

/// The converse direction: a first occurrence at `j` pins `spec_find` down.
pub proof fn lemma_spec_find_at(entries: Seq<FsEntry>, name: Seq<char>, j: int)
    requires
        0 <= j < entries.len(),
        entries[j].name@ == name,
        forall|i: int| 0 <= i < j ==> (#[trigger] entries[i].name@) != name,
    ensures
        spec_find(entries, name) == Option::Some(j),
    decreases entries.len(),
{
    if j == 0 {
    } else {
        assert(entries[0].name@ != name);
        lemma_spec_find_at(entries.drop_first(), name, j - 1);
    }
}

/// The position of the first entry in `entries` named `name`, if any.
fn find_entry(entries: &Vec<FsEntry>, name: &String) -> (r: Option<usize>)
    ensures
        match r {
            Option::Some(j) => spec_find(entries@, name@) == Option::Some(j as int),
            Option::None => spec_find(entries@, name@) is None,
        },
{
    let mut k: usize = 0;
    while k < entries.len()
        invariant
            k <= entries.len(),
            forall|i: int| 0 <= i < k ==> (#[trigger] entries@[i].name@) != name@,
        decreases entries.len() - k,
    {
        if entries[k].name == *name {
            proof {
                lemma_spec_find_at(entries@, name@, k as int);
            }
            return Some(k);
        }
        k = k + 1;
    }
    proof {
        lemma_spec_find(entries@, name@);
        match spec_find(entries@, name@) {
            Option::Some(j) => {
                assert(entries@[j].name@ == name@);
                assert(false);
            },
            Option::None => {},
        }
    }
    None
}

/// What the left pass of the aligner contributes for the left child at
/// position `i`: nothing if its relative path is filtered out, a `Both`
/// pairing it with the first right child of the same name, or `Left` if no
/// right child has its name.
pub open spec fn zip_left_step(
    left: Seq<FsEntry>,
    right: Seq<FsEntry>,
    rel_dir: Seq<char>,
    filter_opt: Option<Filter>,
    i: int,
) -> Seq<AlignedEntry> {
    if spec_excluded(child_rel(rel_dir, left[i].name@), filter_opt) {
        Seq::empty()
    } else {
        match spec_find(right, left[i].name@) {
            Option::Some(j) => seq![AlignedEntry::Both(i as usize, j as usize)],
            Option::None => seq![AlignedEntry::Left(i as usize)],
        }
    }
}

/// The left pass of the aligner over the first `n` left children.
pub open spec fn zip_left_upto(
    left: Seq<FsEntry>,
    right: Seq<FsEntry>,
    rel_dir: Seq<char>,
    filter_opt: Option<Filter>,
    n: int,
) -> Seq<AlignedEntry>
    decreases n,
{
    if n <= 0 {
        Seq::empty()
    } else {
        zip_left_upto(left, right, rel_dir, filter_opt, n - 1) + zip_left_step(
            left,
            right,
            rel_dir,
            filter_opt,
            n - 1,
        )
    }
}

/// What the right pass of the aligner contributes for the right child at
/// position `j`: `Right` if its relative path is kept and no left child has
/// its name; matched pairs were already emitted by the left pass.
pub open spec fn zip_right_step(
    left: Seq<FsEntry>,
    right: Seq<FsEntry>,
    rel_dir: Seq<char>,
    filter_opt: Option<Filter>,
    j: int,
) -> Seq<AlignedEntry> {
    if !spec_excluded(child_rel(rel_dir, right[j].name@), filter_opt) && spec_find(
        left,
        right[j].name@,
    ) is None {
        seq![AlignedEntry::Right(j as usize)]
    } else {
        Seq::empty()
    }
}

/// The right pass of the aligner over the first `n` right children.
pub open spec fn zip_right_upto(
    left: Seq<FsEntry>,
    right: Seq<FsEntry>,
    rel_dir: Seq<char>,
    filter_opt: Option<Filter>,
    n: int,
) -> Seq<AlignedEntry>
    decreases n,
{
    if n <= 0 {
        Seq::empty()
    } else {
        zip_right_upto(left, right, rel_dir, filter_opt, n - 1) + zip_right_step(
            left,
            right,
            rel_dir,
            filter_opt,
            n - 1,
        )
    }
}

/// The whole alignment of one directory level: all left-pass results in
/// left listing order, then the right-pass `Right` results in right listing
/// order.
pub open spec fn spec_zip(
    left: Seq<FsEntry>,
    right: Seq<FsEntry>,
    rel_dir: Seq<char>,
    filter_opt: Option<Filter>,
) -> Seq<AlignedEntry> {
    zip_left_upto(left, right, rel_dir, filter_opt, left.len() as int) + zip_right_upto(
        left,
        right,
        rel_dir,
        filter_opt,
        right.len() as int,
    )
}

/// What every aligned entry guarantees about its positions: they lie inside
/// the child lists they point into, and a matched pair bears one name.
pub open spec fn zip_entry_wf(left: Seq<FsEntry>, right: Seq<FsEntry>, e: AlignedEntry) -> bool {
    match e {
        AlignedEntry::Both(i, j) => i < left.len() && j < right.len() && left[i as int].name@
            == right[j as int].name@,
        AlignedEntry::Left(i) => i < left.len(),
        AlignedEntry::Right(j) => j < right.len(),
    }
}

proof fn lemma_zip_left_upto_wf(
    left: Seq<FsEntry>,
    right: Seq<FsEntry>,
    rel_dir: Seq<char>,
    filter_opt: Option<Filter>,
    n: int,
)
    requires
        n <= left.len(),
        left.len() <= usize::MAX,
        right.len() <= usize::MAX,
    ensures
        forall|k: int|
            0 <= k < zip_left_upto(left, right, rel_dir, filter_opt, n).len() ==> zip_entry_wf(
                left,
                right,
                #[trigger] zip_left_upto(left, right, rel_dir, filter_opt, n)[k],
            ),
    decreases n,
{
    if n > 0 {
        lemma_zip_left_upto_wf(left, right, rel_dir, filter_opt, n - 1);
        lemma_spec_find(right, left[n - 1].name@);
        let prev = zip_left_upto(left, right, rel_dir, filter_opt, n - 1);
        let step = zip_left_step(left, right, rel_dir, filter_opt, n - 1);
        assert forall|k: int|
            0 <= k < zip_left_upto(left, right, rel_dir, filter_opt, n).len() implies zip_entry_wf(
            left,
            right,
            zip_left_upto(left, right, rel_dir, filter_opt, n)[k],
        ) by {
            if k < prev.len() {
                assert(zip_left_upto(left, right, rel_dir, filter_opt, n)[k] == prev[k]);
            } else {
                assert(zip_left_upto(left, right, rel_dir, filter_opt, n)[k] == step[k
                    - prev.len()]);
                if !spec_excluded(child_rel(rel_dir, left[n - 1].name@), filter_opt) {
                    match spec_find(right, left[n - 1].name@) {
                        Option::Some(j0) => {
                            assert(step[0] == AlignedEntry::Both((n - 1) as usize, j0 as usize));
                            assert(zip_entry_wf(left, right, step[0]));
                        },
                        Option::None => {
                            assert(step[0] == AlignedEntry::Left((n - 1) as usize));
                        },
                    }
                }
            }
        }
    }
}

proof fn lemma_zip_right_upto_wf(
    left: Seq<FsEntry>,
    right: Seq<FsEntry>,
    rel_dir: Seq<char>,
    filter_opt: Option<Filter>,
    n: int,
)
    requires
        n <= right.len(),
        right.len() <= usize::MAX,
    ensures
        forall|k: int|
            0 <= k < zip_right_upto(left, right, rel_dir, filter_opt, n).len() ==> zip_entry_wf(
                left,
                right,
                #[trigger] zip_right_upto(left, right, rel_dir, filter_opt, n)[k],
            ),
    decreases n,
{
    if n > 0 {
        lemma_zip_right_upto_wf(left, right, rel_dir, filter_opt, n - 1);
        let prev = zip_right_upto(left, right, rel_dir, filter_opt, n - 1);
        let step = zip_right_step(left, right, rel_dir, filter_opt, n - 1);
        assert forall|k: int|
            0 <= k < zip_right_upto(left, right, rel_dir, filter_opt, n).len() implies zip_entry_wf(
            left,
            right,
            zip_right_upto(left, right, rel_dir, filter_opt, n)[k],
        ) by {
            if k < prev.len() {
                assert(zip_right_upto(left, right, rel_dir, filter_opt, n)[k] == prev[k]);
            } else {
                assert(zip_right_upto(left, right, rel_dir, filter_opt, n)[k] == step[k
                    - prev.len()]);
            }
        }
    }
}

/// Every entry of the alignment points inside the two child lists, and every
/// matched pair bears one name on both sides.
pub proof fn lemma_zip_wf(
    left: Seq<FsEntry>,
    right: Seq<FsEntry>,
    rel_dir: Seq<char>,
    filter_opt: Option<Filter>,
)
    requires
        left.len() <= usize::MAX,
        right.len() <= usize::MAX,
    ensures
        forall|k: int|
            0 <= k < spec_zip(left, right, rel_dir, filter_opt).len() ==> zip_entry_wf(
                left,
                right,
                #[trigger] spec_zip(left, right, rel_dir, filter_opt)[k],
            ),
{
    lemma_zip_left_upto_wf(left, right, rel_dir, filter_opt, left.len() as int);
    lemma_zip_right_upto_wf(left, right, rel_dir, filter_opt, right.len() as int);
    let lpart = zip_left_upto(left, right, rel_dir, filter_opt, left.len() as int);
    let rpart = zip_right_upto(left, right, rel_dir, filter_opt, right.len() as int);
    assert forall|k: int|
        0 <= k < spec_zip(left, right, rel_dir, filter_opt).len() implies zip_entry_wf(
        left,
        right,
        spec_zip(left, right, rel_dir, filter_opt)[k],
    ) by {
        if k < lpart.len() {
            assert(spec_zip(left, right, rel_dir, filter_opt)[k] == lpart[k]);
        } else {
            assert(spec_zip(left, right, rel_dir, filter_opt)[k] == rpart[k - lpart.len()]);
        }
    }
}

/// Aligns the immediate children of two directories by name.  `rel_dir` is
/// the relative path of both directories under their respective roots; the
/// filter is applied to each child's relative path, independently per side.
pub fn zip_dir_entries(
    left_entries: &Vec<FsEntry>,
    right_entries: &Vec<FsEntry>,
    rel_dir: &str,
    filter_opt: &Option<Filter>,
) -> (r: Vec<AlignedEntry>)
    ensures
        r@ == spec_zip(left_entries@, right_entries@, rel_dir@, *filter_opt),
{
    let mut results: Vec<AlignedEntry> = Vec::new();
    let mut i: usize = 0;
    while i < left_entries.len()
        invariant
            i <= left_entries.len(),
            results@ == zip_left_upto(
                left_entries@,
                right_entries@,
                rel_dir@,
                *filter_opt,
                i as int,
            ),
        decreases left_entries.len() - i,
    {
        let rel_path = join_rel(rel_dir, left_entries[i].name.as_str());
        if !apply_filter(rel_path.as_str(), filter_opt) {
            match find_entry(right_entries, &left_entries[i].name) {
                Option::Some(j) => results.push(AlignedEntry::Both(i, j)),
                Option::None => results.push(AlignedEntry::Left(i)),
            }
        }
        proof {
            assert(results@ =~= zip_left_upto(
                left_entries@,
                right_entries@,
                rel_dir@,
                *filter_opt,
                i as int + 1,
            ));
        }
        i = i + 1;
    }
    let ghost left_part = results@;
    let mut j: usize = 0;
    while j < right_entries.len()
        invariant
            j <= right_entries.len(),
            left_part == zip_left_upto(
                left_entries@,
                right_entries@,
                rel_dir@,
                *filter_opt,
                left_entries@.len() as int,
            ),
            results@ == left_part + zip_right_upto(
                left_entries@,
                right_entries@,
                rel_dir@,
                *filter_opt,
                j as int,
            ),
        decreases right_entries.len() - j,
    {
        let rel_path = join_rel(rel_dir, right_entries[j].name.as_str());
        if !apply_filter(rel_path.as_str(), filter_opt) {
            if find_entry(left_entries, &right_entries[j].name).is_none() {
                results.push(AlignedEntry::Right(j));
            }
        }
        proof {
            assert(results@ =~= left_part + zip_right_upto(
                left_entries@,
                right_entries@,
                rel_dir@,
                *filter_opt,
                j as int + 1,
            ));
        }
        j = j + 1;
    }
    results
}

} // verus!
