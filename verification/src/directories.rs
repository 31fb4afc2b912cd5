//! Directory listings, the comparison of two subtrees and the sorted
//! merge of two listings.

use crate::files::IoFailure;
use vstd::prelude::*;

verus! {

/// The type of a file system object.
#[derive(Clone, Copy, Debug, PartialEq, Eq, Structural)]
pub enum FileKind {
    File,
    Dir,
    Symlink,
    Other,
}

/// One file system object met by a listing: the bytes of its own name (the
/// last component of its path), its path as text, how many levels it lies
/// below the root of the walk, and its type. The root itself has depth 0; its
/// own name is part of no relative path.
#[derive(Clone, Debug, PartialEq, Eq)]
pub struct Entry {
    pub name: Vec<u8>,
    pub path: String,
    pub depth: usize,
    pub kind: FileKind,
}

/// A failure to read one entry of a listing.
#[derive(Clone, Debug, PartialEq, Eq)]
pub struct WalkFailure {
    pub path: String,
    pub message: String,
}

impl WalkFailure {
    /// A copy of this failure, equal to it.
    pub fn duplicate(&self) -> (r: WalkFailure)
        ensures
            r == *self,
    {
        WalkFailure { path: self.path.clone(), message: self.message.clone() }
    }
}

/// What ends a comparison without a verdict.
#[derive(Clone, Debug, PartialEq, Eq)]
pub enum DirError {
    Io(IoFailure),
    Walk(WalkFailure),
}

/// The classification of one name of the merged listing.
#[derive(Clone, Debug, PartialEq, Eq)]
pub enum TreeDiff {
    Left(String),
    Right(String),
    Matches(String, String),
    Differs(String, String),
}

/// Whether two subtrees hold the same names, types and file contents.
#[derive(Clone, Copy, Debug, PartialEq, Eq, Structural)]
pub enum DiffResult {
    Equal,
    NotEqual,
}

/// How one name stands to another in the order of the listings.
#[derive(Clone, Copy, Debug, PartialEq, Eq, Structural)]
pub enum NameOrder {
    Before,
    Same,
    After,
}

/// The byte-wise lexicographic order of `a` and `b`, given that they agree
/// before position `i`.
pub open spec fn name_order_from(a: Seq<u8>, b: Seq<u8>, i: int) -> NameOrder
    decreases a.len() - i,
{
    if i >= a.len() {
        if i >= b.len() {
            NameOrder::Same
        } else {
            NameOrder::Before
        }
    } else if i >= b.len() {
        NameOrder::After
    } else if a[i] < b[i] {
        NameOrder::Before
    } else if a[i] > b[i] {
        NameOrder::After
    } else {
        name_order_from(a, b, i + 1)
    }
}

/// The byte-wise lexicographic order of two names.
pub open spec fn name_order(a: Seq<u8>, b: Seq<u8>) -> NameOrder {
    name_order_from(a, b, 0)
}

/// Compares two names byte by byte.
pub fn order_names(a: &Vec<u8>, b: &Vec<u8>) -> (r: NameOrder)
    ensures
        r == name_order(a@, b@),
{
    let mut i: usize = 0;
    while i < a.len() && i < b.len()
        invariant
            i <= a.len(),
            i <= b.len(),
            name_order(a@, b@) == name_order_from(a@, b@, i as int),
        decreases a.len() - i,
    {
        if a[i] < b[i] {
            return NameOrder::Before;
        }
        if a[i] > b[i] {
            return NameOrder::After;
        }
        i = i + 1;
    }
    if i < b.len() {
        NameOrder::Before
    } else if i < a.len() {
        NameOrder::After
    } else {
        NameOrder::Same
    }
}

/// The order of two entries: that of their names.
pub fn file_name_cmp(a: &Entry, b: &Entry) -> (r: NameOrder)
    ensures
        r == name_order(a.name@, b.name@),
{
    order_names(&a.name, &b.name)
}

/// Two names are in the same place of the order exactly when they are the
/// same bytes.
pub proof fn lemma_same_iff_equal(a: Seq<u8>, b: Seq<u8>)
    ensures
        name_order(a, b) == NameOrder::Same <==> a == b,
{
    lemma_same_from(a, b, 0);
    if a == b {
    } else if name_order(a, b) == NameOrder::Same {
        assert(a.subrange(0, a.len() as int) =~= a);
        assert(b.subrange(0, b.len() as int) =~= b);
    }
}

/// From position `i` on, the order is `Same` exactly when the rest of both
/// names is the same bytes.
pub proof fn lemma_same_from(a: Seq<u8>, b: Seq<u8>, i: int)
    requires
        0 <= i <= a.len(),
        i <= b.len(),
    ensures
        name_order_from(a, b, i) == NameOrder::Same <==> a.subrange(i, a.len() as int)
            == b.subrange(i, b.len() as int),
    decreases a.len() - i,
{
    let t = a.subrange(i, a.len() as int);
    let u = b.subrange(i, b.len() as int);
    if i < a.len() && i < b.len() {
        assert(t[0] == a[i] && u[0] == b[i]);
        if a[i] == b[i] {
            lemma_same_from(a, b, i + 1);
            let t1 = a.subrange(i + 1, a.len() as int);
            let u1 = b.subrange(i + 1, b.len() as int);
            if t1 == u1 {
                assert(t.len() == t1.len() + 1);
                assert forall|k: int| 0 <= k < t.len() implies t[k] == u[k] by {
                    if k > 0 {
                        assert(t[k] == t1[k - 1]);
                        assert(u[k] == u1[k - 1]);
                    }
                }
                assert(t =~= u);
            } else if t == u {
                assert(t1 =~= t.subrange(1, t.len() as int));
                assert(u1 =~= u.subrange(1, u.len() as int));
                assert(false);
            }
        }
    } else if i < a.len() || i < b.len() {
        assert(t.len() != u.len());
    } else {
        assert(t =~= u);
    }
}

/// Swapping the two names mirrors the order.
pub proof fn lemma_order_mirrors(a: Seq<u8>, b: Seq<u8>, i: int)
    requires
        0 <= i,
    ensures
        name_order_from(b, a, i) == (match name_order_from(a, b, i) {
            NameOrder::Before => NameOrder::After,
            NameOrder::Same => NameOrder::Same,
            NameOrder::After => NameOrder::Before,
        }),
    decreases a.len() - i,
{
    if i < a.len() && i < b.len() && a[i] == b[i] {
        lemma_order_mirrors(a, b, i + 1);
    }
}

/// What a listing holds at position `i`: `None` past its end.
pub open spec fn item_at(s: Seq<Result<Entry, WalkFailure>>, i: int) -> Option<
    Result<Entry, WalkFailure>,
> {
    if 0 <= i < s.len() {
        Some(s[i])
    } else {
        None
    }
}

/// The value behind an optional reference.
pub open spec fn owned(x: Option<&Result<Entry, WalkFailure>>) -> Option<
    Result<Entry, WalkFailure>,
> {
    match x {
        Some(v) => Some(*v),
        None => None,
    }
}

/// The pending item of a listing held in memory.
pub fn peek(s: &Vec<Result<Entry, WalkFailure>>, i: usize) -> (r: Option<
    &Result<Entry, WalkFailure>,
>)
    ensures
        owned(r) == item_at(s@, i as int),
{
    if i < s.len() {
        Some(&s[i])
    } else {
        None
    }
}

/// What one pair of pending items decides in the comparison of two
/// subtrees.
#[derive(Debug, PartialEq, Eq)]
pub enum ScanStep {
    /// The comparison is over, with this outcome.
    Verdict(Result<DiffResult, DirError>),
    /// The two entries agree; both listings move on.
    Advance,
    /// The two entries are regular files of one name: their contents decide.
    CompareFiles,
}

/// Whether two entries stand at the same place of their trees: at one depth
/// and, below the roots, under one name. In a walk that lists every directory
/// before what it holds, entries that pairwise stand at the same place have
/// the same path relative to their roots.
pub open spec fn same_place(a: Entry, b: Entry) -> bool {
    a.depth == b.depth && (a.depth > 0 ==> name_order(a.name@, b.name@) == NameOrder::Same)
}

/// The decision on one pair of pending items. Entries at the same place and
/// of one type agree, unless they are regular files, whose contents are
/// compared; a place or a type on one side only ends the comparison with
/// `NotEqual`; a failure ends it with that failure, the left one first; two
/// exhausted listings end it with `Equal`.
pub open spec fn scan_step(
    l: Option<Result<Entry, WalkFailure>>,
    r: Option<Result<Entry, WalkFailure>>,
) -> ScanStep {
    match (l, r) {
        (Some(Ok(a)), Some(Ok(b))) => if !same_place(a, b) {
            ScanStep::Verdict(Ok(DiffResult::NotEqual))
        } else if a.kind != b.kind {
            ScanStep::Verdict(Ok(DiffResult::NotEqual))
        } else if a.kind == FileKind::File {
            ScanStep::CompareFiles
        } else {
            ScanStep::Advance
        },
        (Some(Ok(_)), None) => ScanStep::Verdict(Ok(DiffResult::NotEqual)),
        (None, Some(Ok(_))) => ScanStep::Verdict(Ok(DiffResult::NotEqual)),
        (Some(Err(e)), _) => ScanStep::Verdict(Err(DirError::Walk(e))),
        (_, Some(Err(e))) => ScanStep::Verdict(Err(DirError::Walk(e))),
        (None, None) => ScanStep::Verdict(Ok(DiffResult::Equal)),
    }
}

/// What the comparison of two files' contents decides: `None` when they are
/// equal and the comparison goes on.
pub open spec fn files_step(v: Result<bool, IoFailure>) -> Option<Result<DiffResult, DirError>> {
    match v {
        Ok(true) => None,
        Ok(false) => Some(Ok(DiffResult::NotEqual)),
        Err(e) => Some(Err(DirError::Io(e))),
    }
}

/// Whether two types are the same.
fn same_kind(a: FileKind, b: FileKind) -> (r: bool)
    ensures
        r == (a == b),
{
    match (a, b) {
        (FileKind::File, FileKind::File) => true,
        (FileKind::Dir, FileKind::Dir) => true,
        (FileKind::Symlink, FileKind::Symlink) => true,
        (FileKind::Other, FileKind::Other) => true,
        _ => false,
    }
}

/// Decides on one pair of pending items of two recursive listings.
pub fn scan_pair(
    l: Option<&Result<Entry, WalkFailure>>,
    r: Option<&Result<Entry, WalkFailure>>,
) -> (s: ScanStep)
    ensures
        s == scan_step(owned(l), owned(r)),
{
    match (l, r) {
        (Some(Ok(a)), Some(Ok(b))) => {
            let same_name = match file_name_cmp(a, b) {
                NameOrder::Same => true,
                _ => false,
            };
            if a.depth != b.depth || (a.depth > 0 && !same_name) {
                ScanStep::Verdict(Ok(DiffResult::NotEqual))
            } else if !same_kind(a.kind, b.kind) {
                ScanStep::Verdict(Ok(DiffResult::NotEqual))
            } else if same_kind(a.kind, FileKind::File) {
                ScanStep::CompareFiles
            } else {
                ScanStep::Advance
            }
        },
        (Some(Ok(_)), None) => ScanStep::Verdict(Ok(DiffResult::NotEqual)),
        (None, Some(Ok(_))) => ScanStep::Verdict(Ok(DiffResult::NotEqual)),
        (Some(Err(e)), _) => ScanStep::Verdict(Err(DirError::Walk(e.duplicate()))),
        (_, Some(Err(e))) => ScanStep::Verdict(Err(DirError::Walk(e.duplicate()))),
        (None, None) => ScanStep::Verdict(Ok(DiffResult::Equal)),
    }
}

/// Decides on the comparison of the contents of two matched regular files:
/// `None` when the comparison goes on with the next pair.
pub fn after_files(v: Result<bool, IoFailure>) -> (r: Option<Result<DiffResult, DirError>>)
    ensures
        r == files_step(v),
{
    match v {
        Ok(true) => None,
        Ok(false) => Some(Ok(DiffResult::NotEqual)),
        Err(e) => Some(Err(DirError::Io(e))),
    }
}

/// The outcome of the comparison of two subtrees, from position `i` of
/// their recursive listings on, where `files(k)` is what comparing the
/// contents of the two entries at position `k` gives.
pub open spec fn subtree_verdict(
    l: Seq<Result<Entry, WalkFailure>>,
    r: Seq<Result<Entry, WalkFailure>>,
    files: spec_fn(int) -> Result<bool, IoFailure>,
    i: int,
) -> Result<DiffResult, DirError>
    decreases l.len() - i,
{
    match scan_step(item_at(l, i), item_at(r, i)) {
        ScanStep::Verdict(v) => v,
        ScanStep::Advance => if 0 <= i < l.len() {
            subtree_verdict(l, r, files, i + 1)
        } else {
            Ok(DiffResult::Equal)
        },
        ScanStep::CompareFiles => match files_step(files(i)) {
            Some(v) => v,
            None => if 0 <= i < l.len() {
                subtree_verdict(l, r, files, i + 1)
            } else {
                Ok(DiffResult::Equal)
            },
        },
    }
}

/// Where a scan of two listings held in memory stops.
#[derive(Debug, PartialEq, Eq)]
pub enum ScanOutcome {
    /// The comparison is over, with this outcome.
    Verdict(Result<DiffResult, DirError>),
    /// The entries at this position are regular files of one name; the comparison
    /// goes on once their contents are compared.
    CompareFiles(usize),
}

/// Where the scan that starts at position `i` stops: at the first pair that
/// does not simply agree.
pub open spec fn scan_from(
    l: Seq<Result<Entry, WalkFailure>>,
    r: Seq<Result<Entry, WalkFailure>>,
    i: int,
) -> ScanOutcome
    decreases l.len() - i,
{
    match scan_step(item_at(l, i), item_at(r, i)) {
        ScanStep::Verdict(v) => ScanOutcome::Verdict(v),
        ScanStep::CompareFiles => ScanOutcome::CompareFiles(i as usize),
        ScanStep::Advance => if 0 <= i < l.len() {
            scan_from(l, r, i + 1)
        } else {
            ScanOutcome::Verdict(Ok(DiffResult::Equal))
        },
    }
}

/// Where the comparison stands once the files at position `at` are compared with
/// the result `v`.
pub open spec fn resume_from(
    l: Seq<Result<Entry, WalkFailure>>,
    r: Seq<Result<Entry, WalkFailure>>,
    at: int,
    v: Result<bool, IoFailure>,
) -> ScanOutcome {
    match files_step(v) {
        Some(d) => ScanOutcome::Verdict(d),
        None => scan_from(l, r, at + 1),
    }
}

/// Compares two recursive listings for equality, from position `from` on, as
/// far as the listings alone decide: up to a verdict, or up to the first pair
/// of regular files of one name, whose contents the caller compares before it
/// goes on with `diff_dirs_resume`.
pub fn diff_dirs(
    left: &Vec<Result<Entry, WalkFailure>>,
    right: &Vec<Result<Entry, WalkFailure>>,
    from: usize,
) -> (out: ScanOutcome)
    ensures
        out == scan_from(left@, right@, from as int),
        match out {
            ScanOutcome::Verdict(_) => true,
            ScanOutcome::CompareFiles(k) => {
                &&& from <= k < left@.len()
                &&& k < right@.len()
                &&& scan_step(item_at(left@, k as int), item_at(right@, k as int))
                    == ScanStep::CompareFiles
            },
        },
{
    let mut i: usize = from;
    loop
        invariant
            from <= i,
            scan_from(left@, right@, from as int) == scan_from(left@, right@, i as int),
        decreases left.len() - i,
    {
        match scan_pair(peek(left, i), peek(right, i)) {
            ScanStep::Verdict(v) => {
                return ScanOutcome::Verdict(v);
            },
            ScanStep::CompareFiles => {
                return ScanOutcome::CompareFiles(i);
            },
            ScanStep::Advance => {
                i = i + 1;
            },
        }
    }
}

/// Goes on with the comparison after the contents of the two files at position
/// `at` were compared with the result `v`.
pub fn diff_dirs_resume(
    left: &Vec<Result<Entry, WalkFailure>>,
    right: &Vec<Result<Entry, WalkFailure>>,
    at: usize,
    v: Result<bool, IoFailure>,
) -> (out: ScanOutcome)
    requires
        scan_step(item_at(left@, at as int), item_at(right@, at as int)) == ScanStep::CompareFiles,
    ensures
        out == resume_from(left@, right@, at as int, v),
        match out {
            ScanOutcome::Verdict(_) => true,
            ScanOutcome::CompareFiles(k) => {
                &&& at < k < left@.len()
                &&& k < right@.len()
                &&& scan_step(item_at(left@, k as int), item_at(right@, k as int))
                    == ScanStep::CompareFiles
            },
        },
{
    assert(at < left.len());
    match after_files(v) {
        Some(d) => ScanOutcome::Verdict(d),
        None => diff_dirs(left, right, at + 1),
    }
}

/// A scan of listings short enough to be held in memory computes the outcome
/// of the comparison: where it ends with a verdict,
/// that is the outcome; where it stops at two files, the outcome is what
/// their comparison decides, or else the outcome from the next position on.
pub proof fn lemma_scan_gives_verdict(
    l: Seq<Result<Entry, WalkFailure>>,
    r: Seq<Result<Entry, WalkFailure>>,
    files: spec_fn(int) -> Result<bool, IoFailure>,
    i: int,
)
    requires
        0 <= i,
        l.len() <= usize::MAX,
    ensures
        match scan_from(l, r, i) {
            ScanOutcome::Verdict(v) => subtree_verdict(l, r, files, i) == v,
            ScanOutcome::CompareFiles(k) => i <= k < l.len() && subtree_verdict(l, r, files, i)
                == (match files_step(files(k as int)) {
                Some(v) => v,
                None => subtree_verdict(l, r, files, k + 1),
            }),
        },
    decreases l.len() - i,
{
    match scan_step(item_at(l, i), item_at(r, i)) {
        ScanStep::Advance => {
            lemma_scan_gives_verdict(l, r, files, i + 1);
        },
        _ => {},
    }
}

/// A tree compared with itself is equal: where a listing holds no failure and
/// each of its regular files compares equal to itself, the comparison of the
/// listing against itself ends with `Equal`.
pub proof fn lemma_subtree_reflexive(
    s: Seq<Result<Entry, WalkFailure>>,
    files: spec_fn(int) -> Result<bool, IoFailure>,
    i: int,
)
    requires
        0 <= i,
        forall|k: int| 0 <= k < s.len() ==> s[k].is_ok(),
        forall|k: int|
            0 <= k < s.len() && s[k].unwrap().kind == FileKind::File ==> #[trigger] files(k) == Ok::<
                bool,
                IoFailure,
            >(true),
    ensures
        subtree_verdict(s, s, files, i) == Ok::<DiffResult, DirError>(DiffResult::Equal),
    decreases s.len() - i,
{
    if i < s.len() {
        assert(s[i].is_ok());
        lemma_same_iff_equal(s[i].unwrap().name@, s[i].unwrap().name@);
        if s[i].unwrap().kind == FileKind::File {
            assert(files(i) == Ok::<bool, IoFailure>(true));
        }
        lemma_subtree_reflexive(s, files, i + 1);
    }
}

/// Swapping the two trees does not change the outcome: where the file
/// comparisons `f` one way and `g` the other way agree in outcome, a verdict
/// one way is the same verdict the other way, and a failure one way is a
/// failure the other way (of which entry may differ).
pub proof fn lemma_subtree_symmetric(
    l: Seq<Result<Entry, WalkFailure>>,
    r: Seq<Result<Entry, WalkFailure>>,
    f: spec_fn(int) -> Result<bool, IoFailure>,
    g: spec_fn(int) -> Result<bool, IoFailure>,
    i: int,
)
    requires
        0 <= i,
        forall|k: int| #[trigger] f(k).is_ok() == g(k).is_ok(),
        forall|k: int| #[trigger] f(k).is_ok() ==> f(k) == g(k),
    ensures
        subtree_verdict(l, r, f, i).is_ok() == subtree_verdict(r, l, g, i).is_ok(),
        subtree_verdict(l, r, f, i).is_ok() ==> subtree_verdict(l, r, f, i) == subtree_verdict(
            r,
            l,
            g,
            i,
        ),
    decreases l.len() - i,
{
    if i < l.len() && i < r.len() && l[i].is_ok() && r[i].is_ok() {
        let a = l[i].unwrap();
        let b = r[i].unwrap();
        lemma_order_mirrors(a.name@, b.name@, 0);
        assert(f(i).is_ok() == g(i).is_ok());
        assert(f(i).is_ok() ==> f(i) == g(i));
        match scan_step(item_at(l, i), item_at(r, i)) {
            ScanStep::Verdict(_) => {},
            _ => {
                lemma_subtree_symmetric(l, r, f, g, i + 1);
            },
        }
    }
}

/// What one pair of pending items of the two top-level listings calls for.
#[derive(Clone, Copy, Debug, PartialEq, Eq, Structural)]
pub enum MergeAction {
    /// Both listings are exhausted.
    End,
    /// The left entry has no partner: it is reported and the left side moves on.
    Left,
    /// The right entry has no partner: it is reported and the right side moves on.
    Right,
    /// Both entries have one name: their subtrees are compared.
    Compare,
    /// The left item is a failure: it is reported and the left side moves on.
    LeftError,
    /// The right item is a failure: it is reported and the right side moves on.
    RightError,
}

/// The action that a pair of pending items calls for. Of two entries the one
/// whose name comes first is reported alone; a failure on the left goes
/// before anything on the right.
pub open spec fn merge_action(
    l: Option<Result<Entry, WalkFailure>>,
    r: Option<Result<Entry, WalkFailure>>,
) -> MergeAction {
    match (l, r) {
        (Some(Ok(a)), Some(Ok(b))) => match name_order(a.name@, b.name@) {
            NameOrder::Same => MergeAction::Compare,
            NameOrder::Before => MergeAction::Left,
            NameOrder::After => MergeAction::Right,
        },
        (Some(Ok(_)), None) => MergeAction::Left,
        (None, Some(Ok(_))) => MergeAction::Right,
        (Some(Err(_)), _) => MergeAction::LeftError,
        (_, Some(Err(_))) => MergeAction::RightError,
        (None, None) => MergeAction::End,
    }
}

/// Decides what a pair of pending items of the two listings calls for.
pub fn merge_pair(
    l: Option<&Result<Entry, WalkFailure>>,
    r: Option<&Result<Entry, WalkFailure>>,
) -> (act: MergeAction)
    ensures
        act == merge_action(owned(l), owned(r)),
{
    match (l, r) {
        (Some(Ok(a)), Some(Ok(b))) => match file_name_cmp(a, b) {
            NameOrder::Same => MergeAction::Compare,
            NameOrder::Before => MergeAction::Left,
            NameOrder::After => MergeAction::Right,
        },
        (Some(Ok(_)), None) => MergeAction::Left,
        (None, Some(Ok(_))) => MergeAction::Right,
        (Some(Err(_)), _) => MergeAction::LeftError,
        (_, Some(Err(_))) => MergeAction::RightError,
        (None, None) => MergeAction::End,
    }
}

/// The classification of two entries of one name, by their paths, given the
/// outcome of the comparison of their subtrees.
pub open spec fn classify(left: String, right: String, verdict: Result<DiffResult, DirError>) -> Result<
    TreeDiff,
    DirError,
> {
    match verdict {
        Ok(DiffResult::Equal) => Ok(TreeDiff::Matches(left, right)),
        Ok(DiffResult::NotEqual) => Ok(TreeDiff::Differs(left, right)),
        Err(e) => Err(e),
    }
}

/// Classifies two entries of one name, by their paths, given the outcome of
/// the comparison of their subtrees: `Matches` for `Equal`, `Differs` for
/// `NotEqual`, and a failure is handed on.
pub fn resolve_pair(left: String, right: String, verdict: Result<DiffResult, DirError>) -> (item:
    Result<TreeDiff, DirError>)
    ensures
        item == classify(left, right, verdict),
{
    match verdict {
        Ok(DiffResult::Equal) => Ok(TreeDiff::Matches(left, right)),
        Ok(DiffResult::NotEqual) => Ok(TreeDiff::Differs(left, right)),
        Err(e) => Err(e),
    }
}

/// What one pull of the merge gives.
#[derive(Debug, PartialEq, Eq)]
pub enum Step {
    /// Both listings are exhausted.
    End,
    /// The next item of the merged sequence.
    Yield(Result<TreeDiff, DirError>),
    /// Both pending entries have one name: the subtrees at these two paths
    /// are to be compared, and the outcome handed to `resolve`.
    Compare(String, String),
}

/// The merge of two sorted top-level listings: the listings and the position
/// of the pending item of each.
#[derive(Debug)]
pub struct TreeDiffIter {
    pub left: Vec<Result<Entry, WalkFailure>>,
    pub right: Vec<Result<Entry, WalkFailure>>,
    pub pos_left: usize,
    pub pos_right: usize,
}

/// What a pull gives for a pair of pending items.
pub open spec fn step_of(
    l: Option<Result<Entry, WalkFailure>>,
    r: Option<Result<Entry, WalkFailure>>,
) -> Step {
    match merge_action(l, r) {
        MergeAction::End => Step::End,
        MergeAction::Left => Step::Yield(Ok(TreeDiff::Left(l.unwrap().unwrap().path))),
        MergeAction::Right => Step::Yield(Ok(TreeDiff::Right(r.unwrap().unwrap().path))),
        MergeAction::Compare => Step::Compare(
            l.unwrap().unwrap().path,
            r.unwrap().unwrap().path,
        ),
        MergeAction::LeftError => Step::Yield(Err(DirError::Walk(l.unwrap().unwrap_err()))),
        MergeAction::RightError => Step::Yield(Err(DirError::Walk(r.unwrap().unwrap_err()))),
    }
}

/// What a pull gives with the pending items at positions `i` and `j`.
pub open spec fn step_at(
    l: Seq<Result<Entry, WalkFailure>>,
    r: Seq<Result<Entry, WalkFailure>>,
    i: int,
    j: int,
) -> Step {
    step_of(item_at(l, i), item_at(r, j))
}

/// Which sides move on after a pull: the side whose item was reported, and
/// both sides after two entries of one name, unless their comparison failed.
pub open spec fn moves(act: MergeAction, item_ok: bool) -> (bool, bool) {
    match act {
        MergeAction::End => (false, false),
        MergeAction::Left => (true, false),
        MergeAction::LeftError => (true, false),
        MergeAction::Right => (false, true),
        MergeAction::RightError => (false, true),
        MergeAction::Compare => (item_ok, item_ok),
    }
}

/// Pulls from a pair of pending items: the item to report, or the two paths
/// whose subtrees are to be compared and classified with `resolve_pair`.
pub fn merge_step(
    l: Option<&Result<Entry, WalkFailure>>,
    r: Option<&Result<Entry, WalkFailure>>,
) -> (step: Step)
    ensures
        step == step_of(owned(l), owned(r)),
{
    match (l, r) {
        (Some(Ok(a)), Some(Ok(b))) => match file_name_cmp(a, b) {
            NameOrder::Same => Step::Compare(a.path.clone(), b.path.clone()),
            NameOrder::Before => Step::Yield(Ok(TreeDiff::Left(a.path.clone()))),
            NameOrder::After => Step::Yield(Ok(TreeDiff::Right(b.path.clone()))),
        },
        (Some(Ok(a)), None) => Step::Yield(Ok(TreeDiff::Left(a.path.clone()))),
        (None, Some(Ok(b))) => Step::Yield(Ok(TreeDiff::Right(b.path.clone()))),
        (Some(Err(e)), _) => Step::Yield(Err(DirError::Walk(e.duplicate()))),
        (_, Some(Err(e))) => Step::Yield(Err(DirError::Walk(e.duplicate()))),
        (None, None) => Step::End,
    }
}

/// Says which of the two sides move on after the pull that `act` called for
/// gave an item that is `Ok` or not.
pub fn advances(act: MergeAction, item_ok: bool) -> (m: (bool, bool))
    ensures
        m == moves(act, item_ok),
{
    match act {
        MergeAction::End => (false, false),
        MergeAction::Left => (true, false),
        MergeAction::LeftError => (true, false),
        MergeAction::Right => (false, true),
        MergeAction::RightError => (false, true),
        MergeAction::Compare => (item_ok, item_ok),
    }
}

/// By how many items a pull moves the left side on.
pub open spec fn left_advance(act: MergeAction) -> int {
    if act == MergeAction::Left || act == MergeAction::LeftError {
        1
    } else {
        0
    }
}

/// By how many items a pull moves the right side on.
pub open spec fn right_advance(act: MergeAction) -> int {
    if act == MergeAction::Right || act == MergeAction::RightError {
        1
    } else {
        0
    }
}

/// The sequence that a consumer sees who pulls from positions `i` and `j` on
/// and stops at the first failure, where `subtrees(i, j)` is the outcome of
/// the comparison of the subtrees of the entries at `i` on the left and `j` on the
/// right.
pub open spec fn merged(
    l: Seq<Result<Entry, WalkFailure>>,
    r: Seq<Result<Entry, WalkFailure>>,
    subtrees: spec_fn(int, int) -> Result<DiffResult, DirError>,
    i: int,
    j: int,
) -> Seq<Result<TreeDiff, DirError>>
    decreases
            (if i < l.len() {
                l.len() - i
            } else {
                0
            }) + (if j < r.len() {
                r.len() - j
            } else {
                0
            }),
{
    match step_at(l, r, i, j) {
        Step::End => Seq::empty(),
        Step::Yield(Err(e)) => seq![Err(e)],
        Step::Yield(Ok(d)) => {
            let act = merge_action(item_at(l, i), item_at(r, j));
            if (0 <= i < l.len() && left_advance(act) == 1) || (0 <= j < r.len() && right_advance(
                act,
            ) == 1) {
                seq![Ok(d)] + merged(
                    l,
                    r,
                    subtrees,
                    i + left_advance(act),
                    j + right_advance(act),
                )
            } else {
                seq![Ok(d)]
            }
        },
        Step::Compare(_, _) => {
            let item = classify(l[i].unwrap().path, r[j].unwrap().path, subtrees(i, j));
            if item.is_ok() && 0 <= i < l.len() && 0 <= j < r.len() {
                seq![item] + merged(l, r, subtrees, i + 1, j + 1)
            } else {
                seq![item]
            }
        },
    }
}

/// Starts the merge of two top-level listings, each sorted by name.
pub fn diff_trees(
    left: Vec<Result<Entry, WalkFailure>>,
    right: Vec<Result<Entry, WalkFailure>>,
) -> (it: TreeDiffIter)
    ensures
        it.left == left,
        it.right == right,
        it.pos_left == 0,
        it.pos_right == 0,
{
    TreeDiffIter { left, right, pos_left: 0, pos_right: 0 }
}

/// The path of the entry at position `i` of a listing.
fn path_at(s: &Vec<Result<Entry, WalkFailure>>, i: usize) -> (p: String)
    requires
        i < s.len(),
        s@[i as int].is_ok(),
    ensures
        p == s@[i as int].unwrap().path,
{
    match &s[i] {
        Ok(e) => e.path.clone(),
        Err(_) => vstd::pervasive::unreached(),
    }
}

impl TreeDiffIter {
    /// The action that the two pending items call for.
    pub open spec fn action(&self) -> MergeAction {
        merge_action(
            item_at(self.left@, self.pos_left as int),
            item_at(self.right@, self.pos_right as int),
        )
    }

    /// What the two pending items call for.
    pub fn pending(&self) -> (act: MergeAction)
        ensures
            act == self.action(),
    {
        merge_pair(peek(&self.left, self.pos_left), peek(&self.right, self.pos_right))
    }

    /// Pulls the next item. An entry without a partner, or a failure, is
    /// reported and its side moves on. Two entries of one name give
    /// `Step::Compare` with their paths and leave the merge as it is: the
    /// item comes from `resolve`. Two exhausted listings give `Step::End`.
    pub fn next(&mut self) -> (step: Step)
        ensures
            step == step_at(
                old(self).left@,
                old(self).right@,
                old(self).pos_left as int,
                old(self).pos_right as int,
            ),
            final(self).left == old(self).left,
            final(self).right == old(self).right,
            final(self).pos_left == old(self).pos_left + left_advance(old(self).action()),
            final(self).pos_right == old(self).pos_right + right_advance(old(self).action()),
    {
        let act = self.pending();
        let step = merge_step(
            peek(&self.left, self.pos_left),
            peek(&self.right, self.pos_right),
        );
        let (left_moves, right_moves) = advances(act, false);
        if left_moves {
            assert(self.pos_left < self.left.len());
            self.pos_left = self.pos_left + 1;
        }
        if right_moves {
            assert(self.pos_right < self.right.len());
            self.pos_right = self.pos_right + 1;
        }
        step
    }

    /// Reports two pending entries of one name, given the outcome of the
    /// comparison of their subtrees: `Matches` for `Equal` and `Differs` for
    /// `NotEqual`, and both sides move on; a failure is handed on, and the
    /// merge stays as it is.
    pub fn resolve(&mut self, verdict: Result<DiffResult, DirError>) -> (item: Result<
        TreeDiff,
        DirError,
    >)
        requires
            old(self).action() == MergeAction::Compare,
        ensures
            item == classify(
                old(self).left@[old(self).pos_left as int].unwrap().path,
                old(self).right@[old(self).pos_right as int].unwrap().path,
                verdict,
            ),
            final(self).left == old(self).left,
            final(self).right == old(self).right,
            final(self).pos_left == old(self).pos_left + (if verdict.is_ok() {
                1int
            } else {
                0int
            }),
            final(self).pos_right == old(self).pos_right + (if verdict.is_ok() {
                1int
            } else {
                0int
            }),
    {
        let left = path_at(&self.left, self.pos_left);
        let right = path_at(&self.right, self.pos_right);
        let item = resolve_pair(left, right, verdict);
        let (left_moves, right_moves) = advances(MergeAction::Compare, item.is_ok());
        assert(self.pos_left < self.left.len() && self.pos_right < self.right.len());
        if left_moves {
            self.pos_left = self.pos_left + 1;
        }
        if right_moves {
            self.pos_right = self.pos_right + 1;
        }
        item
    }
}

/// The length in bytes of an entry's path.
pub open spec fn path_len(e: Entry) -> usize {
    vstd::utf8::encode_utf8(e.path@).len() as usize
}

/// The length in bytes of the longest path of a listing, or the first failure
/// that the listing holds. An empty listing gives 0.
pub fn longest_identifier(listing: &Vec<Result<Entry, WalkFailure>>) -> (r: Result<
    usize,
    WalkFailure,
>)
    ensures
        match r {
            Ok(m) => {
                &&& forall|k: int| 0 <= k < listing@.len() ==> listing@[k].is_ok()
                &&& forall|k: int|
                    0 <= k < listing@.len() ==> path_len(#[trigger] listing@[k].unwrap()) <= m
                &&& m == 0 || exists|k: int|
                    0 <= k < listing@.len() && path_len(#[trigger] listing@[k].unwrap()) == m
            },
            Err(e) => exists|k: int|
                {
                    &&& 0 <= k < listing@.len()
                    &&& #[trigger] listing@[k] == Err::<Entry, WalkFailure>(e)
                    &&& forall|j: int| 0 <= j < k ==> listing@[j].is_ok()
                },
        },
{
    let mut longest: usize = 0;
    let mut i: usize = 0;
    while i < listing.len()
        invariant
            i <= listing.len(),
            forall|k: int| 0 <= k < i ==> listing@[k].is_ok(),
            forall|k: int| 0 <= k < i ==> path_len(#[trigger] listing@[k].unwrap()) <= longest,
            longest == 0 || exists|k: int|
                0 <= k < i && path_len(#[trigger] listing@[k].unwrap()) == longest,
        decreases listing.len() - i,
    {
        match &listing[i] {
            Ok(e) => {
                let n: usize = e.path.as_str().len();
                if n > longest {
                    longest = n;
                }
                assert(path_len(listing@[i as int].unwrap()) == n);
            },
            Err(e) => {
                return Err(e.duplicate());
            },
        }
        i = i + 1;
    }
    Ok(longest)
}

/// The order of names is transitive: a name before a second one that is
/// before a third is before the third.
pub proof fn lemma_before_transitive(a: Seq<u8>, b: Seq<u8>, c: Seq<u8>, i: int)
    requires
        0 <= i,
        name_order_from(a, b, i) == NameOrder::Before,
        name_order_from(b, c, i) == NameOrder::Before,
    ensures
        name_order_from(a, c, i) == NameOrder::Before,
    decreases a.len() - i,
{
    if i < a.len() && i < b.len() && i < c.len() && a[i] == b[i] && b[i] == c[i] {
        lemma_before_transitive(a, b, c, i + 1);
    }
}

/// The name of the entry at position `k` of a listing.
pub open spec fn name_of(s: Seq<Result<Entry, WalkFailure>>, k: int) -> Seq<u8> {
    s[k].unwrap().name@
}

/// The merge of two listings that hold the same names, one by one, where
/// neither holds a failure and every pair of subtrees is equal, reports every
/// pair as `Matches` with the path of either side, one item per name and in
/// the order of the listings.
pub proof fn lemma_merge_same_names(
    l: Seq<Result<Entry, WalkFailure>>,
    r: Seq<Result<Entry, WalkFailure>>,
    subtrees: spec_fn(int, int) -> Result<DiffResult, DirError>,
    i: int,
)
    requires
        0 <= i <= l.len(),
        l.len() == r.len(),
        forall|k: int| 0 <= k < l.len() ==> l[k].is_ok() && r[k].is_ok(),
        forall|k: int| 0 <= k < l.len() ==> #[trigger] name_of(l, k) == name_of(r, k),
        forall|k: int|
            0 <= k < l.len() ==> #[trigger] subtrees(k, k) == Ok::<DiffResult, DirError>(
                DiffResult::Equal,
            ),
    ensures
        merged(l, r, subtrees, i, i).len() == l.len() - i,
        forall|k: int|
            0 <= k < l.len() - i ==> #[trigger] merged(l, r, subtrees, i, i)[k] == Ok::<
                TreeDiff,
                DirError,
            >(TreeDiff::Matches(l[i + k].unwrap().path, r[i + k].unwrap().path)),
    decreases l.len() - i,
{
    if i < l.len() {
        assert(l[i].is_ok() && r[i].is_ok());
        assert(name_of(l, i) == name_of(r, i));
        lemma_same_iff_equal(name_of(l, i), name_of(r, i));
        assert(subtrees(i, i) == Ok::<DiffResult, DirError>(DiffResult::Equal));
        lemma_merge_same_names(l, r, subtrees, i + 1);
        let rest = merged(l, r, subtrees, i + 1, i + 1);
        let head = Ok::<TreeDiff, DirError>(
            TreeDiff::Matches(l[i].unwrap().path, r[i].unwrap().path),
        );
        assert(merged(l, r, subtrees, i, i) == seq![head] + rest);
        assert forall|k: int| 0 <= k < l.len() - i implies #[trigger] merged(
            l,
            r,
            subtrees,
            i,
            i,
        )[k] == Ok::<TreeDiff, DirError>(
            TreeDiff::Matches(l[i + k].unwrap().path, r[i + k].unwrap().path),
        ) by {
            if k > 0 {
                assert((seq![head] + rest)[k] == rest[k - 1]);
            }
        }
    }
}

/// Only the last item of the merged sequence can be a failure: every item
/// before the last is a classification.
pub proof fn lemma_failure_comes_last(
    l: Seq<Result<Entry, WalkFailure>>,
    r: Seq<Result<Entry, WalkFailure>>,
    subtrees: spec_fn(int, int) -> Result<DiffResult, DirError>,
    i: int,
    j: int,
)
    ensures
        forall|k: int|
            0 <= k < merged(l, r, subtrees, i, j).len() - 1 ==> (#[trigger] merged(
                l,
                r,
                subtrees,
                i,
                j,
            )[k]).is_ok(),
    decreases
            (if i < l.len() {
                l.len() - i
            } else {
                0
            }) + (if j < r.len() {
                r.len() - j
            } else {
                0
            }),
{
    let m = merged(l, r, subtrees, i, j);
    let act = merge_action(item_at(l, i), item_at(r, j));
    match step_at(l, r, i, j) {
        Step::Yield(Ok(d)) => {
            if (0 <= i < l.len() && left_advance(act) == 1) || (0 <= j < r.len() && right_advance(
                act,
            ) == 1) {
                let rest = merged(l, r, subtrees, i + left_advance(act), j + right_advance(act));
                lemma_failure_comes_last(
                    l,
                    r,
                    subtrees,
                    i + left_advance(act),
                    j + right_advance(act),
                );
                assert(m == seq![Ok::<TreeDiff, DirError>(d)] + rest);
                assert forall|k: int| 0 <= k < m.len() - 1 implies (#[trigger] m[k]).is_ok() by {
                    if k > 0 {
                        assert(m[k] == rest[k - 1]);
                    }
                }
            }
        },
        Step::Compare(_, _) => {
            let item = classify(l[i].unwrap().path, r[j].unwrap().path, subtrees(i, j));
            if item.is_ok() && 0 <= i < l.len() && 0 <= j < r.len() {
                let rest = merged(l, r, subtrees, i + 1, j + 1);
                lemma_failure_comes_last(l, r, subtrees, i + 1, j + 1);
                assert(m == seq![item] + rest);
                assert forall|k: int| 0 <= k < m.len() - 1 implies (#[trigger] m[k]).is_ok() by {
                    if k > 0 {
                        assert(m[k] == rest[k - 1]);
                    }
                }
            }
        },
        _ => {},
    }
}

/// A listing whose first `n` items are entries with strictly ascending names,
/// and which either ends there or holds its first failure there.
pub open spec fn sorted_before(s: Seq<Result<Entry, WalkFailure>>, n: int) -> bool {
    &&& 0 <= n <= s.len()
    &&& forall|k: int| 0 <= k < n ==> (#[trigger] s[k]).is_ok()
    &&& n < s.len() ==> s[n].is_err()
    &&& forall|a: int, b: int|
        0 <= a < b < n ==> name_order(#[trigger] name_of(s, a), #[trigger] name_of(s, b))
            == NameOrder::Before
}

/// The two positions are in step: every entry that either side has passed
/// comes before the pending entry of the other side.
pub open spec fn in_step(
    l: Seq<Result<Entry, WalkFailure>>,
    r: Seq<Result<Entry, WalkFailure>>,
    i: int,
    j: int,
) -> bool {
    &&& 0 <= i <= l.len()
    &&& 0 <= j <= r.len()
    &&& forall|k: int|
        0 <= k < j && i < l.len() && l[i].is_ok() ==> name_order(
            #[trigger] name_of(r, k),
            name_of(l, i),
        ) == NameOrder::Before
    &&& forall|k: int|
        0 <= k < i && j < r.len() && r[j].is_ok() ==> name_order(
            #[trigger] name_of(l, k),
            name_of(r, j),
        ) == NameOrder::Before
}

/// The merge of two sorted listings classifies soundly up to the first
/// failure of either. Let `nl` and `nr` be where the listings end or first
/// fail. While the positions are in step, which they are at the start, an
/// entry reported for one side alone has no entry of its name on the other
/// side before `nl` or `nr`, two entries are compared only under one name,
/// the positions after the pull are in step again, a failure is reported
/// only at `nl` or `nr`, and the merge ends only where both listings end.
pub proof fn lemma_merge_step_sound(
    l: Seq<Result<Entry, WalkFailure>>,
    r: Seq<Result<Entry, WalkFailure>>,
    nl: int,
    nr: int,
    i: int,
    j: int,
)
    requires
        sorted_before(l, nl),
        sorted_before(r, nr),
        i <= nl,
        j <= nr,
        in_step(l, r, i, j),
    ensures
        in_step(l, r, 0, 0),
        match merge_action(item_at(l, i), item_at(r, j)) {
            MergeAction::Left => {
                &&& i < nl
                &&& forall|k: int|
                    0 <= k < nr ==> name_order(name_of(l, i), #[trigger] name_of(r, k))
                        != NameOrder::Same
                &&& in_step(l, r, i + 1, j)
            },
            MergeAction::Right => {
                &&& j < nr
                &&& forall|k: int|
                    0 <= k < nl ==> name_order(#[trigger] name_of(l, k), name_of(r, j))
                        != NameOrder::Same
                &&& in_step(l, r, i, j + 1)
            },
            MergeAction::Compare => {
                &&& i < nl
                &&& j < nr
                &&& name_of(l, i) == name_of(r, j)
                &&& in_step(l, r, i + 1, j + 1)
            },
            MergeAction::End => i == l.len() && j == r.len(),
            MergeAction::LeftError => i == nl && nl < l.len(),
            MergeAction::RightError => j == nr && nr < r.len(),
        },
{
    if i < l.len() && i < nl {
        assert(l[i].is_ok());
    }
    if j < r.len() && j < nr {
        assert(r[j].is_ok());
    }
    if i + 1 < l.len() && i + 1 < nl {
        assert(l[i + 1].is_ok());
    }
    if j + 1 < r.len() && j + 1 < nr {
        assert(r[j + 1].is_ok());
    }
    match merge_action(item_at(l, i), item_at(r, j)) {
        MergeAction::Left => {
            let x = name_of(l, i);
            assert forall|k: int| 0 <= k < nr implies name_order(x, #[trigger] name_of(r, k))
                != NameOrder::Same by {
                let y = name_of(r, k);
                if k < j {
                    lemma_order_mirrors(y, x, 0);
                } else if k > j {
                    lemma_before_transitive(x, name_of(r, j), y, 0);
                }
            }
            assert forall|k: int| 0 <= k < j && i + 1 < l.len() && l[i + 1].is_ok() implies name_order(
                #[trigger] name_of(r, k),
                name_of(l, i + 1),
            ) == NameOrder::Before by {
                lemma_before_transitive(name_of(r, k), x, name_of(l, i + 1), 0);
            }
        },
        MergeAction::Right => {
            let y = name_of(r, j);
            assert forall|k: int| 0 <= k < nl implies name_order(#[trigger] name_of(l, k), y)
                != NameOrder::Same by {
                let x = name_of(l, k);
                if k > i {
                    lemma_order_mirrors(name_of(l, i), y, 0);
                    lemma_before_transitive(y, name_of(l, i), x, 0);
                    lemma_order_mirrors(y, x, 0);
                }
            }
            if i < nl {
                lemma_order_mirrors(name_of(l, i), y, 0);
            }
            assert forall|k: int| 0 <= k < i && j + 1 < r.len() && r[j + 1].is_ok() implies name_order(
                #[trigger] name_of(l, k),
                name_of(r, j + 1),
            ) == NameOrder::Before by {
                lemma_before_transitive(name_of(l, k), y, name_of(r, j + 1), 0);
            }
        },
        MergeAction::Compare => {
            let x = name_of(l, i);
            lemma_same_iff_equal(x, name_of(r, j));
            assert forall|k: int|
                0 <= k < j + 1 && i + 1 < l.len() && l[i + 1].is_ok() implies name_order(
                #[trigger] name_of(r, k),
                name_of(l, i + 1),
            ) == NameOrder::Before by {
                if k < j {
                    lemma_before_transitive(name_of(r, k), x, name_of(l, i + 1), 0);
                }
            }
            assert forall|k: int|
                0 <= k < i + 1 && j + 1 < r.len() && r[j + 1].is_ok() implies name_order(
                #[trigger] name_of(l, k),
                name_of(r, j + 1),
            ) == NameOrder::Before by {
                if k < i {
                    lemma_before_transitive(name_of(l, k), x, name_of(r, j + 1), 0);
                }
            }
        },
        _ => {},
    }
}

/// Whether the entries at position `k` of two listings agree: they stand at
/// the same place, have one type and, where they are regular files, their
/// contents compare as equal.
pub open spec fn pair_agrees(
    l: Seq<Result<Entry, WalkFailure>>,
    r: Seq<Result<Entry, WalkFailure>>,
    files: spec_fn(int) -> Result<bool, IoFailure>,
    k: int,
) -> bool {
    let a = l[k].unwrap();
    let b = r[k].unwrap();
    same_place(a, b) && a.kind == b.kind && (a.kind == FileKind::File ==> files(k) == Ok::<
        bool,
        IoFailure,
    >(true))
}

/// Whether two listings are equally long and agree at every position from
/// `i` on.
pub open spec fn agree_from(
    l: Seq<Result<Entry, WalkFailure>>,
    r: Seq<Result<Entry, WalkFailure>>,
    files: spec_fn(int) -> Result<bool, IoFailure>,
    i: int,
) -> bool {
    &&& l.len() == r.len()
    &&& forall|k: int| i <= k < l.len() ==> #[trigger] pair_agrees(l, r, files, k)
}

/// Where nothing fails, the comparison of two subtrees gives `Equal` exactly
/// when the two listings hold equally many entries and agree at every
/// position, and `NotEqual` otherwise.
pub proof fn lemma_subtree_equal_iff(
    l: Seq<Result<Entry, WalkFailure>>,
    r: Seq<Result<Entry, WalkFailure>>,
    files: spec_fn(int) -> Result<bool, IoFailure>,
    i: int,
)
    requires
        0 <= i <= l.len(),
        i <= r.len(),
        forall|k: int| 0 <= k < l.len() ==> (#[trigger] l[k]).is_ok(),
        forall|k: int| 0 <= k < r.len() ==> (#[trigger] r[k]).is_ok(),
        forall|k: int| 0 <= k < l.len() ==> (#[trigger] files(k)).is_ok(),
    ensures
        subtree_verdict(l, r, files, i) == Ok::<DiffResult, DirError>(
            if agree_from(l, r, files, i) {
                DiffResult::Equal
            } else {
                DiffResult::NotEqual
            },
        ),
    decreases l.len() - i,
{
    if i < l.len() && i < r.len() {
        assert(l[i].is_ok() && r[i].is_ok() && files(i).is_ok());
        if pair_agrees(l, r, files, i) {
            lemma_subtree_equal_iff(l, r, files, i + 1);
            if agree_from(l, r, files, i + 1) {
                assert forall|k: int| i <= k < l.len() implies #[trigger] pair_agrees(
                    l,
                    r,
                    files,
                    k,
                ) by {
                    if k > i {
                        assert(pair_agrees(l, r, files, k));
                    }
                }
            } else if agree_from(l, r, files, i) {
                assert forall|k: int| i + 1 <= k < l.len() implies #[trigger] pair_agrees(
                    l,
                    r,
                    files,
                    k,
                ) by {}
            }
        } else {
            if agree_from(l, r, files, i) {
                assert(pair_agrees(l, r, files, i));
            }
        }
    } else if i < l.len() {
        assert(l[i].is_ok());
    } else if i < r.len() {
        assert(r[i].is_ok());
    }
}

/// The position of the directory that holds the entry at `k`: the nearest
/// entry before `j` that lies one level higher, or -1 where there is none.
pub open spec fn parent_before(s: Seq<Result<Entry, WalkFailure>>, k: int, j: int) -> int
    decreases j,
{
    if j <= 0 {
        -1
    } else if s[j - 1].unwrap().depth + 1 == s[k].unwrap().depth {
        j - 1
    } else {
        parent_before(s, k, j - 1)
    }
}

/// The path of the entry at `k` relative to the root of a walk that lists
/// every directory before what it holds: the names from the root down to the
/// entry, the root's own name left out.
pub open spec fn relative_path(s: Seq<Result<Entry, WalkFailure>>, k: int) -> Seq<Seq<u8>>
    decreases k,
{
    if s[k].unwrap().depth == 0 {
        Seq::empty()
    } else {
        let p = parent_before(s, k, k);
        if 0 <= p < k {
            relative_path(s, p).push(name_of(s, k))
        } else {
            seq![name_of(s, k)]
        }
    }
}

/// Listings whose entries stand pairwise at the same place up to `k` give
/// the entry at `k` the same parent.
pub proof fn lemma_same_parent(
    l: Seq<Result<Entry, WalkFailure>>,
    r: Seq<Result<Entry, WalkFailure>>,
    k: int,
    j: int,
)
    requires
        0 <= j <= k < l.len(),
        k < r.len(),
        forall|m: int| 0 <= m <= k ==> same_place((#[trigger] l[m]).unwrap(), r[m].unwrap()),
    ensures
        parent_before(l, k, j) == parent_before(r, k, j),
        -1 <= parent_before(l, k, j) < j,
    decreases j,
{
    if j > 0 {
        assert(same_place(l[j - 1].unwrap(), r[j - 1].unwrap()));
        assert(same_place(l[k].unwrap(), r[k].unwrap()));
        lemma_same_parent(l, r, k, j - 1);
    }
}

/// Two trees that the comparison finds equal hold the same relative paths:
/// where the entries of two listings stand pairwise at the same place up to
/// `k`, the entries at `k` have the same path relative to their roots.
pub proof fn lemma_same_relative_path(
    l: Seq<Result<Entry, WalkFailure>>,
    r: Seq<Result<Entry, WalkFailure>>,
    k: int,
)
    requires
        0 <= k < l.len(),
        k < r.len(),
        forall|m: int| 0 <= m <= k ==> same_place((#[trigger] l[m]).unwrap(), r[m].unwrap()),
    ensures
        relative_path(l, k) == relative_path(r, k),
    decreases k,
{
    assert(same_place(l[k].unwrap(), r[k].unwrap()));
    if l[k].unwrap().depth > 0 {
        lemma_same_iff_equal(name_of(l, k), name_of(r, k));
        lemma_same_parent(l, r, k, k);
        let p = parent_before(l, k, k);
        if 0 <= p < k {
            lemma_same_relative_path(l, r, p);
        }
    }
}

/// The entry at `a` of `s` has no entry of its name among the first `n`
/// entries of `other`.
pub open spec fn unmatched(
    s: Seq<Result<Entry, WalkFailure>>,
    a: int,
    other: Seq<Result<Entry, WalkFailure>>,
    n: int,
) -> bool {
    forall|b: int|
        0 <= b < n ==> name_order(name_of(s, a), #[trigger] name_of(other, b)) != NameOrder::Same
}

/// The entries at `a` on the left and `b` on the right have one name, the
/// paths `p` and `q`, and subtrees that compare as `verdict`.
pub open spec fn matched(
    l: Seq<Result<Entry, WalkFailure>>,
    r: Seq<Result<Entry, WalkFailure>>,
    subtrees: spec_fn(int, int) -> Result<DiffResult, DirError>,
    a: int,
    b: int,
    p: String,
    q: String,
    verdict: DiffResult,
) -> bool {
    &&& l[a].unwrap().path == p
    &&& r[b].unwrap().path == q
    &&& name_of(l, a) == name_of(r, b)
    &&& subtrees(a, b) == Ok::<DiffResult, DirError>(verdict)
}

/// The entry at `a` has the path `p`.
pub open spec fn has_path(s: Seq<Result<Entry, WalkFailure>>, a: int, p: String) -> bool {
    s[a].unwrap().path == p
}

/// Some entry among the first `n` of `s` has the path `p` and no entry of its
/// name among the first `m` of `other`.
pub open spec fn alone_on_its_side(
    s: Seq<Result<Entry, WalkFailure>>,
    n: int,
    other: Seq<Result<Entry, WalkFailure>>,
    m: int,
    p: String,
) -> bool {
    exists|a: int| 0 <= a < n && #[trigger] has_path(s, a, p) && unmatched(s, a, other, m)
}

/// Some pair of entries before `nl` and `nr` has one name, the paths `p` and
/// `q`, and subtrees that compare as `verdict`.
pub open spec fn paired(
    l: Seq<Result<Entry, WalkFailure>>,
    r: Seq<Result<Entry, WalkFailure>>,
    nl: int,
    nr: int,
    subtrees: spec_fn(int, int) -> Result<DiffResult, DirError>,
    p: String,
    q: String,
    verdict: DiffResult,
) -> bool {
    exists|a: int, b: int|
        0 <= a < nl && 0 <= b < nr && #[trigger] matched(l, r, subtrees, a, b, p, q, verdict)
}

/// A classification is right for two listings that are sorted up to `nl` and
/// `nr`: an entry reported for one side alone is an entry of that side with
/// no entry of its name on the other side, and a pair reported as matching or
/// differing is a pair of entries of one name whose subtrees compare so.
pub open spec fn sound_item(
    l: Seq<Result<Entry, WalkFailure>>,
    r: Seq<Result<Entry, WalkFailure>>,
    nl: int,
    nr: int,
    subtrees: spec_fn(int, int) -> Result<DiffResult, DirError>,
    d: TreeDiff,
) -> bool {
    match d {
        TreeDiff::Left(p) => alone_on_its_side(l, nl, r, nr, p),
        TreeDiff::Right(q) => alone_on_its_side(r, nr, l, nl, q),
        TreeDiff::Matches(p, q) => paired(l, r, nl, nr, subtrees, p, q, DiffResult::Equal),
        TreeDiff::Differs(p, q) => paired(l, r, nl, nr, subtrees, p, q, DiffResult::NotEqual),
    }
}

/// Every classification that the merge of two sorted listings gives is
/// right, also where a listing or a comparison fails later: the items before
/// the failure stand.
pub proof fn lemma_merged_sound(
    l: Seq<Result<Entry, WalkFailure>>,
    r: Seq<Result<Entry, WalkFailure>>,
    nl: int,
    nr: int,
    subtrees: spec_fn(int, int) -> Result<DiffResult, DirError>,
    i: int,
    j: int,
)
    requires
        sorted_before(l, nl),
        sorted_before(r, nr),
        i <= nl,
        j <= nr,
        in_step(l, r, i, j),
    ensures
        forall|k: int|
            0 <= k < merged(l, r, subtrees, i, j).len() && (#[trigger] merged(
                l,
                r,
                subtrees,
                i,
                j,
            )[k]).is_ok() ==> sound_item(
                l,
                r,
                nl,
                nr,
                subtrees,
                merged(l, r, subtrees, i, j)[k].unwrap(),
            ),
    decreases
            (if i < l.len() {
                l.len() - i
            } else {
                0
            }) + (if j < r.len() {
                r.len() - j
            } else {
                0
            }),
{
    let m = merged(l, r, subtrees, i, j);
    let act = merge_action(item_at(l, i), item_at(r, j));
    lemma_merge_step_sound(l, r, nl, nr, i, j);
    match act {
        MergeAction::Left => {
            let head = TreeDiff::Left(l[i].unwrap().path);
            let rest = merged(l, r, subtrees, i + 1, j);
            lemma_merged_sound(l, r, nl, nr, subtrees, i + 1, j);
            assert(m == seq![Ok::<TreeDiff, DirError>(head)] + rest);
            assert(has_path(l, i, l[i].unwrap().path) && unmatched(l, i, r, nr));
            assert(alone_on_its_side(l, nl, r, nr, l[i].unwrap().path));
            assert(sound_item(l, r, nl, nr, subtrees, head));
            assert forall|k: int| 0 <= k < m.len() && (#[trigger] m[k]).is_ok() implies sound_item(
                l,
                r,
                nl,
                nr,
                subtrees,
                m[k].unwrap(),
            ) by {
                if k > 0 {
                    assert(m[k] == rest[k - 1]);
                }
            }
        },
        MergeAction::Right => {
            let head = TreeDiff::Right(r[j].unwrap().path);
            let rest = merged(l, r, subtrees, i, j + 1);
            lemma_merged_sound(l, r, nl, nr, subtrees, i, j + 1);
            assert(m == seq![Ok::<TreeDiff, DirError>(head)] + rest);
            assert forall|b: int| 0 <= b < nl implies name_order(
                name_of(r, j),
                #[trigger] name_of(l, b),
            ) != NameOrder::Same by {
                lemma_order_mirrors(name_of(l, b), name_of(r, j), 0);
            }
            assert(has_path(r, j, r[j].unwrap().path) && unmatched(r, j, l, nl));
            assert(alone_on_its_side(r, nr, l, nl, r[j].unwrap().path));
            assert(sound_item(l, r, nl, nr, subtrees, head));
            assert forall|k: int| 0 <= k < m.len() && (#[trigger] m[k]).is_ok() implies sound_item(
                l,
                r,
                nl,
                nr,
                subtrees,
                m[k].unwrap(),
            ) by {
                if k > 0 {
                    assert(m[k] == rest[k - 1]);
                }
            }
        },
        MergeAction::Compare => {
            let p = l[i].unwrap().path;
            let q = r[j].unwrap().path;
            let item = classify(p, q, subtrees(i, j));
            if item.is_ok() {
                let rest = merged(l, r, subtrees, i + 1, j + 1);
                lemma_merged_sound(l, r, nl, nr, subtrees, i + 1, j + 1);
                assert(m == seq![item] + rest);
                assert(matched(l, r, subtrees, i, j, p, q, subtrees(i, j).unwrap()));
                assert(paired(l, r, nl, nr, subtrees, p, q, subtrees(i, j).unwrap()));
                assert(sound_item(l, r, nl, nr, subtrees, item.unwrap()));
                assert forall|k: int|
                    0 <= k < m.len() && (#[trigger] m[k]).is_ok() implies sound_item(
                    l,
                    r,
                    nl,
                    nr,
                    subtrees,
                    m[k].unwrap(),
                ) by {
                    if k > 0 {
                        assert(m[k] == rest[k - 1]);
                    }
                }
            }
        },
        _ => {},
    }
}

} // verus!
