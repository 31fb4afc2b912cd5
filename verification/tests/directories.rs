use dfu_core::directories::{
    advances, after_files, diff_dirs, diff_dirs_resume, diff_trees, file_name_cmp,
    longest_identifier, merge_pair, merge_step, order_names, resolve_pair, scan_pair, DiffResult,
    DirError, Entry, FileKind, MergeAction, NameOrder, ScanOutcome, ScanStep, Step, TreeDiff,
    WalkFailure,
};
use dfu_core::files::{file_contents_equal, IoFailure};

type Item = Result<Entry, WalkFailure>;

/// One object of a tree held in memory: its path below the root, its type and,
/// for a regular file, its content.
#[derive(Clone)]
struct Node {
    path: &'static str,
    kind: FileKind,
    content: &'static str,
    unreadable: bool,
}

fn dir(path: &'static str) -> Node {
    Node { path, kind: FileKind::Dir, content: "", unreadable: false }
}

fn file(path: &'static str, content: &'static str) -> Node {
    Node { path, kind: FileKind::File, content, unreadable: false }
}

fn unreadable(path: &'static str) -> Node {
    Node { path, kind: FileKind::Dir, content: "", unreadable: true }
}

fn last(path: &str) -> Vec<u8> {
    path.rsplit('/').next().unwrap().as_bytes().to_vec()
}

fn levels(path: &str) -> usize {
    path.split('/').count()
}

/// The item for a node in a walk whose root lies `base` levels below the tree's root.
fn item_below(root: &str, n: &Node, base: usize) -> Item {
    let path = format!("{}/{}", root, n.path);
    if n.unreadable {
        Err(WalkFailure { path, message: "permission denied".to_string() })
    } else {
        Ok(Entry { name: last(n.path), path, depth: levels(n.path) - base, kind: n.kind })
    }
}

fn item(root: &str, n: &Node) -> Item {
    item_below(root, n, 0)
}

/// The children of the root, in the order of the nodes.
fn top_level(root: &str, nodes: &[Node]) -> Vec<Item> {
    nodes.iter().filter(|n| !n.path.contains('/')).map(|n| item(root, n)).collect()
}

/// The node `top` and all below it, in the order of the nodes.
fn below(root: &str, nodes: &[Node], top: &str) -> (Vec<Item>, Vec<Node>) {
    let prefix = format!("{}/", top);
    let kept: Vec<Node> = nodes
        .iter()
        .filter(|n| n.path == top || n.path.starts_with(&prefix))
        .cloned()
        .collect();
    (kept.iter().map(|n| item_below(root, n, levels(top))).collect(), kept)
}

fn bytes(text: &str) -> Vec<Result<u8, IoFailure>> {
    text.bytes().map(Ok).collect()
}

fn compare(l: &(Vec<Item>, Vec<Node>), r: &(Vec<Item>, Vec<Node>)) -> Result<DiffResult, DirError> {
    let mut out = diff_dirs(&l.0, &r.0, 0);
    loop {
        match out {
            ScanOutcome::Verdict(v) => return v,
            ScanOutcome::CompareFiles(k) => {
                let (a, b) = (l.1[k].content, r.1[k].content);
                let same = file_contents_equal(a.len() as u64, b.len() as u64, &bytes(a), &bytes(b));
                out = diff_dirs_resume(&l.0, &r.0, k, same);
            }
        }
    }
}

fn top_of(path: &str) -> &str {
    path.split('/').nth(1).unwrap()
}

/// Pulls the merge of two trees to its end, or to the first failure.
fn run(a: &[Node], b: &[Node]) -> Vec<Result<TreeDiff, DirError>> {
    let mut it = diff_trees(top_level("A", a), top_level("B", b));
    let mut seen = Vec::new();
    loop {
        let next = match it.next() {
            Step::End => break,
            Step::Yield(item) => item,
            Step::Compare(l, r) => {
                assert_eq!(it.pending(), MergeAction::Compare);
                let verdict = compare(&below("A", a, top_of(&l)), &below("B", b, top_of(&r)));
                it.resolve(verdict)
            }
        };
        let stop = next.is_err();
        seen.push(next);
        if stop {
            break;
        }
    }
    seen
}

#[test]
fn diff_trees_sample() {
    let tree = [dir("p1"), file("p1/README.txt", "x"), dir("p2"), file("p2/f", "y")];
    let mut seen = 0;
    for res in run(&tree, &tree) {
        match res {
            Ok(td) => {
                println!("{:?}", td);
                seen += 1;
            }
            Err(e) => {
                println!("ERROR: Encountered an error while scanning directories:");
                println!("  {:?}", e);
                println!("Aborting directory scan.");
                break;
            }
        }
    }
    assert_eq!(seen, 2);
}

#[test]
fn identical_trees_give_matches_only() {
    let tree = [
        dir("a"),
        file("a/one", "1"),
        file("b", "content"),
        dir("c"),
        dir("c/d"),
        file("c/d/e", "deep"),
    ];
    assert_eq!(
        run(&tree, &tree),
        vec![
            Ok(TreeDiff::Matches("A/a".into(), "B/a".into())),
            Ok(TreeDiff::Matches("A/b".into(), "B/b".into())),
            Ok(TreeDiff::Matches("A/c".into(), "B/c".into())),
        ]
    );
}

#[test]
fn a_child_of_the_right_side_only() {
    let a = [dir("p1"), file("p1/README.txt", "x")];
    let b = [dir("p1"), file("p1/README.txt", "x"), dir("p2"), file("p2/f", "y")];
    assert_eq!(
        run(&a, &b),
        vec![
            Ok(TreeDiff::Matches("A/p1".into(), "B/p1".into())),
            Ok(TreeDiff::Right("B/p2".into())),
        ]
    );
    assert_eq!(
        run(&b, &a),
        vec![
            Ok(TreeDiff::Matches("A/p1".into(), "B/p1".into())),
            Ok(TreeDiff::Left("A/p2".into())),
        ]
    );
}

#[test]
fn a_changed_file_makes_the_child_differ() {
    let a = [dir("p1"), file("p1/a.txt", "x")];
    let b = [dir("p1"), file("p1/a.txt", "y")];
    assert_eq!(run(&a, &b), vec![Ok(TreeDiff::Differs("A/p1".into(), "B/p1".into()))]);
}

#[test]
fn an_empty_left_root() {
    let b = [dir("only"), file("only/f", "")];
    assert_eq!(run(&[], &b), vec![Ok(TreeDiff::Right("B/only".into()))]);
    assert!(run(&[], &[]).is_empty());
}

#[test]
fn names_interleave_in_ascending_order() {
    let a = [dir("a"), dir("c"), dir("e")];
    let b = [dir("b"), dir("c"), dir("d")];
    assert_eq!(
        run(&a, &b),
        vec![
            Ok(TreeDiff::Left("A/a".into())),
            Ok(TreeDiff::Right("B/b".into())),
            Ok(TreeDiff::Matches("A/c".into(), "B/c".into())),
            Ok(TreeDiff::Right("B/d".into())),
            Ok(TreeDiff::Left("A/e".into())),
        ]
    );
}

#[test]
fn an_unreadable_child_ends_the_sequence_with_one_failure() {
    let a = [dir("a"), dir("b"), unreadable("c"), dir("d")];
    let b = [dir("a"), dir("c"), dir("d")];
    assert_eq!(
        run(&a, &b),
        vec![
            Ok(TreeDiff::Matches("A/a".into(), "B/a".into())),
            Ok(TreeDiff::Left("A/b".into())),
            Err(DirError::Walk(WalkFailure {
                path: "A/c".into(),
                message: "permission denied".into(),
            })),
        ]
    );
}

#[test]
fn a_failure_below_a_matched_name_is_handed_on_and_nothing_moves() {
    let a = [dir("a"), unreadable("a/x")];
    let b = [dir("a"), dir("a/x")];
    let mut it = diff_trees(top_level("A", &a), top_level("B", &b));
    assert_eq!(it.next(), Step::Compare("A/a".into(), "B/a".into()));
    let verdict = compare(&below("A", &a, "a"), &below("B", &b, "a"));
    let failure = DirError::Walk(WalkFailure {
        path: "A/a/x".into(),
        message: "permission denied".into(),
    });
    assert_eq!(verdict, Err(failure.clone()));
    assert_eq!(it.resolve(verdict), Err(failure));
    assert_eq!(it.pos_left, 0);
    assert_eq!(it.pos_right, 0);
    assert_eq!(it.resolve(Ok(DiffResult::NotEqual)), Ok(TreeDiff::Differs("A/a".into(), "B/a".into())));
    assert_eq!(it.next(), Step::End);
}

#[test]
fn a_failure_on_the_right_moves_the_right_side_on() {
    let a = [dir("a")];
    let b = [unreadable("a"), dir("b")];
    let mut it = diff_trees(top_level("A", &a), top_level("B", &b));
    assert_eq!(it.pending(), MergeAction::RightError);
    assert!(matches!(it.next(), Step::Yield(Err(DirError::Walk(_)))));
    assert_eq!(it.pos_left, 0);
    assert_eq!(it.pos_right, 1);
    assert_eq!(it.next(), Step::Yield(Ok(TreeDiff::Left("A/a".into()))));
}

#[test]
fn a_tree_equals_itself() {
    let tree = [dir("r"), dir("r/a"), file("r/a/f", "data"), file("r/g", "")];
    let t = below("A", &tree, "r");
    assert_eq!(compare(&t, &t), Ok(DiffResult::Equal));
}

#[test]
fn subtree_comparison_is_symmetric() {
    let a = [dir("r"), file("r/f", "one")];
    let b = [dir("r"), file("r/f", "two")];
    let c = [dir("r"), file("r/f", "one"), file("r/g", "more")];
    let (ta, tb, tc) = (below("A", &a, "r"), below("B", &b, "r"), below("B", &c, "r"));
    assert_eq!(compare(&ta, &tb), Ok(DiffResult::NotEqual));
    assert_eq!(compare(&tb, &ta), Ok(DiffResult::NotEqual));
    assert_eq!(compare(&ta, &tc), Ok(DiffResult::NotEqual));
    assert_eq!(compare(&tc, &ta), Ok(DiffResult::NotEqual));
}

#[test]
fn a_type_mismatch_is_not_equal() {
    let a = [dir("r"), dir("r/x")];
    let b = [dir("r"), file("r/x", "")];
    assert_eq!(compare(&below("A", &a, "r"), &below("B", &b, "r")), Ok(DiffResult::NotEqual));
}

#[test]
fn a_scan_stops_at_the_first_pair_of_files() {
    let a = [dir("r"), dir("r/d"), file("r/f", "same"), file("r/g", "x")];
    let l = below("A", &a, "r").0;
    let r = below("B", &a, "r").0;
    assert_eq!(diff_dirs(&l, &r, 0), ScanOutcome::CompareFiles(2));
    assert_eq!(diff_dirs_resume(&l, &r, 2, Ok(true)), ScanOutcome::CompareFiles(3));
    assert_eq!(
        diff_dirs_resume(&l, &r, 2, Ok(false)),
        ScanOutcome::Verdict(Ok(DiffResult::NotEqual))
    );
    assert_eq!(diff_dirs_resume(&l, &r, 3, Ok(true)), ScanOutcome::Verdict(Ok(DiffResult::Equal)));
    let broken = IoFailure { message: "read failed".into() };
    assert_eq!(
        diff_dirs_resume(&l, &r, 3, Err(broken.clone())),
        ScanOutcome::Verdict(Err(DirError::Io(broken)))
    );
}

#[test]
fn decisions_on_one_pair() {
    let d = item("A", &dir("x"));
    let f = item("A", &file("x", ""));
    let g = item("A", &file("y", ""));
    let e = item("A", &unreadable("x"));
    assert_eq!(scan_pair(Some(&d), Some(&d)), ScanStep::Advance);
    assert_eq!(scan_pair(Some(&f), Some(&f)), ScanStep::CompareFiles);
    assert_eq!(scan_pair(Some(&d), Some(&f)), ScanStep::Verdict(Ok(DiffResult::NotEqual)));
    assert_eq!(scan_pair(Some(&f), Some(&g)), ScanStep::Verdict(Ok(DiffResult::NotEqual)));
    assert_eq!(scan_pair(Some(&f), None), ScanStep::Verdict(Ok(DiffResult::NotEqual)));
    assert_eq!(scan_pair(None, Some(&f)), ScanStep::Verdict(Ok(DiffResult::NotEqual)));
    assert_eq!(scan_pair(None, None), ScanStep::Verdict(Ok(DiffResult::Equal)));
    assert!(matches!(scan_pair(None, Some(&e)), ScanStep::Verdict(Err(DirError::Walk(_)))));
    assert!(matches!(scan_pair(Some(&e), None), ScanStep::Verdict(Err(DirError::Walk(_)))));
    assert_eq!(after_files(Ok(true)), None);
    assert_eq!(after_files(Ok(false)), Some(Ok(DiffResult::NotEqual)));
    assert_eq!(merge_pair(Some(&f), Some(&g)), MergeAction::Left);
    assert_eq!(merge_pair(Some(&g), Some(&f)), MergeAction::Right);
    assert_eq!(merge_pair(Some(&d), Some(&f)), MergeAction::Compare);
    assert_eq!(merge_pair(Some(&e), Some(&f)), MergeAction::LeftError);
    assert_eq!(merge_pair(None, None), MergeAction::End);
}

#[test]
fn names_are_ordered_byte_by_byte() {
    assert_eq!(order_names(&b"abc".to_vec(), &b"abd".to_vec()), NameOrder::Before);
    assert_eq!(order_names(&b"abd".to_vec(), &b"abc".to_vec()), NameOrder::After);
    assert_eq!(order_names(&b"ab".to_vec(), &b"abc".to_vec()), NameOrder::Before);
    assert_eq!(order_names(&b"abc".to_vec(), &b"ab".to_vec()), NameOrder::After);
    assert_eq!(order_names(&b"".to_vec(), &b"".to_vec()), NameOrder::Same);
    assert_eq!(order_names(&b"Z".to_vec(), &b"a".to_vec()), NameOrder::Before);
    assert_eq!(order_names(&vec![0xff], &vec![0x7f, 0x01]), NameOrder::After);
    let a = Entry { name: b"x".to_vec(), path: "left/x".into(), depth: 1, kind: FileKind::Dir };
    let b = Entry { name: b"x".to_vec(), path: "right/x".into(), depth: 2, kind: FileKind::File };
    assert_eq!(file_name_cmp(&a, &b), NameOrder::Same);
}

#[test]
fn the_longest_path_of_a_listing() {
    let listing = vec![item(".", &dir("a")), item(".", &dir("project-1")), item(".", &dir("bb"))];
    assert_eq!(longest_identifier(&listing), Ok(11));
    assert_eq!(longest_identifier(&Vec::new()), Ok(0));
    let wide = vec![item(".", &dir("é"))];
    assert_eq!(longest_identifier(&wide), Ok(4));
}

#[test]
fn the_first_failure_of_a_listing() {
    let listing = vec![item(".", &dir("a")), item(".", &unreadable("b")), item(".", &unreadable("c"))];
    assert_eq!(
        longest_identifier(&listing),
        Err(WalkFailure { path: "./b".into(), message: "permission denied".into() })
    );
}

#[test]
fn the_same_names_at_another_depth_are_not_equal() {
    let a = [dir("t"), dir("t/a"), dir("t/a/b")];
    let b = [dir("t"), dir("t/a"), dir("t/b")];
    let (l, r) = (below("L", &a, "t"), below("R", &b, "t"));
    assert_eq!(compare(&l, &r), Ok(DiffResult::NotEqual));
    assert_eq!(compare(&r, &l), Ok(DiffResult::NotEqual));
    assert_eq!(diff_dirs(&l.0, &r.0, 2), ScanOutcome::Verdict(Ok(DiffResult::NotEqual)));
    let deep = item_below("L", &dir("a/b"), 0);
    let flat = item_below("R", &dir("b"), 0);
    assert_eq!(
        scan_pair(Some(&deep), Some(&flat)),
        ScanStep::Verdict(Ok(DiffResult::NotEqual))
    );
}

#[test]
fn the_names_of_the_two_roots_are_not_compared() {
    let a = [dir("old"), file("old/f", "same")];
    let b = [dir("new"), file("new/f", "same")];
    let c = [dir("new"), file("new/g", "same")];
    assert_eq!(compare(&below("L", &a, "old"), &below("R", &b, "new")), Ok(DiffResult::Equal));
    assert_eq!(compare(&below("L", &a, "old"), &below("R", &c, "new")), Ok(DiffResult::NotEqual));
    let p = [file("p", "one")];
    let q = [file("q", "two")];
    assert_eq!(compare(&below("L", &p, "p"), &below("R", &q, "q")), Ok(DiffResult::NotEqual));
}

#[test]
fn one_pull_from_two_pending_items() {
    let a = item("A", &dir("a"));
    let b = item("B", &dir("b"));
    let e = item("B", &unreadable("a"));
    assert_eq!(merge_step(Some(&a), Some(&b)), Step::Yield(Ok(TreeDiff::Left("A/a".into()))));
    assert_eq!(merge_step(Some(&b), Some(&a)), Step::Yield(Ok(TreeDiff::Right("A/a".into()))));
    assert_eq!(merge_step(Some(&a), None), Step::Yield(Ok(TreeDiff::Left("A/a".into()))));
    assert_eq!(merge_step(None, Some(&b)), Step::Yield(Ok(TreeDiff::Right("B/b".into()))));
    assert_eq!(merge_step(Some(&a), Some(&a)), Step::Compare("A/a".into(), "A/a".into()));
    assert_eq!(merge_step(None, None), Step::End);
    assert!(matches!(merge_step(Some(&a), Some(&e)), Step::Yield(Err(DirError::Walk(_)))));
    assert_eq!(
        resolve_pair("l".into(), "r".into(), Ok(DiffResult::Equal)),
        Ok(TreeDiff::Matches("l".into(), "r".into()))
    );
    assert_eq!(
        resolve_pair("l".into(), "r".into(), Ok(DiffResult::NotEqual)),
        Ok(TreeDiff::Differs("l".into(), "r".into()))
    );
    let broken = DirError::Io(IoFailure { message: "read failed".into() });
    assert_eq!(resolve_pair("l".into(), "r".into(), Err(broken.clone())), Err(broken));
    assert_eq!(advances(MergeAction::Left, true), (true, false));
    assert_eq!(advances(MergeAction::LeftError, false), (true, false));
    assert_eq!(advances(MergeAction::Right, true), (false, true));
    assert_eq!(advances(MergeAction::RightError, false), (false, true));
    assert_eq!(advances(MergeAction::Compare, true), (true, true));
    assert_eq!(advances(MergeAction::Compare, false), (false, false));
    assert_eq!(advances(MergeAction::End, true), (false, false));
}
