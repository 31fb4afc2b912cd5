use dfu_core::files::{compare_reads, decide_by_size, file_contents_equal, IoFailure};

fn clean(bytes: &[u8]) -> Vec<Result<u8, IoFailure>> {
    bytes.iter().map(|b| Ok(*b)).collect()
}

fn failure(text: &str) -> IoFailure {
    IoFailure { message: text.to_string() }
}

#[test]
fn equal_files_are_equal() {
    assert_eq!(file_contents_equal(3, 3, &clean(b"abc"), &clean(b"abc")), Ok(true));
    assert_eq!(file_contents_equal(0, 0, &clean(b""), &clean(b"")), Ok(true));
}

#[test]
fn first_differing_byte_decides() {
    assert_eq!(file_contents_equal(3, 3, &clean(b"abc"), &clean(b"abd")), Ok(false));
    assert_eq!(file_contents_equal(3, 3, &clean(b"xbc"), &clean(b"abc")), Ok(false));
}

#[test]
fn a_difference_decides_before_a_later_failure() {
    let mut s1 = clean(b"ab");
    s1.push(Err(failure("late")));
    let s2 = clean(b"axc");
    assert_eq!(file_contents_equal(3, 3, &s1, &s2), Ok(false));
}

#[test]
fn different_sizes_decide_without_the_contents() {
    let broken = vec![Err(failure("never read"))];
    assert_eq!(file_contents_equal(1, 2, &broken, &broken), Ok(false));
    assert_eq!(file_contents_equal(2, 2, &broken, &clean(b"ab")), Err(failure("never read")));
    assert_eq!(decide_by_size(1, 2), Some(false));
    assert_eq!(decide_by_size(7, 7), None);
}

#[test]
fn a_stream_that_ends_early_is_not_equal() {
    assert_eq!(file_contents_equal(3, 3, &clean(b"ab"), &clean(b"abc")), Ok(false));
    assert_eq!(file_contents_equal(3, 3, &clean(b"abc"), &clean(b"ab")), Ok(false));
}

#[test]
fn the_first_failure_is_handed_on() {
    let s1 = vec![Ok(1), Err(failure("one"))];
    let s2 = vec![Ok(1), Err(failure("two"))];
    assert_eq!(file_contents_equal(2, 2, &s1, &s2), Err(failure("one")));
    assert_eq!(file_contents_equal(2, 2, &clean(&[1, 2]), &s2), Err(failure("two")));
    assert_eq!(file_contents_equal(2, 2, &clean(&[1]), &s2), Err(failure("two")));
}

#[test]
fn comparison_is_symmetric_in_outcome() {
    let a = clean(b"abc");
    let b = clean(b"abd");
    assert_eq!(file_contents_equal(3, 3, &a, &b), file_contents_equal(3, 3, &b, &a));
    let e = vec![Ok(b'a'), Err(failure("e"))];
    assert!(file_contents_equal(3, 3, &a, &e).is_err());
    assert!(file_contents_equal(3, 3, &e, &a).is_err());
}

#[test]
fn one_pair_of_reads() {
    assert_eq!(compare_reads(Some(Ok(1)), Some(Ok(1))), None);
    assert_eq!(compare_reads(Some(Ok(1)), Some(Ok(2))), Some(Ok(false)));
    assert_eq!(compare_reads(Some(Ok(1)), None), Some(Ok(false)));
    assert_eq!(compare_reads(None, Some(Ok(1))), Some(Ok(false)));
    assert_eq!(compare_reads(None, None), Some(Ok(true)));
    assert_eq!(compare_reads(Some(Err(failure("a"))), Some(Err(failure("b")))), Some(Err(failure("a"))));
    assert_eq!(compare_reads(None, Some(Err(failure("b")))), Some(Err(failure("b"))));
    assert_eq!(failure("a").duplicate(), failure("a"));
}
