//! Byte-exact comparison of two files, stated over what reading them gave.

use vstd::prelude::*;

verus! {

/// A failure met while opening or reading a file.
#[derive(Clone, Debug, PartialEq, Eq)]
pub struct IoFailure {
    pub message: String,
}

impl IoFailure {
    /// A copy of this failure, equal to it.
    pub fn duplicate(&self) -> (r: IoFailure)
        ensures
            r == *self,
    {
        IoFailure { message: self.message.clone() }
    }
}

/// What one pair of reads decides: `Some` with the verdict of the whole
/// comparison, or `None` when both streams gave the same byte and the
/// comparison goes on.
pub open spec fn read_verdict(
    b1: Option<Result<u8, IoFailure>>,
    b2: Option<Result<u8, IoFailure>>,
) -> Option<Result<bool, IoFailure>> {
    match (b1, b2) {
        (Some(Ok(x)), Some(Ok(y))) => if x == y {
            None
        } else {
            Some(Ok(false))
        },
        (Some(Ok(_)), None) => Some(Ok(false)),
        (None, Some(Ok(_))) => Some(Ok(false)),
        (Some(Err(e)), _) => Some(Err(e)),
        (_, Some(Err(e))) => Some(Err(e)),
        (None, None) => Some(Ok(true)),
    }
}

/// The read that a stream gives at position `i`: `None` past its end.
pub open spec fn read_at(s: Seq<Result<u8, IoFailure>>, i: int) -> Option<Result<u8, IoFailure>> {
    if 0 <= i < s.len() {
        Some(s[i])
    } else {
        None
    }
}

/// The verdict on two streams when both are read in lockstep from position `i`.
pub open spec fn stream_verdict_from(
    s1: Seq<Result<u8, IoFailure>>,
    s2: Seq<Result<u8, IoFailure>>,
    i: int,
) -> Result<bool, IoFailure>
    decreases s1.len() - i,
{
    match read_verdict(read_at(s1, i), read_at(s2, i)) {
        Some(v) => v,
        None => if 0 <= i < s1.len() {
            stream_verdict_from(s1, s2, i + 1)
        } else {
            Ok(true)
        },
    }
}

/// The verdict on two files of the given sizes whose reads gave `s1` and `s2`:
/// sizes that differ decide alone, otherwise the streams do.
pub open spec fn contents_verdict(
    len1: u64,
    len2: u64,
    s1: Seq<Result<u8, IoFailure>>,
    s2: Seq<Result<u8, IoFailure>>,
) -> Result<bool, IoFailure> {
    if len1 != len2 {
        Ok(false)
    } else {
        stream_verdict_from(s1, s2, 0)
    }
}

/// Decides from the two sizes alone where they differ: `Some(false)` then,
/// and `None` when the contents have to be read.
pub fn decide_by_size(len1: u64, len2: u64) -> (r: Option<bool>)
    ensures
        r == (if len1 != len2 {
            Some(false)
        } else {
            None::<bool>
        }),
        forall|s1: Seq<Result<u8, IoFailure>>, s2: Seq<Result<u8, IoFailure>>|
            r.is_some() ==> #[trigger] contents_verdict(len1, len2, s1, s2) == Ok::<
                bool,
                IoFailure,
            >(r.unwrap()),
{
    if len1 != len2 {
        Some(false)
    } else {
        None
    }
}

/// Decides on one pair of reads, one from each file.
pub fn compare_reads(b1: Option<Result<u8, IoFailure>>, b2: Option<Result<u8, IoFailure>>) -> (r:
    Option<Result<bool, IoFailure>>)
    ensures
        r == read_verdict(b1, b2),
{
    match (b1, b2) {
        (Some(Ok(x)), Some(Ok(y))) => if x == y {
            None
        } else {
            Some(Ok(false))
        },
        (Some(Ok(_)), None) => Some(Ok(false)),
        (None, Some(Ok(_))) => Some(Ok(false)),
        (Some(Err(e)), _) => Some(Err(e)),
        (_, Some(Err(e))) => Some(Err(e)),
        (None, None) => Some(Ok(true)),
    }
}

/// The read at position `i` of a stream held in memory.
fn fetch(s: &Vec<Result<u8, IoFailure>>, i: usize) -> (r: Option<Result<u8, IoFailure>>)
    ensures
        r == read_at(s@, i as int),
{
    if i < s.len() {
        match &s[i] {
            Ok(b) => Some(Ok(*b)),
            Err(e) => Some(Err(e.duplicate())),
        }
    } else {
        None
    }
}

/// Whether two files hold the same bytes, given their sizes and what reading
/// each of them gave, byte by byte.
///
/// Sizes that differ give `Ok(false)` whatever the streams hold. Otherwise the
/// first pair of reads that is not two equal bytes decides: two different
/// bytes or one stream ending early give `Ok(false)`, a failed read gives its
/// failure (that of the first stream before that of the second), and both
/// streams ending together give `Ok(true)`.
pub fn file_contents_equal(
    len1: u64,
    len2: u64,
    s1: &Vec<Result<u8, IoFailure>>,
    s2: &Vec<Result<u8, IoFailure>>,
) -> (r: Result<bool, IoFailure>)
    ensures
        r == contents_verdict(len1, len2, s1@, s2@),
        len1 != len2 ==> r == Ok::<bool, IoFailure>(false),
{
    if let Some(v) = decide_by_size(len1, len2) {
        return Ok(v);
    }
    let mut i: usize = 0;
    loop
        invariant
            len1 == len2,
            i <= s1.len(),
            stream_verdict_from(s1@, s2@, 0) == stream_verdict_from(s1@, s2@, i as int),
        decreases s1.len() - i,
    {
        match compare_reads(fetch(s1, i), fetch(s2, i)) {
            Some(v) => {
                return v;
            },
            None => {
                i = i + 1;
            },
        }
    }
}

/// If the first `k` reads of both streams are pairs of equal bytes and the
/// reads at `k` decide, that decision is the verdict, whatever follows `k`.
pub proof fn lemma_first_decision(
    s1: Seq<Result<u8, IoFailure>>,
    s2: Seq<Result<u8, IoFailure>>,
    k: int,
    from: int,
)
    requires
        0 <= from <= k,
        forall|i: int| from <= i < k ==> read_verdict(read_at(s1, i), read_at(s2, i)).is_none(),
        read_verdict(read_at(s1, k), read_at(s2, k)).is_some(),
    ensures
        stream_verdict_from(s1, s2, from) == read_verdict(read_at(s1, k), read_at(s2, k)).unwrap(),
    decreases k - from,
{
    if from < k {
        assert(read_verdict(read_at(s1, from), read_at(s2, from)).is_none());
        lemma_first_decision(s1, s2, k, from + 1);
    }
}

/// Two files of equal size whose first `k` bytes agree and whose bytes at `k`
/// differ compare as not equal, whatever either stream holds after `k`.
pub proof fn lemma_first_difference_decides(
    len: u64,
    s1: Seq<Result<u8, IoFailure>>,
    s2: Seq<Result<u8, IoFailure>>,
    k: int,
)
    requires
        0 <= k < s1.len(),
        k < s2.len(),
        forall|i: int| 0 <= i < k ==> s1[i].is_ok() && s2[i].is_ok() && s1[i] == s2[i],
        s1[k].is_ok(),
        s2[k].is_ok(),
        s1[k] != s2[k],
    ensures
        contents_verdict(len, len, s1, s2) == Ok::<bool, IoFailure>(false),
{
    assert forall|i: int| 0 <= i < k implies read_verdict(
        read_at(s1, i),
        read_at(s2, i),
    ).is_none() by {
        assert(s1[i].is_ok() && s2[i].is_ok() && s1[i] == s2[i]);
    }
    lemma_first_decision(s1, s2, k, 0);
}

/// Two streams that were read without failure compare as equal exactly when
/// they hold the same bytes.
pub proof fn lemma_clean_streams(
    s1: Seq<Result<u8, IoFailure>>,
    s2: Seq<Result<u8, IoFailure>>,
    from: int,
)
    requires
        0 <= from <= s1.len(),
        from <= s2.len(),
        forall|i: int| 0 <= i < s1.len() ==> s1[i].is_ok(),
        forall|i: int| 0 <= i < s2.len() ==> s2[i].is_ok(),
    ensures
        stream_verdict_from(s1, s2, from) == Ok::<bool, IoFailure>(
            s1.subrange(from, s1.len() as int) == s2.subrange(from, s2.len() as int),
        ),
    decreases s1.len() - from,
{
    let t1 = s1.subrange(from, s1.len() as int);
    let t2 = s2.subrange(from, s2.len() as int);
    if from < s1.len() && from < s2.len() {
        assert(s1[from].is_ok() && s2[from].is_ok());
        assert(t1[0] == s1[from] && t2[0] == s2[from]);
        if s1[from] == s2[from] {
            lemma_clean_streams(s1, s2, from + 1);
            let u1 = s1.subrange(from + 1, s1.len() as int);
            let u2 = s2.subrange(from + 1, s2.len() as int);
            if u1 == u2 {
                assert(t1 =~= t2) by {
                    assert(t1.len() == u1.len() + 1);
                    assert forall|i: int| 0 <= i < t1.len() implies t1[i] == t2[i] by {
                        if i > 0 {
                            assert(t1[i] == u1[i - 1]);
                            assert(t2[i] == u2[i - 1]);
                        }
                    }
                }
            } else {
                if t1 == t2 {
                    assert(u1 =~= t1.subrange(1, t1.len() as int));
                    assert(u2 =~= t2.subrange(1, t2.len() as int));
                    assert(false);
                }
            }
        }
    } else if from < s1.len() {
        assert(s1[from].is_ok());
        assert(t1.len() != t2.len());
    } else if from < s2.len() {
        assert(s2[from].is_ok());
        assert(t1.len() != t2.len());
    } else {
        assert(t1 =~= t2);
    }
}

/// The order of the two files does not change the outcome: a verdict one way
/// is the same verdict the other way, and a failure one way is a failure the
/// other way (of which file may differ).
pub proof fn lemma_contents_symmetric(
    len1: u64,
    len2: u64,
    s1: Seq<Result<u8, IoFailure>>,
    s2: Seq<Result<u8, IoFailure>>,
)
    ensures
        contents_verdict(len1, len2, s1, s2).is_ok() == contents_verdict(len2, len1, s2, s1).is_ok(),
        contents_verdict(len1, len2, s1, s2).is_ok() ==> contents_verdict(len1, len2, s1, s2)
            == contents_verdict(len2, len1, s2, s1),
{
    lemma_stream_symmetric(s1, s2, 0);
}

/// The symmetry of the stream comparison from any position on.
pub proof fn lemma_stream_symmetric(
    s1: Seq<Result<u8, IoFailure>>,
    s2: Seq<Result<u8, IoFailure>>,
    i: int,
)
    requires
        0 <= i,
    ensures
        stream_verdict_from(s1, s2, i).is_ok() == stream_verdict_from(s2, s1, i).is_ok(),
        stream_verdict_from(s1, s2, i).is_ok() ==> stream_verdict_from(s1, s2, i)
            == stream_verdict_from(s2, s1, i),
    decreases s1.len() - i,
{
    if read_verdict(read_at(s1, i), read_at(s2, i)).is_none() {
        lemma_stream_symmetric(s1, s2, i + 1);
    }
}

/// A file that is read without failure compares as equal to itself.
pub proof fn lemma_contents_reflexive(len: u64, s: Seq<Result<u8, IoFailure>>)
    requires
        forall|i: int| 0 <= i < s.len() ==> s[i].is_ok(),
    ensures
        contents_verdict(len, len, s, s) == Ok::<bool, IoFailure>(true),
{
    lemma_clean_streams(s, s, 0);
}

} // verus!
