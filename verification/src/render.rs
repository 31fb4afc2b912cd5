//! One line of a two-column table for each classification.

use crate::directories::TreeDiff;
use vstd::prelude::*;
use vstd::string::*;

verus! {

/// `s`, filled up with spaces on the right to `width` characters; `s` itself
/// where it is that long or longer.
pub open spec fn padded(s: Seq<char>, width: nat) -> Seq<char> {
    s + Seq::new(
        if width > s.len() {
            (width - s.len()) as nat
        } else {
            0
        },
        |i: int| ' ',
    )
}

/// The text that stands between the two columns.
pub open spec fn label(td: TreeDiff) -> Seq<char> {
    match td {
        TreeDiff::Differs(_, _) => "  DIFFERS  "@,
        TreeDiff::Matches(_, _) => "  MATCHES  "@,
        TreeDiff::Left(_) => "< ONLY IN  "@,
        TreeDiff::Right(_) => "  ONLY IN >"@,
    }
}

/// The path in the left column: empty for an entry of the right side only.
pub open spec fn left_column(td: TreeDiff) -> Seq<char> {
    match td {
        TreeDiff::Differs(l, _) => l@,
        TreeDiff::Matches(l, _) => l@,
        TreeDiff::Left(l) => l@,
        TreeDiff::Right(_) => Seq::empty(),
    }
}

/// The path in the right column: empty for an entry of the left side only.
pub open spec fn right_column(td: TreeDiff) -> Seq<char> {
    match td {
        TreeDiff::Differs(_, r) => r@,
        TreeDiff::Matches(_, r) => r@,
        TreeDiff::Left(_) => Seq::empty(),
        TreeDiff::Right(r) => r@,
    }
}

/// The line for one classification: both columns padded to `width`, the
/// label between them, two spaces on either side of the label.
pub open spec fn rendered(td: TreeDiff, width: nat) -> Seq<char> {
    padded(left_column(td), width) + "  "@ + label(td) + "  "@ + padded(right_column(td), width)
}

/// Appends `s` to `out`, padded with spaces to `width` characters.
fn push_padded(out: &mut String, s: &str, width: usize)
    ensures
        final(out)@ == old(out)@ + padded(s@, width as nat),
{
    out.append(s);
    let n: usize = s.unicode_len();
    let mut k: usize = n;
    proof {
        assert(out@ =~= old(out)@ + s@ + Seq::new(0, |i: int| ' '));
    }
    while k < width
        invariant
            n == s@.len(),
            n <= k,
            k <= width || k == n,
            out@ == old(out)@ + s@ + Seq::new((k - n) as nat, |i: int| ' '),
        decreases width - k,
    {
        proof {
            reveal_strlit(" ");
        }
        out.append(" ");
        k = k + 1;
        proof {
            assert(" "@ =~= seq![' ']);
            assert(out@ =~= old(out)@ + s@ + Seq::new((k - n) as nat, |i: int| ' '));
        }
    }
    proof {
        assert(out@ =~= old(out)@ + padded(s@, width as nat));
    }
}

/// Renders one classification as a line of the table.
pub fn display_tree_diff(td: &TreeDiff, width: usize) -> (line: String)
    ensures
        line@ == rendered(*td, width as nat),
{
    let mut out = String::new();
    let (l, c, r) = match td {
        TreeDiff::Differs(l, r) => (l.as_str(), "  DIFFERS  ", r.as_str()),
        TreeDiff::Matches(l, r) => (l.as_str(), "  MATCHES  ", r.as_str()),
        TreeDiff::Left(l) => (l.as_str(), "< ONLY IN  ", ""),
        TreeDiff::Right(r) => ("", "  ONLY IN >", r.as_str()),
    };
    proof {
        reveal_strlit("");
        assert(""@ =~= Seq::<char>::empty());
        assert(l@ == left_column(*td));
        assert(r@ == right_column(*td));
        assert(c@ == label(*td));
    }
    push_padded(&mut out, l, width);
    out.append("  ");
    out.append(c);
    out.append("  ");
    let ghost mid = out@;
    push_padded(&mut out, r, width);
    proof {
        assert(mid =~= padded(l@, width as nat) + "  "@ + c@ + "  "@);
    }
    out
}

} // verus!
