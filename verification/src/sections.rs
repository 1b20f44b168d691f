//! Camp section assignments: every input line carries two inclusive ID
//! ranges, and the puzzle counts how many pairs overlap completely and how
//! many overlap at all.
use vstd::prelude::*;

use crate::text::all_digits;
use crate::text::byte_lines;
use crate::text::bytes_to_chars;
use crate::text::digits_val;
use crate::text::find_char;
use crate::text::first_idx;
use crate::text::lemma_first_idx_char;
use crate::text::parse_digits;

verus! {

/// One elf's section assignment: an inclusive range of section IDs.
pub type Range = (usize, usize);

/// Do the two ranges overlap each other at all?
#[derive(Clone, Copy, Debug)]
pub enum Overlap {
    /// e.g. 2-4, 6-8
    Disjoint,
    /// e.g. 5-7, 7-9 overlaps in a single section, 7.
    Partial,
    /// e.g. 2-8, 3-7 overlaps all of the sections 3 through 7.
    Complete,
}

/// One range contains the other entirely.
pub open spec fn contains_fully(a: int, b: int, c: int, d: int) -> bool {
    (a >= c && b <= d) || (c >= a && d <= b)
}

/// The two ranges share at least one section.
pub open spec fn intersects(a: int, b: int, c: int, d: int) -> bool {
    a <= d && c <= b
}

/// How the ranges `[a, b]` and `[c, d]` overlap.
pub open spec fn overlap_of(a: int, b: int, c: int, d: int) -> Overlap {
    if contains_fully(a, b, c, d) {
        Overlap::Complete
    } else if intersects(a, b, c, d) {
        Overlap::Partial
    } else {
        Overlap::Disjoint
    }
}

impl Overlap {
    /// Calculate the kind of overlap that two well-formed ranges have.
    pub fn from_ranges(r1: Range, r2: Range) -> (r: Self)
        requires
            r1.0 <= r1.1,
            r2.0 <= r2.1,
        ensures
            r == overlap_of(r1.0 as int, r1.1 as int, r2.0 as int, r2.1 as int),
    {
        let (a, b) = r1;
        let (c, d) = r2;
        if (a >= c && b <= d) || (c >= a && d <= b) {
            return Overlap::Complete;
        }
        if (b >= c && b <= d) || (d >= a && d <= b) {
            return Overlap::Partial;
        }
        Overlap::Disjoint
    }
}

/// The bounds of one written range `lo-hi`.
pub open spec fn range_lo(p: Seq<char>) -> int {
    digits_val(p.take(first_idx(p, '-')))
}

/// The upper bound of one written range `lo-hi`.
pub open spec fn range_hi(p: Seq<char>) -> int {
    digits_val(p.skip(first_idx(p, '-') + 1))
}

/// Whether `p` writes a well-formed range: digits, a dash, digits, with the
/// bounds ordered and fitting the machine word.
pub open spec fn valid_range(p: Seq<char>) -> bool {
    let j = first_idx(p, '-');
    &&& 1 <= j
    &&& j + 2 <= p.len()
    &&& all_digits(p.take(j))
    &&& all_digits(p.skip(j + 1))
    &&& 0 <= range_lo(p) <= range_hi(p) <= usize::MAX
}

/// The left range of an input line `lo-hi,lo-hi`.
pub open spec fn line_left(s: Seq<char>) -> Seq<char> {
    s.take(first_idx(s, ','))
}

/// The right range of an input line.
pub open spec fn line_right(s: Seq<char>) -> Seq<char> {
    s.skip(first_idx(s, ',') + 1)
}

/// Whether an input line writes two well-formed ranges separated by a comma.
pub open spec fn valid_pair_line(s: Seq<char>) -> bool {
    let i = first_idx(s, ',');
    &&& 1 <= i
    &&& i + 2 <= s.len()
    &&& valid_range(line_left(s))
    &&& valid_range(line_right(s))
}

/// How the two ranges of an input line overlap.
pub open spec fn line_overlap(s: Seq<char>) -> Overlap {
    overlap_of(
        range_lo(line_left(s)),
        range_hi(line_left(s)),
        range_lo(line_right(s)),
        range_hi(line_right(s)),
    )
}

/// Whether the whole input blob is well-formed.
pub open spec fn valid_pairs_input(s: Seq<u8>) -> bool {
    forall|i: int| 0 <= i < byte_lines(s).len() ==> valid_pair_line(#[trigger] byte_lines(s)[i])
}

/// Read one well-formed range out of `chars[from..to]`.
fn parse_range(chars: &Vec<char>, from: usize, to: usize) -> (r: Range)
    requires
        from <= to <= chars@.len(),
        valid_range(chars@.subrange(from as int, to as int)),
    ensures
        r.0 == range_lo(chars@.subrange(from as int, to as int)),
        r.1 == range_hi(chars@.subrange(from as int, to as int)),
        r.0 <= r.1,
{
    let ghost p = chars@.subrange(from as int, to as int);
    let dash = find_char(chars, from, '-');
    proof {
        let j = first_idx(p, '-');
        crate::text::lemma_first_idx_props(p, '-');
        assert(forall|k: int| 0 <= k < j ==> p[k] != '-');
        assert(p[j] == '-');
        assert forall|k: int| from <= k < from + j implies chars@[k] != '-' by {
            assert(p[k - from] == chars@[k]);
        }
        assert(chars@[from + j] == '-');
        lemma_first_idx_char(p, '-', dash - from);
        assert(dash == from + j);
        assert(p.take(j) =~= chars@.subrange(from as int, dash as int));
        assert(p.skip(j + 1) =~= chars@.subrange(dash + 1, to as int));
    }
    let lo = parse_digits(chars, from, dash);
    let hi = parse_digits(chars, dash + 1, to);
    ((lo as usize), (hi as usize))
}

/// The number of completely overlapping pairs among the first lines.
pub open spec fn count_complete(lines: Seq<Seq<char>>) -> int
    decreases lines.len(),
{
    if lines.len() == 0 {
        0
    } else {
        count_complete(lines.drop_last()) + (if line_overlap(lines.last()) is Complete {
            1int
        } else {
            0
        })
    }
}

/// The number of pairs overlapping at all among the first lines.
pub open spec fn count_overlapping(lines: Seq<Seq<char>>) -> int
    decreases lines.len(),
{
    if lines.len() == 0 {
        0
    } else {
        count_overlapping(lines.drop_last()) + (
        if line_overlap(lines.last()) is Complete || line_overlap(lines.last()) is Partial {
            1int
        } else {
            0
        })
    }
}

/// For each line of the input, the overlap kind of its two ranges.
pub fn parse_input(input: &[u8]) -> (r: Vec<Overlap>)
    requires
        valid_pairs_input(input@),
    ensures
        r@.len() == byte_lines(input@).len(),
        forall|i: int| 0 <= i < r@.len() ==> r@[i] == line_overlap(byte_lines(input@)[i]),
{
    let chars = bytes_to_chars(input);
    let lines = crate::text::split_lines_vec(&chars);
    let mut r: Vec<Overlap> = Vec::new();
    for i in 0..lines.len()
        invariant
            lines@.map_values(|line: Vec<char>| line@) == byte_lines(input@),
            valid_pairs_input(input@),
            r@.len() == i,
            forall|k: int| 0 <= k < i ==> r@[k] == line_overlap(byte_lines(input@)[k]),
    {
        let line = &lines[i];
        let ghost s = byte_lines(input@)[i as int];
        proof {
            assert(line@ == s);
            assert(valid_pair_line(s));
        }
        let comma = find_char(line, 0, ',');
        proof {
            let j = first_idx(s, ',');
            crate::text::lemma_first_idx_props(s, ',');
            assert(forall|k: int| 0 <= k < j ==> s[k] != ',');
            assert(s[j] == ',');
            lemma_first_idx_char(s, ',', comma as int);
            assert(comma == j);
            assert(line_left(s) =~= line@.subrange(0, comma as int));
            assert(line_right(s) =~= line@.subrange(comma + 1, line@.len() as int));
        }
        let left = parse_range(line, 0, comma);
        let right = parse_range(line, comma + 1, line.len());
        r.push(Overlap::from_ranges(left, right));
    }
    r
}

/// Parse the input and count how many range pairs overlap, by q1's and q2's
/// definitions of overlap: the pairs where one range contains the other, and
/// the pairs sharing any section at all.
pub fn solve(input: &[u8]) -> (r: (usize, usize))
    requires
        valid_pairs_input(input@),
    ensures
        r.0 == count_complete(byte_lines(input@)),
        r.1 == count_overlapping(byte_lines(input@)),
{
    let ghost all = byte_lines(input@);
    let ranges = parse_input(input);
    let mut q1: usize = 0;
    let mut q2: usize = 0;
    for i in 0..ranges.len()
        invariant
            ranges@.len() == all.len(),
            forall|k: int| 0 <= k < all.len() ==> ranges@[k] == line_overlap(#[trigger] all[k]),
            q1 <= i,
            q2 <= i,
            q1 == count_complete(all.take(i as int)),
            q2 == count_overlapping(all.take(i as int)),
    {
        proof {
            assert(all.take(i + 1).drop_last() =~= all.take(i as int));
            assert(all.take(i + 1).last() == all[i as int]);
        }
        match ranges[i] {
            Overlap::Complete => {
                q1 = q1 + 1;
                q2 = q2 + 1;
            },
            Overlap::Partial => {
                q2 = q2 + 1;
            },
            Overlap::Disjoint => {},
        }
    }
    proof {
        assert(all.take(all.len() as int) =~= all);
    }
    (q1, q2)
}

} // verus!
