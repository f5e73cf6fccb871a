//! Range overlap counting.
//!
//! Each input line holds two dash-separated integer ranges, comma-separated
//! (`a-b,c-d`), both ends inclusive as written.  One part counts the lines
//! where either range fully contains the other; the other counts the lines
//! where the ranges overlap at all.

use vstd::prelude::*;
use core::ops::Range;
use crate::text::{
    digits_value, is_number, split_lines, split_on, chars_of, lines_of, parse_number,
    pieces_of, split_tokens, token_in_bounds, views_of,
};

verus! {

// ---------------------------------------------------------------------------
// Range parsing
// ---------------------------------------------------------------------------
/// A well-formed range token `a-b`: two decimal numbers around a dash
/// (anything after a second dash is ignored), both ends fitting in `i32`.
pub open spec fn wf_range_token(s: Seq<char>) -> bool {
    let parts = split_on(s, '-');
    &&& parts.len() >= 2
    &&& is_number(parts[0])
    &&& is_number(parts[1])
    &&& digits_value(parts[0]) <= i32::MAX
    &&& digits_value(parts[1]) < i32::MAX
}

/// First end of a range token.
pub open spec fn range_lo(s: Seq<char>) -> int {
    digits_value(split_on(s, '-')[0])
}

/// One past the second end of a range token: ends are written inclusive,
/// the parsed range is half-open.
pub open spec fn range_hi(s: Seq<char>) -> int {
    digits_value(split_on(s, '-')[1]) + 1
}

/// Parses `a-b` into the half-open range `a..b+1`.
pub fn range_from(elf_range: &str) -> (r: Range<i32>)
    requires
        wf_range_token(elf_range@),
    ensures
        r.start == range_lo(elf_range@),
        r.end == range_hi(elf_range@),
{
    let v = chars_of(elf_range);
    let toks = split_tokens(&v, '-');
    let ghost parts = split_on(elf_range@, '-');
    proof {
        assert(toks@.len() == pieces_of(v@, toks@).len());
        assert(v@.subrange(toks@[0].0 as int, toks@[0].1 as int) == parts[0]);
        assert(v@.subrange(toks@[1].0 as int, toks@[1].1 as int) == parts[1]);
        assert(token_in_bounds(v@, toks@[0]));
        assert(token_in_bounds(v@, toks@[1]));
    }
    let t0 = toks[0];
    let t1 = toks[1];
    let lo = parse_number(&v, t0.0, t0.1);
    let hi = parse_number(&v, t1.0, t1.1);
    Range { start: lo as i32, end: hi as i32 + 1 }
}

// ---------------------------------------------------------------------------
// Overlap tests
// ---------------------------------------------------------------------------
/// `outer` contains every element of the non-empty `inner`.
pub open spec fn spec_contains_range(outer: &Range<i32>, inner: &Range<i32>) -> bool {
    outer.start <= inner.start && inner.end <= outer.end
}

/// `r1` contains the first or the last element of the non-empty `r2`.
pub open spec fn spec_edge_overlap(r1: &Range<i32>, r2: &Range<i32>) -> bool {
    (r1.start <= r2.start && r2.start < r1.end) || (r1.start <= r2.end - 1 && r2.end - 1
        < r1.end)
}

/// Full containment: the first range holds both ends of the second.
pub struct OverlapPart1;

/// Any overlap: the first range holds one end of the second.
pub struct OverlapPart2;

impl OverlapPart1 {
    /// Whether `range1` fully contains the non-empty `range2`.
    pub fn overlap(&self, range1: &Range<i32>, range2: &Range<i32>) -> (r: bool)
        requires
            range2.start < range2.end,
        ensures
            r == spec_contains_range(range1, range2),
    {
        range1.start <= range2.start && range2.start < range1.end && range1.start <= range2.end
            - 1 && range2.end - 1 < range1.end
    }
}

impl OverlapPart2 {
    /// Whether `range1` holds the first or the last element of the
    /// non-empty `range2`.
    pub fn overlap(&self, range1: &Range<i32>, range2: &Range<i32>) -> (r: bool)
        requires
            range2.start < range2.end,
        ensures
            r == spec_edge_overlap(range1, range2),
    {
        (range1.start <= range2.start && range2.start < range1.end) || (range1.start
            <= range2.end - 1 && range2.end - 1 < range1.end)
    }
}

/// Which overlap test a line is counted by.
#[derive(Clone, Copy, Debug, PartialEq, Eq, Structural)]
pub enum Ranger {
    Part1,
    Part2,
}

impl Ranger {
    /// The chosen overlap test.
    pub fn overlap(&self, range1: &Range<i32>, range2: &Range<i32>) -> (r: bool)
        requires
            range2.start < range2.end,
        ensures
            r == match *self {
                Ranger::Part1 => spec_contains_range(range1, range2),
                Ranger::Part2 => spec_edge_overlap(range1, range2),
            },
    {
        match self {
            Ranger::Part1 => (OverlapPart1 {}).overlap(range1, range2),
            Ranger::Part2 => (OverlapPart2 {}).overlap(range1, range2),
        }
    }
}

// ---------------------------------------------------------------------------
// Counting
// ---------------------------------------------------------------------------
/// A well-formed input line: two comma-separated range tokens (anything
/// after a second comma is ignored), both ranges non-empty.
pub open spec fn wf_pair_line(s: Seq<char>) -> bool {
    let parts = split_on(s, ',');
    &&& parts.len() >= 2
    &&& wf_range_token(parts[0])
    &&& wf_range_token(parts[1])
    &&& range_lo(parts[0]) < range_hi(parts[0])
    &&& range_lo(parts[1]) < range_hi(parts[1])
}

/// Whether a line's two ranges count as overlapping, in either direction,
/// under the given test.
pub open spec fn line_overlaps(mode: Ranger, s: Seq<char>) -> bool {
    let parts = split_on(s, ',');
    let r1 = Range { start: range_lo(parts[0]) as i32, end: range_hi(parts[0]) as i32 };
    let r2 = Range { start: range_lo(parts[1]) as i32, end: range_hi(parts[1]) as i32 };
    match mode {
        Ranger::Part1 => spec_contains_range(&r1, &r2) || spec_contains_range(&r2, &r1),
        Ranger::Part2 => spec_edge_overlap(&r1, &r2) || spec_edge_overlap(&r2, &r1),
    }
}

/// How many lines count as overlapping under the given test.
pub open spec fn overlap_count(mode: Ranger, lines: Seq<Seq<char>>) -> int
    decreases lines.len(),
{
    if lines.len() == 0 {
        0
    } else {
        overlap_count(mode, lines.drop_first()) + if line_overlaps(mode, lines.first()) {
            1int
        } else {
            0int
        }
    }
}

/// Every line of the input is well formed.
pub open spec fn wf_pair_lines(lines: Seq<Seq<char>>) -> bool {
    forall|i: int| 0 <= i < lines.len() ==> wf_pair_line(#[trigger] lines[i])
}

/// At most one count per line.
pub proof fn lemma_overlap_count_bounds(mode: Ranger, lines: Seq<Seq<char>>)
    ensures
        0 <= overlap_count(mode, lines) <= lines.len(),
    decreases lines.len(),
{
    if lines.len() > 0 {
        lemma_overlap_count_bounds(mode, lines.drop_first());
    }
}

/// Counts the lines whose two ranges overlap, in either direction, under
/// the given test.
pub fn count_overlapses(elves_ranges: &str, ranger: Ranger) -> (r: usize)
    requires
        wf_pair_lines(split_lines(elves_ranges@)),
    ensures
        r == overlap_count(ranger, split_lines(elves_ranges@)),
{
    let ghost all = split_lines(elves_ranges@);
    let lines = lines_of(elves_ranges);
    let n = lines.len();
    let mut count: usize = 0;
    assert(all.skip(0) =~= all);
    for i in 0..n
        invariant
            n == lines@.len(),
            views_of(lines@) == all,
            wf_pair_lines(all),
            count <= i,
            count + overlap_count(ranger, all.skip(i as int)) == overlap_count(ranger, all),
    {
        let ghost rest = all.skip(i as int);
        let ghost line_view = all[i as int];
        proof {
            assert(rest.first() == line_view);
            assert(rest.drop_first() =~= all.skip(i as int + 1));
            lemma_overlap_count_bounds(ranger, all.skip(i as int + 1));
            lemma_overlap_count_bounds(ranger, all);
            assert(lines@[i as int]@ == line_view);
        }
        let line = lines[i];
        let v = chars_of(line);
        let toks = split_tokens(&v, ',');
        let ghost parts = split_on(line_view, ',');
        proof {
            assert(toks@.len() == pieces_of(v@, toks@).len());
            assert(v@.subrange(toks@[0].0 as int, toks@[0].1 as int) == parts[0]);
            assert(v@.subrange(toks@[1].0 as int, toks@[1].1 as int) == parts[1]);
            assert(token_in_bounds(v@, toks@[0]));
            assert(token_in_bounds(v@, toks@[1]));
        }
        let t0 = toks[0];
        let t1 = toks[1];
        let s1 = line.substring_char(t0.0, t0.1);
        let s2 = line.substring_char(t1.0, t1.1);
        proof {
            assert(s1@ == parts[0]);
            assert(s2@ == parts[1]);
        }
        let range1 = range_from(s1);
        let range2 = range_from(s2);
        if ranger.overlap(&range1, &range2) || ranger.overlap(&range2, &range1) {
            proof {
                assert(line_overlaps(ranger, line_view));
            }
            count = count + 1;
        } else {
            proof {
                assert(!line_overlaps(ranger, line_view));
            }
        }
    }
    proof {
        assert(all.skip(n as int) =~= Seq::<Seq<char>>::empty());
    }
    count
}

} // verus!
