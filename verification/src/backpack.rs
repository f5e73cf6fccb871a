//! Backpack item analysis.
//!
//! Each line of the input lists the items of one backpack, a character per
//! item.  One part splits each line into two halves and scores the items
//! common to both; the other scores, for each group of three lines, the
//! items common to all three.  Item priorities: `a..z` score 1 to 26,
//! `A..Z` score 27 to 52.

use vstd::prelude::*;
use crate::text::{
    split_lines, chars_of, lemma_lines_total_len_nonneg, lemma_split_lines_total_len, lines_of,
    lines_total_len, views_of,
};

verus! {

// ---------------------------------------------------------------------------
// Priorities
// ---------------------------------------------------------------------------
/// Priority of one item: lowercase letters score 1 to 26, uppercase 27 to
/// 52, anything else 0.
pub open spec fn char_priority(c: char) -> int {
    if 'A' as u32 <= c as u32 && c as u32 <= 'Z' as u32 {
        c as u32 - 38
    } else if 'a' as u32 <= c as u32 && c as u32 <= 'z' as u32 {
        c as u32 - 96
    } else {
        0
    }
}

/// Sum of the priorities of a list of items.
pub open spec fn priority_sum(s: Seq<char>) -> int
    decreases s.len(),
{
    if s.len() == 0 {
        0
    } else {
        priority_sum(s.drop_last()) + char_priority(s.last())
    }
}

/// No priority exceeds 52, so a list scores at most 52 per item.
pub proof fn lemma_priority_sum_bounds(s: Seq<char>)
    ensures
        0 <= priority_sum(s) <= 52 * s.len(),
    decreases s.len(),
{
    if s.len() > 0 {
        lemma_priority_sum_bounds(s.drop_last());
    }
}

/// Priority of one item.
fn priority_of(c: char) -> (r: u32)
    ensures
        r == char_priority(c),
{
    let u = c as u32;
    if 65 <= u && u <= 90 {
        u - 38
    } else if 97 <= u && u <= 122 {
        u - 96
    } else {
        0
    }
}

/// Adds up the priorities of a list of items.
pub fn sum(duplicates: Vec<char>) -> (r: u32)
    requires
        priority_sum(duplicates@) <= u32::MAX,
    ensures
        r == priority_sum(duplicates@),
{
    let n = duplicates.len();
    let mut total: u32 = 0;
    assert(duplicates@.take(0) =~= Seq::<char>::empty());
    for i in 0..n
        invariant
            n == duplicates@.len(),
            priority_sum(duplicates@) <= u32::MAX,
            total == priority_sum(duplicates@.take(i as int)),
    {
        proof {
            assert(duplicates@.take(i + 1).drop_last() =~= duplicates@.take(i as int));
            assert(duplicates@.take(i + 1).last() == duplicates@[i as int]);
            lemma_priority_sum_take_le(duplicates@, i + 1);
            lemma_priority_sum_bounds(duplicates@.take(i as int));
        }
        let p = priority_of(duplicates[i]);
        total = total + p;
    }
    assert(duplicates@.take(n as int) =~= duplicates@);
    total
}

/// A prefix of an item list never outscores the whole list.
pub proof fn lemma_priority_sum_take_le(s: Seq<char>, k: int)
    requires
        0 <= k <= s.len(),
    ensures
        priority_sum(s.take(k)) <= priority_sum(s),
    decreases s.len(),
{
    if k == s.len() {
        assert(s.take(k) =~= s);
    } else {
        assert(s.drop_last().take(k) =~= s.take(k));
        lemma_priority_sum_take_le(s.drop_last(), k);
        lemma_priority_sum_bounds(seq![s.last()]);
    }
}

// ---------------------------------------------------------------------------
// Duplicates
// ---------------------------------------------------------------------------
/// Whether `v` holds `c`.
fn contains_char(v: &Vec<char>, c: char) -> (r: bool)
    ensures
        r == v@.contains(c),
{
    let n = v.len();
    for i in 0..n
        invariant
            n == v@.len(),
            forall|j: int| 0 <= j < i ==> v@[j] != c,
    {
        if v[i] == c {
            return true;
        }
    }
    false
}

/// The items of `l` that also occur in `r`, each listed once, in the order
/// of their first occurrence in `l`.
pub open spec fn dup_chars(l: Seq<char>, r: Seq<char>) -> Seq<char>
    decreases l.len(),
{
    if l.len() == 0 {
        Seq::empty()
    } else {
        let prefix = dup_chars(l.drop_last(), r);
        let c = l.last();
        if r.contains(c) && !prefix.contains(c) {
            prefix.push(c)
        } else {
            prefix
        }
    }
}

/// There are never more duplicates than items on the left.
pub proof fn lemma_dup_chars_len(l: Seq<char>, r: Seq<char>)
    ensures
        dup_chars(l, r).len() <= l.len(),
    decreases l.len(),
{
    if l.len() > 0 {
        lemma_dup_chars_len(l.drop_last(), r);
    }
}

/// The items common to both halves, each once, in order of first
/// occurrence on the left.
pub fn find_duplicates(left: &str, right: &str) -> (dups: Vec<char>)
    ensures
        dups@ == dup_chars(left@, right@),
{
    let lv = chars_of(left);
    let rv = chars_of(right);
    let n = lv.len();
    let mut dups: Vec<char> = Vec::new();
    assert(lv@.take(0) =~= Seq::<char>::empty());
    for i in 0..n
        invariant
            n == lv@.len(),
            lv@ == left@,
            rv@ == right@,
            dups@ == dup_chars(lv@.take(i as int), rv@),
    {
        proof {
            assert(lv@.take(i + 1).drop_last() =~= lv@.take(i as int));
            assert(lv@.take(i + 1).last() == lv@[i as int]);
        }
        let c = lv[i];
        if contains_char(&rv, c) && !contains_char(&dups, c) {
            dups.push(c);
        }
    }
    assert(lv@.take(n as int) =~= lv@);
    dups
}

/// The items of the first line that also occur in the second and the
/// third, each listed once, in order of first occurrence.
pub open spec fn group_dup_chars(a: Seq<char>, b: Seq<char>, c: Seq<char>) -> Seq<char>
    decreases a.len(),
{
    if a.len() == 0 {
        Seq::empty()
    } else {
        let prefix = group_dup_chars(a.drop_last(), b, c);
        let x = a.last();
        if b.contains(x) && c.contains(x) && !prefix.contains(x) {
            prefix.push(x)
        } else {
            prefix
        }
    }
}

/// There are never more group duplicates than items on the first line.
pub proof fn lemma_group_dup_chars_len(a: Seq<char>, b: Seq<char>, c: Seq<char>)
    ensures
        group_dup_chars(a, b, c).len() <= a.len(),
    decreases a.len(),
{
    if a.len() > 0 {
        lemma_group_dup_chars_len(a.drop_last(), b, c);
    }
}

/// The items common to all three lines of a group, each once, in order of
/// first occurrence on the first line.
pub fn find_duplicate_in_group(group: Vec<&str>) -> (dups: Vec<char>)
    requires
        group@.len() >= 3,
    ensures
        dups@ == group_dup_chars(group@[0]@, group@[1]@, group@[2]@),
{
    let av = chars_of(group[0]);
    let bv = chars_of(group[1]);
    let cv = chars_of(group[2]);
    let n = av.len();
    let mut dups: Vec<char> = Vec::new();
    assert(av@.take(0) =~= Seq::<char>::empty());
    for i in 0..n
        invariant
            n == av@.len(),
            av@ == group@[0]@,
            bv@ == group@[1]@,
            cv@ == group@[2]@,
            dups@ == group_dup_chars(av@.take(i as int), bv@, cv@),
    {
        proof {
            assert(av@.take(i + 1).drop_last() =~= av@.take(i as int));
            assert(av@.take(i + 1).last() == av@[i as int]);
        }
        let x = av[i];
        if contains_char(&bv, x) && contains_char(&cv, x) && !contains_char(&dups, x) {
            dups.push(x);
        }
    }
    assert(av@.take(n as int) =~= av@);
    dups
}

// ---------------------------------------------------------------------------
// Compartments
// ---------------------------------------------------------------------------
/// Splits a backpack line into its two equally large compartments; with an
/// odd item count the left compartment is the smaller one.
pub fn split_into_compartments<'a>(input_line: &'a str) -> (r: (&'a str, &'a str))
    ensures
        r.0@ == input_line@.take(input_line@.len() as int / 2),
        r.1@ == input_line@.skip(input_line@.len() as int / 2),
{
    let n = input_line.unicode_len();
    let left = input_line.substring_char(0, n / 2);
    let right = input_line.substring_char(n / 2, n);
    proof {
        assert(left@ =~= input_line@.take(input_line@.len() as int / 2));
        assert(right@ =~= input_line@.skip(input_line@.len() as int / 2));
    }
    (left, right)
}

// ---------------------------------------------------------------------------
// Whole-input sums
// ---------------------------------------------------------------------------
/// Priorities scored by one backpack line: the sum over the items common
/// to its two compartment halves.
pub open spec fn line_duplicates_priority(line: Seq<char>) -> int {
    priority_sum(dup_chars(line.take(line.len() as int / 2), line.skip(line.len() as int / 2)))
}

/// Priorities scored by all backpack lines, one by one.
pub open spec fn part1_total(lines: Seq<Seq<char>>) -> int
    decreases lines.len(),
{
    if lines.len() == 0 {
        0
    } else {
        line_duplicates_priority(lines.first()) + part1_total(lines.drop_first())
    }
}

/// Priorities scored by the groups of three consecutive lines: the sum
/// over the items common to all three lines of each group.
pub open spec fn part2_total(lines: Seq<Seq<char>>) -> int
    decreases lines.len(),
{
    if lines.len() < 3 {
        0
    } else {
        priority_sum(group_dup_chars(lines[0], lines[1], lines[2])) + part2_total(lines.skip(3))
    }
}

/// A line scores at most 26 priority points per item.
pub proof fn lemma_line_duplicates_priority_bounds(line: Seq<char>)
    ensures
        0 <= line_duplicates_priority(line) <= 26 * line.len(),
{
    let h = line.len() as int / 2;
    let dups = dup_chars(line.take(h), line.skip(h));
    lemma_dup_chars_len(line.take(h), line.skip(h));
    lemma_priority_sum_bounds(dups);
}

/// All lines together score at most 26 priority points per character.
pub proof fn lemma_part1_total_bounds(lines: Seq<Seq<char>>)
    ensures
        0 <= part1_total(lines) <= 26 * lines_total_len(lines),
    decreases lines.len(),
{
    if lines.len() > 0 {
        lemma_line_duplicates_priority_bounds(lines.first());
        lemma_part1_total_bounds(lines.drop_first());
    }
}

/// All groups together score at most 52 priority points per character.
pub proof fn lemma_part2_total_bounds(lines: Seq<Seq<char>>)
    ensures
        0 <= part2_total(lines) <= 52 * lines_total_len(lines),
    decreases lines.len(),
{
    if lines.len() == 0 {
    } else if lines.len() < 3 {
        lemma_lines_total_len_nonneg(lines);
    } else {
        let dups = group_dup_chars(lines[0], lines[1], lines[2]);
        lemma_group_dup_chars_len(lines[0], lines[1], lines[2]);
        lemma_priority_sum_bounds(dups);
        lemma_part2_total_bounds(lines.skip(3));
        let r1 = lines.drop_first();
        let r2 = r1.drop_first();
        let r3 = r2.drop_first();
        assert(r3 =~= lines.skip(3));
        assert(lines.first() == lines[0]);
        assert(r1.first() == lines[1]);
        assert(r2.first() == lines[2]);
        assert(lines_total_len(lines) == lines[0].len() + lines_total_len(r1));
        assert(lines_total_len(r1) == lines[1].len() + lines_total_len(r2));
        assert(lines_total_len(r2) == lines[2].len() + lines_total_len(r3));
    }
}

/// Scores every backpack line: the sum, over all lines, of the priorities
/// of the items common to the line's two compartment halves.
pub fn part_1_sum(backpack_items: String) -> (r: u32)
    requires
        backpack_items@.len() <= 0x03FF_FFFF,
    ensures
        r == part1_total(split_lines(backpack_items@)),
{
    let ghost all = split_lines(backpack_items@);
    proof {
        lemma_split_lines_total_len(backpack_items@);
        lemma_part1_total_bounds(all);
    }
    let lines = lines_of(backpack_items.as_str());
    let n = lines.len();
    let mut total: u32 = 0;
    assert(all.skip(0) =~= all);
    for i in 0..n
        invariant
            n == lines@.len(),
            views_of(lines@) == all,
            total + part1_total(all.skip(i as int)) == part1_total(all),
            part1_total(all) <= 26 * 0x03FF_FFFF,
    {
        let ghost rest = all.skip(i as int);
        proof {
            assert(rest.first() == all[i as int]);
            assert(rest.drop_first() =~= all.skip(i as int + 1));
            lemma_part1_total_bounds(all.skip(i as int + 1));
            lemma_line_duplicates_priority_bounds(all[i as int]);
            assert(lines@[i as int]@ == all[i as int]);
        }
        let (left, right) = split_into_compartments(lines[i]);
        let dups = find_duplicates(left, right);
        proof {
            assert(dups@ == dup_chars(
                all[i as int].take(all[i as int].len() as int / 2),
                all[i as int].skip(all[i as int].len() as int / 2),
            ));
            assert(priority_sum(dups@) == line_duplicates_priority(all[i as int]));
        }
        let line_sum = sum(dups);
        total = total + line_sum;
    }
    proof {
        lemma_part1_total_bounds(all.skip(n as int));
        assert(all.skip(n as int) =~= Seq::<Seq<char>>::empty());
    }
    total
}

/// Scores every group of three consecutive backpack lines: the sum, over
/// all groups, of the priorities of the items common to the group's three
/// lines.
pub fn part_2_sum(backpack_items: String) -> (r: u32)
    requires
        backpack_items@.len() <= 0x03FF_FFFF,
        split_lines(backpack_items@).len() % 3 == 0,
    ensures
        r == part2_total(split_lines(backpack_items@)),
{
    let ghost all = split_lines(backpack_items@);
    proof {
        lemma_split_lines_total_len(backpack_items@);
        lemma_part2_total_bounds(all);
    }
    let lines = lines_of(backpack_items.as_str());
    let n = lines.len();
    let mut total: u32 = 0;
    assert(all.skip(0) =~= all);
    let mut i: usize = 0;
    while i < n
        invariant
            n == lines@.len(),
            views_of(lines@) == all,
            all.len() % 3 == 0,
            i % 3 == 0,
            i <= n,
            total + part2_total(all.skip(i as int)) == part2_total(all),
            part2_total(all) <= 52 * 0x03FF_FFFF,
        decreases n - i,
    {
        let ghost rest = all.skip(i as int);
        proof {
            assert(n - i >= 3) by {
                assert(i as int % 3 == 0 && n as int % 3 == 0);
            }
            assert(rest.len() >= 3);
            assert(rest[0] == all[i as int]);
            assert(rest[1] == all[i as int + 1]);
            assert(rest[2] == all[i as int + 2]);
            assert(rest.skip(3) =~= all.skip(i as int + 3));
            lemma_part2_total_bounds(all.skip(i as int + 3));
            lemma_group_dup_chars_len(rest[0], rest[1], rest[2]);
            lemma_priority_sum_bounds(group_dup_chars(rest[0], rest[1], rest[2]));
            assert(lines@[i as int]@ == all[i as int]);
            assert(lines@[i as int + 1]@ == all[i as int + 1]);
            assert(lines@[i as int + 2]@ == all[i as int + 2]);
        }
        let mut group: Vec<&str> = Vec::new();
        group.push(lines[i]);
        group.push(lines[i + 1]);
        group.push(lines[i + 2]);
        let dups = find_duplicate_in_group(group);
        proof {
            assert(priority_sum(dups@) == part2_total(rest) - part2_total(
                all.skip(i as int + 3),
            ));
        }
        let group_sum = sum(dups);
        total = total + group_sum;
        i = i + 3;
    }
    proof {
        assert(all.skip(n as int) =~= Seq::<Seq<char>>::empty());
    }
    total
}

} // verus!
