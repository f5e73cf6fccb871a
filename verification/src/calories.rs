//! Calorie tallies.
//!
//! The input lists numbers, one per line, in groups separated by blank
//! lines; each group's numbers are added up.  Sorted in descending order,
//! the first total is the largest single tally and the first three
//! together are the top-three tally.

use vstd::prelude::*;
use vstd::multiset::Multiset;
use crate::text::{
    digits_value, is_number, lemma_digits_value_nonneg, split_lines, chars_of, lines_of,
    parse_number, views_of,
};

verus! {

broadcast use vstd::seq_lib::group_to_multiset_ensures;

// ---------------------------------------------------------------------------
// Group sums
// ---------------------------------------------------------------------------
/// Every line is blank or a decimal number that fits in `u32`.
pub open spec fn wf_calorie_lines(lines: Seq<Seq<char>>) -> bool {
    forall|i: int|
        0 <= i < lines.len() ==> (#[trigger] lines[i]).len() == 0 || (is_number(lines[i])
            && digits_value(lines[i]) <= u32::MAX)
}

/// Running group totals: a blank line opens a new group, a number line is
/// added to the current (last) group.  There is always at least the one
/// group that starts out empty.
pub open spec fn group_sums(lines: Seq<Seq<char>>) -> Seq<int>
    decreases lines.len(),
{
    if lines.len() == 0 {
        seq![0]
    } else {
        let p = group_sums(lines.drop_last());
        let l = lines.last();
        if l.len() == 0 {
            p.push(0)
        } else {
            p.update(p.len() - 1, p.last() + digits_value(l))
        }
    }
}

/// There is always at least one group.
pub proof fn lemma_group_sums_len(lines: Seq<Seq<char>>)
    ensures
        group_sums(lines).len() >= 1,
    decreases lines.len(),
{
    if lines.len() > 0 {
        lemma_group_sums_len(lines.drop_last());
    }
}

/// Group totals never shrink as lines are read: every total over a prefix
/// of the lines is bounded by the total of the same group over all lines,
/// and all totals are non-negative.
pub proof fn lemma_group_sums_monotone(lines: Seq<Seq<char>>, k: int)
    requires
        wf_calorie_lines(lines),
        0 <= k <= lines.len(),
    ensures
        group_sums(lines.take(k)).len() <= group_sums(lines).len(),
        forall|j: int|
            0 <= j < group_sums(lines.take(k)).len() ==> #[trigger] group_sums(lines.take(k))[j]
                <= group_sums(lines)[j],
        forall|j: int| 0 <= j < group_sums(lines).len() ==> #[trigger] group_sums(lines)[j] >= 0,
    decreases lines.len(),
{
    lemma_group_sums_len(lines);
    if lines.len() == 0 {
        assert(lines.take(k) =~= lines);
    } else {
        let dl = lines.drop_last();
        let l = lines.last();
        let p = group_sums(dl);
        let g = group_sums(lines);
        assert(wf_calorie_lines(dl)) by {
            assert(forall|i: int| 0 <= i < dl.len() ==> dl[i] == #[trigger] lines[i]);
        }
        lemma_group_sums_len(dl);
        lemma_group_sums_monotone(dl, dl.len() as int);
        assert(dl.take(dl.len() as int) =~= dl);
        if l.len() > 0 {
            assert(l == lines[lines.len() - 1]);
            assert(is_number(l));
            lemma_digits_value_nonneg(l);
            assert(g == p.update(p.len() - 1, p.last() + digits_value(l)));
        } else {
            assert(g == p.push(0));
        }
        assert forall|j: int| 0 <= j < g.len() implies #[trigger] g[j] >= 0 by {
            if j < p.len() - 1 {
                assert(g[j] == p[j]);
            } else if l.len() == 0 && j < p.len() {
                assert(g[j] == p[j]);
            }
        }
        if k == lines.len() {
            assert(lines.take(k) =~= lines);
        } else {
            assert(dl.take(k) =~= lines.take(k));
            lemma_group_sums_monotone(dl, k);
            let gk = group_sums(lines.take(k));
            assert forall|j: int| 0 <= j < gk.len() implies #[trigger] gk[j] <= g[j] by {
                assert(gk[j] <= p[j]);
                if j < p.len() - 1 {
                    assert(g[j] == p[j]);
                } else if l.len() == 0 && j < p.len() {
                    assert(g[j] == p[j]);
                } else {
                    assert(g[j] == p.last() + digits_value(l));
                    lemma_digits_value_nonneg(l);
                }
            }
        }
    }
}

/// Adds up each blank-line-separated group of number lines.
pub fn calorie_totals(text: &str) -> (totals: Vec<u32>)
    requires
        wf_calorie_lines(split_lines(text@)),
        forall|j: int|
            0 <= j < group_sums(split_lines(text@)).len() ==> #[trigger] group_sums(
                split_lines(text@),
            )[j] <= u32::MAX,
    ensures
        totals@.len() == group_sums(split_lines(text@)).len(),
        forall|j: int|
            0 <= j < totals@.len() ==> totals@[j] == #[trigger] group_sums(split_lines(text@))[j],
{
    let ghost all = split_lines(text@);
    let lines = lines_of(text);
    let n = lines.len();
    let mut totals: Vec<u32> = Vec::new();
    totals.push(0);
    proof {
        assert(all.take(0) =~= Seq::<Seq<char>>::empty());
        assert(group_sums(all.take(0)) =~= seq![0int]);
    }
    let mut i: usize = 0;
    while i < n
        invariant
            i <= n,
            n == lines@.len(),
            views_of(lines@) == all,
            wf_calorie_lines(all),
            forall|j: int|
                0 <= j < group_sums(all).len() ==> #[trigger] group_sums(all)[j] <= u32::MAX,
            totals@.len() == group_sums(all.take(i as int)).len(),
            forall|j: int|
                0 <= j < totals@.len() ==> totals@[j] == #[trigger] group_sums(
                    all.take(i as int),
                )[j],
        decreases n - i,
    {
        let ghost prev = all.take(i as int);
        let ghost cur = all.take(i + 1);
        proof {
            assert(all.len() == n);
            assert(cur.len() == i + 1);
            assert(prev.len() == i);
            assert(cur.drop_last() =~= prev);
            assert(cur.last() == all[i as int]);
            assert(lines@[i as int]@ == all[i as int]);
            lemma_group_sums_len(prev);
            lemma_group_sums_monotone(all, i + 1);
            assert(wf_calorie_lines(cur)) by {
                assert(forall|j: int| 0 <= j < cur.len() ==> cur[j] == #[trigger] all[j]);
            }
        }
        let line = lines[i];
        let v = chars_of(line);
        let ghost before = totals@;
        if v.len() == 0 {
            totals.push(0);
            proof {
                assert(group_sums(cur) == group_sums(prev).push(0));
                assert forall|j: int| 0 <= j < totals@.len() implies totals@[j]
                    == #[trigger] group_sums(cur)[j] by {
                    if j < before.len() {
                        assert(totals@[j] == before[j]);
                        assert(before[j] == group_sums(all.take(i as int))[j]);
                        assert(group_sums(cur)[j] == group_sums(prev)[j]);
                    } else {
                        assert(totals@[j] == 0);
                        assert(group_sums(cur)[j] == 0);
                    }
                }
            }
        } else {
            proof {
                assert(all[i as int].len() > 0);
                assert(is_number(all[i as int]) && digits_value(all[i as int]) <= u32::MAX);
                assert(v@.subrange(0, v@.len() as int) =~= v@);
            }
            let value = parse_number(&v, 0, v.len());
            let idx = totals.len() - 1;
            proof {
                let gcur = group_sums(cur);
                let gprev = group_sums(prev);
                assert(gcur == gprev.update(gprev.len() - 1, gprev.last() + digits_value(
                    all[i as int],
                )));
                assert(gcur[idx as int] <= u32::MAX) by {
                    assert(gcur.len() <= group_sums(all).len());
                    assert(gcur[idx as int] <= group_sums(all)[idx as int]);
                }
                assert(idx as int == gprev.len() - 1);
                assert((idx as int) < totals@.len());
                assert(totals@[idx as int] == group_sums(all.take(i as int))[idx as int]);
                assert(gprev.last() == gprev[gprev.len() - 1]);
                assert(totals@[idx as int] == gprev.last());
            }
            let bumped = totals[idx] + (value as u32);
            totals[idx] = bumped;
            proof {
                assert forall|j: int| 0 <= j < totals@.len() implies totals@[j]
                    == #[trigger] group_sums(cur)[j] by {
                    if j < idx {
                        assert(totals@[j] == before[j]);
                        assert(before[j] == group_sums(all.take(i as int))[j]);
                        assert(group_sums(cur)[j] == group_sums(prev)[j]);
                    } else {
                        assert(totals@[j] == bumped);
                        assert(group_sums(cur)[j] == group_sums(prev).last() + digits_value(
                            all[i as int],
                        ));
                    }
                }
            }
        }
        i = i + 1;
    }
    proof {
        assert(all.take(n as int) =~= all);
    }
    totals
}

// ---------------------------------------------------------------------------
// Sorting and picking
// ---------------------------------------------------------------------------
/// Sorted largest first.
pub open spec fn sorted_desc(s: Seq<u32>) -> bool {
    forall|i: int, j: int| 0 <= i <= j < s.len() ==> s[i] >= s[j]
}

/// The totals sorted largest first: same values, descending order.
pub fn sort_descending(totals: &Vec<u32>) -> (sorted: Vec<u32>)
    ensures
        sorted@.len() == totals@.len(),
        sorted@.to_multiset() == totals@.to_multiset(),
        sorted_desc(sorted@),
{
    let mut rest: Vec<u32> = Vec::new();
    let n = totals.len();
    assert(rest@ =~= totals@.take(0));
    for i in 0..n
        invariant
            n == totals@.len(),
            rest@ == totals@.take(i as int),
    {
        rest.push(totals[i]);
        assert(rest@ =~= totals@.take(i + 1));
    }
    assert(rest@ =~= totals@);
    let mut sorted: Vec<u32> = Vec::new();
    while rest.len() > 0
        invariant
            sorted@.to_multiset().add(rest@.to_multiset()) == totals@.to_multiset(),
            sorted@.len() + rest@.len() == totals@.len(),
            sorted_desc(sorted@),
            forall|i: int, j: int|
                0 <= i < sorted@.len() && 0 <= j < rest@.len() ==> sorted@[i] >= rest@[j],
        decreases rest@.len(),
    {
        let mut mi: usize = 0;
        let mut m = rest[0];
        let rn = rest.len();
        for t in 1..rn
            invariant
                rn == rest@.len(),
                mi < rn,
                m == rest@[mi as int],
                forall|j: int| 0 <= j < t ==> rest@[j] <= m,
        {
            if rest[t] > m {
                m = rest[t];
                mi = t;
            }
        }
        let ghost old_rest = rest@;
        let ghost old_sorted = sorted@;
        let x = rest.remove(mi);
        sorted.push(x);
        proof {
            assert(x == old_rest[mi as int]);
            assert(old_rest.contains(x));
            assert(old_rest.to_multiset().count(x) > 0);
            assert(rest@ == old_rest.remove(mi as int));
            assert(old_rest.remove(mi as int).to_multiset() =~= old_rest.to_multiset().remove(x));
            assert(sorted@ == old_sorted.push(x));
            assert(old_sorted.push(x).to_multiset() =~= old_sorted.to_multiset().insert(x));
            assert(sorted@.to_multiset().add(rest@.to_multiset()) =~= old_sorted.to_multiset().add(
                old_rest.to_multiset(),
            ));
            assert forall|i: int, j: int|
                0 <= i < sorted@.len() && 0 <= j < rest@.len() implies sorted@[i]
                >= rest@[j] by {
                assert(rest@[j] == if j < mi { old_rest[j] } else { old_rest[j + 1] });
                if i < old_sorted.len() {
                    assert(sorted@[i] == old_sorted[i]);
                } else {
                    assert(sorted@[i] == x);
                }
            }
        }
    }
    proof {
        assert(rest@ =~= Seq::<u32>::empty());
        assert(rest@.to_multiset() =~= Multiset::<u32>::empty());
        assert(sorted@.to_multiset() =~= sorted@.to_multiset().add(rest@.to_multiset()));
        assert(sorted@.len() == sorted@.to_multiset().len());
        assert(totals@.len() == totals@.to_multiset().len());
    }
    sorted
}

/// Sum of the first `k` values.
pub open spec fn sum_first(s: Seq<u32>, k: int) -> int
    decreases k,
{
    if k <= 0 {
        0
    } else {
        sum_first(s, k - 1) + s[k - 1]
    }
}

/// Partial sums of non-negative values never shrink.
pub proof fn lemma_sum_first_monotone(s: Seq<u32>, a: int, b: int)
    requires
        0 <= a <= b <= s.len(),
    ensures
        0 <= sum_first(s, a) <= sum_first(s, b),
    decreases b,
{
    if b > 0 && a < b {
        lemma_sum_first_monotone(s, a, b - 1);
    } else if b > 0 {
        lemma_sum_first_monotone(s, a - 1, b - 1);
    }
}

/// The first of the tallies; on a descending-sorted list, the largest.
pub fn part_1(output: &Vec<u32>) -> (r: u32)
    requires
        output@.len() > 0,
    ensures
        r == output@[0],
        sorted_desc(output@) ==> forall|i: int| 0 <= i < output@.len() ==> r >= #[trigger] output@[i],
{
    output[0]
}

/// Sum of the first three tallies (or of all of them, when there are
/// fewer); on a descending-sorted list, the top-three tally.
pub fn part_2(output: &Vec<u32>) -> (r: u32)
    requires
        sum_first(output@, if output@.len() < 3 { output@.len() as int } else { 3 }) <= u32::MAX,
    ensures
        r == sum_first(output@, if output@.len() < 3 { output@.len() as int } else { 3 }),
{
    let n = output.len();
    let k = if n < 3 {
        n
    } else {
        3
    };
    let ghost kk: int = if output@.len() < 3 { output@.len() as int } else { 3 };
    let mut total: u32 = 0;
    for i in 0..k
        invariant
            k == kk,
            k <= n == output@.len(),
            sum_first(output@, kk) <= u32::MAX,
            total == sum_first(output@, i as int),
    {
        proof {
            lemma_sum_first_monotone(output@, i + 1, kk);
        }
        total = total + output[i];
    }
    total
}

} // verus!
