//! Shared text utilities: character classification, decimal number parsing,
//! and splitting input text into lines.

use vstd::prelude::*;

verus! {

/// A decimal digit `'0'..='9'`.
pub open spec fn is_digit(c: char) -> bool {
    '0' as u32 <= c as u32 && c as u32 <= '9' as u32
}

/// Every character of `s` is a decimal digit.
pub open spec fn all_digits(s: Seq<char>) -> bool {
    forall|i: int| 0 <= i < s.len() ==> is_digit(#[trigger] s[i])
}

/// Numeric value of one digit character.
pub open spec fn digit_value(c: char) -> int {
    c as u32 - '0' as u32
}

/// Value of a decimal digit string, most significant digit first.
pub open spec fn digits_value(s: Seq<char>) -> int
    decreases s.len(),
{
    if s.len() == 0 {
        0
    } else {
        digits_value(s.drop_last()) * 10 + digit_value(s.last())
    }
}

/// A well-formed decimal number: non-empty and all digits.
pub open spec fn is_number(s: Seq<char>) -> bool {
    s.len() > 0 && all_digits(s)
}

/// Index of the first occurrence of `c` in `s`, or `s.len()` if absent.
pub open spec fn first_index_of(s: Seq<char>, c: char) -> nat
    decreases s.len(),
{
    if s.len() == 0 {
        0
    } else if s[0] == c {
        0
    } else {
        1 + first_index_of(s.drop_first(), c)
    }
}

/// The text split at `'\n'` separators, a trailing empty piece dropped,
/// mirroring how lines of an input file are enumerated.
pub open spec fn split_lines(s: Seq<char>) -> Seq<Seq<char>>
    decreases s.len(),
{
    if s.len() == 0 {
        Seq::empty()
    } else {
        let i = first_index_of(s, '\n');
        if i >= s.len() {
            seq![s]
        } else {
            seq![s.take(i as int)] + split_lines(s.skip(i as int + 1))
        }
    }
}

/// The text split at every occurrence of `sep`, as `str::split` does it:
/// splitting an empty text, or one without the separator, gives one piece.
pub open spec fn split_on(s: Seq<char>, sep: char) -> Seq<Seq<char>>
    decreases s.len(),
{
    let i = first_index_of(s, sep);
    if i >= s.len() {
        seq![s]
    } else {
        seq![s.take(i as int)] + split_on(s.skip(i as int + 1), sep)
    }
}

/// `first_index_of` is sound: it is in bounds, nothing before it is `c`,
/// and it points at `c` unless `c` is absent.
pub proof fn lemma_first_index_of(s: Seq<char>, c: char)
    ensures
        first_index_of(s, c) <= s.len(),
        forall|j: int| 0 <= j < first_index_of(s, c) ==> s[j] != c,
        first_index_of(s, c) < s.len() ==> s[first_index_of(s, c) as int] == c,
    decreases s.len(),
{
    if s.len() > 0 && s[0] != c {
        lemma_first_index_of(s.drop_first(), c);
        assert forall|j: int| 0 <= j < first_index_of(s, c) implies s[j] != c by {
            if j > 0 {
                assert(s[j] == s.drop_first()[j - 1]);
            }
        }
    }
}

/// `first_index_of` is determined by the characters: if nothing before `m`
/// is `c` and `s[m] == c`, then `m` is the first index.
pub proof fn lemma_first_index_of_exact(s: Seq<char>, c: char, m: int)
    requires
        0 <= m < s.len(),
        s[m] == c,
        forall|j: int| 0 <= j < m ==> s[j] != c,
    ensures
        first_index_of(s, c) == m,
    decreases s.len(),
{
    if m > 0 {
        lemma_first_index_of_exact(s.drop_first(), c, m - 1);
    }
}

/// If `c` does not occur in `s`, the first index is `s.len()`.
pub proof fn lemma_first_index_of_absent(s: Seq<char>, c: char)
    requires
        forall|j: int| 0 <= j < s.len() ==> s[j] != c,
    ensures
        first_index_of(s, c) == s.len(),
    decreases s.len(),
{
    if s.len() > 0 {
        lemma_first_index_of_absent(s.drop_first(), c);
    }
}

/// A digit string has a non-negative value.
pub proof fn lemma_digits_value_nonneg(s: Seq<char>)
    requires
        all_digits(s),
    ensures
        digits_value(s) >= 0,
    decreases s.len(),
{
    if s.len() > 0 {
        assert(all_digits(s.drop_last()));
        lemma_digits_value_nonneg(s.drop_last());
    }
}

/// A prefix of a digit string is worth no more than the whole string.
pub proof fn lemma_digits_value_take_le(s: Seq<char>, k: int)
    requires
        all_digits(s),
        0 <= k <= s.len(),
    ensures
        digits_value(s.take(k)) <= digits_value(s),
    decreases s.len(),
{
    if k == s.len() {
        assert(s.take(k) =~= s);
    } else {
        assert(all_digits(s.drop_last()));
        assert(s.drop_last().take(k) =~= s.take(k));
        lemma_digits_value_take_le(s.drop_last(), k);
        lemma_digits_value_nonneg(s.drop_last());
    }
}

/// Splitting off one line: if position `i` holds the first `'\n'` at or
/// after `start`, the tail starting at `start` splits into the line
/// `s[start..i]` followed by the lines of the tail after the `'\n'`.
pub proof fn lemma_split_lines_step(s: Seq<char>, start: int, i: int)
    requires
        0 <= start <= i < s.len(),
        s[i] == '\n',
        forall|j: int| start <= j < i ==> s[j] != '\n',
    ensures
        split_lines(s.skip(start)) == seq![s.subrange(start, i)] + split_lines(
            s.skip(i + 1),
        ),
{
    let t = s.skip(start);
    assert(t[i - start] == '\n');
    assert forall|j: int| 0 <= j < i - start implies t[j] != '\n' by {
        assert(t[j] == s[start + j]);
    }
    lemma_first_index_of_exact(t, '\n', i - start);
    assert(t.take(i - start) =~= s.subrange(start, i));
    assert(t.skip(i - start + 1) =~= s.skip(i + 1));
}

/// No `'\n'` at or after `start`: the tail is one final line, or nothing
/// when `start` is at the end.
pub proof fn lemma_split_lines_tail(s: Seq<char>, start: int)
    requires
        0 <= start <= s.len(),
        forall|j: int| start <= j < s.len() ==> s[j] != '\n',
    ensures
        split_lines(s.skip(start)) == if start == s.len() {
            Seq::<Seq<char>>::empty()
        } else {
            seq![s.subrange(start, s.len() as int)]
        },
{
    let t = s.skip(start);
    if start < s.len() {
        assert forall|j: int| 0 <= j < t.len() implies t[j] != '\n' by {
            assert(t[j] == s[start + j]);
        }
        lemma_first_index_of_absent(t, '\n');
        assert(t =~= s.subrange(start, s.len() as int));
    }
}

/// Splitting off one piece: if position `i` holds the first `sep` at or
/// after `start`, the tail starting at `start` splits into the piece
/// `s[start..i]` followed by the pieces of the tail after the separator.
pub proof fn lemma_split_on_step(s: Seq<char>, sep: char, start: int, i: int)
    requires
        0 <= start <= i < s.len(),
        s[i] == sep,
        forall|j: int| start <= j < i ==> s[j] != sep,
    ensures
        split_on(s.skip(start), sep) == seq![s.subrange(start, i)] + split_on(
            s.skip(i + 1),
            sep,
        ),
{
    let t = s.skip(start);
    assert(t[i - start] == sep);
    assert forall|j: int| 0 <= j < i - start implies t[j] != sep by {
        assert(t[j] == s[start + j]);
    }
    lemma_first_index_of_exact(t, sep, i - start);
    assert(t.take(i - start) =~= s.subrange(start, i));
    assert(t.skip(i - start + 1) =~= s.skip(i + 1));
}

/// No `sep` at or after `start`: the tail is a single piece.
pub proof fn lemma_split_on_tail(s: Seq<char>, sep: char, start: int)
    requires
        0 <= start <= s.len(),
        forall|j: int| start <= j < s.len() ==> s[j] != sep,
    ensures
        split_on(s.skip(start), sep) == seq![s.subrange(start, s.len() as int)],
{
    let t = s.skip(start);
    assert forall|j: int| 0 <= j < t.len() implies t[j] != sep by {
        assert(t[j] == s[start + j]);
    }
    lemma_first_index_of_absent(t, sep);
    assert(t =~= s.subrange(start, s.len() as int));
}

/// Position of the next `sep` in `v` at or after `start`, or `v.len()` if
/// there is none.
pub fn find_char_from(v: &Vec<char>, start: usize, sep: char) -> (r: usize)
    requires
        start <= v@.len(),
    ensures
        start <= r <= v@.len(),
        r - start == first_index_of(v@.skip(start as int), sep),
        forall|j: int| start <= j < r ==> v@[j] != sep,
        r < v@.len() ==> v@[r as int] == sep,
{
    let n = v.len();
    let mut i = start;
    while i < n
        invariant
            start <= i <= n,
            n == v@.len(),
            forall|j: int| start <= j < i ==> v@[j] != sep,
        decreases n - i,
    {
        if v[i] == sep {
            proof {
                let t = v@.skip(start as int);
                assert(t[i - start] == sep);
                assert forall|j: int| 0 <= j < i - start implies t[j] != sep by {
                    assert(t[j] == v@[start + j]);
                }
                lemma_first_index_of_exact(t, sep, i - start);
            }
            return i;
        }
        i += 1;
    }
    proof {
        let t = v@.skip(start as int);
        assert forall|j: int| 0 <= j < t.len() implies t[j] != sep by {
            assert(t[j] == v@[start + j]);
        }
        lemma_first_index_of_absent(t, sep);
    }
    n
}

/// There are never more lines than characters.
pub proof fn lemma_split_lines_count(s: Seq<char>)
    ensures
        split_lines(s).len() <= s.len(),
    decreases s.len(),
{
    if s.len() > 0 {
        let i = first_index_of(s, '\n');
        lemma_first_index_of(s, '\n');
        if i < s.len() {
            lemma_split_lines_count(s.skip(i as int + 1));
        }
    }
}

/// Combined length of a list of lines.
pub open spec fn lines_total_len(lines: Seq<Seq<char>>) -> int
    decreases lines.len(),
{
    if lines.len() == 0 {
        0
    } else {
        lines.first().len() + lines_total_len(lines.drop_first())
    }
}

/// A list of lines has a non-negative combined length.
pub proof fn lemma_lines_total_len_nonneg(lines: Seq<Seq<char>>)
    ensures
        lines_total_len(lines) >= 0,
    decreases lines.len(),
{
    if lines.len() > 0 {
        lemma_lines_total_len_nonneg(lines.drop_first());
    }
}

/// The lines of a text never hold more characters than the text.
pub proof fn lemma_split_lines_total_len(s: Seq<char>)
    ensures
        0 <= lines_total_len(split_lines(s)) <= s.len(),
    decreases s.len(),
{
    lemma_lines_total_len_nonneg(split_lines(s));
    if s.len() > 0 {
        let i = first_index_of(s, '\n');
        lemma_first_index_of(s, '\n');
        if i >= s.len() {
            assert(split_lines(s).first() == s);
            assert(split_lines(s).drop_first() =~= Seq::<Seq<char>>::empty());
            assert(lines_total_len(Seq::<Seq<char>>::empty()) == 0);
        } else {
            lemma_split_lines_total_len(s.skip(i as int + 1));
            let sp = seq![s.take(i as int)] + split_lines(s.skip(i as int + 1));
            assert(split_lines(s) == sp);
            assert(sp.first() == s.take(i as int));
            assert(sp.first().len() == i);
            assert(sp.drop_first() =~= split_lines(s.skip(i as int + 1)));
            assert(lines_total_len(sp) == i + lines_total_len(split_lines(s.skip(i as int + 1))));
        }
    }
}

/// The pieces named by a vector of index ranges into `v`.
pub open spec fn pieces_of(v: Seq<char>, toks: Seq<(usize, usize)>) -> Seq<Seq<char>> {
    toks.map_values(|p: (usize, usize)| v.subrange(p.0 as int, p.1 as int))
}

/// An index range that lies within `v`.
pub open spec fn token_in_bounds(v: Seq<char>, t: (usize, usize)) -> bool {
    t.0 <= t.1 <= v.len()
}

/// The index ranges of the pieces of `v` between occurrences of `sep`,
/// in order; the named pieces are exactly `split_on(v@, sep)`.
pub fn split_tokens(v: &Vec<char>, sep: char) -> (toks: Vec<(usize, usize)>)
    ensures
        pieces_of(v@, toks@) == split_on(v@, sep),
        forall|t: int| 0 <= t < toks@.len() ==> token_in_bounds(v@, #[trigger] toks@[t]),
{
    let n = v.len();
    let mut toks: Vec<(usize, usize)> = Vec::new();
    let mut start: usize = 0;
    let mut e = find_char_from(v, 0, sep);
    assert(v@.skip(0) =~= v@);
    while e < n
        invariant
            start <= e <= n,
            n == v@.len(),
            forall|j: int| start <= j < e ==> v@[j] != sep,
            e < n ==> v@[e as int] == sep,
            split_on(v@, sep) == pieces_of(v@, toks@) + split_on(v@.skip(start as int), sep),
            forall|t: int| 0 <= t < toks@.len() ==> token_in_bounds(v@, #[trigger] toks@[t]),
        decreases n - start,
    {
        proof {
            lemma_split_on_step(v@, sep, start as int, e as int);
        }
        let ghost prev = toks@;
        toks.push((start, e));
        proof {
            assert(pieces_of(v@, toks@) =~= pieces_of(v@, prev).push(
                v@.subrange(start as int, e as int),
            ));
            assert(pieces_of(v@, prev) + (seq![v@.subrange(start as int, e as int)] + split_on(
                v@.skip(e + 1),
                sep,
            )) =~= pieces_of(v@, toks@) + split_on(v@.skip(e + 1), sep));
        }
        start = e + 1;
        e = find_char_from(v, start, sep);
    }
    proof {
        lemma_split_on_tail(v@, sep, start as int);
    }
    let ghost prev = toks@;
    toks.push((start, n));
    proof {
        assert(pieces_of(v@, toks@) =~= pieces_of(v@, prev).push(
            v@.subrange(start as int, n as int),
        ));
        assert(pieces_of(v@, prev) + seq![v@.subrange(start as int, n as int)] =~= pieces_of(
            v@,
            toks@,
        ));
        assert forall|t: int| 0 <= t < toks@.len() implies token_in_bounds(
            v@,
            #[trigger] toks@[t],
        ) by {
            if t < prev.len() {
                assert(toks@[t] == prev[t]);
            } else {
                assert(toks@[t] == (start, n));
            }
        }
    }
    toks
}

/// View of each line of a line vector.
pub open spec fn views_of(lines: Seq<&str>) -> Seq<Seq<char>> {
    lines.map_values(|l: &str| l@)
}

/// The lines of `s`, split at `'\n'`, a trailing empty piece dropped.
pub fn lines_of<'a>(s: &'a str) -> (lines: Vec<&'a str>)
    ensures
        views_of(lines@) == split_lines(s@),
{
    let n = s.unicode_len();
    let mut lines: Vec<&'a str> = Vec::new();
    let mut start: usize = 0;
    assert(s@.skip(0) =~= s@);
    for i in 0..n
        invariant
            n == s@.len(),
            start <= i,
            i <= n,
            forall|j: int| start <= j < i ==> s@[j] != '\n',
            split_lines(s@) == views_of(lines@) + split_lines(s@.skip(start as int)),
    {
        if s.get_char(i) == '\n' {
            let line = s.substring_char(start, i);
            proof {
                lemma_split_lines_step(s@, start as int, i as int);
            }
            let ghost prev = lines@;
            lines.push(line);
            proof {
                assert(views_of(lines@) =~= views_of(prev).push(line@));
                assert(views_of(prev) + (seq![line@] + split_lines(s@.skip(i + 1))) =~= (
                views_of(prev).push(line@)) + split_lines(s@.skip(i + 1)));
            }
            start = i + 1;
        }
    }
    proof {
        lemma_split_lines_tail(s@, start as int);
    }
    if start < n {
        let line = s.substring_char(start, n);
        let ghost prev = lines@;
        lines.push(line);
        proof {
            assert(views_of(lines@) =~= views_of(prev).push(line@));
            assert(views_of(prev) + seq![line@] =~= views_of(prev).push(line@));
        }
    } else {
        assert(views_of(lines@) + Seq::<Seq<char>>::empty() =~= views_of(lines@));
    }
    lines
}

/// Value of the digit characters `v[from..to]`, read as one decimal number.
pub fn parse_number(v: &Vec<char>, from: usize, to: usize) -> (r: u64)
    requires
        from <= to <= v@.len(),
        all_digits(v@.subrange(from as int, to as int)),
        digits_value(v@.subrange(from as int, to as int)) <= u64::MAX,
    ensures
        r == digits_value(v@.subrange(from as int, to as int)),
{
    let ghost s = v@.subrange(from as int, to as int);
    let mut acc: u64 = 0;
    assert(s.take(0) =~= Seq::<char>::empty());
    for i in from..to
        invariant
            from <= i <= to <= v@.len(),
            s == v@.subrange(from as int, to as int),
            all_digits(s),
            digits_value(s) <= u64::MAX,
            acc == digits_value(s.take(i - from)),
    {
        let c = v[i];
        proof {
            assert(s[i - from] == c);
            assert(is_digit(c));
        }
        let d: u64 = (c as u32 - 48) as u64;
        proof {
            lemma_digits_value_take_le(s, i - from + 1);
            lemma_digits_value_nonneg(s.take(i - from));
            assert(s.take(i - from + 1).drop_last() =~= s.take(i - from));
            assert(s.take(i - from + 1).last() == c);
        }
        acc = acc * 10 + d;
    }
    assert(s.take(to - from) =~= s);
    acc
}

/// Relies on std's `Iterator::collect` for `String`: collecting characters
/// yields the string holding exactly those characters, in order.
#[verifier::external_body]
pub fn string_from_chars(v: &Vec<char>) -> (s: String)
    ensures
        s@ == v@,
{
    v.iter().collect()
}

/// The characters of `s`, as a vector.
pub fn chars_of(s: &str) -> (v: Vec<char>)
    ensures
        v@ == s@,
{
    let n = s.unicode_len();
    let mut v: Vec<char> = Vec::new();
    for i in 0..n
        invariant
            n == s@.len(),
            v@ == s@.take(i as int),
    {
        v.push(s.get_char(i));
        assert(v@ =~= s@.take(i + 1));
    }
    assert(v@ =~= s@);
    v
}

} // verus!
