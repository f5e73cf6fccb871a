//! Datastream marker scan.
//!
//! A marker is the first window of a given width whose characters are all
//! different; the answer is the number of characters consumed up to and
//! including that window.

use vstd::prelude::*;
use vstd::pervasive::unreached;
use crate::text::chars_of;

verus! {

/// The `width` characters of `s` starting at `i` exist and are pairwise
/// distinct.
pub open spec fn distinct_window(s: Seq<char>, i: int, width: int) -> bool {
    &&& 0 <= i
    &&& i + width <= s.len()
    &&& forall|a: int, b: int| i <= a < b < i + width ==> s[a] != s[b]
}

/// Whether the window of `width` characters at `i` is pairwise distinct.
fn window_distinct(v: &Vec<char>, i: usize, width: usize) -> (r: bool)
    requires
        i + width <= v@.len(),
    ensures
        r == distinct_window(v@, i as int, width as int),
{
    let n = v.len();
    let hi = i + width;
    let mut a = i;
    while a < hi
        invariant
            i <= a <= hi,
            hi == i + width,
            hi <= v@.len(),
            forall|x: int, y: int| i <= x < y < hi && x < a ==> v@[x] != v@[y],
        decreases hi - a,
    {
        let mut b = a + 1;
        while b < hi
            invariant
                i <= a < b <= hi,
                hi == i + width,
                hi <= v@.len(),
                forall|y: int| a < y < b ==> v@[a as int] != v@[y],
            decreases hi - b,
        {
            if v[a] == v[b] {
                proof {
                    assert(!distinct_window(v@, i as int, width as int));
                }
                return false;
            }
            b += 1;
        }
        a += 1;
    }
    true
}

/// Index just past the first window of `len_of_chars` pairwise-distinct
/// characters: the number of characters read once the first marker has
/// been seen in full.  The datastream must be non-empty and must hold
/// such a window.
pub fn find_index(datastream: String, len_of_chars: usize) -> (r: usize)
    requires
        datastream@.len() > 0,
        exists|i: int| distinct_window(datastream@, i, len_of_chars as int),
    ensures
        len_of_chars <= r <= datastream@.len(),
        distinct_window(datastream@, r - len_of_chars, len_of_chars as int),
        forall|j: int|
            0 <= j < r - len_of_chars ==> !distinct_window(datastream@, j, len_of_chars as int),
{
    let v = chars_of(datastream.as_str());
    let n = v.len();
    for i in 0..n
        invariant
            n == v@.len(),
            v@ == datastream@,
            exists|w: int| distinct_window(datastream@, w, len_of_chars as int),
            forall|j: int| 0 <= j < i ==> !distinct_window(v@, j, len_of_chars as int),
    {
        if len_of_chars <= n - i {
            if window_distinct(&v, i, len_of_chars) {
                return i + len_of_chars;
            }
        } else {
            proof {
                assert(!distinct_window(v@, i as int, len_of_chars as int));
            }
        }
    }
    proof {
        if len_of_chars == 0 {
            assert(distinct_window(v@, 0, 0));
            assert(!distinct_window(v@, 0, 0));
        } else {
            let w = choose|w: int| distinct_window(datastream@, w, len_of_chars as int);
            assert(w < n);
            assert(!distinct_window(v@, w, len_of_chars as int));
        }
        assert(false);
    }
    unreached()
}

} // verus!
