//! Finding the first occurrence of an element in a sequence, with the facts
//! the parser and the splitter need about it.

use vstd::prelude::*;

verus! {

/// Index of the first occurrence of `c` in `s`, or `s.len()` when absent.
pub open spec fn first_occurrence<T>(s: Seq<T>, c: T) -> int
    decreases s.len(),
{
    if s.len() == 0 {
        0
    } else if s[0] == c {
        0
    } else {
        1 + first_occurrence(s.drop_first(), c)
    }
}

/// `first_occurrence` is `i` exactly when nothing before `i` is `c` and
/// either `i` is the length or `s[i]` is `c`.
pub proof fn lemma_first_occurrence_at<T>(s: Seq<T>, c: T, i: int)
    requires
        0 <= i <= s.len(),
        forall|j: int| 0 <= j < i ==> s[j] != c,
        i < s.len() ==> s[i] == c,
    ensures
        first_occurrence(s, c) == i,
    decreases s.len(),
{
    if s.len() > 0 && i > 0 {
        assert(s[0] != c);
        lemma_first_occurrence_at(s.drop_first(), c, i - 1);
    }
}

/// What always holds of `first_occurrence`: it is in bounds, points at `c`
/// when within the sequence, and nothing before it is `c`.
pub proof fn lemma_first_occurrence_props<T>(s: Seq<T>, c: T)
    ensures
        0 <= first_occurrence(s, c) <= s.len(),
        first_occurrence(s, c) < s.len() ==> s[first_occurrence(s, c)] == c,
        forall|j: int| 0 <= j < first_occurrence(s, c) ==> s[j] != c,
    decreases s.len(),
{
    if s.len() > 0 && s[0] != c {
        lemma_first_occurrence_props(s.drop_first(), c);
        assert forall|j: int| 0 <= j < first_occurrence(s, c) implies s[j] != c by {
            if j > 0 {
                assert(s.drop_first()[j - 1] == s[j]);
            }
        }
    }
}

/// Index of the first occurrence of `d` in a byte slice, executable form.
pub fn find_byte(s: &[u8], d: u8) -> (r: usize)
    ensures
        r as int == first_occurrence(s@, d),
        r <= s@.len(),
{
    let n = s.len();
    let mut i: usize = 0;
    while i < n
        invariant
            0 <= i <= n,
            n == s@.len(),
            forall|j: int| 0 <= j < i ==> s@[j] != d,
        decreases n - i,
    {
        if s[i] == d {
            proof {
                lemma_first_occurrence_at(s@, d, i as int);
            }
            return i;
        }
        i = i + 1;
    }
    proof {
        lemma_first_occurrence_at(s@, d, n as int);
    }
    n
}

} // verus!
