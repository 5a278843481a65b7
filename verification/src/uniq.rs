//! The decision core of duplicate grouping: when two adjacent lines count
//! as the same, and what one step of the grouping loop writes.

use vstd::prelude::*;

use crate::numbers::dec_digits;
use crate::textfmt::pad_number;
use crate::textfmt::padded_left;

verus! {

/// A line-end character.
pub open spec fn is_eol_char(c: char) -> bool {
    c == '\n' || c == '\r'
}

/// `s` with every trailing line-end character removed.
pub open spec fn trim_eol(s: Seq<char>) -> Seq<char>
    decreases s.len(),
{
    if s.len() > 0 && is_eol_char(s.last()) {
        trim_eol(s.drop_last())
    } else {
        s
    }
}

/// Length of `s` once trailing line-end characters are dropped.
fn trimmed_len(s: &str) -> (r: usize)
    ensures
        r <= s@.len(),
        trim_eol(s@) == s@.take(r as int),
{
    let n = s.unicode_len();
    let mut t: usize = 0;
    let mut i: usize = 0;
    proof {
        assert(trim_eol(s@.take(0)) =~= s@.take(0));
    }
    while i < n
        invariant
            0 <= t <= i <= n,
            n == s@.len(),
            trim_eol(s@.take(i as int)) =~= s@.take(t as int),
        decreases n - i,
    {
        let c = s.get_char(i);
        proof {
            let w = s@.take(i + 1);
            assert(w.last() == s@[i as int]);
            assert(w.drop_last() =~= s@.take(i as int));
        }
        if c as u32 == 10 || c as u32 == 13 {
            proof {
                assert(is_eol_char(s@[i as int]));
                assert(trim_eol(s@.take(i + 1)) =~= trim_eol(s@.take(i as int)));
            }
        } else {
            proof {
                assert(!is_eol_char(s@[i as int]));
                assert(trim_eol(s@.take(i + 1)) =~= s@.take(i + 1));
            }
            t = i + 1;
        }
        i = i + 1;
    }
    proof {
        assert(s@.take(n as int) =~= s@);
    }
    t
}

/// Whether two lines are the same once trailing line-end characters are
/// dropped.
pub fn lines_match(a: &str, b: &str) -> (r: bool)
    ensures
        r == (trim_eol(a@) == trim_eol(b@)),
{
    let ta = trimmed_len(a);
    let tb = trimmed_len(b);
    if ta != tb {
        proof {
            assert(trim_eol(a@).len() != trim_eol(b@).len());
        }
        return false;
    }
    let mut j: usize = 0;
    while j < ta
        invariant
            0 <= j <= ta,
            ta == tb,
            ta <= a@.len(),
            tb <= b@.len(),
            trim_eol(a@) == a@.take(ta as int),
            trim_eol(b@) == b@.take(tb as int),
            forall|m: int| 0 <= m < j ==> a@[m] == b@[m],
        decreases ta - j,
    {
        let ca = a.get_char(j);
        let cb = b.get_char(j);
        if ca as u32 != cb as u32 {
            proof {
                assert(trim_eol(a@)[j as int] == a@[j as int]);
                assert(trim_eol(b@)[j as int] == b@[j as int]);
            }
            return false;
        }
        j = j + 1;
    }
    proof {
        assert(a@.take(ta as int) =~= b@.take(tb as int));
    }
    true
}

/// The grouping loop's state: the line that opened the current group, if
/// any, and how many lines the group holds so far.
#[derive(Debug, PartialEq, Eq)]
pub struct UniqState {
    pub current: Option<String>,
    pub count: usize,
}

/// One row to write: the line that opened a finished group, with its count.
#[derive(Debug, PartialEq, Eq)]
pub struct UniqEmit {
    pub line: String,
    pub count: usize,
}

/// One step of duplicate grouping.  Feed the next line (`at_end` with the
/// final empty read once the source is exhausted) and learn what to write:
/// a finished group is emitted when the new line differs from the group's
/// opener once trailing line ends are dropped, or when the input ends.
pub fn uniq_step(state: UniqState, line: &str, at_end: bool) -> (r: (UniqState, Option<UniqEmit>))
    requires
        state.count < usize::MAX,
    ensures
        match state.current {
            Option::None => {
                &&& r.1 is None
                &&& r.0.current is Some
                &&& r.0.current->0@ == line@
                &&& r.0.count == state.count + (if at_end {
                    0int
                } else {
                    1int
                })
            },
            Option::Some(cur) => {
                if trim_eol(cur@) != trim_eol(line@) || at_end {
                    &&& r.1 is Some
                    &&& r.1->0.line@ == cur@
                    &&& r.1->0.count == state.count
                    &&& r.0.current is Some
                    &&& r.0.current->0@ == line@
                    &&& r.0.count == (if at_end {
                        0int
                    } else {
                        1int
                    })
                } else {
                    &&& r.1 is None
                    &&& r.0.current is Some
                    &&& r.0.current->0@ == cur@
                    &&& r.0.count == state.count + 1
                }
            },
        },
{
    let step = if at_end {
        0
    } else {
        1
    };
    match state.current {
        Option::None => {
            (UniqState { current: Some(String::from_str(line)), count: state.count + step }, None)
        },
        Option::Some(cur) => {
            if !lines_match(cur.as_str(), line) || at_end {
                let emit = UniqEmit { line: cur, count: state.count };
                (UniqState { current: Some(String::from_str(line)), count: step }, Some(emit))
            } else {
                (UniqState { current: Some(cur), count: state.count + 1 }, None)
            }
        },
    }
}

/// The count column of counted output: the count right-aligned to four
/// columns, then a space.
pub fn format_count_prefix(count: usize) -> (r: String)
    ensures
        r@ == padded_left(dec_digits(count as nat), 4) + seq![' '],
{
    proof {
        reveal_strlit(" ");
    }
    let mut out = pad_number(count, 4);
    out.append(" ");
    proof {
        assert(" "@ =~= seq![' ']);
    }
    out
}

} // verus!
