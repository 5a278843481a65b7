//! Head-style prefixes and the byte-count argument: the first bytes or
//! lines of an input, and the `123`, `123K`, `123MiB` argument shape.

use vstd::prelude::*;
use vstd::slice::slice_subrange;
use vstd::slice::slice_to_vec;

use crate::extract::clamped;
use crate::numbers::is_digit_char;
use crate::numbers::parse_number;
use crate::numbers::value_of;
use crate::scan::find_byte;
use crate::scan::first_occurrence;
use crate::scan::lemma_first_occurrence_props;
use crate::textfmt::str_eq;

verus! {

/// Why a byte-count argument was rejected; carries the offending value.
#[derive(Debug, PartialEq, Eq)]
pub enum CmdError {
    IllegalByteCount(String),
}

impl CmdError {
    /// The diagnostic text of the error.
    pub open spec fn spec_message(self) -> Seq<char> {
        match self {
            CmdError::IllegalByteCount(t) => "illegal byte count -- "@ + t@,
        }
    }

    /// Render the diagnostic text.
    pub fn message(&self) -> (r: String)
        ensures
            r@ == self.spec_message(),
    {
        match self {
            CmdError::IllegalByteCount(t) => {
                let mut out = String::from_str("illegal byte count -- ");
                out.append(t.as_str());
                proof {
                    assert(out@ =~= self.spec_message());
                }
                out
            },
        }
    }
}

/// How many leading characters of `s` are decimal digits.
pub open spec fn digit_prefix_len(s: Seq<char>) -> int
    decreases s.len(),
{
    if s.len() > 0 && is_digit_char(s[0]) {
        1 + digit_prefix_len(s.drop_first())
    } else {
        0
    }
}

proof fn lemma_digit_prefix_props(s: Seq<char>)
    ensures
        0 <= digit_prefix_len(s) <= s.len(),
        forall|j: int| 0 <= j < digit_prefix_len(s) ==> is_digit_char(#[trigger] s[j]),
    decreases s.len(),
{
    if s.len() > 0 && is_digit_char(s[0]) {
        lemma_digit_prefix_props(s.drop_first());
        assert forall|j: int| 0 <= j < digit_prefix_len(s) implies is_digit_char(
            #[trigger] s[j],
        ) by {
            if j > 0 {
                assert(s.drop_first()[j - 1] == s[j]);
            }
        }
    }
}

proof fn lemma_digit_prefix_at(s: Seq<char>, k: int)
    requires
        0 <= k <= s.len(),
        forall|j: int| 0 <= j < k ==> is_digit_char(#[trigger] s[j]),
        k < s.len() ==> !is_digit_char(s[k]),
    ensures
        digit_prefix_len(s) == k,
    decreases s.len(),
{
    if s.len() > 0 && k > 0 {
        assert(is_digit_char(s[0]));
        assert forall|j: int| 0 <= j < k - 1 implies is_digit_char(#[trigger] s.drop_first()[j]) by {
            assert(s.drop_first()[j] == s[j + 1]);
        }
        lemma_digit_prefix_at(s.drop_first(), k - 1);
    }
}

/// A recognised size-unit suffix.
pub open spec fn is_byte_unit(s: Seq<char>) -> bool {
    ||| s == "b"@
    ||| s == "kB"@
    ||| s == "K"@
    ||| s == "MB"@
    ||| s == "M"@
    ||| s == "GB"@
    ||| s == "G"@
    ||| s == "KiB"@
    ||| s == "MiB"@
    ||| s == "GiB"@
}

/// A byte-count argument is acceptable: one or more digits, then nothing or
/// one recognised unit suffix, with the digits' value fitting in a machine
/// word.  The suffix scales nothing: the count is the digits' value.
pub open spec fn byte_count_ok(s: Seq<char>) -> bool {
    let k = digit_prefix_len(s);
    &&& k >= 1
    &&& (k == s.len() || is_byte_unit(s.skip(k)))
    &&& value_of(s.take(k)) <= usize::MAX
}

/// Whether `s` is a recognised size-unit suffix, executable form.
fn is_unit_str(s: &str) -> (r: bool)
    ensures
        r == is_byte_unit(s@),
{
    str_eq(s, "b") || str_eq(s, "kB") || str_eq(s, "K") || str_eq(s, "MB") || str_eq(s, "M")
        || str_eq(s, "GB") || str_eq(s, "G") || str_eq(s, "KiB") || str_eq(s, "MiB") || str_eq(
        s,
        "GiB",
    )
}

/// How many leading characters of `s` are decimal digits, executable form.
pub fn digit_prefix_count(s: &str) -> (r: usize)
    ensures
        r as int == digit_prefix_len(s@),
        r <= s@.len(),
{
    let n = s.unicode_len();
    let mut i: usize = 0;
    while i < n
        invariant
            0 <= i <= n,
            n == s@.len(),
            forall|j: int| 0 <= j < i ==> is_digit_char(#[trigger] s@[j]),
        decreases n - i,
    {
        let c = s.get_char(i);
        let u = c as u32;
        if u < 48 || u > 57 {
            assert(!is_digit_char(s@[i as int]));
            proof {
                lemma_digit_prefix_at(s@, i as int);
            }
            return i;
        }
        i = i + 1;
    }
    proof {
        lemma_digit_prefix_at(s@, n as int);
    }
    n
}

/// Parse a byte-count argument: decimal digits with an optional recognised
/// unit suffix, which is accepted but scales nothing.  Anything else, and a
/// value beyond the machine word, is rejected with the offending argument.
pub fn parse_byte_count(s: &str) -> (r: Result<usize, CmdError>)
    ensures
        r is Ok <==> byte_count_ok(s@),
        r is Ok ==> r->Ok_0 == value_of(s@.take(digit_prefix_len(s@))),
        r is Err ==> match r->Err_0 {
            CmdError::IllegalByteCount(t) => t@ == s@,
        },
{
    let n = s.unicode_len();
    let k = digit_prefix_count(s);
    if k == 0 {
        return Err(CmdError::IllegalByteCount(String::from_str(s)));
    }
    let digits = s.substring_char(0, k);
    let rest = s.substring_char(k, n);
    proof {
        assert(digits@ =~= s@.take(k as int));
        assert(rest@ =~= s@.skip(k as int));
    }
    if rest.unicode_len() > 0 && !is_unit_str(rest) {
        return Err(CmdError::IllegalByteCount(String::from_str(s)));
    }
    proof {
        if rest@.len() == 0 {
            assert(k as int == s@.len());
        }
    }
    proof {
        lemma_digit_prefix_props(s@);
        assert forall|j: int| 0 <= j < digits@.len() implies is_digit_char(
            #[trigger] digits@[j],
        ) by {
            assert(digits@[j] == s@[j]);
        }
    }
    match parse_number(digits) {
        Some(v) => Ok(v),
        None => Err(CmdError::IllegalByteCount(String::from_str(s))),
    }
}

/// The first `num_bytes` bytes of the input, or all of it when it is
/// shorter.
pub fn read_first_n_bytes(data: &[u8], num_bytes: usize) -> (r: Vec<u8>)
    ensures
        r@ == data@.take(clamped(num_bytes as int, data@.len() as int)),
{
    let n = data.len();
    let end = if num_bytes < n {
        num_bytes
    } else {
        n
    };
    slice_to_vec(slice_subrange(data, 0, end))
}

/// Where the first `n` line-feed-terminated lines of `s` end: just past the
/// `n`-th line feed, or at the end of `s` when it holds fewer.
pub open spec fn lines_prefix_end(s: Seq<u8>, n: nat) -> int
    decreases n,
{
    if n == 0 {
        0
    } else {
        let f = first_occurrence(s, 10);
        if 0 <= f < s.len() {
            f + 1 + lines_prefix_end(s.skip(f + 1), (n - 1) as nat)
        } else {
            s.len() as int
        }
    }
}

proof fn lemma_lines_prefix_end_bounds(s: Seq<u8>, n: nat)
    ensures
        0 <= lines_prefix_end(s, n) <= s.len(),
    decreases n,
{
    if n > 0 {
        let f = first_occurrence(s, 10);
        lemma_first_occurrence_props(s, 10u8);
        if 0 <= f < s.len() {
            lemma_lines_prefix_end_bounds(s.skip(f + 1), (n - 1) as nat);
        }
    }
}

/// The first `num_lines` line-feed-terminated lines of the input, keeping
/// each terminator, or all of it when it holds fewer lines.
pub fn read_first_n_lines(data: &[u8], num_lines: usize) -> (r: Vec<u8>)
    ensures
        r@ == data@.take(lines_prefix_end(data@, num_lines as nat)),
{
    let total = data.len();
    let mut idx: usize = 0;
    let mut rem: &[u8] = data;
    let mut k: usize = num_lines;
    let mut more: bool = true;
    proof {
        assert(rem@ =~= data@.skip(0));
    }
    while k > 0 && more
        invariant
            total == data@.len(),
            0 <= idx <= data@.len(),
            rem@ =~= data@.skip(idx as int),
            more ==> lines_prefix_end(data@, num_lines as nat) == idx + lines_prefix_end(
                rem@,
                k as nat,
            ),
            !more ==> lines_prefix_end(data@, num_lines as nat) == data@.len(),
        decreases k,
    {
        let n_rem = rem.len();
        let f = find_byte(rem, 10);
        proof {
            lemma_first_occurrence_props(rem@, 10u8);
        }
        if f == n_rem {
            proof {
                assert(lines_prefix_end(rem@, k as nat) == rem@.len());
            }
            more = false;
            k = 0;
        } else {
            proof {
                lemma_lines_prefix_end_bounds(rem@.skip(f + 1), (k - 1) as nat);
                assert(lines_prefix_end(rem@, k as nat) == f + 1 + lines_prefix_end(
                    rem@.skip(f + 1),
                    (k - 1) as nat,
                ));
                assert(rem@.skip(f + 1) =~= data@.skip(idx + f + 1));
            }
            idx = idx + f + 1;
            rem = slice_subrange(rem, f + 1, n_rem);
            k = k - 1;
        }
    }
    proof {
        lemma_lines_prefix_end_bounds(data@, num_lines as nat);
    }
    let end = if more {
        idx
    } else {
        data.len()
    };
    slice_to_vec(slice_subrange(data, 0, end))
}

} // verus!
