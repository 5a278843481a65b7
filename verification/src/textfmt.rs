//! Small text-layout helpers the utilities share: right-aligned numeric
//! cells and exact string comparison.

use vstd::prelude::*;

use crate::numbers::dec_digits;
use crate::numbers::number_to_string;

verus! {

/// `s`, padded on the left with spaces to width `w` (unchanged when already
/// at least that wide).
pub open spec fn padded_left(s: Seq<char>, w: int) -> Seq<char> {
    if s.len() >= w {
        s
    } else {
        Seq::new((w - s.len()) as nat, |i: int| ' ') + s
    }
}

/// Render `n` in decimal, right-aligned in a cell of `width` spaces.
pub fn pad_number(n: usize, width: usize) -> (r: String)
    ensures
        r@ == padded_left(dec_digits(n as nat), width as int),
{
    proof {
        reveal_strlit(" ");
    }
    let digits = number_to_string(n);
    let len = digits.as_str().unicode_len();
    let mut out = String::new();
    if len < width {
        let pad: usize = width - len;
        let mut k: usize = 0;
        while k < pad
            invariant
                0 <= k <= pad,
                out@ =~= Seq::new(k as nat, |i: int| ' '),
            decreases pad - k,
        {
            out.append(" ");
            proof {
                assert(" "@ =~= seq![' ']);
                assert(Seq::new((k + 1) as nat, |i: int| ' ') =~= Seq::new(k as nat, |i: int| ' ').push(' '));
            }
            k = k + 1;
        }
    }
    out.append(digits.as_str());
    proof {
        assert(out@ =~= padded_left(dec_digits(n as nat), width as int));
    }
    out
}

/// Whether two strings hold the same characters.
pub fn str_eq(a: &str, b: &str) -> (r: bool)
    ensures
        r == (a@ == b@),
{
    let na = a.unicode_len();
    let nb = b.unicode_len();
    if na != nb {
        return false;
    }
    let mut i: usize = 0;
    while i < na
        invariant
            0 <= i <= na,
            na == a@.len(),
            na == b@.len(),
            forall|j: int| 0 <= j < i ==> a@[j] == b@[j],
        decreases na - i,
    {
        let ca = a.get_char(i);
        let cb = b.get_char(i);
        if ca as u32 != cb as u32 {
            assert(a@[i as int] != b@[i as int]);
            return false;
        }
        i = i + 1;
    }
    proof {
        assert(a@ =~= b@);
    }
    true
}

} // verus!
