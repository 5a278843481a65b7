//! Decimal digit strings: the spec-level meaning of a digit sequence, and
//! verified conversions between `usize` and its decimal rendering.

use vstd::prelude::*;

verus! {

/// A decimal digit.
pub open spec fn is_digit_char(c: char) -> bool {
    '0' <= c && c <= '9'
}

/// Numeric value of one digit.
pub open spec fn digit_val(c: char) -> nat {
    ((c as int) - ('0' as int)) as nat
}

/// The digit with value `d` (meaningful for `d < 10`).
pub open spec fn digit_char(d: nat) -> char {
    (('0' as int) + d) as char
}

/// Every character of `s` is a decimal digit.
pub open spec fn all_digits(s: Seq<char>) -> bool {
    forall|i: int| 0 <= i < s.len() ==> is_digit_char(#[trigger] s[i])
}

/// The value a digit string denotes, most significant digit first.
pub open spec fn value_of(s: Seq<char>) -> nat
    decreases s.len(),
{
    if s.len() == 0 {
        0
    } else {
        value_of(s.drop_last()) * 10 + digit_val(s.last())
    }
}

/// The minimal decimal rendering of `n`: no leading zero except for `n == 0`
/// itself.
pub open spec fn dec_digits(n: nat) -> Seq<char>
    decreases n,
{
    if n < 10 {
        seq![digit_char(n)]
    } else {
        dec_digits(n / 10).push(digit_char(n % 10))
    }
}

/// The digits collected by the rendering loop, least significant first; the
/// last collected digit is the first character.
pub open spec fn collected_chars(rev: Seq<usize>) -> Seq<char>
    decreases rev.len(),
{
    if rev.len() == 0 {
        Seq::empty()
    } else {
        seq![digit_char(rev.last() as nat)] + collected_chars(rev.drop_last())
    }
}

/// A digit-string prefix never denotes more than the whole string.
pub proof fn lemma_value_of_prefix(s: Seq<char>, i: int)
    requires
        0 <= i <= s.len(),
    ensures
        value_of(s.take(i)) <= value_of(s),
    decreases s.len() - i,
{
    if i < s.len() {
        assert(s.take(i + 1).drop_last() =~= s.take(i));
        assert(value_of(s.take(i + 1)) == value_of(s.take(i)) * 10 + digit_val(
            s.take(i + 1).last(),
        ));
        lemma_value_of_prefix(s, i + 1);
    } else {
        assert(s.take(i) =~= s);
    }
}

/// `dec_digits` produces digits, is nonempty, and starts with a nonzero digit
/// whenever `n >= 1`.
pub proof fn lemma_dec_digits_shape(n: nat)
    ensures
        dec_digits(n).len() >= 1,
        all_digits(dec_digits(n)),
        n >= 1 ==> dec_digits(n)[0] != '0',
        n < 10 ==> dec_digits(n).len() == 1,
    decreases n,
{
    if n >= 10 {
        lemma_dec_digits_shape(n / 10);
        let pre = dec_digits(n / 10);
        let whole = dec_digits(n);
        assert(whole == pre.push(digit_char(n % 10)));
        assert(whole[0] == pre[0]);
        assert forall|i: int| 0 <= i < whole.len() implies is_digit_char(#[trigger] whole[i]) by {
            if i < pre.len() {
                assert(whole[i] == pre[i]);
            } else {
                assert(whole[i] == digit_char(n % 10));
            }
        }
    }
}

/// Reading back the decimal rendering of `n` gives `n`.
pub proof fn lemma_value_of_dec_digits(n: nat)
    ensures
        value_of(dec_digits(n)) == n,
    decreases n,
{
    if n < 10 {
        let s = dec_digits(n);
        assert(s == seq![digit_char(n)]);
        assert(s.drop_last() =~= Seq::<char>::empty());
        assert(s.last() == digit_char(n));
        assert(value_of(s.drop_last()) == 0);
        assert(value_of(s) == value_of(s.drop_last()) * 10 + digit_val(s.last()));
        assert(digit_char(n) as int == ('0' as int) + n);
        assert(digit_val(digit_char(n)) == n);
    } else {
        lemma_value_of_dec_digits(n / 10);
        let s = dec_digits(n);
        assert(s.drop_last() =~= dec_digits(n / 10));
        assert(value_of(s) == (n / 10) * 10 + digit_val(digit_char(n % 10)));
        assert(digit_val(digit_char(n % 10)) == n % 10);
        assert((n / 10) * 10 + n % 10 == n) by (nonlinear_arith);
    }
}

/// Parse a nonempty all-digit string as a `usize`; `None` when a character is
/// not a digit, the string is empty, or the value does not fit in `usize`.
pub fn parse_number(s: &str) -> (r: Option<usize>)
    ensures
        r is Some <==> s@.len() >= 1 && all_digits(s@) && value_of(s@) <= usize::MAX,
        r is Some ==> r->0 == value_of(s@),
{
    let n = s.unicode_len();
    if n == 0 {
        return None;
    }
    let mut i: usize = 0;
    let mut acc: usize = 0;
    while i < n
        invariant
            0 <= i <= n,
            n == s@.len(),
            all_digits(s@.take(i as int)),
            acc == value_of(s@.take(i as int)),
        decreases n - i,
    {
        let c = s.get_char(i);
        let u: u32 = c as u32;
        if u < 48 || u > 57 {
            assert(!is_digit_char(s@[i as int]));
            return None;
        }
        let d: usize = (u - 48) as usize;
        proof {
            assert(s@.take(i + 1).drop_last() =~= s@.take(i as int));
            assert(s@.take(i + 1).last() == s@[i as int]);
            assert(d == digit_val(s@[i as int]));
        }
        let shifted = match acc.checked_mul(10) {
            Some(v) => v,
            None => {
                proof {
                    lemma_value_of_prefix(s@, i + 1);
                }
                return None;
            },
        };
        acc = match shifted.checked_add(d) {
            Some(v) => v,
            None => {
                proof {
                    lemma_value_of_prefix(s@, i + 1);
                }
                return None;
            },
        };
        i = i + 1;
    }
    proof {
        assert(s@.take(n as int) =~= s@);
    }
    Some(acc)
}

/// A one-character string for the digit with value `d`.
fn digit_str(d: usize) -> (r: &'static str)
    requires
        d < 10,
    ensures
        r@ =~= seq![digit_char(d as nat)],
{
    proof {
        reveal_strlit("0");
        reveal_strlit("1");
        reveal_strlit("2");
        reveal_strlit("3");
        reveal_strlit("4");
        reveal_strlit("5");
        reveal_strlit("6");
        reveal_strlit("7");
        reveal_strlit("8");
        reveal_strlit("9");
    }
    if d == 0 {
        "0"
    } else if d == 1 {
        "1"
    } else if d == 2 {
        "2"
    } else if d == 3 {
        "3"
    } else if d == 4 {
        "4"
    } else if d == 5 {
        "5"
    } else if d == 6 {
        "6"
    } else if d == 7 {
        "7"
    } else if d == 8 {
        "8"
    } else {
        "9"
    }
}

/// Render `n` in decimal.
pub fn number_to_string(n: usize) -> (r: String)
    ensures
        r@ == dec_digits(n as nat),
{
    let mut rev: Vec<usize> = Vec::new();
    let mut m: usize = n;
    while m >= 10
        invariant
            dec_digits(n as nat) =~= dec_digits(m as nat) + collected_chars(rev@),
            forall|k: int| 0 <= k < rev@.len() ==> #[trigger] rev@[k] < 10,
        decreases m,
    {
        let d: usize = m % 10;
        let rest: usize = m / 10;
        proof {
            let pushed = rev@.push(d);
            assert(pushed.drop_last() =~= rev@);
            assert(collected_chars(pushed) =~= seq![digit_char(d as nat)] + collected_chars(rev@));
            assert(dec_digits(m as nat) =~= dec_digits(rest as nat).push(
                digit_char((m % 10) as nat),
            ));
            assert(dec_digits(rest as nat).push(digit_char(d as nat)) + collected_chars(rev@)
                =~= dec_digits(rest as nat) + collected_chars(pushed));
        }
        rev.push(d);
        m = rest;
    }
    proof {
        let pushed = rev@.push(m);
        assert(pushed.drop_last() =~= rev@);
        assert(collected_chars(pushed) =~= seq![digit_char(m as nat)] + collected_chars(rev@));
        assert(dec_digits(m as nat) =~= seq![digit_char(m as nat)]);
    }
    rev.push(m);
    assert(dec_digits(n as nat) =~= collected_chars(rev@));
    let mut out = String::new();
    let mut j: usize = rev.len();
    proof {
        assert(rev@.take(j as int) =~= rev@);
    }
    while j > 0
        invariant
            0 <= j <= rev@.len(),
            out@ + collected_chars(rev@.take(j as int)) =~= dec_digits(n as nat),
        decreases j,
    {
        j = j - 1;
        let d = rev[j];
        proof {
            let t = rev@.take(j + 1);
            assert(t.last() == rev@[j as int]);
            assert(t.drop_last() =~= rev@.take(j as int));
            assert(collected_chars(t) =~= seq![digit_char(d as nat)] + collected_chars(
                rev@.take(j as int),
            ));
        }
        out.append(digit_str(d));
    }
    proof {
        assert(rev@.take(0) =~= Seq::<usize>::empty());
        assert(out@ + collected_chars(rev@.take(0)) =~= out@);
    }
    out
}

} // verus!
