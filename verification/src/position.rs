//! The position-list parser: a comma-delimited list of 1-based positions and
//! ranges becomes an ordered list of half-open 0-based ranges, in the order
//! the caller wrote them, never sorted or merged.

use vstd::prelude::*;

use crate::numbers::all_digits;
use crate::numbers::dec_digits;
use crate::numbers::is_digit_char;
use crate::numbers::lemma_dec_digits_shape;
use crate::numbers::lemma_value_of_dec_digits;
use crate::numbers::number_to_string;
use crate::numbers::parse_number;
use crate::numbers::value_of;
use crate::scan::first_occurrence;
use crate::scan::lemma_first_occurrence_at;
use crate::scan::lemma_first_occurrence_props;

verus! {

/// A half-open interval `[start, end)` of 0-based indices, derived from
/// 1-based user-facing bounds.
#[derive(Clone, Copy, Debug, PartialEq, Eq, Structural)]
pub struct Position {
    pub start: usize,
    pub end: usize,
}

impl Position {
    /// The invariant every parsed range satisfies: the interval is nonempty.
    pub open spec fn wf(self) -> bool {
        self.start < self.end
    }
}

/// Why a specification string was rejected.
#[derive(Debug, PartialEq, Eq)]
pub enum ParseError {
    /// The token does not have the bare-number or range shape, or holds a
    /// value that is zero or does not fit in a machine word.  Carries the
    /// offending token.
    IllegalToken(String),
    /// A range token `A-B` with `B <= A`; carries the 1-based values `A`, `B`.
    InvalidRangeOrder(usize, usize),
}

impl ParseError {
    /// The diagnostic text of the error.
    pub open spec fn spec_message(self) -> Seq<char> {
        match self {
            ParseError::IllegalToken(t) => "illegal list value: \""@ + t@ + "\""@,
            ParseError::InvalidRangeOrder(a, b) => "First number in range ("@ + dec_digits(
                a as nat,
            ) + ") must be lower than second number ("@ + dec_digits(b as nat) + ")"@,
        }
    }

    /// Render the diagnostic text.
    pub fn message(&self) -> (r: String)
        ensures
            r@ == self.spec_message(),
    {
        match self {
            ParseError::IllegalToken(t) => {
                let mut out = String::from_str("illegal list value: \"");
                out.append(t.as_str());
                out.append("\"");
                proof {
                    assert(out@ =~= self.spec_message());
                }
                out
            },
            ParseError::InvalidRangeOrder(a, b) => {
                let mut out = String::from_str("First number in range (");
                let sa = number_to_string(*a);
                out.append(sa.as_str());
                out.append(") must be lower than second number (");
                let sb = number_to_string(*b);
                out.append(sb.as_str());
                out.append(")");
                proof {
                    assert(out@ =~= self.spec_message());
                }
                out
            },
        }
    }
}

/// The bare-number shape: at least one digit, and a leading zero only when
/// the token has two or more digits.
pub open spec fn num_shape(s: Seq<char>) -> bool {
    &&& s.len() >= 1
    &&& all_digits(s)
    &&& (s.len() >= 2 || s[0] != '0')
}

/// Whether the token contains a dash.
pub open spec fn token_has_dash(s: Seq<char>) -> bool {
    first_occurrence(s, '-') < s.len()
}

/// The part before the first dash.
pub open spec fn token_left(s: Seq<char>) -> Seq<char> {
    s.take(first_occurrence(s, '-'))
}

/// The part after the first dash.
pub open spec fn token_right(s: Seq<char>) -> Seq<char> {
    s.skip(first_occurrence(s, '-') + 1)
}

/// A dashless token is acceptable: bare-number shape, value at least 1,
/// value representable.
pub open spec fn bare_ok(s: Seq<char>) -> bool {
    &&& num_shape(s)
    &&& 1 <= value_of(s)
    &&& value_of(s) <= usize::MAX
}

/// A dashed token has the `A-B` shape: both parts bare numbers (which also
/// rules out a second dash).
pub open spec fn range_shape(s: Seq<char>) -> bool {
    &&& token_has_dash(s)
    &&& num_shape(token_left(s))
    &&& num_shape(token_right(s))
}

/// Both bounds of a well-shaped range fit in a machine word.
pub open spec fn range_fits(s: Seq<char>) -> bool {
    &&& value_of(token_left(s)) <= usize::MAX
    &&& value_of(token_right(s)) <= usize::MAX
}

/// The token is a well-shaped range whose bounds are out of order
/// (`B <= A`): the one condition reported as `InvalidRangeOrder`.
pub open spec fn order_error(s: Seq<char>) -> bool {
    &&& range_shape(s)
    &&& range_fits(s)
    &&& value_of(token_right(s)) <= value_of(token_left(s))
}

/// The token is accepted by the parser.
pub open spec fn token_ok(s: Seq<char>) -> bool {
    if !token_has_dash(s) {
        bare_ok(s)
    } else {
        &&& range_shape(s)
        &&& range_fits(s)
        &&& 1 <= value_of(token_left(s))
        &&& value_of(token_left(s)) < value_of(token_right(s))
    }
}

/// The range an accepted token denotes: `n` maps to `[n-1, n)` and `A-B` to
/// `[A-1, B)`.
pub open spec fn token_position(s: Seq<char>) -> Position {
    if !token_has_dash(s) {
        Position { start: (value_of(s) - 1) as usize, end: value_of(s) as usize }
    } else {
        Position {
            start: (value_of(token_left(s)) - 1) as usize,
            end: value_of(token_right(s)) as usize,
        }
    }
}

/// The error an unaccepted token is reported with, matched structurally:
/// out-of-order ranges name their 1-based bounds, everything else echoes the
/// token itself.
pub open spec fn error_matches(e: ParseError, s: Seq<char>) -> bool {
    match e {
        ParseError::InvalidRangeOrder(a, b) => {
            &&& order_error(s)
            &&& a == value_of(token_left(s))
            &&& b == value_of(token_right(s))
        },
        ParseError::IllegalToken(t) => {
            &&& !order_error(s)
            &&& t@ == s
        },
    }
}

/// Index of the first occurrence of `c`, executable form.
fn find_char(s: &str, c: char) -> (r: usize)
    ensures
        r as int == first_occurrence(s@, c),
        r <= s@.len(),
{
    let n = s.unicode_len();
    let mut i: usize = 0;
    while i < n
        invariant
            0 <= i <= n,
            n == s@.len(),
            forall|j: int| 0 <= j < i ==> s@[j] != c,
        decreases n - i,
    {
        let ci = s.get_char(i);
        if ci as u32 == c as u32 {
            proof {
                lemma_first_occurrence_at(s@, c, i as int);
            }
            return i;
        }
        i = i + 1;
    }
    proof {
        lemma_first_occurrence_at(s@, c, n as int);
    }
    n
}

/// Whether `s` has the bare-number shape, executable form.
fn is_num_shape(s: &str) -> (r: bool)
    ensures
        r == num_shape(s@),
{
    let n = s.unicode_len();
    if n == 0 {
        return false;
    }
    let mut i: usize = 0;
    while i < n
        invariant
            0 <= i <= n,
            n == s@.len(),
            forall|j: int| 0 <= j < i ==> is_digit_char(#[trigger] s@[j]),
        decreases n - i,
    {
        let c = s.get_char(i);
        let u = c as u32;
        if u < 48 || u > 57 {
            assert(!is_digit_char(s@[i as int]));
            return false;
        }
        i = i + 1;
    }
    if n == 1 {
        let c0 = s.get_char(0);
        if c0 as u32 == 48 {
            assert(s@[0] == '0');
            return false;
        }
    }
    true
}

impl Position {
    /// Parse one token of a position list: a bare 1-based number `n`
    /// (yielding `[n-1, n)`) or a range `A-B` (yielding `[A-1, B)`).
    ///
    /// Accepts exactly the tokens `token_ok` describes; every other token is
    /// rejected, out-of-order ranges as `InvalidRangeOrder` and all the rest
    /// as `IllegalToken`.
    pub fn from_str(s: &str) -> (r: Result<Position, ParseError>)
        ensures
            r is Ok <==> token_ok(s@),
            r is Ok ==> r->Ok_0 == token_position(s@) && r->Ok_0.wf(),
            r is Err ==> error_matches(r->Err_0, s@),
    {
        let n = s.unicode_len();
        let d = find_char(s, '-');
        proof {
            lemma_first_occurrence_props(s@, '-');
        }
        if d == n {
            if !is_num_shape(s) {
                return Err(ParseError::IllegalToken(String::from_str(s)));
            }
            match parse_number(s) {
                None => Err(ParseError::IllegalToken(String::from_str(s))),
                Some(v) => {
                    if v == 0 {
                        Err(ParseError::IllegalToken(String::from_str(s)))
                    } else {
                        Ok(Position { start: v - 1, end: v })
                    }
                },
            }
        } else {
            let left = s.substring_char(0, d);
            let right = s.substring_char(d + 1, n);
            proof {
                assert(left@ =~= token_left(s@));
                assert(right@ =~= token_right(s@));
            }
            if !is_num_shape(left) || !is_num_shape(right) {
                return Err(ParseError::IllegalToken(String::from_str(s)));
            }
            let pa = parse_number(left);
            let pb = parse_number(right);
            match (pa, pb) {
                (Some(a), Some(b)) => {
                    if b <= a {
                        Err(ParseError::InvalidRangeOrder(a, b))
                    } else if a == 0 {
                        Err(ParseError::IllegalToken(String::from_str(s)))
                    } else {
                        Ok(Position { start: a - 1, end: b })
                    }
                },
                _ => Err(ParseError::IllegalToken(String::from_str(s))),
            }
        }
    }
}

/// The comma-separated pieces of `s`, split at every comma: an empty string
/// yields one empty token, and a trailing comma yields a trailing empty
/// token.
pub open spec fn split_commas(s: Seq<char>) -> Seq<Seq<char>>
    decreases s.len(),
{
    let fc = first_occurrence(s, ',');
    if 0 <= fc < s.len() {
        seq![s.take(fc)] + split_commas(s.skip(fc + 1))
    } else {
        seq![s]
    }
}

pub proof fn lemma_split_commas_nonempty(s: Seq<char>)
    ensures
        split_commas(s).len() >= 1,
{
    lemma_first_occurrence_props(s, ',');
}

/// The whole specification string is accepted: every token is.
pub open spec fn list_ok(s: Seq<char>) -> bool {
    forall|i: int|
        0 <= i < split_commas(s).len() ==> token_ok(#[trigger] split_commas(s)[i])
}

/// The ranges an accepted specification string denotes, in token order.
pub open spec fn list_positions(s: Seq<char>) -> Seq<Position> {
    split_commas(s).map_values(|t: Seq<char>| token_position(t))
}

/// Parse a comma-delimited list of positions and ranges.
///
/// On success the result holds one range per token, in the order written,
/// never sorted, merged or deduplicated.  On failure the error describes the
/// leftmost unacceptable token.
pub fn parse_range_list(s: &str) -> (r: Result<Vec<Position>, ParseError>)
    ensures
        r is Ok <==> list_ok(s@),
        r is Ok ==> r->Ok_0@ == list_positions(s@),
        r is Ok ==> forall|i: int| 0 <= i < r->Ok_0@.len() ==> (#[trigger] r->Ok_0@[i]).wf(),
        r is Err ==> exists|k: int|
            {
                &&& 0 <= k < split_commas(s@).len()
                &&& (forall|j: int| 0 <= j < k ==> token_ok(#[trigger] split_commas(s@)[j]))
                &&& !token_ok(split_commas(s@)[k])
                &&& error_matches(r->Err_0, split_commas(s@)[k])
            },
{
    let mut out: Vec<Position> = Vec::new();
    let mut rem: &str = s;
    let ghost mut done: Seq<Seq<char>> = Seq::empty();
    proof {
        assert(done + split_commas(s@) =~= split_commas(s@));
    }
    loop
        invariant
            split_commas(s@) =~= done + split_commas(rem@),
            out@.len() == done.len(),
            forall|i: int| 0 <= i < done.len() ==> token_ok(#[trigger] done[i]),
            forall|i: int|
                0 <= i < done.len() ==> #[trigger] out@[i] == token_position(done[i])
                    && out@[i].wf(),
        decreases rem@.len(),
    {
        let n = rem.unicode_len();
        let fc = find_char(rem, ',');
        proof {
            lemma_first_occurrence_props(rem@, ',');
            lemma_split_commas_nonempty(rem@);
        }
        let token: &str = if fc == n {
            rem
        } else {
            rem.substring_char(0, fc)
        };
        proof {
            assert(token@ =~= split_commas(rem@)[0]);
            assert(split_commas(s@)[done.len() as int] == token@);
        }
        match Position::from_str(token) {
            Err(e) => {
                proof {
                    let k = done.len() as int;
                    assert(!token_ok(split_commas(s@)[k]));
                    assert forall|j: int| 0 <= j < k implies token_ok(
                        #[trigger] split_commas(s@)[j],
                    ) by {
                        assert(split_commas(s@)[j] == done[j]);
                    }
                }
                return Err(e);
            },
            Ok(p) => {
                out.push(p);
                proof {
                    done = done.push(token@);
                }
            },
        }
        if fc == n {
            proof {
                assert(split_commas(rem@) =~= seq![rem@]);
                assert(split_commas(s@) =~= done);
                assert forall|i: int| 0 <= i < split_commas(s@).len() implies token_ok(
                    #[trigger] split_commas(s@)[i],
                ) by {
                    assert(split_commas(s@)[i] == done[i]);
                }
                assert forall|i: int| 0 <= i < out@.len() implies out@[i] == list_positions(
                    s@,
                )[i] by {
                    assert(split_commas(s@)[i] == done[i]);
                }
                assert(out@ =~= list_positions(s@));
            }
            return Ok(out);
        }
        let next: &str = rem.substring_char(fc + 1, n);
        proof {
            assert(next@ =~= rem@.skip(fc + 1));
            assert(split_commas(rem@) =~= seq![token@] + split_commas(next@));
            assert(done + split_commas(next@) =~= split_commas(s@));
        }
        rem = next;
    }
}

/// The canonical token for one range, over its 1-based bounds: the bare
/// number for a unit range, `A-B` otherwise.
pub open spec fn token_of_position(p: Position) -> Seq<char> {
    if p.end == p.start + 1 {
        dec_digits((p.start + 1) as nat)
    } else {
        dec_digits((p.start + 1) as nat) + seq!['-'] + dec_digits(p.end as nat)
    }
}

/// The canonical string form of a range list: tokens joined with commas.
pub open spec fn canonical_form(ps: Seq<Position>) -> Seq<char>
    decreases ps.len(),
{
    if ps.len() == 0 {
        Seq::empty()
    } else if ps.len() == 1 {
        token_of_position(ps[0])
    } else {
        token_of_position(ps[0]) + seq![','] + canonical_form(ps.drop_first())
    }
}

proof fn lemma_canonical_snoc(ps: Seq<Position>, p: Position)
    ensures
        ps.len() == 0 ==> canonical_form(ps.push(p)) == token_of_position(p),
        ps.len() > 0 ==> canonical_form(ps.push(p)) == canonical_form(ps) + seq![',']
            + token_of_position(p),
    decreases ps.len(),
{
    if ps.len() == 0 {
        assert(ps.push(p)[0] == p);
    } else {
        lemma_canonical_snoc(ps.drop_first(), p);
        let whole = ps.push(p);
        assert(whole.drop_first() =~= ps.drop_first().push(p));
        assert(whole[0] == ps[0]);
        if ps.len() == 1 {
            assert(canonical_form(whole) == token_of_position(ps[0]) + seq![',']
                + token_of_position(p));
            assert(canonical_form(ps) == token_of_position(ps[0]));
        } else {
            assert(canonical_form(whole) == token_of_position(ps[0]) + seq![','] + (canonical_form(
                ps.drop_first(),
            ) + seq![','] + token_of_position(p)));
            assert(token_of_position(ps[0]) + seq![','] + (canonical_form(ps.drop_first())
                + seq![','] + token_of_position(p)) =~= (token_of_position(ps[0]) + seq![',']
                + canonical_form(ps.drop_first())) + seq![','] + token_of_position(p));
        }
    }
}

/// Render a range list in its canonical string form, 1-based.
pub fn range_list_to_string(ranges: &Vec<Position>) -> (r: String)
    requires
        forall|i: int| 0 <= i < ranges@.len() ==> (#[trigger] ranges@[i]).wf(),
    ensures
        r@ == canonical_form(ranges@),
{
    proof {
        reveal_strlit(",");
        reveal_strlit("-");
    }
    let mut out = String::new();
    let mut i: usize = 0;
    proof {
        assert(ranges@.take(0) =~= Seq::<Position>::empty());
    }
    while i < ranges.len()
        invariant
            0 <= i <= ranges@.len(),
            out@ == canonical_form(ranges@.take(i as int)),
        decreases ranges@.len() - i,
    {
        let p = ranges[i];
        if i > 0 {
            out.append(",");
        }
        let sa = number_to_string(p.start + 1);
        out.append(sa.as_str());
        if p.end != p.start + 1 {
            out.append("-");
            let sb = number_to_string(p.end);
            out.append(sb.as_str());
        }
        proof {
            assert(","@ =~= seq![',']);
            assert("-"@ =~= seq!['-']);
            let pre = ranges@.take(i as int);
            assert(ranges@.take(i + 1) =~= pre.push(p));
            lemma_canonical_snoc(pre, p);
            assert(out@ =~= canonical_form(ranges@.take(i + 1)));
        }
        i = i + 1;
    }
    proof {
        assert(ranges@.take(ranges@.len() as int) =~= ranges@);
    }
    out
}

/// No character of a canonical token is a comma.
proof fn lemma_token_no_comma(p: Position)
    requires
        p.wf(),
    ensures
        forall|j: int|
            0 <= j < token_of_position(p).len() ==> #[trigger] token_of_position(p)[j] != ',',
{
    lemma_dec_digits_shape((p.start + 1) as nat);
    lemma_dec_digits_shape(p.end as nat);
    let tok = token_of_position(p);
    let da = dec_digits((p.start + 1) as nat);
    let db = dec_digits(p.end as nat);
    assert forall|j: int| 0 <= j < tok.len() implies #[trigger] tok[j] != ',' by {
        if p.end == p.start + 1 {
            assert(is_digit_char(da[j]));
        } else {
            if j < da.len() {
                assert(tok[j] == da[j]);
                assert(is_digit_char(da[j]));
            } else if j == da.len() {
                assert(tok[j] == '-');
            } else {
                assert(tok[j] == db[j - da.len() - 1]);
                assert(is_digit_char(db[j - da.len() - 1]));
            }
        }
    }
}

/// One canonical token parses back to the range it was rendered from.
proof fn lemma_token_round_trip(p: Position)
    requires
        p.wf(),
    ensures
        token_ok(token_of_position(p)),
        token_position(token_of_position(p)) == p,
{
    let tok = token_of_position(p);
    let a = (p.start + 1) as nat;
    let da = dec_digits(a);
    lemma_dec_digits_shape(a);
    lemma_value_of_dec_digits(a);
    if p.end == p.start + 1 {
        lemma_first_occurrence_at(tok, '-', tok.len() as int);
        assert(!token_has_dash(tok));
        assert(bare_ok(tok));
        assert(token_position(tok) == p);
    } else {
        let b = p.end as nat;
        let db = dec_digits(b);
        lemma_dec_digits_shape(b);
        lemma_value_of_dec_digits(b);
        assert forall|j: int| 0 <= j < da.len() implies tok[j] != '-' by {
            assert(tok[j] == da[j]);
            assert(is_digit_char(da[j]));
        }
        assert(tok[da.len() as int] == '-');
        lemma_first_occurrence_at(tok, '-', da.len() as int);
        assert(token_has_dash(tok));
        assert(token_left(tok) =~= da);
        assert(token_right(tok) =~= db);
        assert(token_position(tok) == p);
    }
}

/// A bare 1-based number round-trips: parsing the decimal rendering of `n`
/// yields exactly the one range `[n-1, n)`.
pub proof fn lemma_bare_number_round_trip(n: usize)
    requires
        1 <= n,
    ensures
        list_ok(dec_digits(n as nat)),
        list_positions(dec_digits(n as nat)) == seq![
            Position { start: (n - 1) as usize, end: n },
        ],
{
    let p = Position { start: (n - 1) as usize, end: n };
    let s = dec_digits(n as nat);
    lemma_token_round_trip(p);
    assert(token_of_position(p) == s);
    lemma_token_no_comma(p);
    lemma_first_occurrence_at(s, ',', s.len() as int);
    assert(split_commas(s) =~= seq![s]);
    assert(list_positions(s) =~= seq![p]);
}

/// The canonical string form of a nonempty list of well-formed ranges splits
/// back into exactly its tokens.
proof fn lemma_split_canonical(ps: Seq<Position>)
    requires
        ps.len() >= 1,
        forall|i: int| 0 <= i < ps.len() ==> (#[trigger] ps[i]).wf(),
    ensures
        split_commas(canonical_form(ps)) =~= ps.map_values(|p: Position| token_of_position(p)),
    decreases ps.len(),
{
    let s = canonical_form(ps);
    let tok = token_of_position(ps[0]);
    lemma_token_no_comma(ps[0]);
    if ps.len() == 1 {
        lemma_first_occurrence_at(s, ',', s.len() as int);
        assert(split_commas(s) =~= seq![s]);
        assert(ps.map_values(|p: Position| token_of_position(p)) =~= seq![tok]);
    } else {
        let rest = canonical_form(ps.drop_first());
        assert(s == tok + seq![','] + rest);
        assert forall|j: int| 0 <= j < tok.len() implies s[j] != ',' by {
            assert(s[j] == tok[j]);
        }
        assert(s[tok.len() as int] == ',');
        lemma_first_occurrence_at(s, ',', tok.len() as int);
        assert(s.take(tok.len() as int) =~= tok);
        assert(s.skip(tok.len() as int + 1) =~= rest);
        lemma_split_canonical(ps.drop_first());
        assert(split_commas(s) =~= seq![tok] + split_commas(rest));
        assert(ps.map_values(|p: Position| token_of_position(p)) =~= seq![tok]
            + ps.drop_first().map_values(|p: Position| token_of_position(p)));
    }
}

/// Re-parsing the canonical string form of a range list yields an equal
/// range list.  A parsed range list always holds at least one range, so the
/// law speaks of nonempty lists.
pub proof fn lemma_canonical_round_trip(ps: Seq<Position>)
    requires
        ps.len() >= 1,
        forall|i: int| 0 <= i < ps.len() ==> (#[trigger] ps[i]).wf(),
    ensures
        list_ok(canonical_form(ps)),
        list_positions(canonical_form(ps)) == ps,
{
    let s = canonical_form(ps);
    lemma_split_canonical(ps);
    assert forall|i: int| 0 <= i < split_commas(s).len() implies token_ok(
        #[trigger] split_commas(s)[i],
    ) by {
        assert(split_commas(s)[i] == token_of_position(ps[i]));
        lemma_token_round_trip(ps[i]);
    }
    assert forall|i: int| 0 <= i < split_commas(s).len() implies list_positions(s)[i] == ps[i] by {
        assert(split_commas(s)[i] == token_of_position(ps[i]));
        lemma_token_round_trip(ps[i]);
    }
    assert(list_positions(s) =~= ps);
}

} // verus!
