//! Line numbering for cat-style output: every line, only nonblank lines, or
//! none.

use vstd::prelude::*;

use crate::numbers::dec_digits;
use crate::textfmt::pad_number;
use crate::textfmt::padded_left;

verus! {

/// The prefix of a numbered output line: the number right-aligned to six
/// columns, then a tab.
pub open spec fn number_prefix(k: nat) -> Seq<char> {
    padded_left(dec_digits(k), 6) + seq!['\t']
}

/// The output lines for `lines`, numbering from `k`: a blank line under
/// nonblank-numbering prints empty and keeps the counter; every other line
/// is prefixed when a numbering flag is on, and always advances the
/// counter.
pub open spec fn rendered_lines(
    lines: Seq<Seq<char>>,
    number_lines: bool,
    number_nonblank_lines: bool,
    k: nat,
) -> Seq<Seq<char>>
    decreases lines.len(),
{
    if lines.len() == 0 {
        Seq::empty()
    } else if number_nonblank_lines && lines[0].len() == 0 {
        seq![Seq::<char>::empty()] + rendered_lines(
            lines.drop_first(),
            number_lines,
            number_nonblank_lines,
            k,
        )
    } else if number_lines || number_nonblank_lines {
        seq![number_prefix(k) + lines[0]] + rendered_lines(
            lines.drop_first(),
            number_lines,
            number_nonblank_lines,
            k + 1,
        )
    } else {
        seq![lines[0]] + rendered_lines(
            lines.drop_first(),
            number_lines,
            number_nonblank_lines,
            k + 1,
        )
    }
}

/// Number the lines of one input for output, starting at 1.
pub fn render_lines(
    lines: &Vec<String>,
    number_lines: bool,
    number_nonblank_lines: bool,
) -> (r: Vec<String>)
    requires
        lines@.len() < usize::MAX,
    ensures
        r.deep_view() == rendered_lines(lines.deep_view(), number_lines, number_nonblank_lines, 1),
{
    proof {
        reveal_strlit("\t");
    }
    let ghost ldv = lines.deep_view();
    let mut out: Vec<String> = Vec::new();
    let mut ln: usize = 1;
    let mut i: usize = 0;
    proof {
        assert(ldv.skip(0) =~= ldv);
        assert(out.deep_view() + rendered_lines(ldv.skip(0), number_lines, number_nonblank_lines, 1)
            =~~= rendered_lines(ldv, number_lines, number_nonblank_lines, 1));
    }
    while i < lines.len()
        invariant
            0 <= i <= ldv.len(),
            ldv == lines.deep_view(),
            ldv.len() < usize::MAX,
            1 <= ln <= i + 1,
            out.deep_view() + rendered_lines(
                ldv.skip(i as int),
                number_lines,
                number_nonblank_lines,
                ln as nat,
            ) =~~= rendered_lines(ldv, number_lines, number_nonblank_lines, 1),
        decreases ldv.len() - i,
    {
        let line: &String = &lines[i];
        proof {
            let rest = ldv.skip(i as int);
            assert(rest[0] == ldv[i as int]);
            assert(ldv[i as int] == line@);
            assert(rest.drop_first() =~= ldv.skip(i + 1));
        }
        let blank = line.as_str().unicode_len() == 0;
        if number_nonblank_lines && blank {
            let empty_line = String::new();
            proof {
                assert((out.deep_view().push(Seq::<char>::empty())) + rendered_lines(
                    ldv.skip(i + 1),
                    number_lines,
                    number_nonblank_lines,
                    ln as nat,
                ) =~~= out.deep_view() + rendered_lines(
                    ldv.skip(i as int),
                    number_lines,
                    number_nonblank_lines,
                    ln as nat,
                ));
            }
            out.push(empty_line);
            proof {
                assert(out.deep_view() =~~= out.deep_view());
            }
        } else if number_lines || number_nonblank_lines {
            let mut rendered = pad_number(ln, 6);
            rendered.append("\t");
            rendered.append(line.as_str());
            proof {
                assert("\t"@ =~= seq!['\t']);
                assert(rendered@ =~= number_prefix(ln as nat) + line@);
                assert((out.deep_view().push(rendered@)) + rendered_lines(
                    ldv.skip(i + 1),
                    number_lines,
                    number_nonblank_lines,
                    (ln + 1) as nat,
                ) =~~= out.deep_view() + rendered_lines(
                    ldv.skip(i as int),
                    number_lines,
                    number_nonblank_lines,
                    ln as nat,
                ));
            }
            out.push(rendered);
            ln = ln + 1;
        } else {
            let copied = line.clone();
            proof {
                assert((out.deep_view().push(copied@)) + rendered_lines(
                    ldv.skip(i + 1),
                    number_lines,
                    number_nonblank_lines,
                    (ln + 1) as nat,
                ) =~~= out.deep_view() + rendered_lines(
                    ldv.skip(i as int),
                    number_lines,
                    number_nonblank_lines,
                    ln as nat,
                ));
            }
            out.push(copied);
            ln = ln + 1;
        }
        i = i + 1;
    }
    proof {
        assert(ldv.skip(ldv.len() as int) =~= Seq::<Seq<char>>::empty());
        assert(out.deep_view() =~~= rendered_lines(ldv, number_lines, number_nonblank_lines, 1));
    }
    out
}

} // verus!
