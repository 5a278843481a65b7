//! The extraction engine: given one line, a selection mode and a parsed
//! range list, produce exactly the bytes, characters or fields the ranges
//! select.  Out-of-range positions clamp to the end of the line and
//! contribute nothing; extraction never fails.

use vstd::prelude::*;
use vstd::slice::slice_subrange;
use vstd::slice::slice_to_vec;

use crate::position::Position;
use crate::scan::find_byte;
use crate::scan::first_occurrence;
use crate::scan::lemma_first_occurrence_props;

verus! {

/// Which unit of a line the position list indexes into.
#[derive(Clone, Copy, Debug, PartialEq, Eq, Structural)]
pub enum SelectionMode {
    Bytes,
    Characters,
    Fields,
}

/// `i`, reduced to `n` when it lies beyond `n`.
pub open spec fn clamped(i: int, n: int) -> int {
    if i <= n {
        i
    } else {
        n
    }
}

/// The elements of `s` selected by the ranges, in range-list order, each
/// range clamped to the length of `s`.
pub open spec fn selected<T>(s: Seq<T>, ranges: Seq<Position>) -> Seq<T>
    decreases ranges.len(),
{
    if ranges.len() == 0 {
        Seq::empty()
    } else {
        let p = ranges[0];
        s.subrange(clamped(p.start as int, s.len() as int), clamped(p.end as int, s.len() as int))
            + selected(s, ranges.drop_first())
    }
}

/// The pieces of `s` split at every occurrence of `d`: consecutive
/// delimiters yield empty fields, which are preserved.
pub open spec fn split_on(s: Seq<u8>, d: u8) -> Seq<Seq<u8>>
    decreases s.len(),
{
    let fd = first_occurrence(s, d);
    if 0 <= fd < s.len() {
        seq![s.take(fd)] + split_on(s.skip(fd + 1), d)
    } else {
        seq![s]
    }
}

/// The fields joined back with the delimiter between consecutive fields.
pub open spec fn join_with(fs: Seq<Seq<u8>>, d: u8) -> Seq<u8>
    decreases fs.len(),
{
    if fs.len() == 0 {
        Seq::empty()
    } else if fs.len() == 1 {
        fs[0]
    } else {
        fs[0] + seq![d] + join_with(fs.drop_first(), d)
    }
}

proof fn lemma_join_snoc(fs: Seq<Seq<u8>>, f: Seq<u8>, d: u8)
    ensures
        fs.len() == 0 ==> join_with(fs.push(f), d) == f,
        fs.len() > 0 ==> join_with(fs.push(f), d) == join_with(fs, d) + seq![d] + f,
    decreases fs.len(),
{
    if fs.len() == 0 {
        assert(fs.push(f)[0] == f);
    } else {
        lemma_join_snoc(fs.drop_first(), f, d);
        let whole = fs.push(f);
        assert(whole.drop_first() =~= fs.drop_first().push(f));
        assert(whole[0] == fs[0]);
        if fs.len() == 1 {
            assert(join_with(whole, d) == fs[0] + seq![d] + f);
            assert(join_with(fs, d) == fs[0]);
        } else {
            assert(join_with(whole, d) == fs[0] + seq![d] + (join_with(fs.drop_first(), d)
                + seq![d] + f));
            assert(fs[0] + seq![d] + (join_with(fs.drop_first(), d) + seq![d] + f) =~= (fs[0]
                + seq![d] + join_with(fs.drop_first(), d)) + seq![d] + f);
        }
    }
}

/// Append the bytes of `src` to `out`.
fn push_all(out: &mut Vec<u8>, src: &[u8])
    ensures
        final(out)@ == old(out)@ + src@,
{
    let n = src.len();
    let mut j: usize = 0;
    while j < n
        invariant
            0 <= j <= n,
            n == src@.len(),
            out@ == old(out)@ + src@.take(j as int),
        decreases n - j,
    {
        let b = src[j];
        out.push(b);
        proof {
            assert(old(out)@ + src@.take(j + 1) =~= (old(out)@ + src@.take(j as int)).push(
                src@[j as int],
            ));
        }
        j = j + 1;
    }
    proof {
        assert(src@.take(n as int) =~= src@);
        assert(out@ =~= old(out)@ + src@);
    }
}

/// Character extraction: the characters of `line` the ranges select, in
/// range-list order, multi-byte aware; a position past the last character
/// clamps to the end of the line.
pub fn extract_chars(line: &str, char_ops: &[Position]) -> (r: String)
    requires
        forall|i: int| 0 <= i < char_ops@.len() ==> (#[trigger] char_ops@[i]).wf(),
    ensures
        r@ == selected(line@, char_ops@),
{
    let n = line.unicode_len();
    let mut out = String::new();
    let mut i: usize = 0;
    proof {
        assert(char_ops@.skip(0) =~= char_ops@);
    }
    while i < char_ops.len()
        invariant
            0 <= i <= char_ops@.len(),
            n == line@.len(),
            out@ + selected(line@, char_ops@.skip(i as int)) =~= selected(line@, char_ops@),
        decreases char_ops@.len() - i,
    {
        let p = char_ops[i];
        let a = if p.start < n {
            p.start
        } else {
            n
        };
        let b = if p.end < n {
            p.end
        } else {
            n
        };
        let sub = line.substring_char(a, b);
        proof {
            let rest = char_ops@.skip(i as int);
            assert(rest[0] == char_ops@[i as int]);
            assert(rest.drop_first() =~= char_ops@.skip(i + 1));
            assert(sub@ == line@.subrange(
                clamped(p.start as int, n as int),
                clamped(p.end as int, n as int),
            ));
            assert((out@ + sub@) + selected(line@, char_ops@.skip(i + 1)) =~= out@ + selected(
                line@,
                rest,
            ));
        }
        out.append(sub);
        i = i + 1;
    }
    proof {
        assert(char_ops@.skip(char_ops@.len() as int) =~= Seq::<Position>::empty());
        assert(out@ =~= selected(line@, char_ops@));
    }
    out
}

/// Byte extraction: the bytes of `line` the ranges select, in range-list
/// order; a position past the last byte clamps to the end of the line.
pub fn extract_bytes(line: &[u8], byte_ops: &[Position]) -> (r: Vec<u8>)
    requires
        forall|i: int| 0 <= i < byte_ops@.len() ==> (#[trigger] byte_ops@[i]).wf(),
    ensures
        r@ == selected(line@, byte_ops@),
{
    let n = line.len();
    let mut out: Vec<u8> = Vec::new();
    let mut i: usize = 0;
    proof {
        assert(byte_ops@.skip(0) =~= byte_ops@);
    }
    while i < byte_ops.len()
        invariant
            0 <= i <= byte_ops@.len(),
            n == line@.len(),
            out@ + selected(line@, byte_ops@.skip(i as int)) =~= selected(line@, byte_ops@),
        decreases byte_ops@.len() - i,
    {
        let p = byte_ops[i];
        let a = if p.start < n {
            p.start
        } else {
            n
        };
        let b = if p.end < n {
            p.end
        } else {
            n
        };
        let sub = slice_subrange(line, a, b);
        proof {
            let rest = byte_ops@.skip(i as int);
            assert(rest[0] == byte_ops@[i as int]);
            assert(rest.drop_first() =~= byte_ops@.skip(i + 1));
            assert((out@ + sub@) + selected(line@, byte_ops@.skip(i + 1)) =~= out@ + selected(
                line@,
                rest,
            ));
        }
        push_all(&mut out, sub);
        i = i + 1;
    }
    proof {
        assert(byte_ops@.skip(byte_ops@.len() as int) =~= Seq::<Position>::empty());
        assert(out@ =~= selected(line@, byte_ops@));
    }
    out
}

/// Split `line` at every occurrence of `delim`, preserving empty fields.
pub fn split_bytes(line: &[u8], delim: u8) -> (r: Vec<Vec<u8>>)
    ensures
        r.deep_view() == split_on(line@, delim),
{
    let mut out: Vec<Vec<u8>> = Vec::new();
    let mut rem: &[u8] = line;
    let ghost mut done: Seq<Seq<u8>> = Seq::empty();
    proof {
        assert(done + split_on(line@, delim) =~= split_on(line@, delim));
        assert(out.deep_view() =~~= done);
    }
    loop
        invariant
            split_on(line@, delim) =~= done + split_on(rem@, delim),
            out.deep_view() == done,
        decreases rem@.len(),
    {
        let n = rem.len();
        let fd = find_byte(rem, delim);
        proof {
            lemma_first_occurrence_props(rem@, delim);
        }
        if fd == n {
            let field = slice_to_vec(rem);
            out.push(field);
            proof {
                done = done.push(rem@);
                assert(split_on(rem@, delim) =~= seq![rem@]);
                assert(out.deep_view() =~~= done);
                assert(split_on(line@, delim) =~= done);
            }
            return out;
        }
        let field = slice_to_vec(slice_subrange(rem, 0, fd));
        out.push(field);
        let next: &[u8] = slice_subrange(rem, fd + 1, n);
        proof {
            done = done.push(rem@.take(fd as int));
            assert(out.deep_view() =~~= done);
            assert(next@ =~= rem@.skip(fd + 1));
            assert(split_on(rem@, delim) =~= seq![rem@.take(fd as int)] + split_on(next@, delim));
            assert(done + split_on(next@, delim) =~= split_on(line@, delim));
        }
        rem = next;
    }
}

/// The fields the ranges select, in range-list order; field indices past the
/// last field are dropped.
pub fn select_fields(fields: &Vec<Vec<u8>>, ranges: &[Position]) -> (r: Vec<Vec<u8>>)
    requires
        forall|i: int| 0 <= i < ranges@.len() ==> (#[trigger] ranges@[i]).wf(),
    ensures
        r.deep_view() == selected(fields.deep_view(), ranges@),
{
    let n = fields.len();
    let ghost fdv = fields.deep_view();
    let mut out: Vec<Vec<u8>> = Vec::new();
    let mut i: usize = 0;
    proof {
        assert(fdv.len() == n);
        assert(ranges@.skip(0) =~= ranges@);
        assert(out.deep_view() + selected(fdv, ranges@.skip(0)) =~~= selected(fdv, ranges@));
    }
    while i < ranges.len()
        invariant
            0 <= i <= ranges@.len(),
            fdv == fields.deep_view(),
            fdv.len() == n,
            out.deep_view() + selected(fdv, ranges@.skip(i as int)) =~~= selected(fdv, ranges@),
        decreases ranges@.len() - i,
    {
        let p = ranges[i];
        let a = if p.start < n {
            p.start
        } else {
            n
        };
        let b = if p.end < n {
            p.end
        } else {
            n
        };
        let ghost out_before = out.deep_view();
        let mut j: usize = a;
        proof {
            assert(out_before + fdv.subrange(a as int, a as int) =~~= out_before);
        }
        while j < b
            invariant
                a <= j <= b <= n,
                fdv == fields.deep_view(),
                fdv.len() == n,
                out.deep_view() =~~= out_before + fdv.subrange(a as int, j as int),
            decreases b - j,
        {
            let field = slice_to_vec(fields[j].as_slice());
            proof {
                assert(field.deep_view() =~= fdv[j as int]);
                assert(out_before + fdv.subrange(a as int, j + 1) =~~= (out_before + fdv.subrange(
                    a as int,
                    j as int,
                )).push(fdv[j as int]));
            }
            out.push(field);
            j = j + 1;
        }
        proof {
            let rest = ranges@.skip(i as int);
            assert(rest[0] == ranges@[i as int]);
            assert(rest.drop_first() =~= ranges@.skip(i + 1));
            assert(fdv.subrange(a as int, b as int) =~= fdv.subrange(
                clamped(p.start as int, fdv.len() as int),
                clamped(p.end as int, fdv.len() as int),
            ));
            assert((out_before + fdv.subrange(a as int, b as int)) + selected(
                fdv,
                ranges@.skip(i + 1),
            ) =~~= out_before + selected(fdv, rest));
        }
        i = i + 1;
    }
    proof {
        assert(ranges@.skip(ranges@.len() as int) =~= Seq::<Position>::empty());
        assert(out.deep_view() =~~= selected(fdv, ranges@));
    }
    out
}

/// Join fields with the delimiter between consecutive fields.
pub fn join_bytes(fields: &Vec<Vec<u8>>, delim: u8) -> (r: Vec<u8>)
    ensures
        r@ == join_with(fields.deep_view(), delim),
{
    let ghost fdv = fields.deep_view();
    let mut out: Vec<u8> = Vec::new();
    let mut i: usize = 0;
    proof {
        assert(fdv.take(0) =~= Seq::<Seq<u8>>::empty());
    }
    while i < fields.len()
        invariant
            0 <= i <= fdv.len(),
            fdv == fields.deep_view(),
            out@ == join_with(fdv.take(i as int), delim),
        decreases fdv.len() - i,
    {
        if i > 0 {
            out.push(delim);
        }
        push_all(&mut out, fields[i].as_slice());
        proof {
            let pre = fdv.take(i as int);
            assert(fields@[i as int].deep_view() =~= fdv[i as int]);
            assert(fields@[i as int]@ =~= fdv[i as int]);
            assert(fdv.take(i + 1) =~= pre.push(fdv[i as int]));
            lemma_join_snoc(pre, fdv[i as int], delim);
            assert(out@ =~= join_with(fdv.take(i + 1), delim));
        }
        i = i + 1;
    }
    proof {
        assert(fdv.take(fdv.len() as int) =~= fdv);
    }
    out
}

/// Field extraction: split `line` on the delimiter, keep the fields the
/// ranges select (indices past the last field drop silently), and join the
/// selection with the same delimiter.
pub fn extract_fields(line: &[u8], delim: u8, ranges: &[Position]) -> (r: Vec<u8>)
    requires
        forall|i: int| 0 <= i < ranges@.len() ==> (#[trigger] ranges@[i]).wf(),
    ensures
        r@ == join_with(selected(split_on(line@, delim), ranges@), delim),
{
    let fields = split_bytes(line, delim);
    let chosen = select_fields(&fields, ranges);
    join_bytes(&chosen, delim)
}

/// Extraction, dispatched on the mode: the selected output as bytes.
///
/// In character mode the result is the UTF-8 encoding of the selected
/// characters; in byte and field modes it is the selected bytes of the
/// line's UTF-8 form, which need not themselves be valid UTF-8 when a range
/// boundary falls inside a multi-byte character.
pub fn extract(mode: SelectionMode, line: &str, ranges: &[Position], delim: u8) -> (r: Vec<u8>)
    requires
        forall|i: int| 0 <= i < ranges@.len() ==> (#[trigger] ranges@[i]).wf(),
    ensures
        match mode {
            SelectionMode::Characters => r@ == vstd::utf8::encode_utf8(selected(line@, ranges@)),
            SelectionMode::Bytes => r@ == selected(vstd::utf8::encode_utf8(line@), ranges@),
            SelectionMode::Fields => r@ == join_with(
                selected(split_on(vstd::utf8::encode_utf8(line@), delim), ranges@),
                delim,
            ),
        },
{
    match mode {
        SelectionMode::Characters => {
            let s = extract_chars(line, ranges);
            s.as_str().as_bytes_vec()
        },
        SelectionMode::Bytes => extract_bytes(line.as_bytes(), ranges),
        SelectionMode::Fields => extract_fields(line.as_bytes(), delim, ranges),
    }
}

} // verus!
