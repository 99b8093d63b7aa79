use vstd::prelude::*;
use crate::bytes::{append_bytes, crlf, join_lines, lines_view, starts_with_ci, starts_with_ignore_case};
use crate::names::{name_separator, name_separator_bytes};

verus! {

/// A header given by name and value.
#[derive(Debug, Clone)]
pub struct Header {
    pub name: Vec<u8>,
    pub value: Vec<u8>,
}

/// The line `name: value`.
pub open spec fn header_text(name: Seq<u8>, value: Seq<u8>) -> Seq<u8> {
    name + name_separator() + value
}

pub open spec fn headers_text(hs: Seq<Header>) -> Seq<Seq<u8>> {
    hs.map_values(|h: Header| header_text(h.name@, h.value@))
}

/// The line starts with one of `names` (lower case, colon included), case aside.
pub open spec fn named_any(l: Seq<u8>, names: Seq<Seq<u8>>) -> bool {
    exists|k: int| 0 <= k < names.len() && starts_with_ci(l, #[trigger] names[k])
}

/// A header line that is passed on: not empty, and not one of `names`.
pub open spec fn passes(l: Seq<u8>, names: Seq<Seq<u8>>) -> bool {
    l.len() > 0 && !named_any(l, names)
}

/// The lines that are passed on, in their order.
pub open spec fn passed_lines(lines: Seq<Seq<u8>>, names: Seq<Seq<u8>>) -> Seq<Seq<u8>> {
    lines.filter(|l: Seq<u8>| passes(l, names))
}

pub fn named_any_of(line: &[u8], names: &Vec<Vec<u8>>) -> (r: bool)
    ensures
        r == named_any(line@, lines_view(names@)),
{
    let ghost nv = lines_view(names@);
    let mut k: usize = 0;
    while k < names.len()
        invariant
            k <= names@.len(),
            nv == lines_view(names@),
            forall|j: int| 0 <= j < k ==> !starts_with_ci(line@, #[trigger] nv[j]),
        decreases names@.len() - k,
    {
        if starts_with_ignore_case(line, names[k].as_slice()) {
            assert(starts_with_ci(line@, nv[k as int]));
            return true;
        }
        k = k + 1;
    }
    false
}

/// Appends `line` and CRLF.
pub fn append_line(out: &mut Vec<u8>, line: &[u8])
    ensures
        final(out)@ == old(out)@ + line@ + crlf(),
{
    append_bytes(out, line);
    let nl: Vec<u8> = vec![13u8, 10u8];
    append_bytes(out, nl.as_slice());
}

/// Appends `name: value` and CRLF.
pub fn append_header(out: &mut Vec<u8>, name: &[u8], value: &[u8])
    ensures
        final(out)@ == old(out)@ + header_text(name@, value@) + crlf(),
{
    let ghost start = out@;
    append_bytes(out, name);
    let sep = name_separator_bytes();
    append_bytes(out, sep.as_slice());
    append_line(out, value);
    assert(out@ =~= start + header_text(name@, value@) + crlf());
}

proof fn lemma_join_push(lines: Seq<Seq<u8>>, l: Seq<u8>)
    ensures
        join_lines(lines.push(l)) == join_lines(lines) + l + crlf(),
{
    assert(lines.push(l).drop_last() =~= lines);
}

/// Appends, each followed by CRLF, the lines after the first that pass.
pub fn append_passed_lines(out: &mut Vec<u8>, lines: &Vec<Vec<u8>>, names: &Vec<Vec<u8>>)
    requires
        lines@.len() >= 1,
    ensures
        final(out)@ == old(out)@ + join_lines(
            passed_lines(lines_view(lines@).drop_first(), lines_view(names@)),
        ),
{
    let ghost lv = lines_view(lines@);
    let ghost nv = lines_view(names@);
    let ghost start = out@;
    let mut i: usize = 1;
    proof {
        reveal(Seq::filter);
        assert(lv.subrange(1, 1) =~= Seq::<Seq<u8>>::empty());
        assert(start + join_lines(Seq::<Seq<u8>>::empty()) =~= start);
    }
    while i < lines.len()
        invariant
            1 <= i <= lines@.len(),
            lv == lines_view(lines@),
            nv == lines_view(names@),
            out@ == start + join_lines(passed_lines(lv.subrange(1, i as int), nv)),
        decreases lines@.len() - i,
    {
        let line = &lines[i];
        let ghost prev = lv.subrange(1, i as int);
        let ghost next = lv.subrange(1, i + 1);
        proof {
            reveal(Seq::filter);
            assert(next.drop_last() =~= prev);
            assert(next.last() == line@);
        }
        if line.len() > 0 && !named_any_of(line.as_slice(), names) {
            append_line(out, line.as_slice());
            proof {
                lemma_join_push(passed_lines(prev, nv), line@);
                assert(passed_lines(next, nv) == passed_lines(prev, nv).push(line@));
            }
        } else {
            assert(passed_lines(next, nv) == passed_lines(prev, nv));
        }
        i = i + 1;
    }
    assert(lv.subrange(1, lv.len() as int) =~= lv.drop_first());
}

/// Appends each of the headers as a line.
pub fn append_headers(out: &mut Vec<u8>, hs: &Vec<Header>)
    ensures
        final(out)@ == old(out)@ + join_lines(headers_text(hs@)),
{
    let ghost start = out@;
    let mut i: usize = 0;
    assert(headers_text(hs@.subrange(0, 0)) =~= Seq::<Seq<u8>>::empty());
    assert(start + join_lines(Seq::<Seq<u8>>::empty()) =~= start);
    while i < hs.len()
        invariant
            i <= hs@.len(),
            out@ == start + join_lines(headers_text(hs@.subrange(0, i as int))),
        decreases hs@.len() - i,
    {
        let h = &hs[i];
        append_header(out, h.name.as_slice(), h.value.as_slice());
        proof {
            let prev = headers_text(hs@.subrange(0, i as int));
            assert(headers_text(hs@.subrange(0, i + 1)) =~= prev.push(
                header_text(h.name@, h.value@),
            ));
            lemma_join_push(prev, header_text(h.name@, h.value@));
            assert(out@ =~= start + join_lines(headers_text(hs@.subrange(0, i + 1))));
        }
        i = i + 1;
    }
    assert(hs@.subrange(0, hs@.len() as int) =~= hs@);
}

} // verus!
