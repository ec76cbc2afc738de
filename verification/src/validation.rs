//! Checking a buffer line by line before it is aggregated.

use vstd::prelude::*;
use crate::model::lines_ok;
use crate::parse::{is_record, parse_line, parsed, ParseError};
use crate::scan::{
    is_boundary,
    is_terminated,
    lemma_line_end,
    lemma_lines_concat,
    lemma_lines_split,
    lemma_run_len,
    lemma_run_len_is,
    line_len,
    lines_of,
    next_newline,
    rest_start,
    NEWLINE,
};

verus! {

/// Every line of `lines` is blank or parses.
pub open spec fn lines_valid(lines: Seq<Seq<u8>>) -> bool {
    forall|i: int|
        0 <= i < lines.len() ==> (#[trigger] lines[i]).len() == 0 || parsed(lines[i]) is Ok
}

/// Lines that are blank or parse are blank or records.
pub proof fn lemma_valid_is_ok(lines: Seq<Seq<u8>>)
    requires
        lines_valid(lines),
    ensures
        lines_ok(lines),
{
    assert forall|i: int| 0 <= i < lines.len() implies (#[trigger] lines[i]).len() == 0
        || is_record(lines[i]) by {
        assert(lines[i].len() == 0 || parsed(lines[i]) is Ok);
    }
}

/// A line that does not parse: where it lies in the buffer, and what is wrong
/// with it.
#[derive(Clone, Copy, Debug, PartialEq, Eq, Structural)]
pub struct LineError {
    /// Where the line starts.
    pub start: usize,
    /// Where the line ends, before its newline.
    pub end: usize,
    /// What is wrong with it.
    pub kind: ParseError,
}

/// `e` names the first line of `s` that is neither blank nor parses.
pub open spec fn is_first_bad_line(s: Seq<u8>, e: LineError) -> bool {
    &&& is_boundary(s, e.start as int)
    &&& e.start < e.end <= s.len()
    &&& e.end == e.start + line_len(s.skip(e.start as int))
    &&& lines_valid(lines_of(s.take(e.start as int)))
    &&& parsed(s.subrange(e.start as int, e.end as int)) == Err::<(Seq<u8>, int), ParseError>(
        e.kind,
    )
}

/// Checks every line of `buf`: each must be blank or parse. The first line
/// that does neither is reported.
pub fn validate(buf: &[u8]) -> (r: Result<(), LineError>)
    ensures
        r is Ok <==> lines_valid(lines_of(buf@)),
        r matches Err(e) ==> is_first_bad_line(buf@, e),
{
    let len: usize = buf.len();
    let mut pos: usize = 0;
    proof {
        assert(buf@.take(0) =~= Seq::<u8>::empty());
    }
    while pos < len
        invariant
            len == buf@.len(),
            is_boundary(buf@, pos as int),
            lines_valid(lines_of(buf@.take(pos as int))),
        decreases len - pos,
    {
        let rest: &[u8] = &buf[pos..len];
        let found: Option<usize> = next_newline(rest);
        let n: usize = match found {
            Some(n) => n,
            None => len - pos,
        };
        let line: &[u8] = &buf[pos..pos + n];
        let next: usize = if found.is_some() {
            pos + n + 1
        } else {
            len
        };
        proof {
            assert(rest@ =~= buf@.skip(pos as int));
            assert(line@ =~= rest@.take(n as int));
            assert(next == pos + rest_start(rest@));
            lemma_line_step(buf@, pos as int);
        }
        if n > 0 {
            match parse_line(line) {
                Ok(_) => {},
                Err(kind) => {
                    proof {
                        assert(buf@.subrange(pos as int, pos + n) =~= line@);
                        lemma_bad_line(buf@, pos as int);
                    }
                    return Err(LineError { start: pos, end: pos + n, kind });
                },
            }
        }
        proof {
            let done = lines_of(buf@.take(pos as int));
            let more = lines_of(buf@.take(next as int));
            assert forall|i: int| 0 <= i < more.len() implies (#[trigger] more[i]).len() == 0
                || parsed(more[i]) is Ok by {
                if i < done.len() {
                    assert(more[i] == done[i]);
                }
            }
        }
        pos = next;
    }
    proof {
        assert(buf@.take(pos as int) =~= buf@);
    }
    Ok(())
}

/// One line further: the lines of the buffer up to the start of the next
/// line are the lines up to the start of this one, and this one.
proof fn lemma_line_step(s: Seq<u8>, pos: int)
    requires
        is_boundary(s, pos),
        pos < s.len(),
    ensures
        is_boundary(s, pos + rest_start(s.skip(pos))),
        pos < pos + rest_start(s.skip(pos)) <= s.len(),
        lines_of(s.take(pos + rest_start(s.skip(pos)))) == lines_of(s.take(pos)).push(
            s.skip(pos).take(line_len(s.skip(pos)) as int),
        ),
{
    let rest = s.skip(pos);
    let next = pos + rest_start(rest);
    lemma_line_end(s, pos);
    let head = s.take(pos);
    let one = s.subrange(pos, next);
    assert(s.take(next) =~= head + one);
    assert(is_terminated(head)) by {
        if pos > 0 {
            assert(head.last() == s[pos - 1]);
        }
    }
    lemma_lines_concat(head, one);
    // the part holds one line
    lemma_run_len(rest, NEWLINE);
    let n = line_len(rest) as int;
    assert forall|j: int| 0 <= j < n implies one[j] != NEWLINE by {
        assert(one[j] == rest[j]);
    }
    if n < one.len() {
        assert(one[n] == rest[n]);
    }
    lemma_run_len_is(one, NEWLINE, n);
    assert(one.take(n) =~= rest.take(n));
    let after = one.skip(rest_start(one) as int);
    assert(after =~= Seq::<u8>::empty());
    assert(lines_of(after) =~= Seq::<Seq<u8>>::empty());
    assert(lines_of(one) =~= seq![rest.take(n)]);
    assert(lines_of(head) + seq![rest.take(n)] =~= lines_of(head).push(rest.take(n)));
}

/// A line that does not parse is a line of the buffer, so the buffer is not
/// valid.
proof fn lemma_bad_line(s: Seq<u8>, pos: int)
    requires
        is_boundary(s, pos),
        pos < s.len(),
        line_len(s.skip(pos)) > 0,
        !(parsed(s.skip(pos).take(line_len(s.skip(pos)) as int)) is Ok),
    ensures
        !lines_valid(lines_of(s)),
{
    let rest = s.skip(pos);
    lemma_lines_split(s, pos);
    let before = lines_of(s.take(pos));
    let line = rest.take(line_len(rest) as int);
    assert(lines_of(rest)[0] == line);
    assert(lines_of(s)[before.len() as int] == line);
    assert(line.len() > 0) by {
        lemma_run_len(rest, NEWLINE);
    }
}

} // verus!
