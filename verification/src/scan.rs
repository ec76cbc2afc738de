//! Scanning a byte buffer for one byte, and the lines of a buffer.

use vstd::prelude::*;

verus! {

/// The byte that ends a line.
pub const NEWLINE: u8 = 10;

/// `i` is the index of the first `b` in `s`.
pub open spec fn is_first(s: Seq<u8>, b: u8, i: int) -> bool {
    &&& 0 <= i < s.len()
    &&& s[i] == b
    &&& forall|j: int| 0 <= j < i ==> s[j] != b
}

/// No byte of `s` is `b`.
pub open spec fn is_absent(s: Seq<u8>, b: u8) -> bool {
    forall|j: int| 0 <= j < s.len() ==> s[j] != b
}

/// How many bytes of `s` stand before its first `b`; all of them where `s`
/// holds no `b`.
pub open spec fn run_len(s: Seq<u8>, b: u8) -> nat
    decreases s.len(),
{
    if s.len() == 0 || s[0] == b {
        0
    } else {
        1 + run_len(s.skip(1), b)
    }
}

/// `run_len` stops at the first `b` and nowhere before it.
pub proof fn lemma_run_len(s: Seq<u8>, b: u8)
    ensures
        run_len(s, b) <= s.len(),
        forall|j: int| 0 <= j < run_len(s, b) ==> s[j] != b,
        run_len(s, b) < s.len() ==> s[run_len(s, b) as int] == b,
    decreases s.len(),
{
    if s.len() == 0 || s[0] == b {
    } else {
        let t = s.skip(1);
        lemma_run_len(t, b);
        assert forall|j: int| 0 <= j < run_len(s, b) implies s[j] != b by {
            if j > 0 {
                assert(s[j] == t[j - 1]);
            }
        }
        if run_len(s, b) < s.len() {
            assert(s[run_len(s, b) as int] == t[run_len(t, b) as int]);
        }
    }
}

/// An index that stops at the first `b`, or at the end where there is none,
/// and at no `b` before, is `run_len`.
pub proof fn lemma_run_len_is(s: Seq<u8>, b: u8, i: int)
    requires
        0 <= i <= s.len(),
        forall|j: int| 0 <= j < i ==> s[j] != b,
        i < s.len() ==> s[i] == b,
    ensures
        run_len(s, b) == i,
{
    lemma_run_len(s, b);
    let n = run_len(s, b) as int;
    if n < i {
        assert(s[n] == b);
    } else if n > i {
        assert(s[i] != b);
    }
}

/// Index of the first `b` in `input`, if there is one.
pub fn find_byte(input: &[u8], b: u8) -> (r: Option<usize>)
    ensures
        match r {
            Some(i) => is_first(input@, b, i as int),
            None => is_absent(input@, b),
        },
        run_len(input@, b) == match r {
            Some(i) => i as nat,
            None => input@.len(),
        },
{
    let mut i: usize = 0;
    while i < input.len()
        invariant
            i <= input.len(),
            forall|j: int| 0 <= j < i ==> input@[j] != b,
        decreases input.len() - i,
    {
        if input[i] == b {
            proof {
                lemma_run_len_is(input@, b, i as int);
            }
            return Some(i);
        }
        i += 1;
    }
    proof {
        lemma_run_len_is(input@, b, i as int);
    }
    None
}

/// Index of the first newline in `input`, if there is one.
pub fn next_newline(input: &[u8]) -> (r: Option<usize>)
    ensures
        match r {
            Some(i) => is_first(input@, NEWLINE, i as int),
            None => is_absent(input@, NEWLINE),
        },
        line_len(input@) == match r {
            Some(i) => i as nat,
            None => input@.len(),
        },
{
    find_byte(input, NEWLINE)
}

/// Length of the first line of `s`, without the newline that ends it.
pub open spec fn line_len(s: Seq<u8>) -> nat {
    run_len(s, NEWLINE)
}

/// Where the second line of `s` begins: past the newline that ends the first
/// line, or at the end of `s` where the first line is not ended.
pub open spec fn rest_start(s: Seq<u8>) -> nat {
    if line_len(s) < s.len() {
        line_len(s) + 1
    } else {
        s.len()
    }
}

/// The lines of `s`, in order, each without its newline. A last line need not
/// be ended by a newline; after a last newline no further line begins.
pub open spec fn lines_of(s: Seq<u8>) -> Seq<Seq<u8>>
    decreases s.len(),
{
    if s.len() == 0 {
        Seq::empty()
    } else {
        seq![s.take(line_len(s) as int)] + lines_of(s.skip(rest_start(s) as int))
    }
}

/// `i` is a place in `s` where a line begins or where `s` ends: the start of
/// `s`, its end, or just past a newline.
pub open spec fn is_boundary(s: Seq<u8>, i: int) -> bool {
    &&& 0 <= i <= s.len()
    &&& (i == 0 || i == s.len() || s[i - 1] == NEWLINE)
}

/// `s` is empty or ends in a newline.
pub open spec fn is_terminated(s: Seq<u8>) -> bool {
    s.len() == 0 || s.last() == NEWLINE
}

/// The lines of two buffers laid end to end are the lines of the first
/// followed by the lines of the second, where the first is empty or ends in a
/// newline.
pub proof fn lemma_lines_concat(x: Seq<u8>, y: Seq<u8>)
    requires
        is_terminated(x),
    ensures
        lines_of(x + y) == lines_of(x) + lines_of(y),
    decreases x.len(),
{
    if x.len() == 0 {
        assert(x + y =~= y);
        assert(lines_of(x) + lines_of(y) =~= lines_of(y));
    } else {
        let z = x + y;
        let n = line_len(x) as int;
        lemma_run_len(x, NEWLINE);
        assert(n < x.len()) by {
            if n == x.len() {
                assert(x[x.len() - 1] != NEWLINE);
            }
        }
        assert forall|j: int| 0 <= j < n implies z[j] != NEWLINE by {
            assert(z[j] == x[j]);
        }
        assert(z[n] == x[n]);
        lemma_run_len_is(z, NEWLINE, n);
        assert(z.take(n) =~= x.take(n));
        let xr = x.skip(n + 1);
        assert(z.skip(n + 1) =~= xr + y);
        assert(is_terminated(xr)) by {
            if xr.len() > 0 {
                assert(xr.last() == x.last());
            }
        }
        lemma_lines_concat(xr, y);
        assert(lines_of(z) =~= lines_of(x) + lines_of(y));
    }
}

/// A buffer cut at a boundary: its lines are those of the part before the cut
/// followed by those of the part after it.
pub proof fn lemma_lines_split(s: Seq<u8>, i: int)
    requires
        is_boundary(s, i),
    ensures
        lines_of(s) == lines_of(s.take(i)) + lines_of(s.skip(i)),
{
    assert(s =~= s.take(i) + s.skip(i));
    if i == s.len() {
        assert(s.take(i) =~= s);
        assert(s.skip(i) =~= Seq::<u8>::empty());
        assert(lines_of(s.take(i)) + lines_of(s.skip(i)) =~= lines_of(s));
    } else {
        lemma_lines_concat(s.take(i), s.skip(i));
    }
}

/// A buffer that holds newlines only has blank lines only.
pub proof fn lemma_lines_of_newlines(s: Seq<u8>)
    requires
        forall|i: int| 0 <= i < s.len() ==> s[i] == NEWLINE,
    ensures
        lines_of(s).len() == s.len(),
        forall|i: int| 0 <= i < s.len() ==> (#[trigger] lines_of(s)[i]).len() == 0,
    decreases s.len(),
{
    if s.len() > 0 {
        lemma_run_len_is(s, NEWLINE, 0);
        let r = s.skip(1);
        lemma_lines_of_newlines(r);
        assert forall|i: int| 0 <= i < s.len() implies (#[trigger] lines_of(s)[i]).len() == 0 by {
            if i > 0 {
                assert(lines_of(s)[i] == lines_of(r)[i - 1]);
            }
        }
    }
}

/// Where the line ends that holds position `i` of `s`: just past the first
/// newline at or after `i`, or at the end of `s` where no newline follows.
pub open spec fn line_end_from(s: Seq<u8>, i: int) -> int {
    i + rest_start(s.skip(i))
}

/// `s` has a newline at or after position `i`.
pub open spec fn has_newline_from(s: Seq<u8>, i: int) -> bool {
    line_len(s.skip(i)) < s.len() - i
}

/// The end of a line lies at or after the place it is sought from, within the
/// buffer, and just past a newline or at the end of the buffer; no newline
/// lies between.
pub proof fn lemma_line_end(s: Seq<u8>, i: int)
    requires
        0 <= i <= s.len(),
    ensures
        i <= line_end_from(s, i) <= s.len(),
        is_boundary(s, line_end_from(s, i)),
        has_newline_from(s, i) ==> i < line_end_from(s, i) && s[line_end_from(s, i) - 1]
            == NEWLINE,
        !has_newline_from(s, i) ==> line_end_from(s, i) == s.len(),
        forall|j: int| i <= j < line_end_from(s, i) - 1 ==> s[j] != NEWLINE,
        !has_newline_from(s, i) ==> forall|j: int| i <= j < s.len() ==> s[j] != NEWLINE,
{
    let t = s.skip(i);
    lemma_run_len(t, NEWLINE);
    let n = line_len(t) as int;
    assert forall|j: int| i <= j < i + n implies s[j] != NEWLINE by {
        assert(t[j - i] == s[j]);
    }
    if n < t.len() {
        assert(t[n] == s[i + n]);
    }
}

/// The end of a line sought from further on lies no earlier.
pub proof fn lemma_line_end_monotone(s: Seq<u8>, i: int, j: int)
    requires
        0 <= i <= j <= s.len(),
    ensures
        line_end_from(s, i) <= line_end_from(s, j),
        has_newline_from(s, j) ==> has_newline_from(s, i),
        line_end_from(s, i) > j ==> line_end_from(s, i) == line_end_from(s, j),
{
    lemma_line_end(s, i);
    lemma_line_end(s, j);
    let ei = line_end_from(s, i);
    let ej = line_end_from(s, j);
    if has_newline_from(s, j) {
        // the newline that ends the line of j lies at or after i
        if !has_newline_from(s, i) {
            assert(s[ej - 1] != NEWLINE);
        }
    }
    if ei > j {
        if has_newline_from(s, i) {
            // the first newline from i lies at ei - 1 >= j, so it is the first from j
            let t = s.skip(j);
            assert forall|q: int| 0 <= q < ei - 1 - j implies t[q] != NEWLINE by {
                assert(t[q] == s[j + q]);
            }
            assert(t[ei - 1 - j] == s[ei - 1]);
            lemma_run_len_is(t, NEWLINE, ei - 1 - j);
        }
    }
}

/// A buffer that is empty or ends in a newline has a newline at or after
/// every place before its end: only at its end is a line sought in vain.
pub proof fn lemma_terminated_has_newline(s: Seq<u8>, i: int)
    requires
        is_terminated(s),
        0 <= i <= s.len(),
    ensures
        !has_newline_from(s, i) ==> i == s.len(),
{
    if i < s.len() {
        lemma_line_end(s, i);
        if !has_newline_from(s, i) {
            assert(s[s.len() - 1] != NEWLINE);
        }
    }
}

} // verus!
