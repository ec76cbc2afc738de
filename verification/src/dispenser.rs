//! Cutting a buffer into chunks that begin and end where lines do.
//!
//! A chunk is named by a nominal start: a place in the buffer that need not
//! be the start of a line. The chunk starts just past the first newline at or
//! after its nominal start, and ends just past the first newline at or after
//! its nominal end, which lies a stride further. So the line that straddles a
//! nominal boundary belongs to the chunk before that boundary, and the chunks
//! of the nominal starts 0, stride, twice the stride and so on lie end to end
//! and cover the buffer.

use vstd::prelude::*;
use crate::cursor::Cursor;
use crate::model::{lemma_merged_empty, lemma_table_of_concat, merged, table_of};
use crate::scan::{
    has_newline_from,
    is_boundary,
    is_terminated,
    lemma_line_end,
    lemma_line_end_monotone,
    lemma_terminated_has_newline,
    line_end_from,
    next_newline,
};
use crate::stats::Tally;

verus! {

/// The nominal end of the chunk with the nominal start `ns`: a stride
/// further, or the end of the buffer where that lies nearer.
pub open spec fn nominal_end(len: int, ns: int, stride: int) -> int {
    if ns + stride < len {
        ns + stride
    } else {
        len
    }
}

/// The chunk of `s` with the nominal start `ns`, as the places where it
/// starts and ends; `None` where `ns` lies past the end of `s`, or where no
/// line starts at or after `ns`.
pub open spec fn chunk_of(s: Seq<u8>, ns: int, stride: int) -> Option<(int, int)> {
    if ns > s.len() {
        None
    } else if ns == 0 {
        Some((0, line_end_from(s, nominal_end(s.len() as int, 0, stride))))
    } else if !has_newline_from(s, ns) {
        None
    } else {
        Some((line_end_from(s, ns), line_end_from(s, nominal_end(s.len() as int, ns, stride))))
    }
}

/// A chunk as `chunk_of` gives it.
pub open spec fn chunk_view(c: Option<(usize, usize)>) -> Option<(int, int)> {
    match c {
        Some((a, b)) => Some((a as int, b as int)),
        None => None,
    }
}

/// A chunk lies within its buffer, does not end before it starts, and starts
/// and ends where lines do: no line is split between two chunks.
pub proof fn lemma_chunk_aligned(s: Seq<u8>, ns: int, stride: int)
    requires
        0 <= ns,
        0 <= stride,
    ensures
        chunk_of(s, ns, stride) matches Some(c) ==> {
            &&& 0 <= c.0 <= c.1 <= s.len()
            &&& is_boundary(s, c.0)
            &&& is_boundary(s, c.1)
            &&& ns <= c.0
            &&& nominal_end(s.len() as int, ns, stride) <= c.1
        },
{
    if ns <= s.len() {
        let ne = nominal_end(s.len() as int, ns, stride);
        lemma_line_end(s, ne);
        if ns > 0 && has_newline_from(s, ns) {
            lemma_line_end(s, ns);
            lemma_line_end_monotone(s, ns, ne);
        }
    }
}

/// The chunks of two nominal starts a stride apart lie end to end: where the
/// second is handed out, so is the first, and the second starts where the
/// first ends. The chunk of the nominal start 0 is always handed out and
/// starts at the start of the buffer. A chunk after which none is handed out
/// ends at the end of the buffer.
pub proof fn lemma_chunks_tile(s: Seq<u8>, ns: int, stride: int)
    requires
        0 <= ns,
        0 < stride,
    ensures
        chunk_of(s, 0, stride) matches Some(c) && c.0 == 0,
        chunk_of(s, ns + stride, stride) matches Some(next) ==> (chunk_of(s, ns, stride) matches Some(
            c,
        ) && c.1 == next.0),
        chunk_of(s, ns, stride) matches Some(c) ==> (chunk_of(s, ns + stride, stride) is None
            ==> c.1 == s.len()),
{
    let len = s.len() as int;
    if ns + stride <= len {
        let ne = nominal_end(len, ns, stride);
        assert(ne == ns + stride);
        lemma_line_end(s, ne);
        lemma_line_end_monotone(s, ns, ne);
    } else if ns <= len {
        lemma_line_end(s, len);
    }
}

/// Once no chunk is handed out for a nominal start, none is handed out for
/// any later one: a dispenser that is used up stays so.
pub proof fn lemma_exhaustion_is_final(s: Seq<u8>, ns: int, later: int, stride: int)
    requires
        0 <= ns <= later,
        chunk_of(s, ns, stride) is None,
    ensures
        chunk_of(s, later, stride) is None,
{
    if later <= s.len() {
        lemma_line_end_monotone(s, ns, later);
    }
}

/// The aggregates of the first `n` chunks of `s`, each chunk aggregated by
/// itself, merged one after the other. The chunks are those of the nominal
/// starts 0, `stride`, twice `stride` and so on; one that is not handed out
/// adds nothing.
pub open spec fn dispensed(s: Seq<u8>, stride: int, n: nat) -> Map<Seq<u8>, Tally>
    decreases n,
{
    if n == 0 {
        Map::empty()
    } else {
        let before = dispensed(s, stride, (n - 1) as nat);
        match chunk_of(s, (n - 1) * stride, stride) {
            Some(c) => merged(before, table_of(s.subrange(c.0, c.1))),
            None => before,
        }
    }
}

/// How far the first `n` chunks of `s` reach.
pub open spec fn reach(s: Seq<u8>, stride: int, n: nat) -> int {
    if n == 0 {
        0
    } else {
        match chunk_of(s, (n - 1) * stride, stride) {
            Some(c) => c.1,
            None => s.len() as int,
        }
    }
}

/// The first `n` chunks lie end to end from the start of the buffer, and
/// their aggregates, merged, are the aggregate of the buffer as far as they
/// reach.
pub proof fn lemma_dispensed_prefix(s: Seq<u8>, stride: int, n: nat)
    requires
        0 < stride,
    ensures
        is_boundary(s, reach(s, stride, n)),
        dispensed(s, stride, n) == table_of(s.take(reach(s, stride, n))),
        n > 0 && chunk_of(s, (n - 1) * stride, stride) is None ==> reach(s, stride, (n - 1) as nat)
            == s.len(),
        n > 0 ==> (chunk_of(s, (n - 1) * stride, stride) matches Some(c) ==> c.0 == reach(
            s,
            stride,
            (n - 1) as nat,
        )),
    decreases n,
{
    if n == 0 {
        assert(s.take(0) =~= Seq::<u8>::empty());
    } else {
        let k = (n - 1) as nat;
        lemma_dispensed_prefix(s, stride, k);
        let ns = k * stride;
        assert(ns >= 0) by (nonlinear_arith)
            requires
                ns == k * stride,
                k >= 0,
                stride > 0,
        ;
        let a = reach(s, stride, k);
        if k == 0 {
            lemma_chunks_tile(s, 0, stride);
        } else {
            let prev = (k - 1) * stride;
            assert(prev + stride == ns && prev >= 0) by (nonlinear_arith)
                requires
                    prev == (k - 1) * stride,
                    ns == k * stride,
                    k >= 1,
                    stride > 0,
            ;
            lemma_chunks_tile(s, prev, stride);
        }
        lemma_chunk_aligned(s, ns, stride);
        match chunk_of(s, ns, stride) {
            Some(c) => {
                assert(c.0 == a);
                let x = s.take(a);
                let y = s.subrange(a, c.1);
                assert(s.take(c.1) =~= x + y);
                if a == c.1 {
                    assert(y =~= Seq::<u8>::empty());
                    lemma_merged_empty(table_of(x));
                } else {
                    assert(is_terminated(x)) by {
                        if a > 0 {
                            assert(x.last() == s[a - 1]);
                        }
                    }
                    lemma_table_of_concat(x, y);
                }
            },
            None => {
                assert(s.take(s.len() as int) =~= s);
            },
        }
    }
}

/// Once a nominal start is reached for which no chunk is handed out, as it is
/// at the latest past the end of the buffer, the chunks handed out before it
/// have covered the buffer: every byte lies in exactly one of them, and their
/// aggregates, merged, are the aggregate of the whole buffer.
pub proof fn lemma_dispensed_all(s: Seq<u8>, stride: int, n: nat)
    requires
        0 < stride,
        chunk_of(s, n * stride, stride) is None,
    ensures
        n > 0,
        reach(s, stride, n) == s.len(),
        dispensed(s, stride, n) == table_of(s),
{
    lemma_dispensed_prefix(s, stride, n);
    lemma_chunks_tile(s, 0, stride);
    assert(n > 0) by {
        if n == 0 {
            assert(n * stride == 0) by (nonlinear_arith)
                requires
                    n == 0,
            ;
        }
    }
    let ns = (n - 1) * stride;
    assert(ns + stride == n * stride && ns >= 0) by (nonlinear_arith)
        requires
            ns == (n - 1) * stride,
            n >= 1,
            stride > 0,
    ;
    lemma_chunks_tile(s, ns, stride);
    assert(s.take(s.len() as int) =~= s);
}

/// In a buffer that is empty or ends in a newline, a chunk ends at the end of
/// the buffer for want of a newline only where its nominal end is the end of
/// the buffer.
pub proof fn lemma_last_chunk_end(s: Seq<u8>, ns: int, stride: int)
    requires
        is_terminated(s),
        0 <= ns <= s.len(),
        0 <= stride,
    ensures
        !has_newline_from(s, nominal_end(s.len() as int, ns, stride)) ==> nominal_end(
            s.len() as int,
            ns,
            stride,
        ) == s.len(),
{
    lemma_terminated_has_newline(s, nominal_end(s.len() as int, ns, stride));
}

/// The chunk of `buf` with the nominal start `nominal_start`.
pub fn chunk_at(buf: &[u8], nominal_start: usize, stride: usize) -> (r: Option<(usize, usize)>)
    ensures
        chunk_view(r) == chunk_of(buf@, nominal_start as int, stride as int),
        r matches Some((start, end)) ==> start <= end <= buf@.len() && is_boundary(
            buf@,
            start as int,
        ) && is_boundary(buf@, end as int),
{
    let len: usize = buf.len();
    proof {
        lemma_chunk_aligned(buf@, nominal_start as int, stride as int);
    }
    if nominal_start > len {
        return None;
    }
    let start: usize = if nominal_start == 0 {
        0
    } else {
        match next_newline(&buf[nominal_start..len]) {
            Some(p) => nominal_start + p + 1,
            None => {
                return None;
            },
        }
    };
    let end_from: usize = if stride >= len - nominal_start {
        len
    } else {
        nominal_start + stride
    };
    let end: usize = match next_newline(&buf[end_from..len]) {
        Some(q) => end_from + q + 1,
        None => len,
    };
    Some((start, end))
}

/// Hands the chunks of one buffer out to the workers of a run: a counter that
/// the workers share gives each the nominal start of its next chunk.
pub struct Dispenser<'a> {
    buf: &'a [u8],
    stride: usize,
    cursor: Cursor,
}

impl<'a> Dispenser<'a> {
    /// The buffer that is handed out.
    pub closed spec fn buffer(&self) -> Seq<u8> {
        self.buf@
    }

    /// How far one nominal start lies from the next.
    pub closed spec fn stride(&self) -> int {
        self.stride as int
    }

    /// One nominal start lies past the one before it.
    #[verifier::type_invariant]
    spec fn strides_forward(self) -> bool {
        self.stride > 0
    }

    /// A dispenser for `buf` that has handed nothing out.
    pub fn new(buf: &'a [u8], stride: usize) -> (d: Dispenser<'a>)
        requires
            stride > 0,
        ensures
            d.buffer() == buf@,
            d.stride() == stride,
    {
        Dispenser { buf, stride, cursor: Cursor::new() }
    }

    /// The buffer that is handed out.
    pub fn bytes(&self) -> (buf: &'a [u8])
        ensures
            buf@ == self.buffer(),
    {
        self.buf
    }

    /// How far one nominal start lies from the next.
    pub fn step(&self) -> (stride: usize)
        ensures
            stride == self.stride(),
            stride > 0,
    {
        proof {
            use_type_invariant(self);
        }
        self.stride
    }

    /// Takes the next nominal start. Which one that is depends on the other
    /// workers.
    pub fn reserve(&self) -> usize {
        self.cursor.advance(self.stride)
    }

    /// Takes the next chunk: where it starts and where it ends, or `None`
    /// once the buffer is used up. Which chunk that is depends on the other
    /// workers; it is the chunk of some nominal start.
    pub fn claim_next(&self) -> (r: Option<(usize, usize)>)
        ensures
            exists|ns: int| 0 <= ns && chunk_view(r) == #[trigger] chunk_of(
                self.buffer(),
                ns,
                self.stride(),
            ),
            r matches Some((start, end)) ==> start <= end <= self.buffer().len() && is_boundary(
                self.buffer(),
                start as int,
            ) && is_boundary(self.buffer(), end as int),
    {
        let ns: usize = self.reserve();
        let r = chunk_at(self.buf, ns, self.stride);
        assert(chunk_view(r) == chunk_of(self.buffer(), ns as int, self.stride()));
        r
    }
}

} // verus!
