//! The work of one worker: taking the lines of a chunk into its table, and
//! doing so for every chunk that the dispenser hands it.

use vstd::prelude::*;
use crate::arena::{extends, lemma_extends_append, lemma_extends_transitive, Arena};
use crate::dispenser::{chunk_at, chunk_of, lemma_chunk_aligned, nominal_end, Dispenser};
use crate::model::{
    counts_within,
    lemma_lines_count,
    lemma_merged_empty,
    lemma_observe_lines_merged,
    lemma_observe_lines_wf,
    lines_ok,
    merged_over,
    new_keys,
    observe_line,
    observe_lines,
    table_of,
};
use crate::parse::{is_record, key_of, parse_line_fast};
use crate::scan::{
    is_boundary,
    lemma_line_end,
    lemma_line_end_monotone,
    lemma_lines_split,
    line_end_from,
    lines_of,
    next_newline,
    rest_start,
};
use crate::stats::Tally;
use crate::table::Table;

verus! {

/// The lines of a part of a buffer that begins and ends where lines do are
/// lines of the buffer: where every line of the buffer is blank or a record,
/// so is every line of the part.
pub proof fn lemma_part_lines_ok(s: Seq<u8>, a: int, b: int)
    requires
        is_boundary(s, a),
        is_boundary(s, b),
        a <= b,
        lines_ok(lines_of(s)),
    ensures
        lines_ok(lines_of(s.subrange(a, b))),
{
    let head = s.take(a);
    let rest = s.skip(a);
    let part = s.subrange(a, b);
    lemma_lines_split(s, a);
    assert(rest.take(b - a) =~= part);
    assert(is_boundary(rest, b - a)) by {
        if b - a > 0 && b < s.len() {
            assert(rest[b - a - 1] == s[b - 1]);
        }
    }
    lemma_lines_split(rest, b - a);
    let before = lines_of(head);
    let here = lines_of(part);
    assert forall|i: int| 0 <= i < here.len() implies (#[trigger] here[i]).len() == 0 || is_record(
        here[i],
    ) by {
        assert(lines_of(s)[before.len() + i] == here[i]);
    }
}

/// Takes every line of `chunk` into `table`: a blank line is passed over,
/// every other line is a record. The lines are not checked: the caller
/// answers for them.
pub fn ingest(table: &mut Table, arena: &mut Arena, chunk: &[u8])
    requires
        old(table).wf(old(arena)@),
        lines_ok(lines_of(chunk@)),
        counts_within(old(table).model(old(arena)@), u64::MAX - chunk@.len()),
    ensures
        final(table).wf(final(arena)@),
        final(table).model(final(arena)@) == observe_lines(
            old(table).model(old(arena)@),
            lines_of(chunk@),
        ),
        final(arena)@ == old(arena)@ + new_keys(old(table).model(old(arena)@), lines_of(chunk@)),
        extends(final(arena)@, old(arena)@),
{
    let len: usize = chunk.len();
    let ghost start = table.model(arena@);
    let ghost store0 = arena@;
    let mut pos: usize = 0;
    proof {
        assert(chunk@.skip(0) =~= chunk@);
        lemma_extends_append(store0, Seq::empty());
    }
    while pos < len
        invariant
            len == chunk@.len(),
            pos <= len,
            table.wf(arena@),
            extends(arena@, store0),
            lines_ok(lines_of(chunk@.skip(pos as int))),
            counts_within(table.model(arena@), u64::MAX - (len - pos)),
            observe_lines(table.model(arena@), lines_of(chunk@.skip(pos as int))) == observe_lines(
                start,
                lines_of(chunk@),
            ),
            arena@ + new_keys(table.model(arena@), lines_of(chunk@.skip(pos as int))) == store0
                + new_keys(start, lines_of(chunk@)),
        decreases len - pos,
    {
        let rest: &[u8] = &chunk[pos..len];
        let found: Option<usize> = next_newline(rest);
        let n: usize = match found {
            Some(n) => n,
            None => len - pos,
        };
        let line: &[u8] = &chunk[pos..pos + n];
        let next: usize = if found.is_some() {
            pos + n + 1
        } else {
            len
        };
        let ghost now = table.model(arena@);
        let ghost store1 = arena@;
        let ghost lines = lines_of(chunk@.skip(pos as int));
        let ghost tail = lines_of(chunk@.skip(next as int));
        proof {
            assert(rest@ =~= chunk@.skip(pos as int));
            assert(line@ =~= rest@.take(n as int));
            assert(chunk@.skip(next as int) =~= rest@.skip(rest_start(rest@) as int));
            assert(lines[0] == line@);
            assert(lines.skip(1) =~= tail);
            assert forall|i: int| 0 <= i < tail.len() implies (#[trigger] tail[i]).len() == 0
                || is_record(tail[i]) by {
                assert(tail[i] == lines[i + 1]);
            }
            assert(observe_lines(now, lines) == observe_lines(observe_line(now, line@), tail));
            let rest_keys = new_keys(observe_line(now, line@), tail);
            if n > 0 && !now.contains_key(key_of(line@)) {
                assert(new_keys(now, lines) == key_of(line@) + rest_keys);
                assert((store1 + key_of(line@)) + rest_keys =~= store1 + (key_of(line@) + rest_keys));
            } else {
                assert(new_keys(now, lines) == rest_keys);
            }
        }
        if n > 0 {
            let (key, value) = parse_line_fast(line);
            table.observe(arena, key, value);
            proof {
                assert(table.model(arena@) == observe_line(now, line@));
                lemma_extends_append(store1, key@);
                lemma_extends_transitive(arena@, store1, store0);
            }
        }
        pos = next;
    }
    proof {
        assert(chunk@.skip(pos as int) =~= Seq::<u8>::empty());
        assert(arena@ + Seq::<u8>::empty() =~= arena@);
    }
}

/// `starts` are nominal starts, each at least a stride past the one before
/// it: their chunks lie one after the other and share no byte.
pub open spec fn is_spaced(starts: Seq<int>, stride: int) -> bool {
    &&& forall|i: int| 0 <= i < starts.len() ==> 0 <= #[trigger] starts[i]
    &&& forall|i: int, j: int|
        #![trigger starts[i], starts[j]]
        0 <= i < j < starts.len() ==> starts[i] + stride <= starts[j]
}

/// The aggregate of the chunk of `s` with the nominal start `ns`, taken in
/// by itself; the empty map where no chunk is handed out.
pub open spec fn chunk_table(s: Seq<u8>, stride: int, ns: int) -> Map<Seq<u8>, Tally> {
    match chunk_of(s, ns, stride) {
        Some(c) => table_of(s.subrange(c.0, c.1)),
        None => Map::empty(),
    }
}

/// The aggregate of each chunk of `s` by itself.
pub open spec fn chunk_tables(s: Seq<u8>, stride: int) -> spec_fn(int) -> Map<Seq<u8>, Tally> {
    |ns: int| chunk_table(s, stride, ns)
}

/// The aggregate of the chunks of `s` with the nominal starts `starts`, each
/// chunk taken in by itself and the results merged in order.
pub open spec fn claimed(s: Seq<u8>, stride: int, starts: Seq<int>) -> Map<Seq<u8>, Tally> {
    merged_over(chunk_tables(s, stride), starts)
}

/// The bytes that taking in the chunks of `s` with the nominal starts
/// `starts`, one after the other, puts behind an arena: for each chunk the
/// keys that are new when its lines are taken in.
pub open spec fn claimed_keys(s: Seq<u8>, stride: int, starts: Seq<int>) -> Seq<u8>
    decreases starts.len(),
{
    if starts.len() == 0 {
        Seq::empty()
    } else {
        let before = claimed_keys(s, stride, starts.drop_last());
        match chunk_of(s, starts.last(), stride) {
            Some(c) => before + new_keys(
                claimed(s, stride, starts.drop_last()),
                lines_of(s.subrange(c.0, c.1)),
            ),
            None => before,
        }
    }
}

/// Of an empty buffer no chunk holds a line: whatever the nominal starts, the
/// table stays empty and nothing is put behind the arena.
pub proof fn lemma_claimed_of_empty(s: Seq<u8>, stride: int, starts: Seq<int>)
    requires
        s.len() == 0,
        0 <= stride,
        forall|i: int| 0 <= i < starts.len() ==> 0 <= #[trigger] starts[i],
    ensures
        claimed(s, stride, starts) == Map::<Seq<u8>, Tally>::empty(),
        claimed_keys(s, stride, starts) == Seq::<u8>::empty(),
    decreases starts.len(),
{
    if starts.len() > 0 {
        let front = starts.drop_last();
        assert forall|i: int| 0 <= i < front.len() implies 0 <= #[trigger] front[i] by {
            assert(front[i] == starts[i]);
        }
        lemma_claimed_of_empty(s, stride, front);
        lemma_merged_empty(Map::<Seq<u8>, Tally>::empty());
        let ns = starts[starts.len() - 1];
        match chunk_of(s, ns, stride) {
            Some(c) => {
                lemma_chunk_aligned(s, ns, stride);
                assert(s.subrange(c.0, c.1) =~= Seq::<u8>::empty());
                assert(claimed_keys(s, stride, front) + Seq::<u8>::empty() =~= claimed_keys(
                    s,
                    stride,
                    front,
                ));
            },
            None => {},
        }
    }
}

/// The work of one worker: takes chunks from `dispenser` until none is left,
/// and takes every line of each into a new table, the keys into `arena`.
///
/// Which chunks the worker gets depends on the other workers. Whatever they
/// are, the table is the aggregate of the chunks of some nominal starts that
/// lie at least a stride apart, the arena has gained the keys that were new
/// as those chunks were taken in, each once, and no key has been seen more
/// often than the buffer has bytes. The worker stops at a nominal start that lies less than
/// a stride past the one before it, which a counter that only moves on never
/// hands out. The lines are not checked: the caller answers for them.
pub fn run_worker(arena: &mut Arena, dispenser: &Dispenser) -> (table: Table)
    requires
        lines_ok(lines_of(dispenser.buffer())),
    ensures
        table.wf(final(arena)@),
        extends(final(arena)@, old(arena)@),
        counts_within(table.model(final(arena)@), dispenser.buffer().len() as int),
        exists|starts: Seq<int>|
            {
                &&& is_spaced(starts, dispenser.stride())
                &&& table.model(final(arena)@) == #[trigger] claimed(
                    dispenser.buffer(),
                    dispenser.stride(),
                    starts,
                )
                &&& final(arena)@ == old(arena)@ + claimed_keys(
                    dispenser.buffer(),
                    dispenser.stride(),
                    starts,
                )
            },
{
    let buf: &[u8] = dispenser.bytes();
    let stride: usize = dispenser.step();
    let len: usize = buf.len();
    let mut table = Table::new();
    let ghost store0 = arena@;
    let ghost mut starts: Seq<int> = Seq::empty();
    let ghost mut covered: int = 0;
    let ghost mut edge: int = 0;
    let mut floor: usize = 0;
    proof {
        assert(table.wf(arena@));
        assert(table.model(arena@) == Map::<Seq<u8>, Tally>::empty());
        lemma_extends_append(store0, Seq::empty());
        lemma_line_end(buf@, 0);
        assert(store0 + Seq::<u8>::empty() =~= store0);
    }
    loop
        invariant_except_break
            forall|i: int| 0 <= i < starts.len() ==> #[trigger] starts[i] + stride <= floor,
            edge <= floor,
        invariant
            buf@ == dispenser.buffer(),
            stride == dispenser.stride(),
            stride > 0,
            len == buf@.len(),
            lines_ok(lines_of(buf@)),
            table.wf(arena@),
            extends(arena@, store0),
            is_spaced(starts, stride as int),
            table.model(arena@) == claimed(buf@, stride as int, starts),
            arena@ == store0 + claimed_keys(buf@, stride as int, starts),
            0 <= covered <= len,
            0 <= edge <= len,
            starts.len() == 0 ==> covered == 0,
            covered <= line_end_from(buf@, edge),
            counts_within(table.model(arena@), covered),
        decreases
            (if floor > len {
                0
            } else {
                len - floor + 1
            }),
    {
        let ns: usize = dispenser.reserve();
        if ns < floor {
            break;
        }
        match chunk_at(buf, ns, stride) {
            None => {
                break;
            },
            Some((a, b)) => {
                let ghost now = table.model(arena@);
                let ghost store1 = arena@;
                let chunk: &[u8] = &buf[a..b];
                proof {
                    lemma_chunk_aligned(buf@, ns as int, stride as int);
                    if ns > 0 {
                        lemma_line_end_monotone(buf@, edge, ns as int);
                    }
                    assert(covered <= a);
                    lemma_part_lines_ok(buf@, a as int, b as int);
                    table.lemma_model_wf(arena@);
                    lemma_lines_count(chunk@);
                    lemma_observe_lines_wf(now, lines_of(chunk@), a as int);
                    lemma_observe_lines_merged(now, lines_of(chunk@));
                }
                ingest(&mut table, arena, chunk);
                proof {
                    let grown = starts.push(ns as int);
                    assert(grown.drop_last() =~= starts);
                    assert(is_spaced(grown, stride as int));
                    lemma_extends_transitive(arena@, store1, store0);
                    let gained = new_keys(now, lines_of(chunk@));
                    assert((store0 + claimed_keys(buf@, stride as int, starts)) + gained =~= store0
                        + (claimed_keys(buf@, stride as int, starts) + gained));
                    starts = grown;
                    covered = b as int;
                    edge = nominal_end(len as int, ns as int, stride as int);
                    lemma_line_end(buf@, edge);
                }
            },
        }
        if stride > usize::MAX - ns {
            break;
        }
        floor = ns + stride;
    }
    table
}

} // verus!
