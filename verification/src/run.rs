//! A whole run: one pass over a buffer, or the tables of several workers
//! folded into one, and the text that is printed at the end.

use vstd::prelude::*;
use crate::arena::Arena;
use crate::dispenser::{
    chunk_of,
    dispensed,
    lemma_chunk_aligned,
    lemma_dispensed_all,
    lemma_dispensed_prefix,
    reach,
};
use crate::model::{
    counts_within,
    lemma_blank_lines_neutral,
    lemma_merged_empty,
    lemma_merged_over_any_order,
    lemma_merged_over_concat,
    lemma_table_by_key,
    lemma_two_passes,
    lines_ok,
    merged,
    new_keys,
    table_of,
    values_for,
};
use crate::report::{render, report_of, report_text};
use crate::scan::{is_terminated, lines_of, NEWLINE};
use crate::stats::Tally;
use crate::table::{new_entries, Table};
use crate::validation::{is_first_bad_line, lemma_valid_is_ok, lines_valid, validate, LineError};
use crate::worker::{chunk_tables, claimed, claimed_keys, ingest};

verus! {

/// What one worker hands back: its table, and the arena that holds the keys
/// of the table.
pub struct Shard {
    pub arena: Arena,
    pub table: Table,
}

impl Shard {
    /// The table is well formed over the arena.
    pub open spec fn wf(&self) -> bool {
        self.table.wf(self.arena@)
    }

    /// What the table stands for.
    pub open spec fn model(&self) -> Map<Seq<u8>, Tally> {
        self.table.model(self.arena@)
    }
}

/// What each of `shards` stands for.
pub open spec fn models(shards: Seq<Shard>) -> Seq<Map<Seq<u8>, Tally>> {
    Seq::new(shards.len(), |i: int| shards[i].model())
}

/// The maps of `ms` merged one after the other.
pub open spec fn merged_all(ms: Seq<Map<Seq<u8>, Tally>>) -> Map<Seq<u8>, Tally>
    decreases ms.len(),
{
    if ms.len() == 0 {
        Map::empty()
    } else {
        merged(merged_all(ms.drop_last()), ms.last())
    }
}

/// The bytes that folding `shards` puts into a new arena: for each shard in
/// turn, the keys that the shards before it do not hold, in the order of the
/// keys.
pub open spec fn merged_keys(shards: Seq<Shard>) -> Seq<u8>
    decreases shards.len(),
{
    if shards.len() == 0 {
        Seq::empty()
    } else {
        merged_keys(shards.drop_last()) + new_entries(
            merged_all(models(shards.drop_last())),
            shards.last().table.pairs(shards.last().arena@),
        )
    }
}

/// Merging further maps in takes no key away and lowers no count.
pub proof fn lemma_merged_all_grows(ms: Seq<Map<Seq<u8>, Tally>>, j: int)
    requires
        0 <= j <= ms.len(),
    ensures
        forall|k: Seq<u8>| #[trigger]
            merged_all(ms.take(j)).contains_key(k) ==> merged_all(ms).contains_key(k)
                && merged_all(ms.take(j))[k].count <= merged_all(ms)[k].count,
    decreases ms.len() - j,
{
    if j == ms.len() {
        assert(ms.take(j) =~= ms);
    } else {
        lemma_merged_all_grows(ms, j + 1);
        assert(ms.take(j + 1).drop_last() =~= ms.take(j));
        let small = merged_all(ms.take(j));
        let next = merged_all(ms.take(j + 1));
        assert forall|k: Seq<u8>| #[trigger] small.contains_key(k) implies merged_all(
            ms,
        ).contains_key(k) && small[k].count <= merged_all(ms)[k].count by {
            assert(next.contains_key(k));
        }
    }
}

/// Folds the tables of all workers into one: the merge of them all, in a new
/// arena. No count of the result may pass the greatest `u64`.
pub fn merge_all(shards: &Vec<Shard>) -> (r: Shard)
    requires
        forall|i: int| 0 <= i < shards@.len() ==> (#[trigger] shards@[i]).wf(),
        counts_within(merged_all(models(shards@)), u64::MAX as int),
    ensures
        r.wf(),
        r.model() == merged_all(models(shards@)),
        r.arena@ == merged_keys(shards@),
{
    let mut arena = Arena::new();
    let mut table = Table::new();
    let ghost ms = models(shards@);
    proof {
        assert(table.wf(arena@));
        assert(table.model(arena@) == Map::<Seq<u8>, Tally>::empty());
        assert(ms.take(0) =~= Seq::empty());
        assert(shards@.take(0) =~= Seq::empty());
    }
    let mut i: usize = 0;
    while i < shards.len()
        invariant
            i <= shards@.len(),
            ms == models(shards@),
            forall|j: int| 0 <= j < shards@.len() ==> (#[trigger] shards@[j]).wf(),
            counts_within(merged_all(ms), u64::MAX as int),
            table.wf(arena@),
            table.model(arena@) == merged_all(ms.take(i as int)),
            arena@ == merged_keys(shards@.take(i as int)),
        decreases shards@.len() - i,
    {
        let shard: &Shard = &shards[i];
        proof {
            assert(shard.wf());
            assert(ms[i as int] == shard.model());
            assert(ms.take(i + 1).drop_last() =~= ms.take(i as int));
            assert(shards@.take(i + 1).drop_last() =~= shards@.take(i as int));
            assert(models(shards@.take(i as int)) =~= ms.take(i as int));
            lemma_merged_all_grows(ms, i + 1);
            let acc = table.model(arena@);
            let next = merged_all(ms.take(i + 1));
            assert forall|k: Seq<u8>|
                acc.contains_key(k) && #[trigger] shard.table.model(shard.arena@).contains_key(
                    k,
                ) implies acc[k].count + shard.table.model(shard.arena@)[k].count
                <= u64::MAX by {
                assert(next.contains_key(k));
                assert(merged_all(ms).contains_key(k));
            }
        }
        table.merge(&mut arena, &shard.table, &shard.arena);
        i += 1;
    }
    proof {
        assert(ms.take(i as int) =~= ms);
        assert(shards@.take(i as int) =~= shards@);
    }
    Shard { arena, table }
}

/// The first `n` nominal starts of a run: 0, `stride`, twice `stride` and so
/// on.
pub open spec fn multiples(stride: int, n: nat) -> Seq<int> {
    Seq::new(n, |k: int| k * stride)
}

/// The chunks of the first `n` nominal starts, taken in order, give what
/// `dispensed` gives.
pub proof fn lemma_claimed_in_order(s: Seq<u8>, stride: int, n: nat)
    ensures
        claimed(s, stride, multiples(stride, n)) == dispensed(s, stride, n),
    decreases n,
{
    if n > 0 {
        lemma_claimed_in_order(s, stride, (n - 1) as nat);
        assert(multiples(stride, n).drop_last() =~= multiples(stride, (n - 1) as nat));
        lemma_merged_empty(dispensed(s, stride, (n - 1) as nat));
    }
}

/// What the first `n` chunks, taken in order, put behind an arena: the keys
/// that one pass over the buffer as far as they reach puts there.
proof fn lemma_sole_worker_prefix(s: Seq<u8>, stride: int, n: nat)
    requires
        0 < stride,
    ensures
        claimed_keys(s, stride, multiples(stride, n)) == new_keys(
            Map::empty(),
            lines_of(s.take(reach(s, stride, n))),
        ),
    decreases n,
{
    let none = Map::<Seq<u8>, Tally>::empty();
    if n == 0 {
        assert(s.take(0) =~= Seq::<u8>::empty());
    } else {
        let k = (n - 1) as nat;
        lemma_sole_worker_prefix(s, stride, k);
        lemma_claimed_in_order(s, stride, k);
        lemma_dispensed_prefix(s, stride, k);
        lemma_dispensed_prefix(s, stride, n);
        assert(multiples(stride, n).drop_last() =~= multiples(stride, k));
        let a = reach(s, stride, k);
        let x = s.take(a);
        match chunk_of(s, k * stride, stride) {
            Some(c) => {
                let y = s.subrange(a, c.1);
                assert(k * stride >= 0) by (nonlinear_arith)
                    requires
                        k >= 0,
                        stride > 0,
                ;
                lemma_chunk_aligned(s, k * stride, stride);
                assert(s.take(c.1) =~= x + y);
                if y.len() == 0 {
                    assert(x + y =~= x);
                    assert(new_keys(none, lines_of(x)) + Seq::<u8>::empty() =~= new_keys(
                        none,
                        lines_of(x),
                    ));
                } else {
                    assert(is_terminated(x)) by {
                        if a > 0 {
                            assert(x.last() == s[a - 1]);
                        }
                    }
                    lemma_two_passes(none, x, y);
                }
            },
            None => {},
        }
    }
}

/// A worker that is alone takes the chunks in order. Once no chunk is handed
/// out any more, its table is the aggregate of the whole buffer, and its
/// arena has gained each key of the buffer once, in the order of first
/// sight: what one pass over the buffer gives, however long the stride is
/// beside the lines.
pub proof fn lemma_sole_worker(s: Seq<u8>, stride: int, n: nat)
    requires
        0 < stride,
        chunk_of(s, n * stride, stride) is None,
    ensures
        claimed(s, stride, multiples(stride, n)) == table_of(s),
        claimed_keys(s, stride, multiples(stride, n)) == new_keys(Map::empty(), lines_of(s)),
{
    lemma_claimed_in_order(s, stride, n);
    lemma_dispensed_all(s, stride, n);
    lemma_sole_worker_prefix(s, stride, n);
    assert(s.take(s.len() as int) =~= s);
}

/// The nominal starts of all workers, one worker after the other.
pub open spec fn joined(parts: Seq<Seq<int>>) -> Seq<int>
    decreases parts.len(),
{
    if parts.len() == 0 {
        Seq::empty()
    } else {
        joined(parts.drop_last()) + parts.last()
    }
}

/// What each worker aggregates, where `parts` holds the nominal starts that
/// the workers got.
pub open spec fn claimed_each(s: Seq<u8>, stride: int, parts: Seq<Seq<int>>) -> Seq<
    Map<Seq<u8>, Tally>,
> {
    Seq::new(parts.len(), |i: int| claimed(s, stride, parts[i]))
}

/// Folding the tables of the workers gives the aggregate of all the chunks
/// that they took.
pub proof fn lemma_merged_all_claimed(s: Seq<u8>, stride: int, parts: Seq<Seq<int>>)
    ensures
        merged_all(claimed_each(s, stride, parts)) == claimed(s, stride, joined(parts)),
    decreases parts.len(),
{
    if parts.len() > 0 {
        let front = parts.drop_last();
        lemma_merged_all_claimed(s, stride, front);
        assert(claimed_each(s, stride, parts).drop_last() =~= claimed_each(s, stride, front));
        lemma_merged_over_concat(chunk_tables(s, stride), joined(front), parts.last());
    }
}

/// A run of several workers gives what one pass over the buffer gives. Where
/// the workers between them took the chunk of each of the first `n` nominal
/// starts once, in whatever order and however shared out, and no chunk is
/// handed out for the nominal start after those, the fold of their tables is
/// the aggregate of the whole buffer.
pub proof fn lemma_workers_cover(s: Seq<u8>, stride: int, parts: Seq<Seq<int>>, n: nat)
    requires
        0 < stride,
        chunk_of(s, n * stride, stride) is None,
        joined(parts).to_multiset() == multiples(stride, n).to_multiset(),
    ensures
        merged_all(claimed_each(s, stride, parts)) == table_of(s),
{
    lemma_merged_all_claimed(s, stride, parts);
    lemma_merged_over_any_order(chunk_tables(s, stride), joined(parts), multiples(stride, n));
    lemma_claimed_in_order(s, stride, n);
    lemma_dispensed_all(s, stride, n);
}

/// Under the same condition every line is counted once, none left out and
/// none counted twice: the fold holds a key where some line has it, and has
/// seen it as often as there are lines with it.
pub proof fn lemma_workers_count_lines(
    s: Seq<u8>,
    stride: int,
    parts: Seq<Seq<int>>,
    n: nat,
    k: Seq<u8>,
)
    requires
        0 < stride,
        chunk_of(s, n * stride, stride) is None,
        joined(parts).to_multiset() == multiples(stride, n).to_multiset(),
        lines_ok(lines_of(s)),
    ensures
        merged_all(claimed_each(s, stride, parts)).contains_key(k) <==> values_for(
            lines_of(s),
            k,
        ).len() > 0,
        merged_all(claimed_each(s, stride, parts)).contains_key(k) ==> merged_all(
            claimed_each(s, stride, parts),
        )[k].count == values_for(lines_of(s), k).len(),
{
    lemma_workers_cover(s, stride, parts, n);
    lemma_table_by_key(lines_of(s), k);
}

/// Takes every line of `buf` into a new table with a new arena: the whole
/// buffer in one pass. The lines are not checked: the caller answers for them.
pub fn aggregate(buf: &[u8]) -> (r: Shard)
    requires
        lines_ok(lines_of(buf@)),
    ensures
        r.wf(),
        r.model() == table_of(buf@),
        r.arena@ == new_keys(Map::empty(), lines_of(buf@)),
{
    let mut arena = Arena::new();
    let mut table = Table::new();
    proof {
        assert(table.wf(arena@));
        assert(table.model(arena@) == Map::<Seq<u8>, Tally>::empty());
    }
    ingest(&mut table, &mut arena, buf);
    proof {
        let keys = new_keys(Map::empty(), lines_of(buf@));
        assert(Seq::<u8>::empty() + keys =~= keys);
    }
    Shard { arena, table }
}

/// Checks every line of `buf` and, where each is blank or parses, takes them
/// all into a new table with a new arena.
pub fn aggregate_checked(buf: &[u8]) -> (r: Result<Shard, LineError>)
    ensures
        r is Ok <==> lines_valid(lines_of(buf@)),
        r matches Ok(shard) ==> {
            &&& shard.wf()
            &&& shard.model() == table_of(buf@)
            &&& shard.arena@ == new_keys(Map::empty(), lines_of(buf@))
        },
        r matches Err(e) ==> is_first_bad_line(buf@, e),
{
    match validate(buf) {
        Ok(()) => {
            proof {
                lemma_valid_is_ok(lines_of(buf@));
            }
            Ok(aggregate(buf))
        },
        Err(e) => Err(e),
    }
}

/// What is printed for a buffer: the report of its aggregate, as text.
pub open spec fn output_of(s: Seq<u8>) -> Seq<u8> {
    report_text(report_of(table_of(s)))
}

/// The text that is printed for what `shard` holds.
pub fn finish(shard: &Shard) -> (out: Vec<u8>)
    requires
        shard.wf(),
    ensures
        out@ == report_text(report_of(shard.model())),
{
    let rows = shard.table.summary(&shard.arena);
    render(&rows)
}

/// A whole run on one thread: checks every line of `buf`, takes them all in,
/// and gives the text that is printed; or names the first line that is
/// neither blank nor parses.
pub fn solve(buf: &[u8]) -> (r: Result<Vec<u8>, LineError>)
    ensures
        r is Ok <==> lines_valid(lines_of(buf@)),
        r matches Ok(out) ==> out@ == output_of(buf@),
        r matches Err(e) ==> is_first_bad_line(buf@, e),
{
    match aggregate_checked(buf) {
        Ok(shard) => Ok(finish(&shard)),
        Err(e) => Err(e),
    }
}

/// The end of a run of several workers: folds their tables into one and
/// gives the text that is printed. No count of the fold may pass the greatest
/// `u64`.
pub fn finish_all(shards: &Vec<Shard>) -> (out: Vec<u8>)
    requires
        forall|i: int| 0 <= i < shards@.len() ==> (#[trigger] shards@[i]).wf(),
        counts_within(merged_all(models(shards@)), u64::MAX as int),
    ensures
        out@ == report_text(report_of(merged_all(models(shards@)))),
{
    let all = merge_all(shards);
    finish(&all)
}

/// Blank lines put in where a line begins, however many, do not change what
/// is printed for a buffer.
pub proof fn lemma_blank_lines_output(x: Seq<u8>, blanks: Seq<u8>, y: Seq<u8>)
    requires
        is_terminated(x),
        forall|i: int| 0 <= i < blanks.len() ==> blanks[i] == NEWLINE,
    ensures
        output_of(x + blanks + y) == output_of(x + y),
{
    lemma_blank_lines_neutral(x, blanks, y);
}

} // verus!
