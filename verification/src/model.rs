//! What a table stands for: a map from each key to the tally of its values.
//!
//! The laws of aggregation are stated and proved here, on maps: merging is
//! associative and commutative, and aggregating a buffer in parts and merging
//! the results gives what aggregating it in one pass gives.

use vstd::prelude::*;
use crate::parse::{is_record, key_of, lemma_decimal_in_range, value_of, value_text};
use crate::scan::{
    NEWLINE,
    is_boundary,
    is_terminated,
    lemma_lines_concat,
    lemma_lines_of_newlines,
    lemma_run_len,
    lines_of,
    rest_start,
};
use crate::stats::{
    lemma_observe_is_combine,
    lemma_of_count,
    lemma_small_wf,
    lemma_wf_preserved,
    Tally,
};
use vstd::seq_lib::{to_multiset_build, to_multiset_contains, to_multiset_len, to_multiset_remove};

verus! {

/// `m` after one more value `v` for `key`.
pub open spec fn observed(m: Map<Seq<u8>, Tally>, key: Seq<u8>, v: int) -> Map<Seq<u8>, Tally> {
    m.insert(
        key,
        if m.contains_key(key) {
            m[key].observe(v)
        } else {
            Tally::single(v)
        },
    )
}

/// `m` after taking in the tally `t` for `key`.
pub open spec fn absorbed(m: Map<Seq<u8>, Tally>, key: Seq<u8>, t: Tally) -> Map<Seq<u8>, Tally> {
    m.insert(
        key,
        if m.contains_key(key) {
            m[key].combine(t)
        } else {
            t
        },
    )
}

/// The merge of two maps: the keys of both; for a key of both the merge of
/// its two tallies, for a key of one its tally there.
pub open spec fn merged(a: Map<Seq<u8>, Tally>, b: Map<Seq<u8>, Tally>) -> Map<Seq<u8>, Tally> {
    Map::new(
        |k: Seq<u8>| a.contains_key(k) || b.contains_key(k),
        |k: Seq<u8>|
            if a.contains_key(k) && b.contains_key(k) {
                a[k].combine(b[k])
            } else if a.contains_key(k) {
                a[k]
            } else {
                b[k]
            },
    )
}

/// `m` after the line `line`: a blank line changes nothing.
pub open spec fn observe_line(m: Map<Seq<u8>, Tally>, line: Seq<u8>) -> Map<Seq<u8>, Tally> {
    if line.len() == 0 {
        m
    } else {
        observed(m, key_of(line), value_of(line))
    }
}

/// `m` after the lines `lines`, taken in order.
pub open spec fn observe_lines(m: Map<Seq<u8>, Tally>, lines: Seq<Seq<u8>>) -> Map<Seq<u8>, Tally>
    decreases lines.len(),
{
    if lines.len() == 0 {
        m
    } else {
        observe_lines(observe_line(m, lines[0]), lines.skip(1))
    }
}

/// The bytes that taking `lines` into `m` puts behind an arena: the key of
/// each line whose key is not yet held when the line is taken in, so each new
/// key once, in the order of first sight. Blank lines and lines with a key
/// that is held add nothing.
pub open spec fn new_keys(m: Map<Seq<u8>, Tally>, lines: Seq<Seq<u8>>) -> Seq<u8>
    decreases lines.len(),
{
    if lines.len() == 0 {
        Seq::empty()
    } else if lines[0].len() > 0 && !m.contains_key(key_of(lines[0])) {
        key_of(lines[0]) + new_keys(observe_line(m, lines[0]), lines.skip(1))
    } else {
        new_keys(observe_line(m, lines[0]), lines.skip(1))
    }
}

/// The aggregate of a buffer: every line of it taken in, from nothing.
pub open spec fn table_of(s: Seq<u8>) -> Map<Seq<u8>, Tally> {
    observe_lines(Map::empty(), lines_of(s))
}

/// Every line of `lines` is blank or a record.
pub open spec fn lines_ok(lines: Seq<Seq<u8>>) -> bool {
    forall|i: int| 0 <= i < lines.len() ==> (#[trigger] lines[i]).len() == 0 || is_record(lines[i])
}

/// Every tally of `m` is well formed and has seen a value.
pub open spec fn model_wf(m: Map<Seq<u8>, Tally>) -> bool {
    forall|k: Seq<u8>| #[trigger] m.contains_key(k) ==> m[k].wf() && m[k].count > 0
}

/// No tally of `m` has seen more than `n` values.
pub open spec fn counts_within(m: Map<Seq<u8>, Tally>, n: int) -> bool {
    forall|k: Seq<u8>| #[trigger] m.contains_key(k) ==> m[k].count <= n
}

/// Merging two tables is commutative.
pub proof fn lemma_merged_commutative(a: Map<Seq<u8>, Tally>, b: Map<Seq<u8>, Tally>)
    ensures
        merged(a, b) == merged(b, a),
{
    assert(merged(a, b) =~= merged(b, a));
}

/// Merging three tables gives the same whichever two are merged first.
pub proof fn lemma_merged_associative(
    a: Map<Seq<u8>, Tally>,
    b: Map<Seq<u8>, Tally>,
    c: Map<Seq<u8>, Tally>,
)
    ensures
        merged(merged(a, b), c) == merged(a, merged(b, c)),
{
    assert(merged(merged(a, b), c) =~= merged(a, merged(b, c)));
}

/// The empty table is the unit of merging, on either side.
pub proof fn lemma_merged_empty(a: Map<Seq<u8>, Tally>)
    ensures
        merged(a, Map::empty()) == a,
        merged(Map::empty(), a) == a,
{
    assert(merged(a, Map::empty()) =~= a);
    assert(merged(Map::empty(), a) =~= a);
}

/// Taking a line in after a merge is merging with the second table after it
/// took the line in.
proof fn lemma_observe_line_merged(a: Map<Seq<u8>, Tally>, b: Map<Seq<u8>, Tally>, line: Seq<u8>)
    ensures
        observe_line(merged(a, b), line) == merged(a, observe_line(b, line)),
{
    assert(observe_line(merged(a, b), line) =~= merged(a, observe_line(b, line)));
}

/// Lines taken in one after the other: first all of `a`, then all of `b`.
pub proof fn lemma_observe_lines_concat(
    m: Map<Seq<u8>, Tally>,
    a: Seq<Seq<u8>>,
    b: Seq<Seq<u8>>,
)
    ensures
        observe_lines(m, a + b) == observe_lines(observe_lines(m, a), b),
    decreases a.len(),
{
    if a.len() == 0 {
        assert(a + b =~= b);
    } else {
        assert((a + b).skip(1) =~= a.skip(1) + b);
        lemma_observe_lines_concat(observe_line(m, a[0]), a.skip(1), b);
    }
}

/// Taking lines into a table is merging the table with the aggregate of
/// those lines alone.
pub proof fn lemma_observe_lines_merged(m: Map<Seq<u8>, Tally>, lines: Seq<Seq<u8>>)
    ensures
        observe_lines(m, lines) == merged(m, observe_lines(Map::empty(), lines)),
    decreases lines.len(),
{
    let none = Map::<Seq<u8>, Tally>::empty();
    if lines.len() == 0 {
        lemma_merged_empty(m);
    } else {
        let rest = lines.skip(1);
        let alone = observe_lines(none, rest);
        lemma_observe_lines_merged(observe_line(m, lines[0]), rest);
        lemma_observe_lines_merged(observe_line(none, lines[0]), rest);
        lemma_merged_empty(m);
        lemma_observe_line_merged(m, none, lines[0]);
        lemma_merged_associative(m, observe_line(none, lines[0]), alone);
    }
}

/// The aggregate of two runs of lines laid end to end is the merge of their
/// aggregates: tables built from the two parts of an input, merged, are the
/// table built from the undivided input.
pub proof fn lemma_lines_in_parts(a: Seq<Seq<u8>>, b: Seq<Seq<u8>>)
    ensures
        observe_lines(Map::empty(), a + b) == merged(
            observe_lines(Map::empty(), a),
            observe_lines(Map::empty(), b),
        ),
{
    lemma_observe_lines_concat(Map::empty(), a, b);
    lemma_observe_lines_merged(observe_lines(Map::empty(), a), b);
}

/// Tables built from three parts of an input give, merged in either
/// grouping, the table built from the undivided input.
pub proof fn lemma_three_parts(a: Seq<Seq<u8>>, b: Seq<Seq<u8>>, c: Seq<Seq<u8>>)
    ensures
        merged(
            merged(observe_lines(Map::empty(), a), observe_lines(Map::empty(), b)),
            observe_lines(Map::empty(), c),
        ) == observe_lines(Map::empty(), a + b + c),
        merged(
            observe_lines(Map::empty(), a),
            merged(observe_lines(Map::empty(), b), observe_lines(Map::empty(), c)),
        ) == observe_lines(Map::empty(), a + b + c),
{
    lemma_lines_in_parts(a, b);
    lemma_lines_in_parts(a + b, c);
    lemma_merged_associative(
        observe_lines(Map::empty(), a),
        observe_lines(Map::empty(), b),
        observe_lines(Map::empty(), c),
    );
}

/// One more line at the end: the lines before it are taken in first.
pub proof fn lemma_observe_lines_push(m: Map<Seq<u8>, Tally>, lines: Seq<Seq<u8>>, line: Seq<u8>)
    ensures
        observe_lines(m, lines.push(line)) == observe_line(observe_lines(m, lines), line),
{
    let one = seq![line];
    assert(lines.push(line) =~= lines + one);
    lemma_observe_lines_concat(m, lines, one);
    let after = observe_lines(m, lines);
    assert(one.skip(1) =~= Seq::<Seq<u8>>::empty());
    assert(observe_lines(observe_line(after, one[0]), one.skip(1)) == observe_line(after, line));
}

/// The values of the lines of `lines` that have the key `k`, in order.
pub open spec fn values_for(lines: Seq<Seq<u8>>, k: Seq<u8>) -> Seq<int>
    decreases lines.len(),
{
    if lines.len() == 0 {
        Seq::empty()
    } else {
        let before = values_for(lines.drop_last(), k);
        let line = lines.last();
        if line.len() > 0 && key_of(line) == k {
            before.push(value_of(line))
        } else {
            before
        }
    }
}

/// What an aggregate is, key by key: it holds the keys that some line has,
/// and for each the tally of the values of the lines with that key, which
/// has seen as many values as there are lines with that key.
pub proof fn lemma_table_by_key(lines: Seq<Seq<u8>>, k: Seq<u8>)
    requires
        lines_ok(lines),
    ensures
        observe_lines(Map::empty(), lines).contains_key(k) <==> values_for(lines, k).len() > 0,
        observe_lines(Map::empty(), lines).contains_key(k) ==> observe_lines(
            Map::empty(),
            lines,
        )[k] == Tally::of(values_for(lines, k)),
        observe_lines(Map::empty(), lines).contains_key(k) ==> observe_lines(
            Map::empty(),
            lines,
        )[k].count == values_for(lines, k).len(),
    decreases lines.len(),
{
    lemma_of_count(values_for(lines, k));
    if lines.len() > 0 {
        let front = lines.drop_last();
        let line = lines.last();
        assert(lines =~= front.push(line));
        assert forall|i: int| 0 <= i < front.len() implies (#[trigger] front[i]).len() == 0
            || is_record(front[i]) by {
            assert(front[i] == lines[i]);
        }
        lemma_table_by_key(front, k);
        lemma_observe_lines_push(Map::empty(), front, line);
        if line.len() > 0 && key_of(line) == k {
            assert(lines[lines.len() - 1].len() == 0 || is_record(lines[lines.len() - 1]));
            lemma_decimal_in_range(value_text(line));
            let before = values_for(front, k);
            let now = before.push(value_of(line));
            assert(now.drop_last() =~= before);
            assert(values_for(lines, k) == now);
            assert(Tally::of(now) == Tally::of(before).observe(value_of(line)));
            lemma_observe_is_combine(Tally::empty(), value_of(line));
        }
    }
}

/// The maps that `f` gives for the members of `xs`, merged one after the
/// other.
pub open spec fn merged_over<A>(f: spec_fn(A) -> Map<Seq<u8>, Tally>, xs: Seq<A>) -> Map<
    Seq<u8>,
    Tally,
>
    decreases xs.len(),
{
    if xs.len() == 0 {
        Map::empty()
    } else {
        merged(merged_over(f, xs.drop_last()), f(xs.last()))
    }
}

/// Merging over two runs laid end to end is merging the merges over each.
pub proof fn lemma_merged_over_concat<A>(
    f: spec_fn(A) -> Map<Seq<u8>, Tally>,
    a: Seq<A>,
    b: Seq<A>,
)
    ensures
        merged_over(f, a + b) == merged(merged_over(f, a), merged_over(f, b)),
    decreases b.len(),
{
    if b.len() == 0 {
        assert(a + b =~= a);
        lemma_merged_empty(merged_over(f, a));
    } else {
        assert((a + b).drop_last() =~= a + b.drop_last());
        lemma_merged_over_concat(f, a, b.drop_last());
        lemma_merged_associative(merged_over(f, a), merged_over(f, b.drop_last()), f(b.last()));
    }
}

/// Merging does not depend on the order: two runs that hold the same members
/// as often give the same merge.
pub proof fn lemma_merged_over_any_order<A>(
    f: spec_fn(A) -> Map<Seq<u8>, Tally>,
    a: Seq<A>,
    b: Seq<A>,
)
    requires
        a.to_multiset() == b.to_multiset(),
    ensures
        merged_over(f, a) == merged_over(f, b),
    decreases a.len(),
{
    to_multiset_len(a);
    to_multiset_len(b);
    if a.len() == 0 {
        assert(a =~= b);
    } else {
        let x = a.last();
        let front = a.drop_last();
        assert(front.push(x) =~= a);
        to_multiset_build(front, x);
        to_multiset_contains(b, x);
        assert(a.to_multiset().count(x) > 0);
        let j = choose|j: int| 0 <= j < b.len() && b[j] == x;
        let rest = b.remove(j);
        to_multiset_remove(b, j);
        assert(rest.to_multiset() =~= front.to_multiset());
        lemma_merged_over_any_order(f, front, rest);
        let p = b.take(j);
        let q = b.skip(j + 1);
        let one = seq![x];
        assert(b =~= (p + one) + q);
        assert(rest =~= p + q);
        assert(a =~= front + one);
        lemma_merged_over_concat(f, p + one, q);
        lemma_merged_over_concat(f, p, one);
        lemma_merged_over_concat(f, p, q);
        lemma_merged_over_concat(f, front, one);
        let mp = merged_over(f, p);
        let mq = merged_over(f, q);
        let mx = merged_over(f, one);
        lemma_merged_associative(mp, mq, mx);
        lemma_merged_commutative(mq, mx);
        lemma_merged_associative(mp, mx, mq);
    }
}

/// The aggregate of each line by itself.
pub open spec fn line_tables() -> spec_fn(Seq<u8>) -> Map<Seq<u8>, Tally> {
    |line: Seq<u8>| observe_line(Map::empty(), line)
}

/// The aggregate of lines is the merge of the aggregates of each line by
/// itself.
pub proof fn lemma_lines_merged_over(lines: Seq<Seq<u8>>)
    ensures
        observe_lines(Map::empty(), lines) == merged_over(line_tables(), lines),
    decreases lines.len(),
{
    if lines.len() > 0 {
        let front = lines.drop_last();
        let line = lines.last();
        assert(lines =~= front.push(line));
        lemma_lines_merged_over(front);
        lemma_observe_lines_push(Map::empty(), front, line);
        let before = observe_lines(Map::empty(), front);
        lemma_merged_empty(before);
        lemma_observe_line_merged(before, Map::empty(), line);
    }
}

/// The aggregate of lines does not depend on their order.
pub proof fn lemma_lines_any_order(a: Seq<Seq<u8>>, b: Seq<Seq<u8>>)
    requires
        a.to_multiset() == b.to_multiset(),
    ensures
        observe_lines(Map::empty(), a) == observe_lines(Map::empty(), b),
{
    lemma_lines_merged_over(a);
    lemma_lines_merged_over(b);
    lemma_merged_over_any_order(line_tables(), a, b);
}

/// The keys that two runs of lines put behind an arena, one run after the
/// other: those of the first run, then those that are still new after it.
pub proof fn lemma_new_keys_concat(m: Map<Seq<u8>, Tally>, a: Seq<Seq<u8>>, b: Seq<Seq<u8>>)
    ensures
        new_keys(m, a + b) == new_keys(m, a) + new_keys(observe_lines(m, a), b),
    decreases a.len(),
{
    if a.len() == 0 {
        assert(a + b =~= b);
        assert(new_keys(m, a) + new_keys(m, b) =~= new_keys(m, b));
    } else {
        let next = observe_line(m, a[0]);
        assert((a + b).skip(1) =~= a.skip(1) + b);
        assert((a + b)[0] == a[0]);
        lemma_new_keys_concat(next, a.skip(1), b);
        let rest = new_keys(next, a.skip(1));
        let tail = new_keys(observe_lines(m, a), b);
        assert((key_of(a[0]) + rest) + tail =~= key_of(a[0]) + (rest + tail));
    }
}

/// One pass over a buffer and two passes over its two parts, cut where a
/// line begins, give the same table and put the same keys behind an arena.
pub proof fn lemma_two_passes(m: Map<Seq<u8>, Tally>, x: Seq<u8>, y: Seq<u8>)
    requires
        is_terminated(x),
    ensures
        observe_lines(m, lines_of(x + y)) == observe_lines(
            observe_lines(m, lines_of(x)),
            lines_of(y),
        ),
        new_keys(m, lines_of(x + y)) == new_keys(m, lines_of(x)) + new_keys(
            observe_lines(m, lines_of(x)),
            lines_of(y),
        ),
{
    lemma_lines_concat(x, y);
    lemma_observe_lines_concat(m, lines_of(x), lines_of(y));
    lemma_new_keys_concat(m, lines_of(x), lines_of(y));
}

/// A buffer cut in two where a line begins: the merge of the aggregates of
/// the two parts is the aggregate of the whole.
pub proof fn lemma_table_of_concat(x: Seq<u8>, y: Seq<u8>)
    requires
        is_terminated(x),
    ensures
        table_of(x + y) == merged(table_of(x), table_of(y)),
{
    lemma_lines_concat(x, y);
    lemma_lines_in_parts(lines_of(x), lines_of(y));
}

/// Taking blank lines in changes nothing, and puts nothing behind an arena.
proof fn lemma_observe_blank_lines(m: Map<Seq<u8>, Tally>, lines: Seq<Seq<u8>>)
    requires
        forall|i: int| 0 <= i < lines.len() ==> (#[trigger] lines[i]).len() == 0,
    ensures
        observe_lines(m, lines) == m,
        new_keys(m, lines) == Seq::<u8>::empty(),
    decreases lines.len(),
{
    if lines.len() > 0 {
        let rest = lines.skip(1);
        assert forall|i: int| 0 <= i < rest.len() implies (#[trigger] rest[i]).len() == 0 by {
            assert(rest[i] == lines[i + 1]);
        }
        lemma_observe_blank_lines(m, rest);
    }
}

/// Blank lines put in where a line begins, however many, change neither what
/// taking a buffer into a table leaves in the table nor what it puts behind
/// the arena.
pub proof fn lemma_blank_lines_add_nothing(
    m: Map<Seq<u8>, Tally>,
    x: Seq<u8>,
    blanks: Seq<u8>,
    y: Seq<u8>,
)
    requires
        is_terminated(x),
        forall|i: int| 0 <= i < blanks.len() ==> blanks[i] == NEWLINE,
    ensures
        observe_lines(m, lines_of(x + blanks + y)) == observe_lines(m, lines_of(x + y)),
        new_keys(m, lines_of(x + blanks + y)) == new_keys(m, lines_of(x + y)),
{
    assert(is_terminated(x + blanks)) by {
        if blanks.len() > 0 {
            assert((x + blanks).last() == blanks.last());
        } else {
            assert(x + blanks =~= x);
        }
    }
    lemma_two_passes(m, x + blanks, y);
    lemma_two_passes(m, x, blanks);
    lemma_two_passes(m, x, y);
    lemma_lines_of_newlines(blanks);
    let after = observe_lines(m, lines_of(x));
    lemma_observe_blank_lines(after, lines_of(blanks));
    assert(new_keys(m, lines_of(x)) + Seq::<u8>::empty() =~= new_keys(m, lines_of(x)));
}

/// Blank lines put in where a line begins, however many, leave the aggregate
/// of a buffer as it was.
pub proof fn lemma_blank_lines_neutral(x: Seq<u8>, blanks: Seq<u8>, y: Seq<u8>)
    requires
        is_terminated(x),
        forall|i: int| 0 <= i < blanks.len() ==> blanks[i] == NEWLINE,
    ensures
        table_of(x + blanks + y) == table_of(x + y),
{
    lemma_blank_lines_add_nothing(Map::empty(), x, blanks, y);
}

/// `cuts` cuts `s` into parts that lie end to end, each beginning where a
/// line begins: it starts at 0, ends at the length of `s` and never steps
/// back.
pub open spec fn is_partition(s: Seq<u8>, cuts: Seq<int>) -> bool {
    &&& cuts.len() >= 1
    &&& cuts[0] == 0
    &&& cuts.last() == s.len()
    &&& forall|i: int| 0 <= i < cuts.len() ==> is_boundary(s, #[trigger] cuts[i])
    &&& forall|i: int, j: int| 0 <= i <= j < cuts.len() ==> cuts[i] <= cuts[j]
}

/// The aggregates of the parts into which `cuts` cuts `s`, each part
/// aggregated by itself, merged one after the other.
pub open spec fn parts_table(s: Seq<u8>, cuts: Seq<int>) -> Map<Seq<u8>, Tally>
    decreases cuts.len(),
{
    if cuts.len() < 2 {
        Map::empty()
    } else {
        merged(
            parts_table(s, cuts.drop_last()),
            table_of(s.subrange(cuts[cuts.len() - 2], cuts.last())),
        )
    }
}

/// However a buffer is cut into parts where lines begin, and into however
/// many: aggregating each part by itself and merging the results gives the
/// aggregate of the buffer taken in one pass.
pub proof fn lemma_partition_invariance(s: Seq<u8>, cuts: Seq<int>)
    requires
        is_partition(s, cuts),
    ensures
        parts_table(s, cuts) == table_of(s),
{
    lemma_parts_prefix(s, cuts, cuts.len() as int);
    assert(cuts.take(cuts.len() as int) =~= cuts);
    assert(s.take(s.len() as int) =~= s);
}

/// The first `n` cuts give the aggregate of the buffer up to the last of
/// them.
proof fn lemma_parts_prefix(s: Seq<u8>, cuts: Seq<int>, n: int)
    requires
        is_partition(s, cuts),
        1 <= n <= cuts.len(),
    ensures
        parts_table(s, cuts.take(n)) == table_of(s.take(cuts[n - 1])),
    decreases n,
{
    let head = cuts.take(n);
    if n == 1 {
        assert(s.take(0) =~= Seq::<u8>::empty());
    } else {
        lemma_parts_prefix(s, cuts, n - 1);
        assert(head.drop_last() =~= cuts.take(n - 1));
        let a = cuts[n - 2];
        let b = cuts[n - 1];
        assert(is_boundary(s, a));
        assert(is_boundary(s, b));
        let x = s.take(a);
        let y = s.subrange(a, b);
        assert(s.take(b) =~= x + y);
        if a == b {
            assert(y =~= Seq::<u8>::empty());
            lemma_merged_empty(table_of(x));
            assert(x =~= s.take(b));
        } else {
            assert(is_terminated(x)) by {
                if a > 0 {
                    assert(x.last() == s[a - 1]);
                }
            }
            lemma_table_of_concat(x, y);
        }
    }
}

/// Taking in a line that is blank or a record keeps every tally well formed.
proof fn lemma_observe_line_wf(m: Map<Seq<u8>, Tally>, line: Seq<u8>, n: int)
    requires
        model_wf(m),
        0 <= n,
        counts_within(m, n),
        line.len() == 0 || is_record(line),
    ensures
        model_wf(observe_line(m, line)),
        counts_within(observe_line(m, line), n + 1),
{
    if line.len() > 0 {
        let k = key_of(line);
        let v = value_of(line);
        lemma_decimal_in_range(value_text(line));
        let r = observe_line(m, line);
        if m.contains_key(k) {
            lemma_wf_preserved(m[k], m[k], v);
        } else {
            lemma_small_wf(v);
        }
        assert forall|q: Seq<u8>| #[trigger] r.contains_key(q) implies r[q].wf() && r[q].count > 0
            && r[q].count <= n + 1 by {
            if q != k {
                assert(m.contains_key(q));
            }
        }
    }
}

/// Taking in lines that are blank or records keeps every tally well formed,
/// and no tally sees more values than there are lines.
pub proof fn lemma_observe_lines_wf(m: Map<Seq<u8>, Tally>, lines: Seq<Seq<u8>>, n: int)
    requires
        model_wf(m),
        0 <= n,
        counts_within(m, n),
        lines_ok(lines),
    ensures
        model_wf(observe_lines(m, lines)),
        counts_within(observe_lines(m, lines), n + lines.len()),
    decreases lines.len(),
{
    if lines.len() > 0 {
        let rest = lines.skip(1);
        lemma_observe_line_wf(m, lines[0], n);
        assert forall|i: int| 0 <= i < rest.len() implies (#[trigger] rest[i]).len() == 0
            || is_record(rest[i]) by {
            assert(rest[i] == lines[i + 1]);
        }
        lemma_observe_lines_wf(observe_line(m, lines[0]), rest, n + 1);
    }
}

/// A buffer has no more lines than bytes.
pub proof fn lemma_lines_count(s: Seq<u8>)
    ensures
        lines_of(s).len() <= s.len(),
    decreases s.len(),
{
    if s.len() > 0 {
        lemma_run_len(s, NEWLINE);
        lemma_lines_count(s.skip(rest_start(s) as int));
    }
}

} // verus!
