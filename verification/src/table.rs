//! The table of one worker: each key once, with its statistics.
//!
//! The entries are kept in the order of their keys, so that a key is found
//! by halving and the table reads out in order. A key is held as a handle
//! into the worker's arena.

use vstd::prelude::*;
use crate::arena::{
    extends,
    holds,
    key_at,
    lemma_extends_append,
    lemma_extends_transitive,
    lemma_key_kept,
    Arena,
    KeyHandle,
};
use crate::key_order::{
    compare_keys,
    key_lt,
    lemma_key_lt_irreflexive,
    lemma_key_lt_total,
    lemma_key_lt_transitive,
    KeyOrder,
};
use crate::model::{absorbed, counts_within, lemma_merged_empty, merged, model_wf, observed};
use crate::report::{is_report_of, lemma_report_is, report_of, row_of, views, Row};
use vstd::slice::slice_to_vec;
use crate::stats::{
    in_range,
    lemma_combine_empty,
    lemma_observe_is_combine,
    lemma_small_wf,
    lemma_wf_preserved,
    Stats,
    Tally,
};

verus! {

/// The tally of `k` in `m`; that of no values where `m` does not hold `k`.
pub open spec fn tally_at(m: Map<Seq<u8>, Tally>, k: Seq<u8>) -> Tally {
    if m.contains_key(k) {
        m[k]
    } else {
        Tally::empty()
    }
}

/// Some pair of `pairs` has the key `k`.
pub open spec fn has_key(pairs: Seq<(Seq<u8>, Tally)>, k: Seq<u8>) -> bool {
    exists|i: int| 0 <= i < pairs.len() && (#[trigger] pairs[i]).0 == k
}

/// The keys of `pairs` stand in order, each before the next.
pub open spec fn is_sorted(pairs: Seq<(Seq<u8>, Tally)>) -> bool {
    forall|i: int, j: int|
        #![trigger pairs[i], pairs[j]]
        0 <= i < j < pairs.len() ==> key_lt(pairs[i].0, pairs[j].0)
}

/// The map that holds each key of `pairs` with its tally.
pub open spec fn pairs_map(pairs: Seq<(Seq<u8>, Tally)>) -> Map<Seq<u8>, Tally>
    decreases pairs.len(),
{
    if pairs.len() == 0 {
        Map::empty()
    } else {
        pairs_map(pairs.drop_last()).insert(pairs.last().0, pairs.last().1)
    }
}

/// The first `n` pairs of pairs in order are in order, and none of them has
/// the key of the pair that follows them.
pub proof fn lemma_sorted_prefix(pairs: Seq<(Seq<u8>, Tally)>, n: int)
    requires
        is_sorted(pairs),
        0 <= n <= pairs.len(),
    ensures
        is_sorted(pairs.take(n)),
        pairs.take(n) == pairs.subrange(0, n),
        n < pairs.len() ==> !pairs_map(pairs.take(n)).contains_key(pairs[n].0),
        n == pairs.len() - 1 ==> pairs.take(n) == pairs.drop_last(),
    decreases pairs.len(), 0int,
{
    let front = pairs.take(n);
    assert forall|i: int, j: int|
        #![trigger front[i], front[j]]
        0 <= i < j < front.len() implies key_lt(front[i].0, front[j].0) by {
        assert(front[i] == pairs[i] && front[j] == pairs[j]);
    }
    if n == pairs.len() - 1 {
        assert(front =~= pairs.drop_last());
    }
    if n < pairs.len() {
        lemma_pairs_map(front);
        if has_key(front, pairs[n].0) {
            let i = choose|i: int| 0 <= i < front.len() && (#[trigger] front[i]).0 == pairs[n].0;
            assert(front[i] == pairs[i]);
            assert(key_lt(pairs[i].0, pairs[n].0));
            lemma_key_lt_irreflexive(pairs[n].0);
        }
    }
}

/// The keys of `pairs` that `m` does not hold, in the order of the pairs.
pub open spec fn new_entries(m: Map<Seq<u8>, Tally>, pairs: Seq<(Seq<u8>, Tally)>) -> Seq<u8>
    decreases pairs.len(),
{
    if pairs.len() == 0 {
        Seq::empty()
    } else if !m.contains_key(pairs[0].0) {
        pairs[0].0 + new_entries(m, pairs.skip(1))
    } else {
        new_entries(m, pairs.skip(1))
    }
}

/// Pairs in order are fixed by their map: two runs of pairs in order that
/// give the same map are the same.
pub proof fn lemma_pairs_unique(p: Seq<(Seq<u8>, Tally)>, q: Seq<(Seq<u8>, Tally)>)
    requires
        is_sorted(p),
        is_sorted(q),
        pairs_map(p) == pairs_map(q),
    ensures
        p == q,
    decreases p.len(),
{
    lemma_pairs_map(p);
    lemma_pairs_map(q);
    if p.len() == 0 {
        if q.len() > 0 {
            assert(pairs_map(q).contains_key(q[0].0));
        }
        assert(p =~= q);
    } else {
        let lp = p.last();
        assert(pairs_map(p).contains_key(p[p.len() - 1].0));
        assert(has_key(q, lp.0));
        let j = choose|j: int| 0 <= j < q.len() && (#[trigger] q[j]).0 == lp.0;
        let lq = q.last();
        assert(pairs_map(q).contains_key(q[q.len() - 1].0));
        assert(has_key(p, lq.0));
        let i = choose|i: int| 0 <= i < p.len() && (#[trigger] p[i]).0 == lq.0;
        lemma_key_lt_total(lp.0, lq.0);
        if i < p.len() - 1 {
            assert(key_lt(p[i].0, p[p.len() - 1].0));
        }
        if j < q.len() - 1 {
            assert(key_lt(q[j].0, q[q.len() - 1].0));
        }
        assert(lp.0 == lq.0);
        assert(lp == lq);
        lemma_sorted_prefix(p, p.len() - 1);
        lemma_sorted_prefix(q, q.len() - 1);
        assert(pairs_map(p.drop_last()) =~= pairs_map(p).remove(lp.0));
        assert(pairs_map(q.drop_last()) =~= pairs_map(q).remove(lq.0));
        lemma_pairs_unique(p.drop_last(), q.drop_last());
        assert(p =~= p.drop_last().push(lp));
        assert(q =~= q.drop_last().push(lq));
    }
}

/// The map of pairs in order holds the keys of the pairs and no others, each
/// with the tally of its pair.
pub proof fn lemma_pairs_map(pairs: Seq<(Seq<u8>, Tally)>)
    requires
        is_sorted(pairs),
    ensures
        forall|k: Seq<u8>|
            #![trigger pairs_map(pairs).contains_key(k)]
            #![trigger has_key(pairs, k)]
            pairs_map(pairs).contains_key(k) <==> has_key(pairs, k),
        forall|i: int|
            0 <= i < pairs.len() ==> pairs_map(pairs).contains_key((#[trigger] pairs[i]).0)
                && pairs_map(pairs)[pairs[i].0] == pairs[i].1,
    decreases pairs.len(), 1int,
{
    if pairs.len() > 0 {
        let front = pairs.drop_last();
        let last = pairs.last();
        lemma_sorted_prefix(pairs, pairs.len() - 1);
        lemma_pairs_map(front);
        assert forall|k: Seq<u8>|
            #![trigger pairs_map(pairs).contains_key(k)]
            #![trigger has_key(pairs, k)]
            pairs_map(pairs).contains_key(k) <==> has_key(pairs, k) by {
            if has_key(pairs, k) {
                let i = choose|i: int| 0 <= i < pairs.len() && (#[trigger] pairs[i]).0 == k;
                if i < front.len() {
                    assert(front[i].0 == k);
                    assert(has_key(front, k));
                }
            }
            if pairs_map(pairs).contains_key(k) && k != last.0 {
                assert(has_key(front, k));
                let i = choose|i: int| 0 <= i < front.len() && (#[trigger] front[i]).0 == k;
                assert(pairs[i].0 == k);
            }
            if k == last.0 {
                assert(pairs[pairs.len() - 1].0 == k);
            }
        }
        assert forall|i: int| 0 <= i < pairs.len() implies pairs_map(pairs).contains_key(
            (#[trigger] pairs[i]).0,
        ) && pairs_map(pairs)[pairs[i].0] == pairs[i].1 by {
            if i < front.len() {
                assert(front[i] == pairs[i]);
                assert(key_lt(pairs[i].0, pairs[pairs.len() - 1].0));
                lemma_key_lt_irreflexive(last.0);
            }
        }
    }
}

/// The map of pairs in order has as many keys as there are pairs.
proof fn lemma_pairs_count(pairs: Seq<(Seq<u8>, Tally)>)
    requires
        is_sorted(pairs),
    ensures
        pairs_map(pairs).dom().finite(),
        pairs_map(pairs).dom().len() == pairs.len(),
    decreases pairs.len(),
{
    if pairs.len() > 0 {
        let front = pairs.drop_last();
        let last = pairs.last();
        lemma_sorted_prefix(pairs, pairs.len() - 1);
        lemma_pairs_count(front);
        assert(pairs_map(pairs).dom() =~= pairs_map(front).dom().insert(last.0));
    }
}

/// A new tally for the key of one pair: the order stays, and the map changes
/// at that key only.
proof fn lemma_pairs_update(pairs: Seq<(Seq<u8>, Tally)>, i: int, t: Tally)
    requires
        is_sorted(pairs),
        0 <= i < pairs.len(),
    ensures
        is_sorted(pairs.update(i, (pairs[i].0, t))),
        pairs_map(pairs.update(i, (pairs[i].0, t))) == pairs_map(pairs).insert(pairs[i].0, t),
{
    let k = pairs[i].0;
    let next = pairs.update(i, (k, t));
    assert(is_sorted(next)) by {
        assert forall|a: int, b: int|
            #![trigger next[a], next[b]]
            0 <= a < b < next.len() implies key_lt(next[a].0, next[b].0) by {
            assert(next[a].0 == pairs[a].0 && next[b].0 == pairs[b].0);
        }
    }
    lemma_pairs_map(pairs);
    lemma_pairs_map(next);
    let want = pairs_map(pairs).insert(k, t);
    assert forall|q: Seq<u8>| pairs_map(next).contains_key(q) == want.contains_key(q) by {
        if has_key(next, q) {
            let j = choose|j: int| 0 <= j < next.len() && (#[trigger] next[j]).0 == q;
            assert(pairs[j].0 == q);
        }
        if has_key(pairs, q) {
            let j = choose|j: int| 0 <= j < pairs.len() && (#[trigger] pairs[j]).0 == q;
            assert(next[j].0 == q);
        }
        assert(next[i].0 == k);
    }
    assert forall|q: Seq<u8>| pairs_map(next).contains_key(q) implies pairs_map(next)[q]
        == want[q] by {
        let j = choose|j: int| 0 <= j < next.len() && (#[trigger] next[j]).0 == q;
        assert(pairs[j].0 == q);
        if j != i {
            assert(next[j] == pairs[j]);
            if j < i {
                assert(key_lt(pairs[j].0, pairs[i].0));
            } else {
                assert(key_lt(pairs[i].0, pairs[j].0));
            }
            lemma_key_lt_irreflexive(k);
        }
    }
    assert(pairs_map(next) =~= want);
}

/// A pair put in where its key belongs: the order stays, and the map gains
/// that key.
proof fn lemma_pairs_insert(pairs: Seq<(Seq<u8>, Tally)>, p: int, k: Seq<u8>, t: Tally)
    requires
        is_sorted(pairs),
        0 <= p <= pairs.len(),
        forall|i: int| 0 <= i < p ==> key_lt((#[trigger] pairs[i]).0, k),
        forall|i: int| p <= i < pairs.len() ==> key_lt(k, (#[trigger] pairs[i]).0),
    ensures
        is_sorted(pairs.insert(p, (k, t))),
        !has_key(pairs, k),
        pairs_map(pairs.insert(p, (k, t))) == pairs_map(pairs).insert(k, t),
{
    let next = pairs.insert(p, (k, t));
    lemma_key_lt_irreflexive(k);
    assert(is_sorted(next)) by {
        assert forall|a: int, b: int|
            #![trigger next[a], next[b]]
            0 <= a < b < next.len() implies key_lt(next[a].0, next[b].0) by {
            if a < p {
                assert(next[a] == pairs[a]);
            } else if a > p {
                assert(next[a] == pairs[a - 1]);
            }
            if b < p {
                assert(next[b] == pairs[b]);
            } else if b > p {
                assert(next[b] == pairs[b - 1]);
            }
            if a < p && b > p {
                lemma_key_lt_transitive(pairs[a].0, k, pairs[b - 1].0);
            }
        }
    }
    assert(!has_key(pairs, k)) by {
        if has_key(pairs, k) {
            let j = choose|j: int| 0 <= j < pairs.len() && (#[trigger] pairs[j]).0 == k;
            assert(key_lt(pairs[j].0, k) || key_lt(k, pairs[j].0));
        }
    }
    lemma_pairs_map(pairs);
    lemma_pairs_map(next);
    let want = pairs_map(pairs).insert(k, t);
    assert forall|q: Seq<u8>| pairs_map(next).contains_key(q) == want.contains_key(q) by {
        if has_key(next, q) {
            let j = choose|j: int| 0 <= j < next.len() && (#[trigger] next[j]).0 == q;
            if j < p {
                assert(pairs[j].0 == q);
            } else if j > p {
                assert(pairs[j - 1].0 == q);
            }
        }
        if has_key(pairs, q) {
            let j = choose|j: int| 0 <= j < pairs.len() && (#[trigger] pairs[j]).0 == q;
            if j < p {
                assert(next[j].0 == q);
            } else {
                assert(next[j + 1].0 == q);
            }
        }
        assert(next[p].0 == k);
    }
    assert forall|q: Seq<u8>| pairs_map(next).contains_key(q) implies pairs_map(next)[q]
        == want[q] by {
        let j = choose|j: int| 0 <= j < next.len() && (#[trigger] next[j]).0 == q;
        if j < p {
            assert(next[j] == pairs[j]);
        } else if j > p {
            assert(next[j] == pairs[j - 1]);
        }
    }
    assert(pairs_map(next) =~= want);
}

/// One key of a table with its statistics.
#[derive(Clone, Copy, Debug)]
struct Entry {
    key: KeyHandle,
    stats: Stats,
}

/// The keys that one worker has seen, each with its statistics.
pub struct Table {
    entries: Vec<Entry>,
}

impl Table {
    /// The entries as pairs of key and tally, the keys read from `store`.
    pub closed spec fn pairs(&self, store: Seq<u8>) -> Seq<(Seq<u8>, Tally)> {
        Seq::new(
            self.entries@.len(),
            |i: int| (key_at(store, self.entries@[i].key), self.entries@[i].stats@),
        )
    }

    /// Every key lies within `store`, the keys stand in order, and every
    /// tally is well formed.
    spec fn ordered(&self, store: Seq<u8>) -> bool {
        &&& forall|i: int|
            0 <= i < self.entries@.len() ==> holds(store, (#[trigger] self.entries@[i]).key)
                && self.entries@[i].stats@.wf()
        &&& is_sorted(self.pairs(store))
    }

    /// Every key lies within `store`, the keys stand in order, each before
    /// the next, and every key has been seen with a value and holds
    /// well-formed statistics.
    pub closed spec fn wf(&self, store: Seq<u8>) -> bool {
        &&& self.ordered(store)
        &&& forall|i: int|
            0 <= i < self.entries@.len() ==> (#[trigger] self.entries@[i]).stats@.count > 0
    }

    /// The entry at `i` has been seen with a value.
    spec fn seen_at(&self, i: int) -> bool {
        self.entries@[i].stats@.count > 0
    }

    /// What the table stands for, its keys read from `store`.
    pub closed spec fn model(&self, store: Seq<u8>) -> Map<Seq<u8>, Tally> {
        pairs_map(self.pairs(store))
    }

    /// A well-formed table stands for a well-formed map.
    pub proof fn lemma_model_wf(&self, store: Seq<u8>)
        requires
            self.wf(store),
        ensures
            model_wf(self.model(store)),
    {
        let pairs = self.pairs(store);
        lemma_pairs_map(pairs);
        let m = self.model(store);
        assert forall|k: Seq<u8>| #[trigger] m.contains_key(k) implies m[k].wf() && m[k].count
            > 0 by {
            assert(has_key(pairs, k));
            let i = choose|i: int| 0 <= i < pairs.len() && (#[trigger] pairs[i]).0 == k;
            assert(pairs[i].1 == self.entries@[i].stats@);
        }
    }

    /// A table holds each key of its map once.
    pub proof fn lemma_key_count(&self, store: Seq<u8>)
        requires
            self.wf(store),
        ensures
            self.model(store).dom().finite(),
            self.model(store).dom().len() == self.key_count(),
    {
        lemma_pairs_count(self.pairs(store));
    }

    /// A table that is well formed over a store is well formed over every
    /// store that begins with that one, and stands for the same map there.
    pub proof fn lemma_store_grows(&self, longer: Seq<u8>, shorter: Seq<u8>)
        requires
            self.wf(shorter),
            extends(longer, shorter),
        ensures
            self.wf(longer),
            self.model(longer) == self.model(shorter),
    {
        self.lemma_pairs_kept(longer, shorter);
    }

    /// The pairs of a table in order are the same over every store that
    /// begins with the one it is in order over.
    proof fn lemma_pairs_kept(&self, longer: Seq<u8>, shorter: Seq<u8>)
        requires
            self.ordered(shorter),
            extends(longer, shorter),
        ensures
            self.ordered(longer),
            self.pairs(longer) == self.pairs(shorter),
    {
        assert forall|i: int| 0 <= i < self.entries@.len() implies holds(
            longer,
            (#[trigger] self.entries@[i]).key,
        ) && key_at(longer, self.entries@[i].key) == key_at(shorter, self.entries@[i].key) by {
            lemma_key_kept(longer, shorter, self.entries@[i].key);
        }
        assert(self.pairs(longer) =~= self.pairs(shorter));
    }

    /// A table in order in which every entry but the one at `pos` has been
    /// seen with a value: once that entry holds statistics that have been,
    /// the table is well formed, and its map has changed at the key of that
    /// entry only.
    proof fn lemma_entry_changed(&self, after: Table, store: Seq<u8>, pos: int, next: Tally)
        requires
            self.ordered(store),
            0 <= pos < self.entries@.len(),
            forall|i: int| 0 <= i < self.entries@.len() && i != pos ==> self.seen_at(i),
            after.entries@.len() == self.entries@.len(),
            forall|i: int|
                0 <= i < self.entries@.len() && i != pos ==> after.entries@[i] == self.entries@[i],
            after.entries@[pos].key == self.entries@[pos].key,
            after.entries@[pos].stats@ == next,
            next.wf(),
            next.count > 0,
        ensures
            after.wf(store),
            after.model(store) == pairs_map(self.pairs(store)).insert(
                self.pairs(store)[pos].0,
                next,
            ),
    {
        let pairs = self.pairs(store);
        assert(after.pairs(store) =~= pairs.update(pos, (pairs[pos].0, next)));
        lemma_pairs_update(pairs, pos, next);
        assert forall|i: int| 0 <= i < after.entries@.len() implies holds(
            store,
            (#[trigger] after.entries@[i]).key,
        ) && after.entries@[i].stats@.wf() && after.entries@[i].stats@.count > 0 by {
            if i != pos {
                assert(self.seen_at(i));
                assert(holds(store, self.entries@[i].key));
            } else {
                assert(holds(store, self.entries@[pos].key));
            }
        }
    }

    /// A table without keys: well formed over every store, and the empty
    /// map.
    pub fn new() -> (t: Table)
        ensures
            forall|store: Seq<u8>| #[trigger] t.wf(store),
            forall|store: Seq<u8>| #[trigger] t.model(store) == Map::<Seq<u8>, Tally>::empty(),
            t.key_count() == 0,
    {
        let t = Table { entries: Vec::new() };
        proof {
            assert forall|store: Seq<u8>| #[trigger] t.wf(store) by {
                assert(t.pairs(store) =~= Seq::empty());
            }
            assert forall|store: Seq<u8>| #[trigger]
                t.model(store) == Map::<Seq<u8>, Tally>::empty() by {
                assert(t.pairs(store) =~= Seq::empty());
            }
        }
        t
    }

    /// The greatest number of values that any key of the table has been seen
    /// with; 0 for a table without keys.
    pub fn peak(&self, arena: &Arena) -> (r: u64)
        requires
            self.wf(arena@),
        ensures
            counts_within(self.model(arena@), r as int),
            r == 0 || exists|k: Seq<u8>| #[trigger]
                self.model(arena@).contains_key(k) && self.model(arena@)[k].count == r,
    {
        let ghost pairs = self.pairs(arena@);
        let ghost m = self.model(arena@);
        proof {
            lemma_pairs_map(pairs);
        }
        let mut best: u64 = 0;
        let mut i: usize = 0;
        while i < self.entries.len()
            invariant
                i <= self.entries@.len(),
                pairs == self.pairs(arena@),
                m == self.model(arena@),
                forall|j: int| 0 <= j < i ==> (#[trigger] pairs[j]).1.count <= best,
                best == 0 || exists|k: Seq<u8>| #[trigger] m.contains_key(k) && m[k].count == best,
                forall|j: int|
                    0 <= j < pairs.len() ==> m.contains_key((#[trigger] pairs[j]).0)
                        && m[pairs[j].0] == pairs[j].1,
            decreases self.entries@.len() - i,
        {
            let c: u64 = self.entries[i].stats.count();
            assert(pairs[i as int].1.count == c);
            if c > best {
                best = c;
                assert(m.contains_key(pairs[i as int].0) && m[pairs[i as int].0].count == best);
            }
            i += 1;
        }
        proof {
            assert forall|k: Seq<u8>| #[trigger] m.contains_key(k) implies m[k].count <= best by {
                assert(has_key(pairs, k));
                let j = choose|j: int| 0 <= j < pairs.len() && (#[trigger] pairs[j]).0 == k;
                assert(m[pairs[j].0] == pairs[j].1);
            }
        }
        best
    }

    /// How many keys the table holds.
    pub fn len(&self) -> (n: usize)
        ensures
            n == self.key_count(),
    {
        self.entries.len()
    }

    /// How many keys the table holds.
    pub closed spec fn key_count(&self) -> nat {
        self.entries@.len()
    }

    /// Where `key` stands among the entries, or would stand, and whether it
    /// is there.
    fn locate(&self, arena: &Arena, key: &[u8]) -> (r: (usize, bool))
        requires
            self.ordered(arena@),
        ensures
            r.0 <= self.entries@.len(),
            forall|i: int| 0 <= i < r.0 ==> key_lt((#[trigger] self.pairs(arena@)[i]).0, key@),
            r.1 ==> r.0 < self.entries@.len() && self.pairs(arena@)[r.0 as int].0 == key@,
            !r.1 ==> forall|i: int|
                r.0 <= i < self.entries@.len() ==> key_lt(
                    key@,
                    (#[trigger] self.pairs(arena@)[i]).0,
                ),
            r.1 == has_key(self.pairs(arena@), key@),
    {
        let ghost pairs = self.pairs(arena@);
        let mut lo: usize = 0;
        let mut hi: usize = self.entries.len();
        while lo < hi
            invariant
                lo <= hi <= self.entries@.len(),
                self.ordered(arena@),
                pairs == self.pairs(arena@),
                forall|i: int| 0 <= i < lo ==> key_lt((#[trigger] pairs[i]).0, key@),
                forall|i: int| hi <= i < pairs.len() ==> !key_lt((#[trigger] pairs[i]).0, key@),
            decreases hi - lo,
        {
            let mid: usize = lo + (hi - lo) / 2;
            let here: &[u8] = arena.get(self.entries[mid].key);
            assert(here@ == pairs[mid as int].0);
            match compare_keys(here, key) {
                KeyOrder::Before => {
                    proof {
                        assert forall|i: int| 0 <= i < mid + 1 implies key_lt(
                            (#[trigger] pairs[i]).0,
                            key@,
                        ) by {
                            if i < mid {
                                assert(key_lt(pairs[i].0, pairs[mid as int].0));
                                lemma_key_lt_transitive(pairs[i].0, pairs[mid as int].0, key@);
                            }
                        }
                    }
                    lo = mid + 1;
                },
                _ => {
                    proof {
                        assert forall|i: int| mid <= i < pairs.len() implies !key_lt(
                            (#[trigger] pairs[i]).0,
                            key@,
                        ) by {
                            if i > mid && key_lt(pairs[i].0, key@) {
                                assert(key_lt(pairs[mid as int].0, pairs[i].0));
                                lemma_key_lt_transitive(pairs[mid as int].0, pairs[i].0, key@);
                            }
                        }
                    }
                    hi = mid;
                },
            }
        }
        let found: bool = if lo < self.entries.len() {
            let here: &[u8] = arena.get(self.entries[lo].key);
            assert(here@ == pairs[lo as int].0);
            match compare_keys(here, key) {
                KeyOrder::Same => true,
                _ => false,
            }
        } else {
            false
        };
        proof {
            if !found {
                assert forall|i: int| lo <= i < pairs.len() implies key_lt(
                    key@,
                    (#[trigger] pairs[i]).0,
                ) by {
                    lemma_key_lt_total(pairs[i].0, key@);
                    lemma_key_lt_total(pairs[lo as int].0, key@);
                    if i > lo {
                        assert(key_lt(pairs[lo as int].0, pairs[i].0));
                        lemma_key_lt_transitive(key@, pairs[lo as int].0, pairs[i].0);
                    }
                }
                if has_key(pairs, key@) {
                    let j = choose|j: int| 0 <= j < pairs.len() && (#[trigger] pairs[j]).0 == key@;
                    lemma_key_lt_irreflexive(key@);
                    assert(key_lt(pairs[j].0, key@) || key_lt(key@, pairs[j].0));
                }
            } else {
                assert(pairs[lo as int].0 == key@);
            }
        }
        (lo, found)
    }

    /// The statistics of `key`, if the table holds it.
    pub fn get(&self, arena: &Arena, key: &[u8]) -> (r: Option<Stats>)
        requires
            self.wf(arena@),
        ensures
            match r {
                Some(s) => self.model(arena@).contains_key(key@) && self.model(arena@)[key@] == s@,
                None => !self.model(arena@).contains_key(key@),
            },
    {
        proof {
            lemma_pairs_map(self.pairs(arena@));
        }
        let (pos, found) = self.locate(arena, key);
        if found {
            assert(self.pairs(arena@)[pos as int].1 == self.entries@[pos as int].stats@);
            Some(self.entries[pos].stats)
        } else {
            None
        }
    }

    /// The table read out: one row for each key, the keys in order.
    pub fn summary(&self, arena: &Arena) -> (rows: Vec<Row>)
        requires
            self.wf(arena@),
        ensures
            is_report_of(views(rows@), self.model(arena@)),
            views(rows@) == report_of(self.model(arena@)),
    {
        let ghost pairs = self.pairs(arena@);
        proof {
            lemma_pairs_map(pairs);
        }
        let mut rows: Vec<Row> = Vec::with_capacity(self.entries.len());
        let mut i: usize = 0;
        while i < self.entries.len()
            invariant
                i <= self.entries@.len(),
                self.wf(arena@),
                pairs == self.pairs(arena@),
                rows@.len() == i,
                forall|j: int| 0 <= j < i ==> (#[trigger] rows@[j])@ == row_of(pairs[j].0, pairs[j].1),
            decreases self.entries@.len() - i,
        {
            let e: Entry = self.entries[i];
            let key: Vec<u8> = slice_to_vec(arena.get(e.key));
            let row = Row { key, min: e.stats.min(), mean: e.stats.mean(), max: e.stats.max() };
            assert(row@ == row_of(pairs[i as int].0, pairs[i as int].1));
            rows.push(row);
            i += 1;
        }
        proof {
            let out = views(rows@);
            let m = self.model(arena@);
            assert forall|a: int, b: int|
                #![trigger out[a], out[b]]
                0 <= a < b < out.len() implies key_lt(out[a].key, out[b].key) by {
                assert(rows@[a]@.key == pairs[a].0 && rows@[b]@.key == pairs[b].0);
                assert(key_lt(pairs[a].0, pairs[b].0));
            }
            assert forall|a: int| 0 <= a < out.len() implies m.contains_key((#[trigger] out[a]).key)
                && out[a] == row_of(out[a].key, m[out[a].key]) by {
                assert(rows@[a]@ == row_of(pairs[a].0, pairs[a].1));
                assert(m[pairs[a].0] == pairs[a].1);
            }
            assert forall|k: Seq<u8>| #[trigger] m.contains_key(k) implies exists|a: int|
                0 <= a < out.len() && (#[trigger] out[a]).key == k by {
                assert(has_key(pairs, k));
                let a = choose|a: int| 0 <= a < pairs.len() && (#[trigger] pairs[a]).0 == k;
                assert(rows@[a]@.key == k);
                assert(out[a].key == k);
            }
            lemma_report_is(out, m);
        }
        rows
    }

    /// Finds the entry of `key`, making one that has seen nothing where the
    /// table has none. The key is stored in the arena first and taken back
    /// where the table holds it already.
    fn slot(&mut self, arena: &mut Arena, key: &[u8]) -> (pos: usize)
        requires
            old(self).wf(old(arena)@),
        ensures
            final(self).ordered(final(arena)@),
            pos < final(self).entries@.len(),
            final(self).pairs(final(arena)@)[pos as int] == (
                key@,
                tally_at(old(self).model(old(arena)@), key@),
            ),
            forall|i: int|
                0 <= i < final(self).entries@.len() && i != pos ==> final(self).seen_at(i),
            pairs_map(final(self).pairs(final(arena)@)) == old(self).model(old(arena)@).insert(
                key@,
                tally_at(old(self).model(old(arena)@), key@),
            ),
            final(arena)@ == if old(self).model(old(arena)@).contains_key(key@) {
                old(arena)@
            } else {
                old(arena)@ + key@
            },
    {
        let ghost store0 = arena@;
        let ghost pairs0 = self.pairs(store0);
        let ghost before = self.model(store0);
        proof {
            lemma_pairs_map(pairs0);
        }
        let h: KeyHandle = arena.intern(key);
        proof {
            self.lemma_pairs_kept(arena@, store0);
        }
        let (pos, found) = self.locate(arena, arena.get(h));
        if found {
            arena.retract(h);
            proof {
                assert(arena@ =~= store0);
                assert(pairs0[pos as int].1 == self.entries@[pos as int].stats@);
                assert(before.insert(key@, before[key@]) =~= before);
            }
        } else {
            let ghost store1 = arena@;
            self.entries.insert(pos, Entry { key: h, stats: Stats::default() });
            proof {
                let next = self.pairs(store1);
                assert(next =~= pairs0.insert(pos as int, (key@, Tally::empty())));
                lemma_pairs_insert(pairs0, pos as int, key@, Tally::empty());
                assert forall|i: int| 0 <= i < self.entries@.len() implies holds(
                    store1,
                    (#[trigger] self.entries@[i]).key,
                ) && self.entries@[i].stats@.wf() by {
                    if i < pos {
                        assert(self.entries@[i] == old(self).entries@[i]);
                    } else if i > pos {
                        assert(self.entries@[i] == old(self).entries@[i - 1]);
                    }
                }
                assert forall|i: int| 0 <= i < self.entries@.len() && i != pos implies self.seen_at(
                    i,
                ) by {
                    if i < pos {
                        assert(self.entries@[i] == old(self).entries@[i]);
                    } else {
                        assert(self.entries@[i] == old(self).entries@[i - 1]);
                    }
                }
            }
        }
        pos
    }

    /// Takes in one more value for `key`. A key that the table does not hold
    /// yet is stored in the arena and enters the table with that value; for a
    /// key that it holds, the statistics take the value in and the arena is
    /// left as it was.
    pub fn observe(&mut self, arena: &mut Arena, key: &[u8], value: i64)
        requires
            old(self).wf(old(arena)@),
            in_range(value as int),
            old(self).model(old(arena)@).contains_key(key@) ==> old(self).model(
                old(arena)@,
            )[key@].count < u64::MAX,
        ensures
            final(self).wf(final(arena)@),
            final(self).model(final(arena)@) == observed(
                old(self).model(old(arena)@),
                key@,
                value as int,
            ),
            final(arena)@ == if old(self).model(old(arena)@).contains_key(key@) {
                old(arena)@
            } else {
                old(arena)@ + key@
            },
    {
        let ghost before = self.model(arena@);
        let ghost seen = tally_at(before, key@);
        let ghost next = seen.observe(value as int);
        proof {
            self.lemma_model_wf(arena@);
            lemma_small_wf(value as int);
            lemma_wf_preserved(seen, seen, value as int);
            lemma_observe_is_combine(seen, value as int);
        }
        let pos: usize = self.slot(arena, key);
        let ghost slotted = *self;
        self.entries[pos].stats.update(value);
        proof {
            slotted.lemma_entry_changed(*self, arena@, pos as int, next);
            assert(self.model(arena@) =~= observed(before, key@, value as int));
        }
    }

    /// Takes in the statistics `stats` for `key`, as `observe` takes in one
    /// value.
    pub fn absorb(&mut self, arena: &mut Arena, key: &[u8], stats: &Stats)
        requires
            old(self).wf(old(arena)@),
            stats@.wf(),
            stats@.count > 0,
            old(self).model(old(arena)@).contains_key(key@) ==> old(self).model(
                old(arena)@,
            )[key@].count + stats@.count <= u64::MAX,
        ensures
            final(self).wf(final(arena)@),
            final(self).model(final(arena)@) == absorbed(
                old(self).model(old(arena)@),
                key@,
                stats@,
            ),
            final(arena)@ == if old(self).model(old(arena)@).contains_key(key@) {
                old(arena)@
            } else {
                old(arena)@ + key@
            },
    {
        let ghost before = self.model(arena@);
        let ghost seen = tally_at(before, key@);
        let ghost next = seen.combine(stats@);
        proof {
            self.lemma_model_wf(arena@);
            lemma_small_wf(0);
            lemma_wf_preserved(seen, stats@, 0);
            lemma_combine_empty(stats@);
        }
        let pos: usize = self.slot(arena, key);
        let ghost slotted = *self;
        self.entries[pos].stats.merge(stats);
        proof {
            slotted.lemma_entry_changed(*self, arena@, pos as int, next);
            assert(self.model(arena@) =~= absorbed(before, key@, stats@));
        }
    }

    /// Takes in everything that `other` holds: a key that this table lacks
    /// enters it with the statistics it has in `other`, its bytes copied into
    /// `arena`; for a key of both, the two statistics are merged.
    pub fn merge(&mut self, arena: &mut Arena, other: &Table, other_arena: &Arena)
        requires
            old(self).wf(old(arena)@),
            other.wf(other_arena@),
            forall|k: Seq<u8>|
                old(self).model(old(arena)@).contains_key(k) && #[trigger] other.model(
                    other_arena@,
                ).contains_key(k) ==> old(self).model(old(arena)@)[k].count + other.model(
                    other_arena@,
                )[k].count <= u64::MAX,
        ensures
            final(self).wf(final(arena)@),
            final(self).model(final(arena)@) == merged(
                old(self).model(old(arena)@),
                other.model(other_arena@),
            ),
            final(arena)@ == old(arena)@ + new_entries(
                old(self).model(old(arena)@),
                other.pairs(other_arena@),
            ),
            extends(final(arena)@, old(arena)@),
    {
        let ghost base = self.model(arena@);
        let ghost store0 = arena@;
        let ghost theirs = other.pairs(other_arena@);
        proof {
            lemma_pairs_map(theirs);
            assert(other.model(other_arena@) == pairs_map(theirs));
            assert(theirs.take(0) =~= Seq::empty());
            lemma_merged_empty(base);
            lemma_extends_append(store0, Seq::empty());
            assert(theirs.skip(0) =~= theirs);
        }
        let mut i: usize = 0;
        while i < other.entries.len()
            invariant
                i <= other.entries@.len(),
                self.wf(arena@),
                other.wf(other_arena@),
                theirs == other.pairs(other_arena@),
                self.model(arena@) == merged(base, pairs_map(theirs.take(i as int))),
                extends(arena@, store0),
                arena@ + new_entries(base, theirs.skip(i as int)) == store0 + new_entries(
                    base,
                    theirs,
                ),
                forall|k: Seq<u8>|
                    base.contains_key(k) && #[trigger] pairs_map(theirs).contains_key(k)
                        ==> base[k].count + pairs_map(theirs)[k].count <= u64::MAX,
                forall|k: Seq<u8>|
                    #![trigger pairs_map(theirs).contains_key(k)]
                    #![trigger has_key(theirs, k)]
                    pairs_map(theirs).contains_key(k) <==> has_key(theirs, k),
                forall|j: int|
                    0 <= j < theirs.len() ==> pairs_map(theirs).contains_key(
                        (#[trigger] theirs[j]).0,
                    ) && pairs_map(theirs)[theirs[j].0] == theirs[j].1,
            decreases other.entries@.len() - i,
        {
            let e: Entry = other.entries[i];
            let k: &[u8] = other_arena.get(e.key);
            let ghost done = theirs.take(i as int);
            let ghost store1 = arena@;
            proof {
                assert(theirs[i as int] == (k@, e.stats@));
                lemma_sorted_prefix(theirs, i as int);
                assert(pairs_map(theirs).contains_key(k@));
                assert(theirs.take(i + 1).drop_last() =~= done);
                assert(pairs_map(theirs.take(i + 1)) == pairs_map(done).insert(k@, e.stats@));
                let left = theirs.skip(i as int);
                let after = new_entries(base, theirs.skip(i + 1));
                assert(left[0] == theirs[i as int]);
                assert(left.skip(1) =~= theirs.skip(i + 1));
                if !base.contains_key(k@) {
                    assert(new_entries(base, left) == k@ + after);
                    assert((store1 + k@) + after =~= store1 + (k@ + after));
                } else {
                    assert(new_entries(base, left) == after);
                }
            }
            self.absorb(arena, k, &e.stats);
            proof {
                assert(self.model(arena@) =~= merged(base, pairs_map(theirs.take(i + 1))));
                lemma_extends_append(store1, k@);
                lemma_extends_transitive(arena@, store1, store0);
            }
            i += 1;
        }
        proof {
            assert(theirs.take(i as int) =~= theirs);
            assert(theirs.skip(i as int) =~= Seq::empty());
            assert(arena@ + Seq::<u8>::empty() =~= arena@);
        }
    }

    /// The pairs of a well-formed table are in order, give its map, and are
    /// as many as its keys; by `lemma_pairs_unique` the map fixes them.
    pub proof fn lemma_pairs(&self, store: Seq<u8>)
        requires
            self.wf(store),
        ensures
            is_sorted(self.pairs(store)),
            pairs_map(self.pairs(store)) == self.model(store),
            self.pairs(store).len() == self.key_count(),
    {
    }
}

} // verus!
