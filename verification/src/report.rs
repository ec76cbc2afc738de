//! The result as text: `{key=min/mean/max, key=min/mean/max}` and a newline,
//! the keys in order, each number with one digit behind the point.

use vstd::prelude::*;
use crate::key_order::{key_lt, lemma_key_lt_irreflexive, lemma_key_lt_total};
use crate::parse::{
    all_digits,
    decimal_tenths,
    digits_value,
    is_decimal,
    is_digit,
    magnitude_text,
    whole_text,
    MINUS,
    POINT,
    ZERO,
};
use crate::stats::{in_range, Stats, Tally};

verus! {

/// `=`, between a key and its numbers.
pub const EQUALS: u8 = 61;

/// `/`, between two numbers.
pub const SLASH: u8 = 47;

/// `,`, which with a space stands between two entries.
pub const COMMA: u8 = 44;

/// The space behind a comma.
pub const SPACE: u8 = 32;

/// `{`, which opens the text.
pub const OPEN: u8 = 123;

/// `}`, which closes it.
pub const CLOSE: u8 = 125;

/// One key with its least value, its mean and its greatest value, in tenths.
#[derive(Debug, PartialEq, Eq)]
pub struct Row {
    pub key: Vec<u8>,
    pub min: i64,
    pub mean: i64,
    pub max: i64,
}

/// What a `Row` stands for.
pub struct RowView {
    pub key: Seq<u8>,
    pub min: int,
    pub mean: int,
    pub max: int,
}

impl View for Row {
    type V = RowView;

    open spec fn view(&self) -> RowView {
        RowView { key: self.key@, min: self.min as int, mean: self.mean as int, max: self.max as int }
    }
}

/// What each of `rows` stands for.
pub open spec fn views(rows: Seq<Row>) -> Seq<RowView> {
    Seq::new(rows.len(), |i: int| rows[i]@)
}

/// The row of `key` with the tally `t`.
pub open spec fn row_of(key: Seq<u8>, t: Tally) -> RowView {
    RowView { key, min: t.min, mean: t.mean(), max: t.max }
}

/// `rows` reports `m`: one row for each key of `m` and no other, the keys in
/// order, each row with the least value, the mean and the greatest value of
/// its key.
pub open spec fn is_report_of(rows: Seq<RowView>, m: Map<Seq<u8>, Tally>) -> bool {
    &&& forall|i: int, j: int|
        #![trigger rows[i], rows[j]]
        0 <= i < j < rows.len() ==> key_lt(rows[i].key, rows[j].key)
    &&& forall|i: int|
        0 <= i < rows.len() ==> m.contains_key((#[trigger] rows[i]).key) && rows[i] == row_of(
            rows[i].key,
            m[rows[i].key],
        )
    &&& forall|k: Seq<u8>| #[trigger]
        m.contains_key(k) ==> exists|i: int| 0 <= i < rows.len() && (#[trigger] rows[i]).key == k
}

/// The report of `m`.
pub open spec fn report_of(m: Map<Seq<u8>, Tally>) -> Seq<RowView> {
    choose|rows: Seq<RowView>| is_report_of(rows, m)
}

/// Rows that report a map are the report of that map.
pub proof fn lemma_report_is(rows: Seq<RowView>, m: Map<Seq<u8>, Tally>)
    requires
        is_report_of(rows, m),
    ensures
        report_of(m) == rows,
{
    lemma_report_unique(report_of(m), rows, m);
}

/// A map has one report and no other: what is printed for a table depends on
/// nothing but the map that the table stands for.
pub proof fn lemma_report_unique(r1: Seq<RowView>, r2: Seq<RowView>, m: Map<Seq<u8>, Tally>)
    requires
        is_report_of(r1, m),
        is_report_of(r2, m),
    ensures
        r1 == r2,
    decreases r1.len(),
{
    if r1.len() == 0 {
        if r2.len() > 0 {
            assert(m.contains_key(r2[0].key));
        }
        assert(r1 =~= r2);
    } else {
        let last1 = r1.last();
        assert(m.contains_key(r1[r1.len() - 1].key));
        let j = choose|j: int| 0 <= j < r2.len() && (#[trigger] r2[j]).key == last1.key;
        let last2 = r2.last();
        assert(m.contains_key(r2[r2.len() - 1].key));
        let i = choose|i: int| 0 <= i < r1.len() && (#[trigger] r1[i]).key == last2.key;
        lemma_key_lt_total(last1.key, last2.key);
        if i < r1.len() - 1 {
            assert(key_lt(r1[i].key, r1[r1.len() - 1].key));
        }
        if j < r2.len() - 1 {
            assert(key_lt(r2[j].key, r2[r2.len() - 1].key));
        }
        assert(last1.key == last2.key);
        assert(last1 == last2);
        let rest = m.remove(last1.key);
        lemma_report_without_last(r1, m);
        lemma_report_without_last(r2, m);
        lemma_report_unique(r1.drop_last(), r2.drop_last(), rest);
        assert(r1 =~= r1.drop_last().push(last1));
        assert(r2 =~= r2.drop_last().push(last2));
    }
}

/// A report without its last row reports the map without the key of that
/// row.
proof fn lemma_report_without_last(r: Seq<RowView>, m: Map<Seq<u8>, Tally>)
    requires
        is_report_of(r, m),
        r.len() > 0,
    ensures
        is_report_of(r.drop_last(), m.remove(r.last().key)),
{
    let front = r.drop_last();
    let k = r.last().key;
    let rest = m.remove(k);
    lemma_key_lt_irreflexive(k);
    assert forall|i: int, j: int|
        #![trigger front[i], front[j]]
        0 <= i < j < front.len() implies key_lt(front[i].key, front[j].key) by {
        assert(front[i] == r[i] && front[j] == r[j]);
    }
    assert forall|i: int| 0 <= i < front.len() implies rest.contains_key(
        (#[trigger] front[i]).key,
    ) && front[i] == row_of(front[i].key, rest[front[i].key]) by {
        assert(front[i] == r[i]);
        assert(key_lt(r[i].key, r[r.len() - 1].key));
    }
    assert forall|q: Seq<u8>| #[trigger] rest.contains_key(q) implies exists|i: int|
        0 <= i < front.len() && (#[trigger] front[i]).key == q by {
        assert(m.contains_key(q));
        let i = choose|i: int| 0 <= i < r.len() && (#[trigger] r[i]).key == q;
        assert(front[i].key == q);
    }
}

/// The decimal digits of `n`, without leading zeros.
pub open spec fn digits_text(n: nat) -> Seq<u8>
    decreases n,
{
    if n < 10 {
        seq![(48 + n) as u8]
    } else {
        digits_text(n / 10).push((48 + n % 10) as u8)
    }
}

/// How far `t` lies from zero.
pub open spec fn magnitude(t: int) -> nat {
    if t < 0 {
        (-t) as nat
    } else {
        t as nat
    }
}

/// `t` tenths as text: a minus sign where `t` is below zero, the whole part,
/// a point, and one digit.
pub open spec fn tenths_text(t: int) -> Seq<u8> {
    let sign = if t < 0 {
        seq![MINUS]
    } else {
        Seq::<u8>::empty()
    };
    sign + digits_text(magnitude(t) / 10) + seq![POINT, (48 + magnitude(t) % 10) as u8]
}

/// The digits written for a number are digits, at least one, and write that
/// number.
pub proof fn lemma_digits_text(n: nat)
    ensures
        digits_text(n).len() > 0,
        all_digits(digits_text(n)),
        digits_value(digits_text(n)) == n,
    decreases n,
{
    let text = digits_text(n);
    if n < 10 {
        assert(text.drop_last() =~= Seq::<u8>::empty());
        assert(digits_value(text.drop_last()) == 0);
    } else {
        let front = digits_text(n / 10);
        lemma_digits_text(n / 10);
        assert(text.drop_last() =~= front);
        assert forall|i: int| 0 <= i < text.len() implies is_digit(#[trigger] text[i]) by {
            if i < front.len() {
                assert(text[i] == front[i]);
            }
        }
    }
}

/// What is written for a value in range that is not below zero is a decimal,
/// and reads back as that value.
pub proof fn lemma_text_reads_back(t: int)
    requires
        0 <= t,
        in_range(t),
    ensures
        is_decimal(tenths_text(t)),
        decimal_tenths(tenths_text(t)) == t,
{
    let text = tenths_text(t);
    let whole = digits_text((t / 10) as nat);
    lemma_digits_text((t / 10) as nat);
    assert(text =~= whole + seq![POINT, (48 + t % 10) as u8]);
    assert(whole_text(text) =~= whole);
    assert(is_digit(whole[0]));
    assert(magnitude_text(whole) == whole);
}

/// Three numbers with `/` between them: the least value, the mean and the
/// greatest value.
pub open spec fn triple_text(min: int, mean: int, max: int) -> Seq<u8> {
    tenths_text(min) + seq![SLASH] + tenths_text(mean) + seq![SLASH] + tenths_text(max)
}

/// One entry: the key, `=`, and the three numbers of the key.
pub open spec fn row_text(r: RowView) -> Seq<u8> {
    r.key + seq![EQUALS] + triple_text(r.min, r.mean, r.max)
}

/// The entries of `rows` with a comma and a space between each two.
pub open spec fn rows_text(rows: Seq<RowView>) -> Seq<u8>
    decreases rows.len(),
{
    if rows.len() == 0 {
        Seq::empty()
    } else if rows.len() == 1 {
        row_text(rows[0])
    } else {
        rows_text(rows.drop_last()) + seq![COMMA, SPACE] + row_text(rows.last())
    }
}

/// The whole text: the entries between braces, and a newline.
pub open spec fn report_text(rows: Seq<RowView>) -> Seq<u8> {
    seq![OPEN] + rows_text(rows) + seq![CLOSE, 10u8]
}

/// Writes the decimal digits of `n` behind `out`.
fn push_digits(out: &mut Vec<u8>, n: u64)
    ensures
        final(out)@ == old(out)@ + digits_text(n as nat),
    decreases n,
{
    if n >= 10 {
        push_digits(out, n / 10);
    }
    let d: u8 = (n % 10) as u8;
    out.push(ZERO + d);
    proof {
        assert(out@ =~= old(out)@ + digits_text(n as nat));
    }
}

/// Writes `t` tenths behind `out`.
pub fn push_tenths(out: &mut Vec<u8>, t: i64)
    ensures
        final(out)@ == old(out)@ + tenths_text(t as int),
{
    let m: u64 = if t < 0 {
        out.push(MINUS);
        (-(t + 1)) as u64 + 1
    } else {
        t as u64
    };
    push_digits(out, m / 10);
    out.push(POINT);
    let d: u8 = (m % 10) as u8;
    out.push(ZERO + d);
    proof {
        assert(m == magnitude(t as int));
        assert(out@ =~= old(out)@ + tenths_text(t as int));
    }
}

/// Writes three numbers behind `out`, with `/` between them.
pub fn push_triple(out: &mut Vec<u8>, min: i64, mean: i64, max: i64)
    ensures
        final(out)@ == old(out)@ + triple_text(min as int, mean as int, max as int),
{
    push_tenths(out, min);
    out.push(SLASH);
    push_tenths(out, mean);
    out.push(SLASH);
    push_tenths(out, max);
    proof {
        assert(out@ =~= old(out)@ + triple_text(min as int, mean as int, max as int));
    }
}

/// Writes one entry behind `out`.
pub fn push_row(out: &mut Vec<u8>, row: &Row)
    ensures
        final(out)@ == old(out)@ + row_text(row@),
{
    out.extend_from_slice(row.key.as_slice());
    proof {
        assert(out@ =~= old(out)@ + row.key@);
    }
    out.push(EQUALS);
    push_triple(out, row.min, row.mean, row.max);
    proof {
        assert(out@ =~= old(out)@ + row_text(row@));
    }
}

impl Stats {
    /// The statistics as text: the least value, the mean and the greatest
    /// value with `/` between them.
    pub fn to_text(&self) -> (out: Vec<u8>)
        requires
            self@.wf(),
            self@.count > 0,
        ensures
            out@ == triple_text(self@.min, self@.mean(), self@.max),
    {
        let mut out: Vec<u8> = Vec::new();
        push_triple(&mut out, self.min(), self.mean(), self.max());
        proof {
            assert(out@ =~= triple_text(self@.min, self@.mean(), self@.max));
        }
        out
    }
}

/// The text of `rows`: what is printed at the end of a run.
pub fn render(rows: &Vec<Row>) -> (out: Vec<u8>)
    ensures
        out@ == report_text(views(rows@)),
{
    let mut out: Vec<u8> = Vec::new();
    out.push(OPEN);
    let ghost all = views(rows@);
    let mut i: usize = 0;
    while i < rows.len()
        invariant
            i <= rows.len(),
            all == views(rows@),
            out@ == seq![OPEN] + rows_text(all.take(i as int)),
        decreases rows.len() - i,
    {
        if i > 0 {
            out.push(COMMA);
            out.push(SPACE);
        }
        push_row(&mut out, &rows[i]);
        proof {
            let done = all.take(i + 1);
            assert(done.drop_last() =~= all.take(i as int));
            assert(done.last() == rows@[i as int]@);
            if i == 0 {
                assert(all.take(0) =~= Seq::<RowView>::empty());
            }
            assert(out@ =~= seq![OPEN] + rows_text(done));
        }
        i += 1;
    }
    out.push(CLOSE);
    out.push(10u8);
    proof {
        assert(all.take(i as int) =~= all);
        assert(out@ =~= report_text(all));
    }
    out
}

} // verus!
