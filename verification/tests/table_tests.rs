use station_stats::arena::Arena;
use station_stats::report::Row;
use station_stats::stats::Stats;
use station_stats::table::Table;

fn row(key: &[u8], min: i64, mean: i64, max: i64) -> Row {
    Row { key: key.to_vec(), min, mean, max }
}

fn build(records: &[(&[u8], i64)]) -> (Arena, Table) {
    let mut arena = Arena::new();
    let mut table = Table::new();
    for (k, v) in records {
        table.observe(&mut arena, k, *v);
    }
    (arena, table)
}

#[test]
fn new_table_is_empty() {
    let arena = Arena::new();
    let table = Table::new();
    assert_eq!(table.len(), 0);
    assert_eq!(table.get(&arena, b"Oslo"), None);
    assert_eq!(table.summary(&arena), Vec::<Row>::new());
    assert_eq!(table.peak(&arena), 0);
}

#[test]
fn first_sighting_starts_a_record() {
    let (arena, table) = build(&[(b"Oslo", 50)]);
    assert_eq!(table.len(), 1);
    let s = table.get(&arena, b"Oslo").unwrap();
    assert_eq!((s.min(), s.max(), s.count(), s.sum()), (50, 50, 1, 50));
    assert_eq!(arena.len(), 4);
    assert_eq!(table.get(&arena, b"Osl"), None);
    assert_eq!(table.get(&arena, b"Oslo "), None);
}

#[test]
fn later_sightings_update_in_place() {
    let (arena, table) = build(&[(b"Oslo", 50), (b"Oslo", 100), (b"Oslo", 150)]);
    assert_eq!(table.len(), 1);
    let s = table.get(&arena, b"Oslo").unwrap();
    assert_eq!((s.min(), s.max(), s.count(), s.sum()), (50, 150, 3, 300));
    assert_eq!(arena.len(), 4);
}

#[test]
fn duplicate_keys_leave_the_arena_alone() {
    let mut arena = Arena::new();
    let mut table = Table::new();
    table.observe(&mut arena, b"Oslo", 1);
    table.observe(&mut arena, b"Bergen", 2);
    assert_eq!(arena.len(), 10);
    table.observe(&mut arena, b"Oslo", 3);
    assert_eq!(arena.len(), 10);
    table.observe(&mut arena, b"Bergen", 4);
    assert_eq!(arena.len(), 10);
    table.observe(&mut arena, b"Tromso", 5);
    assert_eq!(arena.len(), 16);
    assert_eq!(table.len(), 3);
    assert_eq!(table.get(&arena, b"Oslo").unwrap().sum(), 4);
    assert_eq!(table.get(&arena, b"Bergen").unwrap().sum(), 6);
    assert_eq!(table.get(&arena, b"Tromso").unwrap().sum(), 5);
}

#[test]
fn summary_is_in_key_order() {
    let (arena, table) = build(&[
        (b"b", 10),
        (b"a", 20),
        (b"ab", 30),
        (b"B", 40),
        (b"", 50),
        (b"a", -20),
        (b"Aa", 60),
    ]);
    assert_eq!(
        table.summary(&arena),
        vec![
            row(b"", 50, 50, 50),
            row(b"Aa", 60, 60, 60),
            row(b"B", 40, 40, 40),
            row(b"a", -20, 0, 20),
            row(b"ab", 30, 30, 30),
            row(b"b", 10, 10, 10),
        ]
    );
}

#[test]
fn summary_does_not_depend_on_arrival_order() {
    let (a1, t1) = build(&[(b"x", 1), (b"y", 2), (b"x", 3), (b"z", 4), (b"y", 5)]);
    let (a2, t2) = build(&[(b"y", 5), (b"z", 4), (b"x", 3), (b"y", 2), (b"x", 1)]);
    assert_eq!(t1.summary(&a1), t2.summary(&a2));
    assert_eq!(t1.summary(&a1), vec![row(b"x", 1, 2, 3), row(b"y", 2, 4, 5), row(b"z", 4, 4, 4)]);
}

#[test]
fn peak_is_the_greatest_count() {
    let (arena, table) = build(&[(b"x", 1), (b"y", 2), (b"x", 3), (b"x", 4), (b"y", 5)]);
    assert_eq!(table.peak(&arena), 3);
}

#[test]
fn absorb_enters_or_merges() {
    let mut arena = Arena::new();
    let mut table = Table::new();
    let mut s = Stats::of_value(10);
    s.update(30);
    table.absorb(&mut arena, b"Oslo", &s);
    assert_eq!(table.get(&arena, b"Oslo"), Some(s));
    assert_eq!(arena.len(), 4);
    table.absorb(&mut arena, b"Oslo", &Stats::of_value(-5));
    let got = table.get(&arena, b"Oslo").unwrap();
    assert_eq!((got.min(), got.max(), got.count(), got.sum()), (-5, 30, 3, 35));
    assert_eq!(arena.len(), 4);
}

#[test]
fn duplicate_key_across_workers() {
    let (a1, mut t1) = build(&[(b"Hamburg", 120)]);
    let (a2, t2) = build(&[(b"Hamburg", 253)]);
    let mut arena = a1;
    t1.merge(&mut arena, &t2, &a2);
    let s = t1.get(&arena, b"Hamburg").unwrap();
    assert_eq!(s.min(), 120);
    assert_eq!(s.max(), 253);
    assert_eq!(s.count(), 2);
    assert_eq!(s.sum(), 373);
    assert_eq!(s.mean(), 187);
    assert_eq!(t1.summary(&arena), vec![row(b"Hamburg", 120, 187, 253)]);
    assert_eq!(arena.len(), 7);
}

#[test]
fn merge_copies_missing_keys() {
    let (a1, mut t1) = build(&[(b"Oslo", 10), (b"Bergen", 20)]);
    let (a2, t2) = build(&[(b"Tromso", 30), (b"Oslo", 40), (b"Alta", 50)]);
    let mut arena = a1;
    t1.merge(&mut arena, &t2, &a2);
    assert_eq!(
        t1.summary(&arena),
        vec![
            row(b"Alta", 50, 50, 50),
            row(b"Bergen", 20, 20, 20),
            row(b"Oslo", 10, 25, 40),
            row(b"Tromso", 30, 30, 30),
        ]
    );
    assert_eq!(arena.len(), 10 + 4 + 6);
    assert_eq!(t2.summary(&a2).len(), 3);
}

#[test]
fn merge_with_an_empty_table() {
    let (a1, mut t1) = build(&[(b"Oslo", 10), (b"Bergen", 20)]);
    let before = t1.summary(&a1);
    let mut arena = a1;
    t1.merge(&mut arena, &Table::new(), &Arena::new());
    assert_eq!(t1.summary(&arena), before);
    let mut empty = Table::new();
    let mut fresh = Arena::new();
    empty.merge(&mut fresh, &t1, &arena);
    assert_eq!(empty.summary(&fresh), before);
}

#[test]
fn merge_in_either_grouping_matches_the_undivided_input() {
    let a: Vec<(&[u8], i64)> = vec![(b"x", 1), (b"y", -2), (b"x", 30)];
    let b: Vec<(&[u8], i64)> = vec![(b"y", 4), (b"z", 5)];
    let c: Vec<(&[u8], i64)> = vec![(b"x", -60), (b"z", 7), (b"w", 8)];
    let mut all = a.clone();
    all.extend(b.iter().cloned());
    all.extend(c.iter().cloned());
    let (whole_arena, whole) = build(&all);

    // (A merge B) merge C
    let (mut left_arena, mut left) = build(&a);
    let (b_arena, b_table) = build(&b);
    let (c_arena, c_table) = build(&c);
    left.merge(&mut left_arena, &b_table, &b_arena);
    left.merge(&mut left_arena, &c_table, &c_arena);

    // A merge (B merge C)
    let (mut bc_arena, mut bc) = build(&b);
    bc.merge(&mut bc_arena, &c_table, &c_arena);
    let (mut right_arena, mut right) = build(&a);
    right.merge(&mut right_arena, &bc, &bc_arena);

    // C merge (B merge A)
    let (mut ba_arena, mut ba) = build(&b);
    let (a_arena, a_table) = build(&a);
    ba.merge(&mut ba_arena, &a_table, &a_arena);
    let (mut rev_arena, mut rev) = build(&c);
    rev.merge(&mut rev_arena, &ba, &ba_arena);

    let want = whole.summary(&whole_arena);
    assert_eq!(left.summary(&left_arena), want);
    assert_eq!(right.summary(&right_arena), want);
    assert_eq!(rev.summary(&rev_arena), want);
    for key in [&b"w"[..], b"x", b"y", b"z"] {
        let s = whole.get(&whole_arena, key).unwrap();
        assert_eq!(left.get(&left_arena, key), Some(s));
        assert_eq!(right.get(&right_arena, key), Some(s));
        assert_eq!(rev.get(&rev_arena, key), Some(s));
    }
    let x = whole.get(&whole_arena, b"x").unwrap();
    assert_eq!((x.min(), x.max(), x.count(), x.sum()), (-60, 30, 3, -29));
}

fn stored(arena: &Arena) -> Vec<u8> {
    arena.get(station_stats::arena::KeyHandle { offset: 0, len: arena.len() }).to_vec()
}

#[test]
fn merge_stores_the_missing_keys_in_key_order() {
    let (a1, mut t1) = build(&[(b"Oslo", 10), (b"Bergen", 20)]);
    let (a2, t2) = build(&[(b"Tromso", 30), (b"Oslo", 40), (b"Alta", 50)]);
    assert_eq!(stored(&a2), b"TromsoOsloAlta");
    let mut arena = a1;
    t1.merge(&mut arena, &t2, &a2);
    assert_eq!(stored(&arena), b"OsloBergenAltaTromso");
    t1.merge(&mut arena, &t2, &a2);
    assert_eq!(stored(&arena), b"OsloBergenAltaTromso");
    assert_eq!(t1.get(&arena, b"Oslo").unwrap().count(), 3);
}
