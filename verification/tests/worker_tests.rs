use station_stats::arena::Arena;
use station_stats::dispenser::Dispenser;
use station_stats::report::Row;
use station_stats::run::{finish, finish_all, solve, Shard};
use station_stats::table::Table;
use station_stats::worker::{ingest, run_worker};

const LINES: &[u8] =
    b"Oslo;5.0\nHamburg;12.0\nBergen;-3.4\nOslo;10.0\n\nHamburg;25.3\nOslo;15.0\nBergen;7.1\nAlta;0.0\n";

fn expected(buf: &[u8]) -> String {
    String::from_utf8(solve(buf).unwrap()).unwrap()
}

#[test]
fn ingest_adds_to_what_the_table_holds() {
    let mut arena = Arena::new();
    let mut table = Table::new();
    ingest(&mut table, &mut arena, b"Oslo;5.0\nBergen;1.0\n");
    ingest(&mut table, &mut arena, b"");
    ingest(&mut table, &mut arena, b"Oslo;15.0\nAlta;2.0");
    assert_eq!(
        table.summary(&arena),
        vec![
            Row { key: b"Alta".to_vec(), min: 20, mean: 20, max: 20 },
            Row { key: b"Bergen".to_vec(), min: 10, mean: 10, max: 10 },
            Row { key: b"Oslo".to_vec(), min: 50, mean: 100, max: 150 },
        ]
    );
    assert_eq!(arena.len(), 4 + 6 + 4);
}

#[test]
fn one_worker_takes_every_chunk() {
    let want = expected(LINES);
    for stride in 1..=LINES.len() + 3 {
        let dispenser = Dispenser::new(LINES, stride);
        let mut arena = Arena::new();
        let table = run_worker(&mut arena, &dispenser);
        let shard = Shard { arena, table };
        assert_eq!(String::from_utf8(finish(&shard)).unwrap(), want);
        assert!(shard.table.peak(&shard.arena) <= LINES.len() as u64);
        assert_eq!(dispenser.claim_next(), None);
    }
}

#[test]
fn workers_share_the_chunks_of_one_dispenser() {
    let want = expected(LINES);
    for stride in [1, 4, 9, 16, 30] {
        for taken_first in 0..6 {
            let dispenser = Dispenser::new(LINES, stride);
            // a first worker takes some chunks by hand, a second takes the rest
            let mut first_arena = Arena::new();
            let mut first = Table::new();
            for _ in 0..taken_first {
                if let Some((start, end)) = dispenser.claim_next() {
                    ingest(&mut first, &mut first_arena, &LINES[start..end]);
                }
            }
            let mut second_arena = Arena::new();
            let second = run_worker(&mut second_arena, &dispenser);
            let shards = vec![
                Shard { arena: first_arena, table: first },
                Shard { arena: second_arena, table: second },
            ];
            assert_eq!(String::from_utf8(finish_all(&shards)).unwrap(), want);
        }
    }
}

#[test]
fn worker_on_an_exhausted_dispenser_has_an_empty_table() {
    let dispenser = Dispenser::new(LINES, 1000);
    assert_eq!(dispenser.claim_next(), Some((0, LINES.len())));
    let mut arena = Arena::new();
    let table = run_worker(&mut arena, &dispenser);
    assert_eq!(table.len(), 0);
    assert_eq!(arena.len(), 0);
}

#[test]
fn worker_keeps_what_the_arena_held() {
    let dispenser = Dispenser::new(b"Oslo;5.0\n", 4);
    let mut arena = Arena::new();
    let kept = arena.intern(b"kept");
    let table = run_worker(&mut arena, &dispenser);
    assert_eq!(arena.get(kept), b"kept");
    assert_eq!(arena.len(), 8);
    assert_eq!(table.get(&arena, b"Oslo").unwrap().sum(), 50);
}

fn stored(arena: &Arena) -> Vec<u8> {
    arena.get(station_stats::arena::KeyHandle { offset: 0, len: arena.len() }).to_vec()
}

#[test]
fn ingest_stores_each_new_key_once_in_order_of_first_sight() {
    let mut arena = Arena::new();
    let mut table = Table::new();
    ingest(&mut table, &mut arena, b"Oslo;5.0\nBergen;1.0\nOslo;7.0\n");
    assert_eq!(stored(&arena), b"OsloBergen");
    assert_eq!(table.len(), 2);
    let oslo = table.get(&arena, b"Oslo").unwrap();
    assert_eq!((oslo.min(), oslo.max(), oslo.count(), oslo.sum()), (50, 70, 2, 120));
    let bergen = table.get(&arena, b"Bergen").unwrap();
    assert_eq!((bergen.min(), bergen.max(), bergen.count(), bergen.sum()), (10, 10, 1, 10));
    ingest(&mut table, &mut arena, b"Alta;2.0\nBergen;3.0\nAlta;1.0\nTromso;0.0\n");
    assert_eq!(stored(&arena), b"OsloBergenAltaTromso");
}

#[test]
fn ingest_puts_new_keys_behind_what_the_arena_held() {
    let mut arena = Arena::new();
    arena.intern(b"kept");
    let mut table = Table::new();
    ingest(&mut table, &mut arena, b"b;1.0\na;1.0\nb;2.0\n");
    assert_eq!(stored(&arena), b"keptba");
    ingest(&mut table, &mut arena, b"");
    ingest(&mut table, &mut arena, b"\n\n");
    assert_eq!(stored(&arena), b"keptba");
}

#[test]
fn blank_lines_leave_no_bytes_in_the_arena() {
    let mut plain_arena = Arena::new();
    let mut plain = Table::new();
    ingest(&mut plain, &mut plain_arena, LINES);
    let mut with_blanks = Vec::new();
    for line in LINES.split_inclusive(|b| *b == b'\n') {
        with_blanks.extend_from_slice(b"\n\n");
        with_blanks.extend_from_slice(line);
    }
    with_blanks.push(b'\n');
    let mut arena = Arena::new();
    let mut table = Table::new();
    ingest(&mut table, &mut arena, &with_blanks);
    assert_eq!(stored(&arena), stored(&plain_arena));
    assert_eq!(stored(&arena), b"OsloHamburgBergenAlta");
    assert_eq!(table.summary(&arena), plain.summary(&plain_arena));
}

#[test]
fn one_pass_and_two_passes_leave_equal_arenas() {
    let mut whole_arena = Arena::new();
    let mut whole = Table::new();
    ingest(&mut whole, &mut whole_arena, LINES);
    for (at, byte) in LINES.iter().enumerate() {
        if *byte != b'\n' {
            continue;
        }
        let mut arena = Arena::new();
        let mut table = Table::new();
        ingest(&mut table, &mut arena, &LINES[..at + 1]);
        ingest(&mut table, &mut arena, &LINES[at + 1..]);
        assert_eq!(stored(&arena), stored(&whole_arena));
        assert_eq!(table.summary(&arena), whole.summary(&whole_arena));
    }
}

#[test]
fn sole_worker_stores_a_key_once() {
    let buf = b"Oslo;5.0\nOslo;10.0\nOslo;15.0\n";
    for stride in [1usize, 4, 9, 32, 1 << 25] {
        let dispenser = Dispenser::new(buf, stride);
        let mut arena = Arena::with_capacity(64);
        let table = run_worker(&mut arena, &dispenser);
        assert_eq!(stored(&arena), b"Oslo");
        assert_eq!(table.len(), 1);
        let oslo = table.get(&arena, b"Oslo").unwrap();
        assert_eq!((oslo.min(), oslo.max(), oslo.count(), oslo.sum()), (50, 150, 3, 300));
    }
}

#[test]
fn chunk_after_a_nominal_start_inside_a_line_leaves_that_line_out() {
    let buf = b"Oslo;5.0\nBergen;7.0\n";
    let (start, end) = station_stats::dispenser::chunk_at(buf, 3, 1 << 25).unwrap();
    assert_eq!((start, end), (9, 20));
    let mut arena = Arena::with_capacity(64);
    let mut table = Table::new();
    ingest(&mut table, &mut arena, &buf[start..end]);
    assert_eq!(stored(&arena), b"Bergen");
    assert_eq!(table.len(), 1);
    assert_eq!(table.get(&arena, b"Oslo"), None);
    assert_eq!(table.get(&arena, b"o"), None);
    let bergen = table.get(&arena, b"Bergen").unwrap();
    assert_eq!((bergen.min(), bergen.max(), bergen.count(), bergen.sum()), (70, 70, 1, 70));
}

#[test]
fn line_at_a_nominal_start_belongs_to_the_chunk_before() {
    let buf = b"Oslo;5.0\nBergen;7.0\n";
    let (start, end) = station_stats::dispenser::chunk_at(buf, 9, 1 << 25).unwrap();
    assert_eq!((start, end), (20, 20));
    let mut arena = Arena::new();
    let mut table = Table::new();
    ingest(&mut table, &mut arena, &buf[start..end]);
    assert_eq!(table.len(), 0);
    assert_eq!(arena.len(), 0);
}

#[test]
fn worker_on_an_empty_buffer_leaves_table_and_arena_empty() {
    let dispenser = Dispenser::new(b"", 1 << 25);
    let mut arena = Arena::new();
    let table = run_worker(&mut arena, &dispenser);
    assert_eq!(table.len(), 0);
    assert_eq!(arena.len(), 0);
}

#[test]
fn sole_worker_counts_every_line_once_where_lines_are_longer_than_the_stride() {
    let buf = b"a-long-key-that-spans-many-strides;1.0\nb;2.0\na-long-key-that-spans-many-strides;3.0\n";
    for stride in 1..=12 {
        let dispenser = Dispenser::new(buf, stride);
        let mut arena = Arena::new();
        let table = run_worker(&mut arena, &dispenser);
        assert_eq!(table.len(), 2);
        assert_eq!(table.get(&arena, b"a-long-key-that-spans-many-strides").unwrap().count(), 2);
        assert_eq!(table.get(&arena, b"b").unwrap().count(), 1);
        assert_eq!(stored(&arena), b"a-long-key-that-spans-many-stridesb");
    }
}
