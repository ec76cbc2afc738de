use station_stats::parse::ParseError;
use station_stats::report::{render, Row};
use station_stats::run::{aggregate, aggregate_checked, finish, finish_all, merge_all, solve, Shard};
use station_stats::validation::LineError;

const INPUT: &[u8] =
    b"Oslo;5.0\nHamburg;12.0\nBergen;-3.4\nOslo;10.0\n\nHamburg;25.3\nOslo;15.0\nBergen;7.1\nAlta;0.0\n";

fn output(buf: &[u8]) -> String {
    String::from_utf8(solve(buf).unwrap()).unwrap()
}

fn rows(shard: &Shard) -> Vec<Row> {
    shard.table.summary(&shard.arena)
}

fn boundaries(buf: &[u8]) -> Vec<usize> {
    let mut out = vec![0];
    for (i, b) in buf.iter().enumerate() {
        if *b == b'\n' {
            out.push(i + 1);
        }
    }
    if *out.last().unwrap() != buf.len() {
        out.push(buf.len());
    }
    out
}

#[test]
fn single_key_round_trip() {
    assert_eq!(output(b"Oslo;5.0\nOslo;10.0\nOslo;15.0\n"), "{Oslo=5.0/10.0/15.0}\n");
}

#[test]
fn whole_input_in_one_pass() {
    assert_eq!(
        output(INPUT),
        "{Alta=0.0/0.0/0.0, Bergen=-2.6/2.3/7.1, Hamburg=12.0/18.7/25.3, Oslo=5.0/10.0/15.0}\n"
    );
}

#[test]
fn empty_input_gives_empty_braces() {
    assert_eq!(output(b""), "{}\n");
    assert_eq!(output(b"\n"), "{}\n");
    assert_eq!(output(b"\n\n\n"), "{}\n");
}

#[test]
fn last_line_without_newline_counts() {
    assert_eq!(output(b"Oslo;5.0\nOslo;10.0"), "{Oslo=5.0/7.5/10.0}\n");
    assert_eq!(output(b"Oslo;5.0"), "{Oslo=5.0/5.0/5.0}\n");
}

#[test]
fn blank_lines_change_nothing() {
    let want = output(INPUT);
    let cuts = boundaries(INPUT);
    for at in &cuts {
        for n in 1..4 {
            let mut with_blanks = INPUT[..*at].to_vec();
            with_blanks.extend(std::iter::repeat(b'\n').take(n));
            with_blanks.extend_from_slice(&INPUT[*at..]);
            assert_eq!(output(&with_blanks), want);
        }
    }
    let mut everywhere = Vec::new();
    for pair in cuts.windows(2) {
        everywhere.extend_from_slice(b"\n\n");
        everywhere.extend_from_slice(&INPUT[pair[0]..pair[1]]);
    }
    everywhere.extend_from_slice(b"\n");
    assert_eq!(output(&everywhere), want);
}

#[test]
fn partition_invariance() {
    let mut buf = Vec::new();
    for i in 0..40u32 {
        let key = [b'k', b'0' + (i % 7) as u8];
        buf.extend_from_slice(&key);
        buf.extend_from_slice(format!(";{}.{}\n", (i * 37) % 90, i % 10).as_bytes());
    }
    let want = rows(&aggregate(&buf));
    let want_text = solve(&buf).unwrap();
    let cuts = boundaries(&buf);
    let lines = cuts.len() - 1;
    for n in 1..=32usize {
        let mut shards = Vec::new();
        for part in 0..n {
            let from = cuts[part * lines / n];
            let to = cuts[(part + 1) * lines / n];
            shards.push(aggregate(&buf[from..to]));
        }
        assert_eq!(rows(&merge_all(&shards)), want);
        assert_eq!(finish_all(&shards), want_text);
        shards.reverse();
        assert_eq!(rows(&merge_all(&shards)), want);
        assert_eq!(finish_all(&shards), want_text);
    }
}

#[test]
fn merge_all_of_nothing_is_empty() {
    let merged = merge_all(&Vec::new());
    assert_eq!(merged.table.len(), 0);
    assert_eq!(merged.arena.len(), 0);
}

#[test]
fn duplicate_key_in_two_chunks() {
    let shards = vec![aggregate(b"Hamburg;12.0\n"), aggregate(b"Hamburg;25.3\n")];
    let merged = merge_all(&shards);
    let s = merged.table.get(&merged.arena, b"Hamburg").unwrap();
    assert_eq!((s.min(), s.max(), s.count(), s.mean()), (120, 253, 2, 187));
    assert_eq!(finish(&merged), b"{Hamburg=12.0/18.7/25.3}\n");
    assert_eq!(finish_all(&shards), b"{Hamburg=12.0/18.7/25.3}\n");
}

#[test]
fn aggregate_checked_gives_the_table_or_the_bad_line() {
    let shard = aggregate_checked(INPUT).ok().unwrap();
    assert_eq!(rows(&shard), rows(&aggregate(INPUT)));
    assert_eq!(
        aggregate_checked(b"Oslo;5.0\nOslo;abc\n").err(),
        Some(LineError { start: 9, end: 17, kind: ParseError::InvalidValue })
    );
}

#[test]
fn solve_gives_the_text_or_the_bad_line() {
    assert_eq!(solve(b"Oslo;5.0\nOslo;10.0\nOslo;15.0\n"), Ok(b"{Oslo=5.0/10.0/15.0}\n".to_vec()));
    assert_eq!(solve(b""), Ok(b"{}\n".to_vec()));
    assert_eq!(
        solve(b"Oslo;5.0\nOslo\n"),
        Err(LineError { start: 9, end: 13, kind: ParseError::MissingValue })
    );
}

#[test]
fn finish_of_an_unchecked_pass_is_what_solve_gives() {
    assert_eq!(Ok(finish(&aggregate(INPUT))), solve(INPUT));
    assert_eq!(render(&rows(&aggregate(INPUT))), solve(INPUT).unwrap());
}

#[test]
fn order_of_lines_changes_nothing() {
    let want = output(INPUT);
    let cuts = boundaries(INPUT);
    let lines: Vec<&[u8]> = cuts.windows(2).map(|p| &INPUT[p[0]..p[1]]).collect();
    let mut reversed = Vec::new();
    for line in lines.iter().rev() {
        reversed.extend_from_slice(line);
    }
    assert_eq!(output(&reversed), want);
    let mut rotated = Vec::new();
    for i in 0..lines.len() {
        rotated.extend_from_slice(lines[(i * 4 + 3) % lines.len()]);
    }
    assert_eq!(rotated.len(), INPUT.len());
    assert_eq!(output(&rotated), want);
}

#[test]
fn each_key_has_the_statistics_of_its_own_values() {
    let shard = aggregate(INPUT);
    let oslo = shard.table.get(&shard.arena, b"Oslo").unwrap();
    assert_eq!((oslo.min(), oslo.max(), oslo.count(), oslo.sum()), (50, 150, 3, 300));
    let bergen = shard.table.get(&shard.arena, b"Bergen").unwrap();
    assert_eq!((bergen.min(), bergen.max(), bergen.count(), bergen.sum()), (-26, 71, 2, 45));
    let alta = shard.table.get(&shard.arena, b"Alta").unwrap();
    assert_eq!((alta.min(), alta.max(), alta.count(), alta.sum()), (0, 0, 1, 0));
    assert_eq!(shard.table.get(&shard.arena, b"Tromso"), None);
    assert_eq!(shard.table.len(), 4);
    assert_eq!(shard.arena.len(), 4 + 7 + 6 + 4);
}

fn stored(shard: &Shard) -> Vec<u8> {
    let all = station_stats::arena::KeyHandle { offset: 0, len: shard.arena.len() };
    shard.arena.get(all).to_vec()
}

#[test]
fn aggregate_stores_each_key_once_in_order_of_first_sight() {
    assert_eq!(stored(&aggregate(INPUT)), b"OsloHamburgBergenAlta");
    assert_eq!(stored(&aggregate(b"")), b"");
    assert_eq!(stored(&aggregate(b"\n\n")), b"");
    assert_eq!(stored(&aggregate_checked(INPUT).ok().unwrap()), b"OsloHamburgBergenAlta");
}

#[test]
fn merge_all_stores_the_keys_shard_by_shard_in_key_order() {
    let shards = vec![
        aggregate(b"Oslo;1.0\nBergen;2.0\n"),
        aggregate(b"Tromso;3.0\nOslo;4.0\nAlta;5.0\n"),
        aggregate(b"Bergen;6.0\n"),
    ];
    assert_eq!(stored(&merge_all(&shards)), b"BergenOsloAltaTromso");
    assert_eq!(stored(&merge_all(&Vec::new())), b"");
}
