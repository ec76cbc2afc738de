use station_stats::cursor::Cursor;
use station_stats::dispenser::{chunk_at, Dispenser};

const BUF: &[u8] = b"a;1.0\nbb;2.0\n\nccc;3.0\ndddd;4.0\n";

fn claims(buf: &[u8], stride: usize) -> Vec<(usize, usize)> {
    let d = Dispenser::new(buf, stride);
    let mut out = Vec::new();
    while let Some(c) = d.claim_next() {
        out.push(c);
    }
    out
}

fn assert_tiles(buf: &[u8], chunks: &[(usize, usize)]) {
    assert!(!chunks.is_empty());
    assert_eq!(chunks[0].0, 0);
    assert_eq!(chunks[chunks.len() - 1].1, buf.len());
    for pair in chunks.windows(2) {
        assert_eq!(pair[0].1, pair[1].0);
    }
    let mut seen = vec![0u32; buf.len()];
    for (start, end) in chunks {
        assert!(start <= end && *end <= buf.len());
        assert!(*start == 0 || *start == buf.len() || buf[start - 1] == b'\n');
        assert!(*end == 0 || *end == buf.len() || buf[end - 1] == b'\n');
        for i in *start..*end {
            seen[i] += 1;
        }
    }
    assert!(seen.iter().all(|n| *n == 1));
}

#[test]
fn cursor_moves_on_by_the_stride() {
    let c = Cursor::new();
    assert_eq!(c.advance(7), 0);
    assert_eq!(c.advance(7), 7);
    assert_eq!(c.advance(3), 14);
    assert_eq!(c.advance(1), 17);
}

#[test]
fn reserve_hands_out_multiples_of_the_stride() {
    let d = Dispenser::new(BUF, 5);
    assert_eq!(d.step(), 5);
    assert_eq!(d.bytes(), BUF);
    assert_eq!(d.reserve(), 0);
    assert_eq!(d.reserve(), 5);
    assert_eq!(d.reserve(), 10);
}

#[test]
fn first_chunk_starts_at_the_start() {
    assert_eq!(chunk_at(BUF, 0, 1), Some((0, 6)));
    assert_eq!(chunk_at(BUF, 0, 5), Some((0, 6)));
    assert_eq!(chunk_at(BUF, 0, 6), Some((0, 13)));
    assert_eq!(chunk_at(BUF, 0, 7), Some((0, 13)));
    assert_eq!(chunk_at(BUF, 0, 1000), Some((0, BUF.len())));
}

#[test]
fn later_chunks_start_past_the_next_newline() {
    // newlines at 5, 12, 13, 21, 30
    assert_eq!(chunk_at(BUF, 3, 3), Some((6, 13)));
    assert_eq!(chunk_at(BUF, 5, 3), Some((6, 13)));
    assert_eq!(chunk_at(BUF, 6, 3), Some((13, 13)));
    assert_eq!(chunk_at(BUF, 12, 1), Some((13, 14)));
    assert_eq!(chunk_at(BUF, 13, 1), Some((14, 22)));
    assert_eq!(chunk_at(BUF, 14, 8), Some((22, 31)));
    assert_eq!(chunk_at(BUF, 30, 8), Some((31, 31)));
}

#[test]
fn nothing_is_handed_out_past_the_last_line() {
    assert_eq!(chunk_at(BUF, 31, 8), None);
    assert_eq!(chunk_at(BUF, 32, 8), None);
    assert_eq!(chunk_at(BUF, usize::MAX, usize::MAX), None);
    assert_eq!(chunk_at(b"abc", 1, 1), None);
    assert_eq!(chunk_at(b"abc", 3, 1), None);
}

#[test]
fn the_last_line_may_lack_its_newline() {
    let buf = b"a;1.0\nb;2.0";
    assert_eq!(chunk_at(buf, 0, 100), Some((0, 11)));
    assert_eq!(chunk_at(buf, 0, 3), Some((0, 6)));
    assert_eq!(chunk_at(buf, 3, 3), Some((6, 11)));
    assert_eq!(chunk_at(buf, 6, 3), None);
    assert_eq!(claims(buf, 3), vec![(0, 6), (6, 11)]);
}

#[test]
fn empty_buffer_has_one_empty_chunk() {
    assert_eq!(chunk_at(b"", 0, 4), Some((0, 0)));
    assert_eq!(chunk_at(b"", 4, 4), None);
    assert_eq!(claims(b"", 4), vec![(0, 0)]);
}

#[test]
fn stride_at_the_greatest_usize_does_not_overflow() {
    assert_eq!(chunk_at(BUF, 0, usize::MAX), Some((0, 31)));
    assert_eq!(chunk_at(BUF, 3, usize::MAX), Some((6, 31)));
}

#[test]
fn claimed_ranges_cover_every_byte_once() {
    for stride in 1..=40 {
        let chunks = claims(BUF, stride);
        assert_tiles(BUF, &chunks);
    }
}

#[test]
fn claimed_ranges_for_given_strides() {
    assert_eq!(claims(BUF, 40), vec![(0, 31)]);
    assert_eq!(claims(BUF, 31), vec![(0, 31)]);
    assert_eq!(claims(BUF, 30), vec![(0, 31), (31, 31)]);
    assert_eq!(claims(BUF, 16), vec![(0, 22), (22, 31)]);
    assert_eq!(claims(BUF, 10), vec![(0, 13), (13, 22), (22, 31), (31, 31)]);
    assert_eq!(
        claims(BUF, 4),
        vec![(0, 6), (6, 13), (13, 13), (13, 22), (22, 22), (22, 31), (31, 31), (31, 31)]
    );
}

#[test]
fn claimed_ranges_cover_a_buffer_without_final_newline() {
    let buf = b"a;1.0\nbb;2.0\n\nccc;3.0\ndddd;4.0";
    for stride in 1..=40 {
        let chunks = claims(buf, stride);
        assert_tiles(buf, &chunks);
    }
}

#[test]
fn claimed_ranges_cover_a_buffer_of_one_long_line() {
    let buf = b"a-very-long-key-without-any-newline;1.0";
    for stride in 1..=50 {
        assert_eq!(claims(buf, stride), vec![(0, buf.len())]);
    }
}

#[test]
fn exhausted_dispenser_stays_exhausted() {
    let d = Dispenser::new(BUF, 16);
    assert_eq!(d.claim_next(), Some((0, 22)));
    assert_eq!(d.claim_next(), Some((22, 31)));
    assert_eq!(d.claim_next(), None);
    assert_eq!(d.claim_next(), None);
    assert_eq!(d.claim_next(), None);
}
