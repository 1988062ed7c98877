use csv_split::{
    calculate_buffer_size, chunk_count, count_newlines, partition, worker_range, LineCounter,
    RowFilter, RowRange,
};

/// The records a worker copies from a source holding a header `h` and the
/// data rows `d0`, `d1`, ... up to `n` of them.
fn run_worker(range: RowRange, n: usize) -> Vec<String> {
    let records: Vec<String> = std::iter::once("h".to_string())
        .chain((0..n).map(|j| format!("d{}", j)))
        .collect();
    let mut filter = RowFilter::new(range);
    let mut copied = Vec::new();
    for record in records {
        let step = filter.next_row();
        if step.copy {
            copied.push(record);
        }
        if step.stop {
            break;
        }
    }
    copied
}

/// The records of each chunk file, in order, for a source of a header and
/// `n` data rows.
fn run_split(n: usize, total_rows: usize, max_lines: usize, workers: usize) -> Vec<Vec<String>> {
    let mut files = Vec::new();
    for chunk in 0..chunk_count(total_rows, max_lines) {
        let mut file = Vec::new();
        for range in partition(chunk, max_lines, workers, total_rows) {
            file.extend(run_worker(range, n));
        }
        files.push(file);
    }
    files
}

/// Data rows of the chunk files put together, headers left out.
fn data_rows(files: &[Vec<String>]) -> Vec<String> {
    files.concat().into_iter().filter(|r| r != "h").collect()
}

fn names(rows: &[&str]) -> Vec<String> {
    rows.iter().map(|r| r.to_string()).collect()
}

fn counted(buffers: &[&[u8]]) -> usize {
    let mut counter = LineCounter::new();
    for b in buffers {
        counter.feed(b);
    }
    counter.total()
}

#[test]
fn buffer_size_tiers() {
    assert_eq!(calculate_buffer_size(999_999), 8192);
    assert_eq!(calculate_buffer_size(1_048_577), 1 << 20);
    assert_eq!(calculate_buffer_size((1u64 << 30) + 1), 1 << 30);
}

#[test]
fn buffer_size_edges() {
    assert_eq!(calculate_buffer_size(0), 8192);
    assert_eq!(calculate_buffer_size((1 << 20) - 1), 8192);
    assert_eq!(calculate_buffer_size(1 << 20), 1 << 20);
    assert_eq!(calculate_buffer_size((1 << 30) - 1), 1 << 20);
    assert_eq!(calculate_buffer_size(1 << 30), 1 << 30);
    assert_eq!(calculate_buffer_size(u64::MAX), 1 << 30);
}

#[test]
fn buffer_size_monotonic_on_samples() {
    let sizes = [0u64, 1, 8191, 1 << 20, 5 << 20, 1 << 30, 1 << 40, u64::MAX];
    for pair in sizes.windows(2) {
        let (a, b) = (calculate_buffer_size(pair[0]), calculate_buffer_size(pair[1]));
        assert!(a <= b);
        assert!([8192, 1 << 20, 1 << 30].contains(&a));
    }
}

#[test]
fn chunk_count_rounds_up() {
    assert_eq!(chunk_count(10, 5), 2);
    assert_eq!(chunk_count(11, 5), 3);
    assert_eq!(chunk_count(1, 5), 1);
    assert_eq!(chunk_count(7, 1), 7);
    assert_eq!(chunk_count(usize::MAX, 2), usize::MAX / 2 + 1);
}

#[test]
fn chunk_count_zero_rows() {
    assert_eq!(chunk_count(0, 5), 0);
    assert!(run_split(1, 0, 5, 2).is_empty());
}

#[test]
fn worker_range_formula() {
    assert_eq!(worker_range(1, 5, 2, 10, 1), RowRange { start: 7, end: 9 });
    assert_eq!(worker_range(3, 10, 3, 100, 2), RowRange { start: 36, end: 39 });
    // clipped to the total, possibly below the start
    assert_eq!(worker_range(2, 5, 2, 11, 0), RowRange { start: 10, end: 11 });
    assert_eq!(worker_range(2, 5, 2, 11, 1), RowRange { start: 12, end: 11 });
}

#[test]
fn partition_of_chunks() {
    assert_eq!(
        partition(0, 5, 2, 10),
        vec![RowRange { start: 0, end: 2 }, RowRange { start: 2, end: 4 }]
    );
    assert_eq!(
        partition(1, 5, 2, 10),
        vec![RowRange { start: 5, end: 7 }, RowRange { start: 7, end: 9 }]
    );
    assert_eq!(
        partition(0, 6, 3, 4),
        vec![
            RowRange { start: 0, end: 2 },
            RowRange { start: 2, end: 4 },
            RowRange { start: 4, end: 4 }
        ]
    );
}

#[test]
fn partition_ranges_within_chunk_and_ascending() {
    for (chunk, max, workers, total) in [(0, 5, 2, 10), (1, 7, 3, 12), (4, 9, 4, 40), (2, 3, 5, 8)] {
        let ranges = partition(chunk, max, workers, total);
        assert_eq!(ranges.len(), workers);
        for r in &ranges {
            assert!(r.start >= chunk * max);
            assert!(r.end <= (chunk + 1) * max && r.end <= total);
        }
        for pair in ranges.windows(2) {
            assert!(pair[0].end <= pair[1].start);
        }
    }
}

#[test]
fn row_filter_header_and_range() {
    assert_eq!(run_worker(RowRange { start: 5, end: 7 }, 10), names(&["h", "d5", "d6"]));
    assert_eq!(run_worker(RowRange { start: 0, end: 2 }, 10), names(&["h", "d0", "d1"]));
    // an empty range still writes the header
    assert_eq!(run_worker(RowRange { start: 12, end: 11 }, 11), names(&["h"]));
    assert_eq!(run_worker(RowRange { start: 0, end: 0 }, 4), names(&["h"]));
    // a range past the end of the source stops with the source
    assert_eq!(run_worker(RowRange { start: 3, end: 50 }, 6), names(&["h", "d3", "d4", "d5"]));
}

#[test]
fn row_filter_stops_at_range_end() {
    let mut filter = RowFilter::new(RowRange { start: 2, end: 3 });
    let steps: Vec<(bool, bool)> = (0..4)
        .map(|_| {
            let s = filter.next_row();
            (s.copy, s.stop)
        })
        .collect();
    assert_eq!(steps, vec![(true, false), (false, false), (false, false), (true, true)]);
    assert!(filter.header_done);
    assert_eq!(filter.data_seen, 3);
}

#[test]
fn row_filter_empty_range_stops_after_header() {
    let mut filter = RowFilter::new(RowRange { start: 0, end: 0 });
    let step = filter.next_row();
    assert!(step.copy && step.stop);
}

#[test]
fn ten_rows_two_chunks_two_workers() {
    // header plus ten data rows, ten rows counted
    let files = run_split(10, 10, 5, 2);
    assert_eq!(files.len(), 2);
    // each worker writes the header, then its share of 5 / 2 = 2 rows
    assert_eq!(files[0], names(&["h", "d0", "d1", "h", "d2", "d3"]));
    assert_eq!(files[1], names(&["h", "d5", "d6", "h", "d7", "d8"]));
    for f in &files {
        assert_eq!(f[0], "h");
        assert!(f.iter().filter(|r| *r != "h").count() <= 5);
    }
    assert_eq!(data_rows(&files), names(&["d0", "d1", "d2", "d3", "d5", "d6", "d7", "d8"]));
}

#[test]
fn one_data_row_one_chunk() {
    let files = run_split(1, 1, 1, 1);
    assert_eq!(files, vec![names(&["h", "d0"])]);
}

#[test]
fn divisible_split_keeps_every_counted_row() {
    let files = run_split(12, 12, 4, 2);
    assert_eq!(files.len(), 3);
    let expected: Vec<String> = (0..12).map(|j| format!("d{}", j)).collect();
    assert_eq!(data_rows(&files), expected);
}

#[test]
fn remainder_rows_are_left_out() {
    // shares of 5 / 2 = 2 rows: d4 and d9 belong to no worker
    let files = run_split(11, 11, 5, 2);
    assert_eq!(
        data_rows(&files),
        names(&["d0", "d1", "d2", "d3", "d5", "d6", "d7", "d8", "d10"])
    );
}

#[test]
fn count_newlines_in_range() {
    let buf = b"a\nb\n\nc\n";
    assert_eq!(count_newlines(buf, 0, buf.len()), 4);
    assert_eq!(count_newlines(buf, 0, 3), 1);
    assert_eq!(count_newlines(buf, 2, 5), 2);
    assert_eq!(count_newlines(buf, 4, 4), 0);
}

#[test]
fn line_counter_sums_buffers() {
    assert_eq!(counted(&[b"h\na\n", b"b\nc", b"\n"]), 4);
    assert_eq!(counted(&[]), 0);
    assert_eq!(counted(&["\u{e9}t\u{e9}\nsecond\n".as_bytes()]), 2);
}

#[test]
fn line_counter_character_split_across_buffers() {
    // "\u{e9}" is 0xC3 0xA9; it is completed by the second buffer
    assert_eq!(counted(&[b"a\n\xC3", b"\xA9b\n"]), 2);
    // "a\u{e9}\n" read two bytes at a time and whole
    assert_eq!(counted(&[b"a\xC3", b"\xA9\n"]), 1);
    assert_eq!(counted(&[b"a\xC3\xA9\n"]), 1);
}

#[test]
fn line_counter_independent_of_buffer_size() {
    let text = "id,name\n1,\u{e9}l\u{e8}ve\n2,\u{4e2d}\u{6587}\n3,\u{1f600}\n".as_bytes();
    let whole = counted(&[text]);
    assert_eq!(whole, 4);
    for size in 1..text.len() {
        let reads: Vec<&[u8]> = text.chunks(size).collect();
        assert_eq!(counted(&reads), whole);
    }
}

#[test]
fn line_counter_idempotent() {
    let reads: [&[u8]; 3] = [b"id,name\n1,a\n", b"2,b\n3,", b"c\n"];
    assert_eq!(counted(&reads), counted(&reads));
    assert_eq!(counted(&reads), 4);
    assert_eq!(counted(&[b"id,name\n1,a\n2,b\n3,c\n"]), 4);
}

#[test]
fn decoding_error_does_not_crash_counter() {
    let clean: [&[u8]; 2] = [b"a\nb\nc", b"\nd\n"];
    let injected: [&[u8]; 2] = [b"a\xFF\xFE\nb\nc", b"\nd\n"];
    assert_eq!(counted(&clean), 4);
    assert!(counted(&injected) >= counted(&clean));
    assert_eq!(counted(&[b"a\xFF\nb\n"]), 2);
}

#[test]
fn decoding_resumes_after_invalid_sequences() {
    // a stray continuation byte, an overlong form and a truncated sequence
    // followed by more text
    assert_eq!(counted(&[b"\xA9x\n\xC0\xAFy\n\xE2\x82z\n"]), 3);
    // an incomplete character at the end of the file
    assert_eq!(counted(&[b"a\nb\xE2\x82"]), 1);
    assert_eq!(counted(&[b"\xFF\xFF\xFF"]), 0);
}
