use csv_splitter::allocator::OutputIndexAllocator;
use csv_splitter::batch::{count_csv_lines, parse_batch, SplitError};
use csv_splitter::get_number_csv_files;
use csv_splitter::split::run_split;
use csv_splitter::transform::TransformSpec;

fn bytes_of(s: &str) -> Vec<u8> {
    s.as_bytes().to_vec()
}

fn no_transforms() -> TransformSpec {
    TransformSpec {
        to_uppercase: Vec::new(),
        to_lowercase: Vec::new(),
        to_normalized: Vec::new(),
        to_titlecase: Vec::new(),
    }
}

fn numbered_input(rows: usize) -> Vec<u8> {
    let mut text = String::from("id;name\n");
    for i in 0..rows {
        text.push_str(&format!("{};row{}\n", i + 1, i + 1));
    }
    bytes_of(&text)
}

#[test]
fn end_to_end_normalize_two_files() {
    let data = bytes_of("id;name\n1;Jos\u{e9}\n2;MARIA\n3;jo\u{e3}o\n");
    let batch = parse_batch(&data, b';').unwrap();
    let mut ts = no_transforms();
    ts.to_normalized.push(bytes_of("name"));
    let files = run_split(&batch.header, batch.rows, &ts, 2, 28, b';').unwrap();
    assert_eq!(files.len(), 2);
    assert_eq!(files[0].index, 1);
    assert_eq!(files[1].index, 2);
    assert_eq!(files[0].content, bytes_of("id;name\n1;Jose\n2;MARIA\n"));
    assert_eq!(files[1].content, bytes_of("id;name\n3;joao\n"));
}

#[test]
fn header_only_input_yields_zero_files() {
    let data = bytes_of("id;name\n");
    let batch = parse_batch(&data, b';').unwrap();
    assert_eq!(batch.rows.len(), 0);
    let ts = no_transforms();
    let files = run_split(&batch.header, batch.rows, &ts, 5, 70, b';').unwrap();
    assert_eq!(files.len(), 0);
}

#[test]
fn empty_input_is_rejected() {
    let data: Vec<u8> = Vec::new();
    match parse_batch(&data, b';') {
        Err(SplitError::EmptyInput) => {}
        other => panic!("expected EmptyInput, got {:?}", other.map(|b| b.rows.len())),
    }
}

#[test]
fn file_count_and_sizes_follow_ceiling() {
    // 7 rows, 3 per file: files of 3, 3 and 1 rows, indices 1..=3.
    let data = numbered_input(7);
    let batch = parse_batch(&data, b';').unwrap();
    let ts = no_transforms();
    let files = run_split(&batch.header, batch.rows, &ts, 3, 42, b';').unwrap();
    assert_eq!(files.len(), 3);
    let mut total_rows = 0;
    for (i, f) in files.iter().enumerate() {
        assert_eq!(f.index, i + 1);
        let text = String::from_utf8(f.content.clone()).unwrap();
        let data_rows = text.lines().count() - 1;
        if i + 1 < files.len() {
            assert_eq!(data_rows, 3);
        } else {
            assert_eq!(data_rows, 1);
        }
        assert!(text.starts_with("id;name\n"));
        total_rows += data_rows;
    }
    assert_eq!(total_rows, 7);
}

#[test]
fn exact_multiple_fills_last_file() {
    let data = numbered_input(6);
    let batch = parse_batch(&data, b';').unwrap();
    let ts = no_transforms();
    let files = run_split(&batch.header, batch.rows, &ts, 3, 3, b';').unwrap();
    assert_eq!(files.len(), 2);
    for f in &files {
        let text = String::from_utf8(f.content.clone()).unwrap();
        assert_eq!(text.lines().count() - 1, 3);
    }
}

#[test]
fn output_is_independent_of_batch_size() {
    for chunk_size in [3, 6, 12, 300] {
        let data = numbered_input(11);
        let batch = parse_batch(&data, b';').unwrap();
        let ts = no_transforms();
        let files = run_split(&batch.header, batch.rows, &ts, 3, chunk_size, b';').unwrap();

        let data2 = numbered_input(11);
        let batch2 = parse_batch(&data2, b';').unwrap();
        let files2 = run_split(&batch2.header, batch2.rows, &ts, 3, 3, b';').unwrap();

        assert_eq!(files.len(), 4);
        assert_eq!(files.len(), files2.len());
        for (a, b) in files.iter().zip(files2.iter()) {
            assert_eq!(a.index, b.index);
            assert_eq!(a.content, b.content);
        }
    }
}

#[test]
fn rows_are_conserved_across_files() {
    let data = numbered_input(10);
    let batch = parse_batch(&data, b';').unwrap();
    let ts = no_transforms();
    let files = run_split(&batch.header, batch.rows, &ts, 4, 8, b';').unwrap();
    let mut collected: Vec<String> = Vec::new();
    for f in &files {
        let text = String::from_utf8(f.content.clone()).unwrap();
        for line in text.lines().skip(1) {
            collected.push(line.to_string());
        }
    }
    let expected: Vec<String> = (1..=10).map(|i| format!("{};row{}", i, i)).collect();
    assert_eq!(collected, expected);
}

#[test]
fn missing_column_aborts_the_run() {
    let data = numbered_input(4);
    let batch = parse_batch(&data, b';').unwrap();
    let mut ts = no_transforms();
    ts.to_uppercase.push(bytes_of("nope"));
    match run_split(&batch.header, batch.rows, &ts, 2, 2, b';') {
        Err(SplitError::ColumnNotFound(c)) => assert_eq!(c, bytes_of("nope")),
        other => panic!("expected ColumnNotFound, got {:?}", other.map(|f| f.len())),
    }
}

#[test]
fn ceiling_division_matches_formula() {
    assert_eq!(get_number_csv_files(0, 5), 0);
    assert_eq!(get_number_csv_files(1, 5), 1);
    assert_eq!(get_number_csv_files(5, 5), 1);
    assert_eq!(get_number_csv_files(6, 5), 2);
    assert_eq!(get_number_csv_files(10, 5), 2);
    assert_eq!(get_number_csv_files(11, 5), 3);
}

#[test]
fn count_csv_lines_counts_header_and_rows() {
    assert_eq!(count_csv_lines(&bytes_of("")), 0);
    assert_eq!(count_csv_lines(&bytes_of("id;name\n")), 1);
    assert_eq!(count_csv_lines(&bytes_of("id;name\n1;a\n2;b\n")), 3);
    assert_eq!(count_csv_lines(&bytes_of("id;name\r\n1;a\r\n2;b")), 3);
}

#[test]
fn allocator_hands_out_each_index_once() {
    let n = 100;
    let mut allocator = OutputIndexAllocator::new(n);
    let mut seen = vec![false; n + 1];
    for _ in 0..n {
        let idx = allocator.take().expect("allocator exhausted early");
        assert!(1 <= idx && idx <= n);
        assert!(!seen[idx], "index {} handed out twice", idx);
        seen[idx] = true;
    }
    assert_eq!(allocator.take(), None);
    for idx in 1..=n {
        assert!(seen[idx], "index {} never handed out", idx);
    }
}

#[test]
fn allocator_interleaved_callers_cover_the_range() {
    // Several writers drawing in arbitrary interleaving still receive,
    // in aggregate, exactly the multiset {1..=n}.
    let n = 30;
    let mut allocator = OutputIndexAllocator::new(n);
    let callers = 7;
    let mut got: Vec<Vec<usize>> = vec![Vec::new(); callers];
    let mut c = 0;
    while let Some(idx) = allocator.take() {
        got[c % callers].push(idx);
        c += 3;
    }
    let mut all: Vec<usize> = got.into_iter().flatten().collect();
    all.sort();
    let expected: Vec<usize> = (1..=n).collect();
    assert_eq!(all, expected);
}

#[test]
fn allocator_is_fifo_from_one() {
    let mut allocator = OutputIndexAllocator::new(4);
    assert_eq!(allocator.take(), Some(1));
    assert_eq!(allocator.take(), Some(2));
    assert_eq!(allocator.take(), Some(3));
    assert_eq!(allocator.take(), Some(4));
    assert_eq!(allocator.take(), None);
    assert_eq!(allocator.take(), None);
}

