use csv_splitter::batch::{parse_batch, parse_header_line, parse_line, render_csv, split_lines, LineFeeder};
use csv_splitter::chunker::{nth_chunk, CsvChunkReader};
use csv_splitter::text::{
    join_vec, split_vec, to_lowercase_bytes, to_titlecase_bytes, to_uppercase_bytes,
};
use csv_splitter::transform::{apply, TransformSpec};

fn bytes_of(s: &str) -> Vec<u8> {
    s.as_bytes().to_vec()
}

fn no_transforms() -> TransformSpec {
    TransformSpec {
        to_uppercase: Vec::new(),
        to_lowercase: Vec::new(),
        to_normalized: Vec::new(),
        to_titlecase: Vec::new(),
    }
}

fn one_column_batch(values: &[&str]) -> csv_splitter::batch::Batch {
    let mut text = String::from("name\n");
    for v in values {
        text.push_str(v);
        text.push('\n');
    }
    parse_batch(&bytes_of(&text), b';').unwrap()
}

fn column_values(batch: &csv_splitter::batch::Batch) -> Vec<String> {
    batch
        .rows
        .iter()
        .map(|r| String::from_utf8(r[0].clone().unwrap()).unwrap())
        .collect()
}

#[test]
fn case_folding_is_ascii_only() {
    assert_eq!(to_uppercase_bytes(&bytes_of("abc xyz!")), bytes_of("ABC XYZ!"));
    assert_eq!(to_lowercase_bytes(&bytes_of("ABC Xyz9")), bytes_of("abc xyz9"));
    // Non-ASCII bytes pass through untouched.
    assert_eq!(
        to_uppercase_bytes(&bytes_of("jos\u{e9}")),
        bytes_of("JOS\u{e9}")
    );
}

#[test]
fn titlecase_capitalizes_each_word() {
    assert_eq!(
        to_titlecase_bytes(&bytes_of("hello wORLD  twice")),
        bytes_of("Hello World  Twice")
    );
    assert_eq!(to_titlecase_bytes(&bytes_of("a\tb")), bytes_of("A\tB"));
    assert_eq!(to_titlecase_bytes(&bytes_of("")), bytes_of(""));
}

#[test]
fn uppercase_transform_is_idempotent() {
    let mut ts = no_transforms();
    ts.to_uppercase.push(bytes_of("name"));
    let batch = one_column_batch(&["ALREADY UPPER", "MIXED case"]);
    let once = apply(&batch, &ts).unwrap();
    assert_eq!(column_values(&once), vec!["ALREADY UPPER", "MIXED CASE"]);
    let twice = apply(&once, &ts).unwrap();
    assert_eq!(column_values(&twice), column_values(&once));
}

#[test]
fn normalize_transform_is_stable_under_reapplication() {
    let mut ts = no_transforms();
    ts.to_normalized.push(bytes_of("name"));
    let batch = one_column_batch(&["Jos\u{e9}", "a\u{e7}\u{e3}o", "plain"]);
    let once = apply(&batch, &ts).unwrap();
    assert_eq!(column_values(&once), vec!["Jose", "acao", "plain"]);
    let twice = apply(&once, &ts).unwrap();
    assert_eq!(column_values(&twice), column_values(&once));
}

#[test]
fn transform_order_is_uppercase_then_titlecase() {
    let mut ts = no_transforms();
    // Declared titlecase first: the fixed order still applies uppercase
    // before titlecase.
    ts.to_titlecase.push(bytes_of("name"));
    ts.to_uppercase.push(bytes_of("name"));
    let batch = one_column_batch(&["hello wORLD"]);
    let out = apply(&batch, &ts).unwrap();
    // uppercase gives "HELLO WORLD"; titlecase then gives "Hello World".
    assert_eq!(column_values(&out), vec!["Hello World"]);
}

#[test]
fn nulls_stay_null_through_transforms() {
    // The second row is ragged: its missing field parses as null and
    // must remain null after the transform.
    let data = bytes_of("id;name\n1;ana\n2\n");
    let batch = parse_batch(&data, b';').unwrap();
    let mut ts = no_transforms();
    ts.to_uppercase.push(bytes_of("name"));
    let out = apply(&batch, &ts).unwrap();
    assert_eq!(out.rows[0][1], Some(bytes_of("ANA")));
    assert_eq!(out.rows[1][1], None);
}

#[test]
fn ragged_rows_are_truncated_or_padded() {
    let data = bytes_of("a;b\n1;2;3\n4\n");
    let batch = parse_batch(&data, b';').unwrap();
    assert_eq!(batch.rows.len(), 2);
    assert_eq!(batch.rows[0], vec![Some(bytes_of("1")), Some(bytes_of("2"))]);
    assert_eq!(batch.rows[1], vec![Some(bytes_of("4")), None]);
}

#[test]
fn split_and_join_round_trip() {
    let line = bytes_of("a;;bc;d");
    let parts = split_vec(&line, b';');
    let expected: Vec<Vec<u8>> = vec![bytes_of("a"), bytes_of(""), bytes_of("bc"), bytes_of("d")];
    assert_eq!(parts, expected);
    assert_eq!(join_vec(&parts, b';'), line);
}

#[test]
fn split_lines_strips_carriage_returns() {
    let data = bytes_of("a;b\r\n1;2\r\n");
    let lines = split_lines(&data);
    assert_eq!(lines, vec![bytes_of("a;b"), bytes_of("1;2")]);
}

#[test]
fn bare_final_carriage_return_counts_as_a_line() {
    // Only an empty final segment (a trailing newline) is dropped; a
    // final bare carriage return is a line of its own, stripped to "".
    let lines = split_lines(&bytes_of("a\n\r"));
    assert_eq!(lines, vec![bytes_of("a"), bytes_of("")]);
}

#[test]
fn feeder_splits_across_chunk_boundaries() {
    // The same input fed in awkward pieces yields the same lines as
    // splitting it whole, with the unfinished tail carried over.
    let mut feeder = LineFeeder::new();
    let mut segments: Vec<Vec<u8>> = Vec::new();
    for piece in ["id;na", "me\n1;Jo", "s\u{e9}\n2;MA", "RIA"] {
        segments.extend(feeder.feed(&bytes_of(piece)));
    }
    if let Some(tail) = feeder.finish() {
        segments.push(tail);
    }
    assert_eq!(
        segments,
        vec![bytes_of("id;name"), bytes_of("1;Jos\u{e9}"), bytes_of("2;MARIA")]
    );
    let header = parse_header_line(&segments[0], b';');
    assert_eq!(header, vec![bytes_of("id"), bytes_of("name")]);
    let row = parse_line(&segments[1], b';', header.len());
    assert_eq!(row, vec![Some(bytes_of("1")), Some(bytes_of("Jos\u{e9}"))]);
    // The streamed rows match the whole-input parse.
    let whole = parse_batch(&bytes_of("id;name\n1;Jos\u{e9}\n2;MARIA"), b';').unwrap();
    assert_eq!(whole.rows[0], row);
}

#[test]
fn nth_chunk_slices_by_absolute_row_count() {
    let data = bytes_of("id\n1\n2\n3\n4\n5\n");
    let batch = parse_batch(&data, b';').unwrap();
    let first = nth_chunk(&batch.rows, 2, 0);
    let second = nth_chunk(&batch.rows, 2, 1);
    let third = nth_chunk(&batch.rows, 2, 2);
    assert_eq!(first.len(), 2);
    assert_eq!(second.len(), 2);
    assert_eq!(third.len(), 1);
    assert_eq!(first[0][0], Some(bytes_of("1")));
    assert_eq!(second[0][0], Some(bytes_of("3")));
    assert_eq!(third[0][0], Some(bytes_of("5")));
}

#[test]
fn render_writes_header_and_null_as_empty() {
    let data = bytes_of("a;b\n1\n");
    let batch = parse_batch(&data, b';').unwrap();
    let out = render_csv(&batch.header, &batch.rows, b';');
    assert_eq!(out, bytes_of("a;b\n1;\n"));
}

#[test]
fn reader_hands_out_successive_batches() {
    let data = bytes_of("id\n1\n2\n3\n4\n5\n");
    let batch = parse_batch(&data, b';').unwrap();
    let mut reader = CsvChunkReader::new(batch.rows, 2);
    let sizes: [usize; 3] = [2, 2, 1];
    for (step, expected_len) in sizes.iter().enumerate() {
        let chunk = reader.next_chunk().expect("batch missing");
        assert_eq!(chunk.len(), *expected_len);
        let first = String::from_utf8(chunk[0][0].clone().unwrap()).unwrap();
        assert_eq!(first, format!("{}", step * 2 + 1));
    }
    assert!(reader.next_chunk().is_none());
}

#[test]
fn delimiter_is_configurable() {
    let data = bytes_of("id,name\n1,ana\n");
    let batch = parse_batch(&data, b',').unwrap();
    assert_eq!(batch.header, vec![bytes_of("id"), bytes_of("name")]);
    let out = render_csv(&batch.header, &batch.rows, b',');
    assert_eq!(out, data);
}
