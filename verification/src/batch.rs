use vstd::prelude::*;

use crate::text::{join_bytes, join_vec, split_bytes, split_vec, lemma_split_acc_len};

verus! {

/// One data row: one nullable text value per column.
pub type Row = Vec<Option<Vec<u8>>>;

/// An ordered batch of rows under a header, as read from the input.
pub struct Batch {
    pub header: Vec<Vec<u8>>,
    pub rows: Vec<Row>,
}

impl Batch {
    /// Every row carries exactly one value per header column.
    pub open spec fn wf(self) -> bool {
        forall|i: int|
            0 <= i < self.rows@.len() ==> (#[trigger] self.rows@[i])@.len()
                == self.header@.len()
    }
}

/// Why a split run was aborted.
#[derive(Debug, PartialEq, Eq)]
pub enum SplitError {
    /// The input had no lines at all, not even a header.
    EmptyInput,
    /// A transform named a column that the header does not contain.
    ColumnNotFound(Vec<u8>),
}

// ---------------------------------------------------------------------
// Lines: the input split on newline; a final segment that is empty
// before carriage-return stripping (a trailing newline) is dropped,
// then a trailing carriage return is stripped from each line.  A bare
// final carriage return therefore still counts as a line.
// ---------------------------------------------------------------------

pub open spec fn strip_cr(l: Seq<u8>) -> Seq<u8> {
    if l.len() > 0 && l.last() == 13 {
        l.drop_last()
    } else {
        l
    }
}

/// The newline-separated segments of the input, an empty final segment
/// dropped.
pub open spec fn kept_segments(s: Seq<u8>) -> Seq<Seq<u8>> {
    let parts = split_bytes(s, 10);
    if parts.len() > 0 && parts.last().len() == 0 {
        parts.drop_last()
    } else {
        parts
    }
}

/// The lines of the input; empty input has no lines, and a trailing
/// newline does not produce an extra empty line.
pub open spec fn lines_of(s: Seq<u8>) -> Seq<Seq<u8>> {
    kept_segments(s).map_values(|l: Seq<u8>| strip_cr(l))
}

/// Copies a byte string.
pub fn clone_bytes(v: &Vec<u8>) -> (r: Vec<u8>)
    ensures
        r@ == v@,
{
    let r = v.clone();
    proof {
        assert(r@ =~= v@);
    }
    r
}

/// Copies one row.
pub fn clone_row(row: &Row) -> (r: Row)
    ensures
        r.deep_view() == row.deep_view(),
{
    let mut r: Row = Vec::new();
    let mut j: usize = 0;
    while j < row.len()
        invariant
            j <= row@.len(),
            r.deep_view() == row.deep_view().take(j as int),
        decreases row@.len() - j,
    {
        let ghost old_r = r.deep_view();
        match &row[j] {
            Some(v) => {
                let cell = clone_bytes(v);
                proof {
                    assert(row.deep_view()[j as int] == Some(v@));
                }
                r.push(Some(cell));
            },
            None => {
                proof {
                    assert(row.deep_view()[j as int] == None::<Seq<u8>>);
                }
                r.push(None);
            },
        }
        proof {
            assert(r.deep_view() =~~= old_r.push(row.deep_view()[j as int]));
            assert(row.deep_view().take(j + 1) =~= row.deep_view().take(j as int).push(
                row.deep_view()[j as int],
            ));
        }
        j = j + 1;
    }
    proof {
        assert(row.deep_view().take(row@.len() as int) =~= row.deep_view());
    }
    r
}

/// Splits the input into its lines.
pub fn split_lines(data: &Vec<u8>) -> (r: Vec<Vec<u8>>)
    ensures
        r.deep_view() == lines_of(data@),
{
    let mut parts = split_vec(data, 10);
    if parts[parts.len() - 1].len() == 0 {
        let ghost before = parts.deep_view();
        parts.pop();
        proof {
            assert(parts.deep_view() =~~= before.drop_last());
            assert(before.last().len() == 0);
        }
    }
    proof {
        assert(parts.deep_view() =~= kept_segments(data@));
    }
    let mut out: Vec<Vec<u8>> = Vec::new();
    let mut i: usize = 0;
    proof {
        assert(out.deep_view() =~= lines_of(data@).take(0));
    }
    while i < parts.len()
        invariant
            i <= parts.len(),
            parts.deep_view() == kept_segments(data@),
            out.deep_view() == lines_of(data@).take(i as int),
        decreases parts.len() - i,
    {
        let mut l = clone_bytes(&parts[i]);
        let ghost raw = l@;
        if l.len() > 0 && l[l.len() - 1] == 13 {
            l.pop();
            proof {
                assert(l@ =~= strip_cr(raw));
            }
        }
        proof {
            assert(raw == parts.deep_view()[i as int]);
            assert(lines_of(data@)[i as int] == strip_cr(raw));
        }
        let ghost old_out = out.deep_view();
        out.push(l);
        proof {
            assert(out.deep_view() =~~= old_out.push(strip_cr(raw)));
            assert(lines_of(data@).take(i + 1) =~= lines_of(data@).take(i as int).push(
                lines_of(data@)[i as int],
            ));
        }
        i = i + 1;
    }
    proof {
        assert(lines_of(data@).take(parts@.len() as int) =~= lines_of(data@));
    }
    out
}

/// Feeds the input through in bounded byte chunks and hands out the
/// newline-separated segments as they complete, so the whole input
/// never has to sit in memory: only the unfinished tail after the last
/// newline is buffered.  Feeding chunks `c1, ..., cn` and then
/// finishing yields exactly the kept segments of `c1 + ... + cn`:
/// `lemma_split_feed` proves that splitting chunk by chunk, carrying
/// the unfinished tail over, splits exactly as the whole would.
pub struct LineFeeder {
    buffer: Vec<u8>,
}

impl LineFeeder {
    /// The bytes after the last newline fed so far.
    pub closed spec fn buffered(self) -> Seq<u8> {
        self.buffer@
    }

    pub fn new() -> (r: LineFeeder)
        ensures
            r.buffered() == Seq::<u8>::empty(),
    {
        LineFeeder { buffer: Vec::new() }
    }

    /// Feeds the next bytes.  Returns the segments that are now
    /// complete — the split of the buffered tail followed by the new
    /// bytes, minus its unfinished last part, which is buffered.
    pub fn feed(&mut self, data: &Vec<u8>) -> (out: Vec<Vec<u8>>)
        ensures
            ({
                let parts = split_bytes(old(self).buffered() + data@, 10);
                &&& out.deep_view() == parts.drop_last()
                &&& final(self).buffered() == parts.last()
            }),
    {
        let mut more = clone_bytes(data);
        self.buffer.append(&mut more);
        proof {
            assert(self.buffer@ == old(self).buffered() + data@);
        }
        let mut parts = split_vec(&self.buffer, 10);
        proof {
            lemma_split_acc_len(self.buffer@, 10, Seq::empty());
        }
        let tail = match parts.pop() {
            Some(t) => t,
            None => vstd::pervasive::unreached(),
        };
        proof {
            let whole = split_bytes(old(self).buffered() + data@, 10);
            assert(tail.deep_view() == whole.last());
            assert(tail@ =~= whole.last());
            assert(parts.deep_view() =~~= whole.drop_last());
        }
        self.buffer = tail;
        parts
    }

    /// The final segment, if the input did not end in a newline; after
    /// this the input's kept segments are exactly the segments fed out,
    /// followed by this one when it exists.
    pub fn finish(self) -> (out: Option<Vec<u8>>)
        ensures
            self.buffered().len() == 0 <==> out is None,
            out matches Some(t) ==> t@ == self.buffered(),
    {
        if self.buffer.len() == 0 {
            None
        } else {
            Some(self.buffer)
        }
    }
}

/// One complete segment as a row: the trailing carriage return
/// stripped, the fields split on `d` and fitted to the header width
/// `w`.  The streaming counterpart of one row of `parse_batch`.
pub fn parse_line(line: &Vec<u8>, d: u8, w: usize) -> (row: Row)
    ensures
        row@.len() == w,
        row.deep_view() == parse_fields(strip_cr(line@), d, w as nat),
{
    let mut l = clone_bytes(line);
    if l.len() > 0 && l[l.len() - 1] == 13 {
        l.pop();
    }
    proof {
        assert(l@ =~= strip_cr(line@));
    }
    let fields = split_vec(&l, d);
    let row = normalize_row(&fields, w);
    proof {
        assert(row.deep_view() =~= parse_fields(strip_cr(line@), d, w as nat));
    }
    row
}

/// The header from the input's first segment: the trailing carriage
/// return stripped, the column names split on `d`.
pub fn parse_header_line(line: &Vec<u8>, d: u8) -> (header: Vec<Vec<u8>>)
    ensures
        header.deep_view() == split_bytes(strip_cr(line@), d),
{
    let mut l = clone_bytes(line);
    if l.len() > 0 && l[l.len() - 1] == 13 {
        l.pop();
    }
    proof {
        assert(l@ =~= strip_cr(line@));
    }
    split_vec(&l, d)
}

/// Counts the lines of the input, the header line included.
pub fn count_csv_lines(data: &Vec<u8>) -> (n: usize)
    ensures
        n == lines_of(data@).len(),
{
    let lines = split_lines(data);
    lines.len()
}

// ---------------------------------------------------------------------
// Parsing: the first line is the header; every later line is a row,
// truncated or padded with nulls to the header's width.
// ---------------------------------------------------------------------

/// The fields of one line fitted to width `w`: extra fields are dropped,
/// missing fields become nulls.
pub open spec fn parse_fields(l: Seq<u8>, d: u8, w: nat) -> Seq<Option<Seq<u8>>> {
    Seq::new(
        w,
        |j: int|
            if j < split_bytes(l, d).len() {
                Some(split_bytes(l, d)[j])
            } else {
                None
            },
    )
}

pub open spec fn parse_header(s: Seq<u8>, d: u8) -> Seq<Seq<u8>> {
    split_bytes(lines_of(s)[0], d)
}

pub open spec fn parse_rows_of(s: Seq<u8>, d: u8) -> Seq<Seq<Option<Seq<u8>>>> {
    lines_of(s).drop_first().map_values(
        |l: Seq<u8>| parse_fields(l, d, parse_header(s, d).len()),
    )
}

/// Fits the fields of one line to the header width `w`.
fn normalize_row(fields: &Vec<Vec<u8>>, w: usize) -> (row: Row)
    ensures
        row@.len() == w,
        forall|j: int|
            0 <= j < w ==> row.deep_view()[j] == (if j < fields.deep_view().len() {
                Some(fields.deep_view()[j])
            } else {
                None::<Seq<u8>>
            }),
{
    let mut row: Row = Vec::new();
    let mut j: usize = 0;
    while j < w
        invariant
            j <= w,
            row@.len() == j,
            forall|q: int|
                0 <= q < j ==> row.deep_view()[q] == (if q < fields.deep_view().len() {
                    Some(fields.deep_view()[q])
                } else {
                    None::<Seq<u8>>
                }),
        decreases w - j,
    {
        let ghost old_row = row.deep_view();
        if j < fields.len() {
            let cell = clone_bytes(&fields[j]);
            proof {
                assert(fields.deep_view()[j as int] == fields@[j as int]@);
                assert(cell@ =~= fields.deep_view()[j as int]);
            }
            row.push(Some(cell));
        } else {
            row.push(None);
        }
        proof {
            assert(row.deep_view() =~~= old_row.push(
                if j < fields.deep_view().len() {
                    Some(fields.deep_view()[j as int])
                } else {
                    None::<Seq<u8>>
                },
            ));
        }
        j = j + 1;
    }
    row
}

/// Parses delimited text into a batch: header line first, then one row
/// per line, each row fitted to the header's width.  Fails exactly when
/// the input has no lines at all.
pub fn parse_batch(data: &Vec<u8>, d: u8) -> (r: Result<Batch, SplitError>)
    ensures
        match r {
            Ok(b) => {
                &&& lines_of(data@).len() > 0
                &&& b.header.deep_view() == parse_header(data@, d)
                &&& b.rows.deep_view() == parse_rows_of(data@, d)
                &&& b.wf()
            },
            Err(e) => {
                &&& lines_of(data@).len() == 0
                &&& e == SplitError::EmptyInput
            },
        },
{
    let lines = split_lines(data);
    if lines.len() == 0 {
        return Err(SplitError::EmptyInput);
    }
    proof {
        assert(lines@[0]@ =~= lines.deep_view()[0]);
        assert(lines.deep_view()[0] == lines_of(data@)[0]);
    }
    let header = split_vec(&lines[0], d);
    let w = header.len();
    let mut rows: Vec<Row> = Vec::new();
    let mut i: usize = 1;
    while i < lines.len()
        invariant
            1 <= i <= lines@.len(),
            lines.deep_view() == lines_of(data@),
            header.deep_view() == parse_header(data@, d),
            w == header@.len(),
            rows@.len() == i - 1,
            forall|q: int|
                0 <= q < i - 1 ==> #[trigger] rows.deep_view()[q] == parse_rows_of(data@, d)[q],
            forall|q: int| 0 <= q < i - 1 ==> (#[trigger] rows@[q])@.len() == w,
        decreases lines@.len() - i,
    {
        proof {
            assert(lines@[i as int]@ =~= lines.deep_view()[i as int]);
        }
        let fields = split_vec(&lines[i], d);
        let row = normalize_row(&fields, w);
        let ghost old_rows = rows.deep_view();
        proof {
            assert(lines.deep_view()[i as int] == lines_of(data@).drop_first()[i - 1]);
            assert(parse_rows_of(data@, d)[i - 1] == parse_fields(
                lines.deep_view()[i as int],
                d,
                parse_header(data@, d).len(),
            ));
            assert(row.deep_view() =~= parse_fields(
                lines.deep_view()[i as int],
                d,
                parse_header(data@, d).len(),
            ));
        }
        rows.push(row);
        proof {
            assert(rows.deep_view() =~~= old_rows.push(parse_rows_of(data@, d)[i - 1]));
        }
        i = i + 1;
    }
    let b = Batch { header, rows };
    proof {
        assert(b.rows.deep_view() =~= parse_rows_of(data@, d));
    }
    Ok(b)
}

// ---------------------------------------------------------------------
// Rendering: header line, then one line per row, each line closed with
// a newline; a null renders as the empty field.
// ---------------------------------------------------------------------

pub open spec fn field_or_empty(f: Option<Seq<u8>>) -> Seq<u8> {
    match f {
        Some(s) => s,
        None => Seq::empty(),
    }
}

/// One row as a delimited line (without the newline).
pub open spec fn row_line(row: Seq<Option<Seq<u8>>>, d: u8) -> Seq<u8> {
    join_bytes(row.map_values(|f: Option<Seq<u8>>| field_or_empty(f)), d)
}

pub open spec fn render_body(rows: Seq<Seq<Option<Seq<u8>>>>, d: u8) -> Seq<u8>
    decreases rows.len(),
{
    if rows.len() == 0 {
        Seq::empty()
    } else {
        row_line(rows[0], d) + seq![10u8] + render_body(rows.drop_first(), d)
    }
}

/// A whole output file: the header line, then the rows, each line closed
/// with a newline.
pub open spec fn render_rows(header: Seq<Seq<u8>>, rows: Seq<Seq<Option<Seq<u8>>>>, d: u8) -> Seq<
    u8,
> {
    join_bytes(header, d) + seq![10u8] + render_body(rows, d)
}

pub proof fn lemma_render_body_push(rows: Seq<Seq<Option<Seq<u8>>>>, row: Seq<Option<Seq<u8>>>, d: u8)
    ensures
        render_body(rows.push(row), d) == render_body(rows, d) + row_line(row, d) + seq![10u8],
    decreases rows.len(),
{
    if rows.len() == 0 {
        assert(rows.push(row)[0] == row);
        assert(rows.push(row).drop_first() =~= Seq::<Seq<Option<Seq<u8>>>>::empty());
        assert(render_body(Seq::<Seq<Option<Seq<u8>>>>::empty(), d) == Seq::<u8>::empty());
        assert(render_body(rows.push(row), d) =~= render_body(rows, d) + row_line(row, d)
            + seq![10u8]);
    } else {
        lemma_render_body_push(rows.drop_first(), row, d);
        assert(rows.push(row).drop_first() =~= rows.drop_first().push(row));
        assert(rows.push(row)[0] == rows[0]);
        assert(render_body(rows.push(row), d) =~= render_body(rows, d) + row_line(row, d)
            + seq![10u8]);
    }
}

/// Renders a batch's header and rows as delimited text.
pub fn render_csv(header: &Vec<Vec<u8>>, rows: &Vec<Row>, d: u8) -> (out: Vec<u8>)
    ensures
        out@ == render_rows(header.deep_view(), rows.deep_view(), d),
{
    let mut out = join_vec(header, d);
    out.push(10);
    let mut i: usize = 0;
    proof {
        assert(rows.deep_view().take(0) =~= Seq::<Seq<Option<Seq<u8>>>>::empty());
        assert(out@ =~= join_bytes(header.deep_view(), d) + seq![10u8] + render_body(
            rows.deep_view().take(0),
            d,
        ));
    }
    while i < rows.len()
        invariant
            i <= rows@.len(),
            out@ == render_rows(header.deep_view(), rows.deep_view().take(i as int), d),
        decreases rows@.len() - i,
    {
        let row = &rows[i];
        let mut fields: Vec<Vec<u8>> = Vec::new();
        let mut j: usize = 0;
        while j < row.len()
            invariant
                j <= row@.len(),
                fields.deep_view() =~= row.deep_view().take(j as int).map_values(
                    |f: Option<Seq<u8>>| field_or_empty(f),
                ),
            decreases row@.len() - j,
        {
            let ghost old_fields = fields.deep_view();
            match &row[j] {
                Some(v) => {
                    fields.push(clone_bytes(v));
                },
                None => {
                    fields.push(Vec::new());
                },
            }
            proof {
                assert(fields.deep_view() =~~= old_fields.push(
                    field_or_empty(row.deep_view()[j as int]),
                ));
                assert(row.deep_view().take(j + 1).map_values(
                    |f: Option<Seq<u8>>| field_or_empty(f),
                ) =~= old_fields.push(field_or_empty(row.deep_view()[j as int])));
            }
            j = j + 1;
        }
        proof {
            assert(row.deep_view().take(row@.len() as int) =~= row.deep_view());
        }
        let mut line = join_vec(&fields, d);
        let ghost out_before = out@;
        out.append(&mut line);
        out.push(10);
        proof {
            assert(rows.deep_view()[i as int] == row.deep_view());
            lemma_render_body_push(rows.deep_view().take(i as int), row.deep_view(), d);
            assert(rows.deep_view().take(i + 1) =~= rows.deep_view().take(i as int).push(
                row.deep_view(),
            ));
            assert(out@ =~= render_rows(header.deep_view(), rows.deep_view().take(i + 1), d));
        }
        i = i + 1;
    }
    proof {
        assert(rows.deep_view().take(rows@.len() as int) =~= rows.deep_view());
    }
    out
}

} // verus!
