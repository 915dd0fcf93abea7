use vstd::prelude::*;

use crate::batch::{Batch, Row, SplitError, clone_bytes};
use crate::text::{
    is_ascii_lower, lower_seq, title_seq, to_lowercase_bytes, to_titlecase_bytes,
    to_uppercase_bytes, upper_byte, upper_seq,
};

verus! {

/// Which columns each transform applies to.  A column may appear under
/// several kinds; the kinds apply in the fixed order uppercase,
/// lowercase, normalize, titlecase, so results are reproducible.
pub struct TransformSpec {
    pub to_uppercase: Vec<Vec<u8>>,
    pub to_lowercase: Vec<Vec<u8>>,
    pub to_normalized: Vec<Vec<u8>>,
    pub to_titlecase: Vec<Vec<u8>>,
}

/// What `deunicode::deunicode` returns on the UTF-8 reading of a byte
/// string: its best-effort ASCII transliteration.
pub uninterp spec fn deunicode_of(s: Seq<u8>) -> Seq<u8>;

/// Relies on deunicode::deunicode for transliteration.  What its source
/// shows: the result depends on the input bytes alone; a leading run of
/// bytes below 0x7F is copied as is, so an input made only of such
/// bytes passes through unchanged; every remaining character comes from
/// the shipped table, whose entries are newline or printable ASCII, or
/// from the ASCII placeholder — so every result byte is below 0x7F, and
/// a second transliteration returns the result unchanged.  (A 0x7F or a
/// control byte after the first non-ASCII character is dropped, so only
/// the strict bound below holds of a passthrough.)
#[verifier::external_body]
fn deunicode_bytes(v: &Vec<u8>) -> (r: Vec<u8>)
    ensures
        r@ == deunicode_of(v@),
        forall|i: int| 0 <= i < r@.len() ==> r@[i] < 127,
        (forall|i: int| 0 <= i < v@.len() ==> v@[i] < 127) ==> r@ == v@,
        deunicode_of(r@) == r@,
{
    let text = String::from_utf8_lossy(v);
    deunicode::deunicode(&text).into_bytes()
}

/// A cell's value after the selected transforms, applied in the fixed
/// order uppercase, lowercase, normalize, titlecase.  A null stays null.
pub open spec fn fold_value(
    up: bool,
    low: bool,
    norm: bool,
    title: bool,
    v: Option<Seq<u8>>,
) -> Option<Seq<u8>> {
    match v {
        None => None,
        Some(s0) => {
            let s1 = if up {
                upper_seq(s0)
            } else {
                s0
            };
            let s2 = if low {
                lower_seq(s1)
            } else {
                s1
            };
            let s3 = if norm {
                deunicode_of(s2)
            } else {
                s2
            };
            let s4 = if title {
                title_seq(s3)
            } else {
                s3
            };
            Some(s4)
        },
    }
}

/// Whether a cell is stable under the normalize transform: null, or a
/// fixed point of the transliteration.
pub open spec fn normalize_stable(v: Option<Seq<u8>>) -> bool {
    match v {
        None => true,
        Some(c) => deunicode_of(c) == c,
    }
}

/// Every cell of a column that normalize targets last — named under
/// `to_normalized` and not under `to_titlecase` — is normalize-stable.
pub open spec fn row_normalize_stable(
    ts: TransformSpec,
    header: Seq<Seq<u8>>,
    row: Seq<Option<Seq<u8>>>,
) -> bool {
    forall|j: int|
        0 <= j < row.len() && ts.to_normalized.deep_view().contains(header[j])
            && !ts.to_titlecase.deep_view().contains(header[j]) ==> normalize_stable(
            #[trigger] row[j],
        )
}

/// A cell's value after every transform whose column list names `name`.
pub open spec fn transformed_value(
    ts: TransformSpec,
    name: Seq<u8>,
    v: Option<Seq<u8>>,
) -> Option<Seq<u8>> {
    fold_value(
        ts.to_uppercase.deep_view().contains(name),
        ts.to_lowercase.deep_view().contains(name),
        ts.to_normalized.deep_view().contains(name),
        ts.to_titlecase.deep_view().contains(name),
        v,
    )
}

/// A whole row after the transforms, cell by cell under its column name.
pub open spec fn transform_row(
    ts: TransformSpec,
    header: Seq<Seq<u8>>,
    row: Seq<Option<Seq<u8>>>,
) -> Seq<Option<Seq<u8>>> {
    Seq::new(row.len(), |j: int| transformed_value(ts, header[j], row[j]))
}

/// All rows after the transforms.
pub open spec fn transform_rows(
    ts: TransformSpec,
    header: Seq<Seq<u8>>,
    rows: Seq<Seq<Option<Seq<u8>>>>,
) -> Seq<Seq<Option<Seq<u8>>>> {
    rows.map_values(|r: Seq<Option<Seq<u8>>>| transform_row(ts, header, r))
}

/// Every column named by `cols` occurs in the header.
pub open spec fn cols_exist(cols: Seq<Seq<u8>>, header: Seq<Seq<u8>>) -> bool {
    forall|i: int| 0 <= i < cols.len() ==> header.contains(#[trigger] cols[i])
}

/// Every column named by any transform occurs in the header.
pub open spec fn all_columns_exist(ts: TransformSpec, header: Seq<Seq<u8>>) -> bool {
    &&& cols_exist(ts.to_uppercase.deep_view(), header)
    &&& cols_exist(ts.to_lowercase.deep_view(), header)
    &&& cols_exist(ts.to_normalized.deep_view(), header)
    &&& cols_exist(ts.to_titlecase.deep_view(), header)
}

/// Byte-string equality.
pub fn bytes_eq(a: &Vec<u8>, b: &Vec<u8>) -> (r: bool)
    ensures
        r == (a@ == b@),
{
    if a.len() != b.len() {
        return false;
    }
    let mut i: usize = 0;
    while i < a.len()
        invariant
            i <= a@.len(),
            a@.len() == b@.len(),
            forall|q: int| 0 <= q < i ==> a@[q] == b@[q],
        decreases a@.len() - i,
    {
        if a[i] != b[i] {
            return false;
        }
        i = i + 1;
    }
    proof {
        assert(a@ =~= b@);
    }
    true
}

/// Whether `name` occurs in a list of column names.
pub fn list_contains(cols: &Vec<Vec<u8>>, name: &Vec<u8>) -> (r: bool)
    ensures
        r == cols.deep_view().contains(name@),
{
    let mut i: usize = 0;
    while i < cols.len()
        invariant
            i <= cols@.len(),
            forall|q: int| 0 <= q < i ==> cols.deep_view()[q] != name@,
        decreases cols@.len() - i,
    {
        if bytes_eq(&cols[i], name) {
            proof {
                assert(cols.deep_view()[i as int] == cols@[i as int]@);
                assert(cols.deep_view()[i as int] == name@);
            }
            return true;
        }
        proof {
            assert(cols.deep_view()[i as int] == cols@[i as int]@);
        }
        i = i + 1;
    }
    proof {
        if cols.deep_view().contains(name@) {
            let w = choose|w: int| 0 <= w < cols.deep_view().len() && cols.deep_view()[w] == name@;
            assert(cols.deep_view()[w] != name@);
        }
    }
    false
}

/// Looks for a name in `cols` that the header lacks.
fn find_missing(cols: &Vec<Vec<u8>>, header: &Vec<Vec<u8>>) -> (r: Option<Vec<u8>>)
    ensures
        match r {
            None => cols_exist(cols.deep_view(), header.deep_view()),
            Some(c) => {
                &&& cols.deep_view().contains(c@)
                &&& !header.deep_view().contains(c@)
            },
        },
{
    let mut i: usize = 0;
    while i < cols.len()
        invariant
            i <= cols@.len(),
            forall|q: int|
                0 <= q < i ==> header.deep_view().contains(#[trigger] cols.deep_view()[q]),
        decreases cols@.len() - i,
    {
        proof {
            assert(cols.deep_view()[i as int] == cols@[i as int]@);
        }
        if !list_contains(header, &cols[i]) {
            let c = clone_bytes(&cols[i]);
            proof {
                assert(cols.deep_view()[i as int] == c@);
            }
            return Some(c);
        }
        i = i + 1;
    }
    None
}

/// Checks that every column named by the transforms occurs in the
/// header; returns the first missing name otherwise.
pub fn check_columns(ts: &TransformSpec, header: &Vec<Vec<u8>>) -> (r: Result<(), SplitError>)
    ensures
        match r {
            Ok(()) => all_columns_exist(*ts, header.deep_view()),
            Err(e) => {
                &&& !all_columns_exist(*ts, header.deep_view())
                &&& e matches SplitError::ColumnNotFound(c) && !header.deep_view().contains(c@)
            },
        },
{
    if let Some(c) = find_missing(&ts.to_uppercase, header) {
        return Err(SplitError::ColumnNotFound(c));
    }
    if let Some(c) = find_missing(&ts.to_lowercase, header) {
        return Err(SplitError::ColumnNotFound(c));
    }
    if let Some(c) = find_missing(&ts.to_normalized, header) {
        return Err(SplitError::ColumnNotFound(c));
    }
    if let Some(c) = find_missing(&ts.to_titlecase, header) {
        return Err(SplitError::ColumnNotFound(c));
    }
    Ok(())
}

/// One cell after the transforms selected by the flags.
fn transform_cell(cell: &Option<Vec<u8>>, up: bool, low: bool, norm: bool, title: bool) -> (r:
    Option<Vec<u8>>)
    ensures
        r.deep_view() == fold_value(up, low, norm, title, cell.deep_view()),
        norm && !title ==> normalize_stable(r.deep_view()),
{
    match cell {
        None => {
            proof {
                assert(cell.deep_view() == None::<Seq<u8>>);
            }
            None
        },
        Some(v) => {
            proof {
                assert(v.deep_view() =~= v@);
                assert(cell.deep_view() == Some(v@));
            }
            let mut cur = clone_bytes(v);
            if up {
                cur = to_uppercase_bytes(&cur);
            }
            if low {
                cur = to_lowercase_bytes(&cur);
            }
            if norm {
                cur = deunicode_bytes(&cur);
            }
            if title {
                cur = to_titlecase_bytes(&cur);
            }
            let r = Some(cur);
            proof {
                assert(r.deep_view() == Some(cur@));
            }
            r
        },
    }
}

/// Applies the configured transforms to every row of the batch, cell by
/// cell under the cell's column name.  The batch's shape and header are
/// unchanged.  Assumes the configuration was checked: see `apply`.
pub fn apply_checked(batch: &Batch, ts: &TransformSpec) -> (out: Batch)
    requires
        batch.wf(),
    ensures
        out.header.deep_view() == batch.header.deep_view(),
        out.rows.deep_view() == transform_rows(*ts, batch.header.deep_view(), batch.rows.deep_view()),
        out.wf(),
        forall|i: int|
            0 <= i < out.rows@.len() ==> row_normalize_stable(
                *ts,
                batch.header.deep_view(),
                #[trigger] out.rows.deep_view()[i],
            ),
{
    let ghost hdv = batch.header.deep_view();
    let w = batch.header.len();
    let mut ups: Vec<bool> = Vec::new();
    let mut lows: Vec<bool> = Vec::new();
    let mut norms: Vec<bool> = Vec::new();
    let mut titles: Vec<bool> = Vec::new();
    let mut j: usize = 0;
    while j < w
        invariant
            j <= w,
            w == batch.header@.len(),
            hdv == batch.header.deep_view(),
            ups@.len() == j && lows@.len() == j && norms@.len() == j && titles@.len() == j,
            forall|q: int|
                0 <= q < j ==> #[trigger] ups@[q] == ts.to_uppercase.deep_view().contains(hdv[q]),
            forall|q: int|
                0 <= q < j ==> #[trigger] lows@[q] == ts.to_lowercase.deep_view().contains(hdv[q]),
            forall|q: int|
                0 <= q < j ==> #[trigger] norms@[q] == ts.to_normalized.deep_view().contains(
                    hdv[q],
                ),
            forall|q: int|
                0 <= q < j ==> #[trigger] titles@[q] == ts.to_titlecase.deep_view().contains(
                    hdv[q],
                ),
        decreases w - j,
    {
        let name = &batch.header[j];
        proof {
            assert(hdv[j as int] == batch.header@[j as int]@);
        }
        ups.push(list_contains(&ts.to_uppercase, name));
        lows.push(list_contains(&ts.to_lowercase, name));
        norms.push(list_contains(&ts.to_normalized, name));
        titles.push(list_contains(&ts.to_titlecase, name));
        j = j + 1;
    }
    let ghost rdv = batch.rows.deep_view();
    let mut new_rows: Vec<Row> = Vec::new();
    let mut i: usize = 0;
    while i < batch.rows.len()
        invariant
            i <= batch.rows@.len(),
            batch.wf(),
            rdv == batch.rows.deep_view(),
            hdv == batch.header.deep_view(),
            w == batch.header@.len(),
            ups@.len() == w && lows@.len() == w && norms@.len() == w && titles@.len() == w,
            forall|q: int|
                0 <= q < w ==> #[trigger] ups@[q] == ts.to_uppercase.deep_view().contains(hdv[q]),
            forall|q: int|
                0 <= q < w ==> #[trigger] lows@[q] == ts.to_lowercase.deep_view().contains(hdv[q]),
            forall|q: int|
                0 <= q < w ==> #[trigger] norms@[q] == ts.to_normalized.deep_view().contains(
                    hdv[q],
                ),
            forall|q: int|
                0 <= q < w ==> #[trigger] titles@[q] == ts.to_titlecase.deep_view().contains(
                    hdv[q],
                ),
            new_rows@.len() == i,
            forall|q: int|
                0 <= q < i ==> #[trigger] new_rows.deep_view()[q] == transform_row(
                    *ts,
                    hdv,
                    rdv[q],
                ),
            forall|q: int| 0 <= q < i ==> (#[trigger] new_rows@[q])@.len() == w,
            forall|q: int|
                0 <= q < i ==> row_normalize_stable(*ts, hdv, #[trigger] new_rows.deep_view()[q]),
        decreases batch.rows@.len() - i,
    {
        let row = &batch.rows[i];
        let mut new_row: Row = Vec::new();
        let mut j2: usize = 0;
        proof {
            assert(row@.len() == w);
            assert(row.deep_view() == rdv[i as int]);
        }
        while j2 < row.len()
            invariant
                j2 <= row@.len(),
                row@.len() == w,
                row.deep_view() == rdv[i as int],
                hdv == batch.header.deep_view(),
                ups@.len() == w && lows@.len() == w && norms@.len() == w && titles@.len() == w,
                forall|q: int|
                    0 <= q < w ==> #[trigger] ups@[q] == ts.to_uppercase.deep_view().contains(
                        hdv[q],
                    ),
                forall|q: int|
                    0 <= q < w ==> #[trigger] lows@[q] == ts.to_lowercase.deep_view().contains(
                        hdv[q],
                    ),
                forall|q: int|
                    0 <= q < w ==> #[trigger] norms@[q] == ts.to_normalized.deep_view().contains(
                        hdv[q],
                    ),
                forall|q: int|
                    0 <= q < w ==> #[trigger] titles@[q] == ts.to_titlecase.deep_view().contains(
                        hdv[q],
                    ),
                new_row@.len() == j2,
                forall|q: int|
                    0 <= q < j2 ==> #[trigger] new_row.deep_view()[q] == transformed_value(
                        *ts,
                        hdv[q],
                        rdv[i as int][q],
                    ),
                forall|q: int|
                    0 <= q < j2 && ts.to_normalized.deep_view().contains(hdv[q])
                        && !ts.to_titlecase.deep_view().contains(hdv[q]) ==> normalize_stable(
                        #[trigger] new_row.deep_view()[q],
                    ),
            decreases row@.len() - j2,
        {
            let cell = transform_cell(&row[j2], ups[j2], lows[j2], norms[j2], titles[j2]);
            let ghost old_nr = new_row.deep_view();
            proof {
                assert(row.deep_view()[j2 as int] == rdv[i as int][j2 as int]);
            }
            new_row.push(cell);
            proof {
                assert(new_row.deep_view() =~~= old_nr.push(
                    transformed_value(*ts, hdv[j2 as int], rdv[i as int][j2 as int]),
                ));
            }
            j2 = j2 + 1;
        }
        let ghost old_rows_dv = new_rows.deep_view();
        proof {
            assert(new_row.deep_view() =~= transform_row(*ts, hdv, rdv[i as int]));
            assert(row_normalize_stable(*ts, hdv, new_row.deep_view()));
        }
        new_rows.push(new_row);
        proof {
            assert(new_rows.deep_view() =~~= old_rows_dv.push(
                transform_row(*ts, hdv, rdv[i as int]),
            ));
        }
        i = i + 1;
    }
    let out = Batch { header: clone_header(&batch.header), rows: new_rows };
    proof {
        assert(out.rows.deep_view() =~= transform_rows(*ts, hdv, rdv));
        assert(out.header.deep_view().len() == out.header@.len());
        assert(hdv.len() == w);
        assert forall|q: int| 0 <= q < out.rows@.len() implies (#[trigger] out.rows@[q])@.len()
            == out.header@.len() by {
            assert(out.rows@[q]@.len() == w);
        }
    }
    out
}

/// Copies a header.
pub fn clone_header(header: &Vec<Vec<u8>>) -> (r: Vec<Vec<u8>>)
    ensures
        r.deep_view() == header.deep_view(),
{
    let mut r: Vec<Vec<u8>> = Vec::new();
    let mut i: usize = 0;
    while i < header.len()
        invariant
            i <= header@.len(),
            r.deep_view() == header.deep_view().take(i as int),
        decreases header@.len() - i,
    {
        let ghost old_r = r.deep_view();
        let part = clone_bytes(&header[i]);
        proof {
            assert(part@ == header@[i as int]@);
            assert(header.deep_view()[i as int] == header@[i as int]@);
        }
        r.push(part);
        proof {
            assert(r.deep_view() =~~= old_r.push(header.deep_view()[i as int]));
            assert(header.deep_view().take(i + 1) =~= header.deep_view().take(i as int).push(
                header.deep_view()[i as int],
            ));
        }
        i = i + 1;
    }
    proof {
        assert(header.deep_view().take(header@.len() as int) =~= header.deep_view());
    }
    r
}

/// Applies the configured transforms to a batch.  Fails with the first
/// missing column name exactly when some transform names a column that
/// the header lacks; otherwise returns the transformed batch.
pub fn apply(batch: &Batch, ts: &TransformSpec) -> (r: Result<Batch, SplitError>)
    requires
        batch.wf(),
    ensures
        match r {
            Ok(out) => {
                &&& all_columns_exist(*ts, batch.header.deep_view())
                &&& out.header.deep_view() == batch.header.deep_view()
                &&& out.rows.deep_view() == transform_rows(
                    *ts,
                    batch.header.deep_view(),
                    batch.rows.deep_view(),
                )
                &&& out.wf()
                &&& forall|i: int|
                    0 <= i < out.rows@.len() ==> row_normalize_stable(
                        *ts,
                        batch.header.deep_view(),
                        #[trigger] out.rows.deep_view()[i],
                    )
            },
            Err(e) => {
                &&& !all_columns_exist(*ts, batch.header.deep_view())
                &&& e matches SplitError::ColumnNotFound(c) && !batch.header.deep_view().contains(
                    c@,
                )
            },
        },
{
    match check_columns(ts, &batch.header) {
        Ok(()) => Ok(apply_checked(batch, ts)),
        Err(e) => Err(e),
    }
}

// ---------------------------------------------------------------------
// Laws of the transforms.
// ---------------------------------------------------------------------

/// Uppercase folding is idempotent: a value already fully uppercase —
/// one with no ASCII lowercase letters, in particular the output of the
/// uppercase transform itself — is returned unchanged.
pub proof fn lemma_uppercase_idempotent(s: Seq<u8>)
    ensures
        (forall|i: int| 0 <= i < s.len() ==> !is_ascii_lower(s[i])) ==> upper_seq(s) == s,
        upper_seq(upper_seq(s)) == upper_seq(s),
{
    if forall|i: int| 0 <= i < s.len() ==> !is_ascii_lower(s[i]) {
        assert(upper_seq(s) =~= s);
    }
    assert forall|i: int| 0 <= i < upper_seq(s).len() implies !is_ascii_lower(
        #[trigger] upper_seq(s)[i],
    ) by {
        assert(upper_seq(s)[i] == upper_byte(s[i]));
    }
    assert(upper_seq(upper_seq(s)) =~= upper_seq(s));
}

/// The transform order is fixed: a column targeted by both uppercase
/// and titlecase is uppercased first and title-cased second, whatever
/// the order the configuration was written in.
pub proof fn lemma_transform_order(ts: TransformSpec, name: Seq<u8>, s: Seq<u8>)
    requires
        ts.to_uppercase.deep_view().contains(name),
        ts.to_titlecase.deep_view().contains(name),
        !ts.to_lowercase.deep_view().contains(name),
        !ts.to_normalized.deep_view().contains(name),
    ensures
        transformed_value(ts, name, Some(s)) == Some(title_seq(upper_seq(s))),
{
}

/// Re-application stability of the normalize transform: under a
/// configuration that only normalizes, rows whose normalized cells are
/// already fixed points of the transliteration — which `apply`
/// guarantees of every batch it returns — come back unchanged from a
/// second transformation.  So applying normalize twice yields the same
/// batch as applying it once.
pub proof fn lemma_normalize_reapplication(
    ts: TransformSpec,
    header: Seq<Seq<u8>>,
    rows: Seq<Seq<Option<Seq<u8>>>>,
)
    requires
        ts.to_uppercase.deep_view().len() == 0,
        ts.to_lowercase.deep_view().len() == 0,
        ts.to_titlecase.deep_view().len() == 0,
        forall|i: int|
            0 <= i < rows.len() ==> row_normalize_stable(ts, header, #[trigger] rows[i]),
    ensures
        transform_rows(ts, header, rows) == rows,
{
    assert forall|i: int| 0 <= i < rows.len() implies #[trigger] transform_rows(
        ts,
        header,
        rows,
    )[i] == rows[i] by {
        assert(row_normalize_stable(ts, header, rows[i]));
        assert forall|j: int| 0 <= j < rows[i].len() implies #[trigger] transform_row(
            ts,
            header,
            rows[i],
        )[j] == rows[i][j] by {
            assert(!ts.to_uppercase.deep_view().contains(header[j]));
            assert(!ts.to_lowercase.deep_view().contains(header[j]));
            assert(!ts.to_titlecase.deep_view().contains(header[j]));
            if ts.to_normalized.deep_view().contains(header[j]) {
                assert(normalize_stable(rows[i][j]));
                match rows[i][j] {
                    Some(c) => {
                        assert(deunicode_of(c) == c);
                        assert(transformed_value(ts, header[j], rows[i][j]) == Some(c));
                    },
                    None => {},
                }
            }
        }
        assert(transform_row(ts, header, rows[i]) =~= rows[i]);
        assert(transform_rows(ts, header, rows)[i] == transform_row(ts, header, rows[i]));
    }
    assert(transform_rows(ts, header, rows) =~= rows);
}

} // verus!
