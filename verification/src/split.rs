use vstd::prelude::*;

use crate::allocator::OutputIndexAllocator;
use crate::batch::{render_rows, Batch, Row, SplitError};
use crate::batch::render_csv;
use crate::chunker::{chunks_of, lemma_chunks_append, lemma_chunks_count, CsvChunkReader};
use crate::get_number_csv_files;
use crate::num_files_for;
use crate::transform::{
    all_columns_exist, apply_checked, check_columns, clone_header, transform_rows, TransformSpec,
};

verus! {

/// One finished output file: its sequence number and its rendered
/// delimited text.  The file is named `{stem}-{index}.csv` by the caller.
pub struct OutputFile {
    pub index: usize,
    pub content: Vec<u8>,
}

/// Splits the rows into output files of `rows_per_file` rows each,
/// applying the configured column transforms first.
///
/// The rows are consumed through a bounded reader in batches of
/// `chunk_size` (a multiple of `rows_per_file`, so batch boundaries are
/// never visible in the output), and the files draw their indices from
/// an allocator seeded with `1..=N`, `N = ceil(rows / rows_per_file)`.
///
/// On success there are exactly `N` files; file `i` (counting from 0)
/// carries index `i + 1` and renders the `i`-th chunk of the
/// transformed rows under the header.  The run fails exactly when a
/// transform names a column the header lacks.
pub fn run_split(
    header: &Vec<Vec<u8>>,
    rows: Vec<Row>,
    ts: &TransformSpec,
    rows_per_file: usize,
    chunk_size: usize,
    delimiter: u8,
) -> (r: Result<Vec<OutputFile>, SplitError>)
    requires
        rows_per_file >= 1,
        chunk_size >= 1,
        chunk_size % rows_per_file == 0,
        forall|i: int| 0 <= i < rows@.len() ==> (#[trigger] rows@[i])@.len() == header@.len(),
    ensures
        match r {
            Ok(files) => {
                let t = transform_rows(*ts, header.deep_view(), rows.deep_view());
                let cs = chunks_of(t, rows_per_file as nat);
                &&& all_columns_exist(*ts, header.deep_view())
                &&& files@.len() == cs.len()
                &&& cs.len() == num_files_for(rows@.len() as nat, rows_per_file as nat)
                &&& forall|i: int|
                    0 <= i < files@.len() ==> (#[trigger] files@[i]).index == i + 1
                &&& forall|i: int|
                    0 <= i < files@.len() ==> (#[trigger] files@[i]).content@ == render_rows(
                        header.deep_view(),
                        cs[i],
                        delimiter,
                    )
            },
            Err(e) => {
                &&& !all_columns_exist(*ts, header.deep_view())
                &&& e matches SplitError::ColumnNotFound(c) && !header.deep_view().contains(c@)
            },
        },
{
    let ghost hdv = header.deep_view();
    let ghost t_all = transform_rows(*ts, hdv, rows.deep_view());
    let ghost k = rows_per_file as nat;
    let ghost cs = chunks_of(t_all, k);

    match check_columns(ts, header) {
        Err(e) => {
            return Err(e);
        },
        Ok(()) => {},
    }

    let total_rows = rows.len();
    let n = get_number_csv_files(total_rows, rows_per_file);
    proof {
        lemma_chunks_count(t_all, k);
        assert(t_all.len() == rows.deep_view().len());
        assert(rows.deep_view().len() == rows@.len());
        assert(cs.len() == n);
    }
    let mut indexes = OutputIndexAllocator::new(n);
    let mut reader = CsvChunkReader::new(rows, chunk_size);
    let mut files: Vec<OutputFile> = Vec::new();

    proof {
        assert(cs.skip(0) =~= cs);
        assert(transform_rows(*ts, hdv, reader.remaining()) == t_all);
        crate::allocator::lemma_allocator_accounting(indexes);
        assert(indexes.seeded().len() == n);
    }

    while reader.remaining_len() > 0
        invariant
            rows_per_file >= 1,
            chunk_size >= 1,
            chunk_size % rows_per_file == 0,
            k == rows_per_file as nat,
            cs == chunks_of(t_all, k),
            hdv == header.deep_view(),
            reader.chunk_len() == chunk_size,
            forall|i: int|
                0 <= i < reader.remaining().len() ==> (#[trigger] reader.remaining()[i]).len()
                    == hdv.len(),
            indexes.wf(),
            indexes.seeded().len() == n,
            indexes.handed_out().len() == files@.len(),
            n == cs.len(),
            files@.len() <= cs.len(),
            cs.skip(files@.len() as int) == chunks_of(
                transform_rows(*ts, hdv, reader.remaining()),
                k,
            ),
            forall|i: int| 0 <= i < files@.len() ==> (#[trigger] files@[i]).index == i + 1,
            forall|i: int|
                0 <= i < files@.len() ==> (#[trigger] files@[i]).content@ == render_rows(
                    hdv,
                    cs[i],
                    delimiter,
                ),
        decreases reader.remaining().len(),
    {
        let ghost rrem = reader.remaining();
        let ghost t_rem = transform_rows(*ts, hdv, rrem);
        let batch_rows = match reader.next_chunk() {
            Some(b) => b,
            // The loop condition guarantees rows remain.
            None => vstd::pervasive::unreached(),
        };
        let ghost m = vstd::math::min(chunk_size as int, rrem.len() as int);
        let ghost bd = batch_rows.deep_view();

        let batch = Batch { header: clone_header(header), rows: batch_rows };
        proof {
            assert(batch.header@.len() == batch.header.deep_view().len());
            assert(batch.header.deep_view().len() == hdv.len());
            assert(batch.rows.deep_view() == bd);
            assert(bd == rrem.take(m));
            assert(0 <= m <= rrem.len());
            assert(bd.len() == m);
            assert(batch.rows@.len() == bd.len());
            assert forall|i: int| 0 <= i < batch.rows@.len() implies (#[trigger] batch.rows@[i])@.len()
                == batch.header@.len() by {
                assert(0 <= i < m);
                assert(bd[i] == rrem.take(m)[i]);
                assert(rrem.take(m)[i] == rrem[i]);
                assert(rrem[i].len() == hdv.len());
                assert(batch.rows.deep_view()[i] == batch.rows@[i].deep_view());
                assert(batch.rows@[i].deep_view().len() == batch.rows@[i]@.len());
            }
        }
        let transformed = apply_checked(&batch, ts);
        let ghost t_b = transformed.rows.deep_view();
        proof {
            // The transformed batch is the matching slice of the
            // transformed remainder.
            assert(t_b == transform_rows(*ts, hdv, bd));
            assert(t_b =~= t_rem.take(m));
            assert(transform_rows(*ts, hdv, reader.remaining()) =~= t_rem.skip(m));
            // Chunking the remainder splits at the batch boundary.
            if m == chunk_size as int && m < rrem.len() {
                vstd::arithmetic::div_mod::lemma_mod_multiples_basic(
                    (chunk_size as int) / (rows_per_file as int),
                    rows_per_file as int,
                );
                assert(t_b.len() % k == 0) by {
                    assert(t_b.len() == chunk_size);
                    assert(chunk_size as int % (rows_per_file as int) == 0);
                };
                lemma_chunks_append(t_b, t_rem.skip(m), k);
                assert(t_b + t_rem.skip(m) =~= t_rem);
            } else {
                assert(m == rrem.len());
                assert(t_rem.skip(m) =~= Seq::<Seq<Option<Seq<u8>>>>::empty());
                assert(t_b =~= t_rem);
                assert(chunks_of(t_rem.skip(m), k) =~= Seq::<Seq<Seq<Option<Seq<u8>>>>>::empty());
                assert(chunks_of(t_rem, k) =~= chunks_of(t_b, k) + chunks_of(t_rem.skip(m), k));
            }
            assert(cs.skip(files@.len() as int) == chunks_of(t_b, k) + chunks_of(
                t_rem.skip(m),
                k,
            ));
        }

        let mut cv = transformed.rows;
        while cv.len() > 0
            invariant
                rows_per_file >= 1,
                k == rows_per_file as nat,
                cs == chunks_of(t_all, k),
                hdv == header.deep_view(),
                indexes.wf(),
                indexes.seeded().len() == n,
                indexes.handed_out().len() == files@.len(),
                n == cs.len(),
                files@.len() <= cs.len(),
                cs.skip(files@.len() as int) == chunks_of(cv.deep_view(), k) + chunks_of(
                    transform_rows(*ts, hdv, reader.remaining()),
                    k,
                ),
                forall|i: int| 0 <= i < files@.len() ==> (#[trigger] files@[i]).index == i + 1,
                forall|i: int|
                    0 <= i < files@.len() ==> (#[trigger] files@[i]).content@ == render_rows(
                        hdv,
                        cs[i],
                        delimiter,
                    ),
            decreases cv.len(),
        {
            let ghost cvd = cv.deep_view();
            let ghost fl = files@.len() as int;
            let take_n = if rows_per_file < cv.len() {
                rows_per_file
            } else {
                cv.len()
            };
            let tail = cv.split_off(take_n);
            proof {
                // One chunk peels off the front.
                if cvd.len() <= k {
                    assert(cv.deep_view() =~= cvd);
                    assert(tail.deep_view() =~= Seq::<Seq<Option<Seq<u8>>>>::empty());
                    assert(chunks_of(cvd, k) == seq![cvd]);
                    assert(chunks_of(tail.deep_view(), k) =~= Seq::<
                        Seq<Seq<Option<Seq<u8>>>>,
                    >::empty());
                    assert(seq![cvd] =~= seq![cv.deep_view()] + chunks_of(tail.deep_view(), k));
                } else {
                    assert(cv.deep_view() =~= cvd.take(k as int));
                    assert(tail.deep_view() =~= cvd.skip(k as int));
                }
                assert(chunks_of(cvd, k) == seq![cv.deep_view()] + chunks_of(
                    tail.deep_view(),
                    k,
                ));
                assert(cs.skip(fl).len() >= 1);
                assert(fl < cs.len());
                assert(cs.skip(fl)[0] == cs[fl]);
                assert(cs[fl] == cv.deep_view());
                // The allocator still holds indices, the next being fl + 1.
                crate::allocator::lemma_allocator_accounting(indexes);
                assert(indexes.remaining().len() == n - fl);
                assert(indexes.seeded()[fl] == fl + 1);
                assert(indexes.remaining()[0] == (indexes.handed_out() + indexes.remaining())[fl]);
            }
            // Exhaustion is unreachable: the allocator was seeded with one
            // index per chunk, and a chunk is still pending.
            let idx = match indexes.take() {
                Some(idx) => idx,
                None => vstd::pervasive::unreached(),
            };
            let content = render_csv(header, &cv, delimiter);
            let ghost old_files = files@;
            files.push(OutputFile { index: idx, content });
            proof {
                assert(files@ =~= old_files.push(files@[fl]));
                assert(files@[fl].index == fl + 1);
                assert(files@[fl].content@ == render_rows(hdv, cs[fl], delimiter));
                assert(cs.skip(fl + 1) =~= cs.skip(fl).drop_first());
                assert(chunks_of(cvd, k).drop_first() =~= chunks_of(tail.deep_view(), k));
                assert(cs.skip(fl + 1) =~= chunks_of(tail.deep_view(), k) + chunks_of(
                    transform_rows(*ts, hdv, reader.remaining()),
                    k,
                ));
            }
            cv = tail;
        }
        proof {
            assert(cv.deep_view().len() == 0);
            assert(chunks_of(cv.deep_view(), k) =~= Seq::<Seq<Seq<Option<Seq<u8>>>>>::empty());
            assert(cs.skip(files@.len() as int) =~= chunks_of(
                transform_rows(*ts, hdv, reader.remaining()),
                k,
            ));
        }
    }
    proof {
        assert(reader.remaining().len() == 0);
        assert(transform_rows(*ts, hdv, reader.remaining()).len() == 0);
        assert(chunks_of(transform_rows(*ts, hdv, reader.remaining()), k) =~= Seq::<
            Seq<Seq<Option<Seq<u8>>>>,
        >::empty());
        assert(cs.skip(files@.len() as int).len() == 0);
        assert(files@.len() == cs.len());
    }
    Ok(files)
}

/// The indices of a finished split form exactly the set `{1, ..., N}`:
/// the `i`-th file carries index `i + 1`, so there is no duplicate and
/// no gap, whatever batch size or interleaving produced the files.
pub proof fn lemma_indices_exact(files: Seq<OutputFile>)
    requires
        forall|i: int| 0 <= i < files.len() ==> (#[trigger] files[i]).index == i + 1,
    ensures
        files.map_values(|f: OutputFile| f.index as int).to_set() == Set::new(
            |x: int| 1 <= x <= files.len(),
        ),
        forall|i: int, j: int|
            0 <= i < j < files.len() ==> files[i].index != files[j].index,
{
    let s = files.map_values(|f: OutputFile| f.index as int);
    assert forall|x: int| Set::new(|y: int| 1 <= y <= files.len()).contains(x) implies s.to_set()
        .contains(x) by {
        assert(files[x - 1].index == x);
        assert(s[x - 1] == x);
        assert(s.contains(x));
    }
    assert forall|x: int| s.to_set().contains(x) implies Set::new(
        |y: int| 1 <= y <= files.len(),
    ).contains(x) by {
        assert(s.contains(x));
        let i = choose|i: int| 0 <= i < s.len() && s[i] == x;
        assert(files[i].index == i + 1);
    }
    assert(s.to_set() =~= Set::new(|x: int| 1 <= x <= files.len()));
}

} // verus!
