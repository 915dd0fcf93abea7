use vstd::prelude::*;

use crate::batch::Row;
use crate::num_files_for;

verus! {

/// The rows grouped into consecutive chunks of `k`: every chunk holds
/// exactly `k` rows except possibly the last.  Output files are cut
/// strictly by this absolute row count, never by batch boundaries.
pub open spec fn chunks_of<T>(rows: Seq<T>, k: nat) -> Seq<Seq<T>>
    recommends
        k > 0,
    decreases rows.len(),
    when k > 0
{
    if rows.len() == 0 {
        Seq::empty()
    } else if rows.len() <= k {
        seq![rows]
    } else {
        seq![rows.take(k as int)] + chunks_of(rows.skip(k as int), k)
    }
}

/// There are exactly `ceil(rows / k)` chunks.
pub proof fn lemma_chunks_count<T>(rows: Seq<T>, k: nat)
    requires
        k > 0,
    ensures
        chunks_of(rows, k).len() == num_files_for(rows.len(), k),
    decreases rows.len(),
{
    let l = rows.len() as int;
    let ki = k as int;
    if rows.len() == 0 {
        vstd::arithmetic::div_mod::lemma_fundamental_div_mod_converse(l, ki, 0, 0);
    } else if rows.len() < k {
        vstd::arithmetic::div_mod::lemma_fundamental_div_mod_converse(l, ki, 0, l);
    } else if rows.len() == k {
        assert(l == 1 * ki + 0);
        vstd::arithmetic::div_mod::lemma_fundamental_div_mod_converse(l, ki, 1, 0);
    } else {
        lemma_chunks_count(rows.skip(ki), k);
        vstd::arithmetic::div_mod::lemma_fundamental_div_mod(l, ki);
        vstd::arithmetic::div_mod::lemma_mod_division_less_than_divisor(l, ki);
        assert(l - ki == (l / ki - 1) * ki + l % ki) by (nonlinear_arith)
            requires
                l == ki * (l / ki) + l % ki,
        ;
        vstd::arithmetic::div_mod::lemma_fundamental_div_mod_converse(
            l - ki,
            ki,
            l / ki - 1,
            l % ki,
        );
        assert(rows.skip(ki).len() == l - ki);
    }
}

/// Chunking conserves the rows: the chunks, concatenated in order, are
/// exactly the rows that went in — none duplicated, none dropped.
pub proof fn lemma_chunks_flatten<T>(rows: Seq<T>, k: nat)
    requires
        k > 0,
    ensures
        chunks_of(rows, k).flatten() == rows,
    decreases rows.len(),
{
    if rows.len() == 0 {
        assert(chunks_of(rows, k).flatten() =~= rows);
    } else if rows.len() <= k {
        chunks_of(rows, k).lemma_flatten_one_element();
        assert(chunks_of(rows, k).flatten() == rows);
    } else {
        lemma_chunks_flatten(rows.skip(k as int), k);
        vstd::seq_lib::lemma_flatten_concat(
            seq![rows.take(k as int)],
            chunks_of(rows.skip(k as int), k),
        );
        seq![rows.take(k as int)].lemma_flatten_one_element();
        assert(rows.take(k as int) + rows.skip(k as int) =~= rows);
    }
}

/// Every chunk but the last holds exactly `k` rows; the last holds
/// `rows.len() % k` rows, or `k` when the length divides evenly.
pub proof fn lemma_chunks_sizes<T>(rows: Seq<T>, k: nat)
    requires
        k > 0,
    ensures
        forall|i: int|
            0 <= i < chunks_of(rows, k).len() - 1 ==> (#[trigger] chunks_of(rows, k)[i]).len()
                == k,
        chunks_of(rows, k).len() > 0 ==> chunks_of(rows, k).last().len() == (
        if rows.len() % k == 0 {
            k as int
        } else {
            (rows.len() % k) as int
        }),
    decreases rows.len(),
{
    let l = rows.len() as int;
    let ki = k as int;
    if rows.len() == 0 {
    } else if rows.len() < k {
        vstd::arithmetic::div_mod::lemma_fundamental_div_mod_converse(l, ki, 0, l);
    } else if rows.len() == k {
        assert(l == 1 * ki + 0);
        vstd::arithmetic::div_mod::lemma_fundamental_div_mod_converse(l, ki, 1, 0);
    } else {
        lemma_chunks_sizes(rows.skip(ki), k);
        vstd::arithmetic::div_mod::lemma_fundamental_div_mod(l, ki);
        vstd::arithmetic::div_mod::lemma_mod_division_less_than_divisor(l, ki);
        assert(l - ki == (l / ki - 1) * ki + l % ki) by (nonlinear_arith)
            requires
                l == ki * (l / ki) + l % ki,
        ;
        vstd::arithmetic::div_mod::lemma_fundamental_div_mod_converse(
            l - ki,
            ki,
            l / ki - 1,
            l % ki,
        );
        let cs = chunks_of(rows, k);
        let rest = chunks_of(rows.skip(ki), k);
        assert(rows.skip(ki).len() > 0);
        assert(cs.last() == rest.last());
        assert forall|i: int| 0 <= i < cs.len() - 1 implies (#[trigger] cs[i]).len() == k by {
            if i > 0 {
                assert(cs[i] == rest[i - 1]);
            }
        }
    }
}

/// Chunking cuts at absolute row counts, so feeding the rows through in
/// batches whose sizes are multiples of `k` cuts exactly as chunking the
/// whole would: batch boundaries are never visible in the chunks.
pub proof fn lemma_chunks_append<T>(a: Seq<T>, b: Seq<T>, k: nat)
    requires
        k > 0,
        a.len() % k == 0,
    ensures
        chunks_of(a + b, k) == chunks_of(a, k) + chunks_of(b, k),
    decreases a.len(),
{
    let ki = k as int;
    if a.len() == 0 {
        assert(a + b =~= b);
        assert(chunks_of(a + b, k) =~= chunks_of(a, k) + chunks_of(b, k));
    } else {
        if a.len() < k {
            vstd::arithmetic::div_mod::lemma_fundamental_div_mod_converse(
                a.len() as int,
                ki,
                0,
                a.len() as int,
            );
            assert(false);
        }
        assert(a.len() >= k);
        vstd::arithmetic::div_mod::lemma_mod_sub_multiples_vanish(a.len() as int, ki);
        assert((a.len() - k) % (k as int) == 0);
        assert(a.skip(ki).len() % k == 0);
        lemma_chunks_append(a.skip(ki), b, k);
        if a.len() == k && b.len() == 0 {
            assert(a + b =~= a);
            assert(chunks_of(b, k) =~= Seq::<Seq<T>>::empty());
            assert(chunks_of(a.skip(ki), k) =~= Seq::<Seq<T>>::empty());
            assert(chunks_of(a, k) + chunks_of(b, k) =~= chunks_of(a, k));
        } else {
            assert((a + b).len() > k);
            assert((a + b).take(ki) =~= a.take(ki));
            assert((a + b).skip(ki) =~= a.skip(ki) + b);
            if a.len() == k {
                assert(a.skip(ki) =~= Seq::<T>::empty());
                assert(chunks_of(a.skip(ki), k) =~= Seq::<Seq<T>>::empty());
                assert(a.take(ki) =~= a);
                assert(chunks_of(a + b, k) =~= chunks_of(a, k) + chunks_of(b, k));
            } else {
                assert(chunks_of(a, k) == seq![a.take(ki)] + chunks_of(a.skip(ki), k));
                assert(chunks_of(a + b, k) =~= chunks_of(a, k) + chunks_of(b, k));
            }
        }
    }
}

/// Each chunk is the slice of the rows cut at absolute row counts:
/// chunk `i` holds rows `i*k` up to `min((i+1)*k, rows.len())`.
pub proof fn lemma_chunks_index<T>(rows: Seq<T>, k: nat, i: int)
    requires
        k > 0,
        0 <= i < chunks_of(rows, k).len(),
    ensures
        0 <= i * (k as int) < rows.len(),
        chunks_of(rows, k)[i] == rows.subrange(
            i * (k as int),
            vstd::math::min(rows.len() as int, (i + 1) * (k as int)),
        ),
    decreases i,
{
    let ki = k as int;
    if i == 0 {
        assert(chunks_of(rows, k).len() > 0);
        assert(rows.len() > 0);
        assert(i * ki == 0 && (i + 1) * ki == ki) by (nonlinear_arith)
            requires
                i == 0,
        ;
        if rows.len() <= k {
            assert(chunks_of(rows, k)[0] =~= rows.subrange(0, rows.len() as int));
        } else {
            assert(chunks_of(rows, k)[0] =~= rows.subrange(0, ki));
        }
    } else {
        assert(rows.len() > k);
        let rest = rows.skip(ki);
        assert(chunks_of(rows, k) == seq![rows.take(ki)] + chunks_of(rest, k));
        assert(chunks_of(rows, k)[i] == chunks_of(rest, k)[i - 1]);
        assert(0 <= i - 1 < chunks_of(rest, k).len());
        lemma_chunks_index(rest, k, i - 1);
        assert((i - 1) * ki == i * ki - ki && (i + 1) * ki == i * ki + ki) by (nonlinear_arith);
        assert(rest.len() == rows.len() - ki);
        assert(0 <= i * ki < rows.len());
        assert(rest.subrange(
            (i - 1) * ki,
            vstd::math::min(rest.len() as int, i * ki),
        ) =~= rows.subrange(i * ki, vstd::math::min(rows.len() as int, (i + 1) * ki)));
    }
}

/// The `i`-th chunk of the rows, as the chunking cuts it: rows
/// `i*k` up to `min((i+1)*k, rows.len())`.  This is the slice one
/// concurrent writer renders into its own output file.
pub fn nth_chunk(rows: &Vec<Row>, k: usize, i: usize) -> (out: Vec<Row>)
    requires
        k >= 1,
        (i as int) < chunks_of(rows.deep_view(), k as nat).len(),
    ensures
        out.deep_view() == chunks_of(rows.deep_view(), k as nat)[i as int],
{
    let len = rows.len();
    proof {
        lemma_chunks_index(rows.deep_view(), k as nat, i as int);
        assert(rows.deep_view().len() == rows@.len());
        assert((i as int) * (k as int) < len);
    }
    let start = i * k;
    let end = if len - start > k {
        start + k
    } else {
        len
    };
    proof {
        assert(((i as int) + 1) * (k as int) == (i as int) * (k as int) + (k as int))
            by (nonlinear_arith);
        assert(end == vstd::math::min(rows@.len() as int, (i + 1) * (k as int)));
    }
    let mut out: Vec<Row> = Vec::new();
    let mut j: usize = start;
    proof {
        assert(out.deep_view() =~= rows.deep_view().subrange(start as int, start as int));
    }
    while j < end
        invariant
            start <= j <= end,
            end <= rows@.len(),
            out.deep_view() == rows.deep_view().subrange(start as int, j as int),
        decreases end - j,
    {
        let ghost old_out = out.deep_view();
        let row = crate::batch::clone_row(&rows[j]);
        proof {
            assert(row.deep_view() == rows.deep_view()[j as int]);
        }
        out.push(row);
        proof {
            assert(out.deep_view() =~~= old_out.push(rows.deep_view()[j as int]));
            assert(rows.deep_view().subrange(start as int, j + 1) =~= rows.deep_view().subrange(
                start as int,
                j as int,
            ).push(rows.deep_view()[j as int]));
        }
        j = j + 1;
    }
    out
}

/// Reads the input in bounded batches: each call returns the next
/// `chunk_size` rows until the rows are exhausted, never re-reading a
/// row and never restarting.
pub struct CsvChunkReader {
    rows: Vec<Row>,
    chunk_size: usize,
}

impl CsvChunkReader {
    /// The rows not yet handed out, in input order.
    pub closed spec fn remaining(self) -> Seq<Seq<Option<Seq<u8>>>> {
        self.rows.deep_view()
    }

    /// How many rows one batch holds at most.
    pub closed spec fn chunk_len(self) -> nat {
        self.chunk_size as nat
    }

    /// A reader over `rows` that hands out batches of `chunk_size`.
    pub fn new(rows: Vec<Row>, chunk_size: usize) -> (r: CsvChunkReader)
        requires
            chunk_size >= 1,
        ensures
            r.remaining() == rows.deep_view(),
            r.chunk_len() == chunk_size,
    {
        CsvChunkReader { rows, chunk_size }
    }

    /// How many rows are still unread.
    pub fn remaining_len(&self) -> (n: usize)
        ensures
            n == self.remaining().len(),
    {
        self.rows.len()
    }

    /// The next batch of rows: the first `chunk_size` still unread (all
    /// of them when fewer are left), or `None` at end of input.
    pub fn next_chunk(&mut self) -> (r: Option<Vec<Row>>)
        ensures
            final(self).chunk_len() == old(self).chunk_len(),
            (r is None) <==> old(self).remaining().len() == 0,
            r is None ==> final(self).remaining() == old(self).remaining(),
            r matches Some(b) ==> {
                let m = vstd::math::min(
                    old(self).chunk_len() as int,
                    old(self).remaining().len() as int,
                );
                &&& b.deep_view() == old(self).remaining().take(m)
                &&& final(self).remaining() == old(self).remaining().skip(m)
            },
    {
        if self.rows.len() == 0 {
            return None;
        }
        let n = if self.chunk_size < self.rows.len() {
            self.chunk_size
        } else {
            self.rows.len()
        };
        let mut batch = self.rows.split_off(0);
        let tail = batch.split_off(n);
        self.rows = tail;
        proof {
            let m = vstd::math::min(old(self).chunk_len() as int, old(self).remaining().len() as int);
            assert(batch.deep_view() =~= old(self).remaining().take(m));
            assert(self.rows.deep_view() =~= old(self).remaining().skip(m));
        }
        Some(batch)
    }
}

} // verus!
