pub mod allocator;
pub mod batch;
pub mod chunker;
pub mod split;
pub mod transform;
pub mod text;

use vstd::prelude::*;

verus! {

/// Number of output files needed to hold `rows` data rows when each file
/// holds at most `per_file` rows: the ceiling of `rows / per_file`.
pub open spec fn num_files_for(rows: nat, per_file: nat) -> nat
    recommends
        per_file > 0,
{
    if rows % per_file == 0 {
        rows / per_file
    } else {
        rows / per_file + 1
    }
}

/// Computes how many output files a split will produce: `ceil(rows / per_file)`.
pub fn get_number_csv_files(rows: usize, per_file: usize) -> (n: usize)
    requires
        per_file > 0,
    ensures
        n == num_files_for(rows as nat, per_file as nat),
        n * per_file >= rows,
        rows > 0 ==> (n - 1) * per_file < rows,
        rows == 0 ==> n == 0,
{
    let q = rows / per_file;
    proof {
        let r = rows as int;
        let p = per_file as int;
        vstd::arithmetic::div_mod::lemma_fundamental_div_mod(r, p);
        vstd::arithmetic::div_mod::lemma_mod_division_less_than_divisor(r, p);
        vstd::arithmetic::div_mod::lemma_div_nonincreasing(r, p);
        vstd::arithmetic::div_mod::lemma_div_pos_is_pos(r, p);
        assert(r == p * (r / p) + r % p);
        if r % p == 0 {
            assert((r / p) * p == r && (r / p - 1) * p < r) by (nonlinear_arith)
                requires
                    r == p * (r / p) + r % p,
                    r % p == 0,
                    p >= 1,
            ;
        } else {
            assert(r / p < r && (r / p + 1) * p > r && (r / p) * p < r) by (nonlinear_arith)
                requires
                    r == p * (r / p) + r % p,
                    0 < r % p < p,
                    p >= 1,
                    0 <= r / p <= r,
            ;
        }
    }
    if rows % per_file == 0 {
        q
    } else {
        q + 1
    }
}

} // verus!
