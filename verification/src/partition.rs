//! Partitioning the output grid's rows into contiguous blocks, one per
//! parallel worker: every block but the last holds `rows / workers` rows,
//! and the last absorbs the remainder, so the blocks cover `0..rows`
//! exactly, with no row omitted or duplicated.

use vstd::prelude::*;

verus! {

use vstd::arithmetic::div_mod::lemma_fundamental_div_mod;
use vstd::arithmetic::div_mod::lemma_mod_bound;
use vstd::arithmetic::div_mod::lemma_div_pos_is_pos;
use vstd::arithmetic::mul::lemma_mul_inequality;

/// The half-open row range `[start, end)` of worker `i` out of `workers`.
pub open spec fn block_of(rows: int, workers: int, i: int) -> (int, int) {
    let size = rows / workers;
    if i == workers - 1 {
        (i * size, rows)
    } else {
        (i * size, (i + 1) * size)
    }
}

/// A row index lies within a half-open block.
pub open spec fn block_contains(b: (int, int), r: int) -> bool {
    b.0 <= r < b.1
}

/// Splits `0..rows` into one contiguous block per worker: block `i` is
/// exactly `block_of(rows, workers, i)`.
pub fn partition_rows(rows: usize, workers: usize) -> (blocks: Vec<(usize, usize)>)
    requires
        workers >= 1,
    ensures
        blocks@.len() == workers,
        forall|i: int|
            0 <= i < workers ==> ((#[trigger] blocks@[i]).0 as int, blocks@[i].1 as int)
                == block_of(rows as int, workers as int, i),
        forall|i: int|
            0 <= i < workers ==> (#[trigger] blocks@[i]).0 <= blocks@[i].1 <= rows,
{
    let size = rows / workers;
    proof {
        lemma_fundamental_div_mod(rows as int, workers as int);
        lemma_mod_bound(rows as int, workers as int);
        lemma_div_pos_is_pos(rows as int, workers as int);
    }
    let mut blocks: Vec<(usize, usize)> = Vec::new();
    let mut i: usize = 0;
    while i < workers
        invariant
            workers >= 1,
            i <= workers,
            size == rows as int / workers as int,
            size >= 0,
            workers * size <= rows,
            blocks@.len() == i,
            forall|j: int|
                0 <= j < i ==> ((#[trigger] blocks@[j]).0 as int, blocks@[j].1 as int)
                    == block_of(rows as int, workers as int, j),
            forall|j: int|
                0 <= j < i ==> (#[trigger] blocks@[j]).0 <= blocks@[j].1 <= rows,
        decreases workers - i,
    {
        proof {
            lemma_mul_inequality(i as int + 1, workers as int, size as int);
            lemma_mul_inequality(i as int, workers as int, size as int);
        }
        let start = i * size;
        let end = if i == workers - 1 {
            rows
        } else {
            (i + 1) * size
        };
        proof {
            assert(i * size <= (i + 1) * size) by (nonlinear_arith)
                requires
                    size >= 0,
                    i >= 0,
            ;
        }
        blocks.push((start, end));
        i = i + 1;
    }
    blocks
}

/// Law of row-partition completeness, coverage half: every row index below
/// `rows` lies in some worker's block.
pub proof fn lemma_partition_covers(rows: int, workers: int, r: int)
    requires
        workers >= 1,
        0 <= r < rows,
    ensures
        exists|i: int|
            0 <= i < workers && #[trigger] block_contains(block_of(rows, workers, i), r),
{
    let size = rows / workers;
    lemma_fundamental_div_mod(rows, workers);
    lemma_mod_bound(rows, workers);
    lemma_div_pos_is_pos(rows, workers);
    lemma_mul_inequality(workers - 1, workers, size);
    if r >= (workers - 1) * size {
        assert(block_contains(block_of(rows, workers, workers - 1), r));
    } else {
        assert(size >= 1) by (nonlinear_arith)
            requires
                0 <= r,
                r < (workers - 1) * size,
                workers >= 1,
        ;
        let i = r / size;
        lemma_fundamental_div_mod(r, size);
        lemma_mod_bound(r, size);
        lemma_div_pos_is_pos(r, size);
        assert(i * size <= r < (i + 1) * size) by (nonlinear_arith)
            requires
                r == size * i + r % size,
                0 <= r % size < size,
        ;
        assert(i < workers - 1) by (nonlinear_arith)
            requires
                r < (workers - 1) * size,
                i * size <= r,
                size >= 1,
                i >= 0,
                workers >= 1,
        ;
        assert(block_contains(block_of(rows, workers, i), r));
    }
}

/// Law of row-partition completeness, disjointness half: no row index lies
/// in two distinct workers' blocks.
pub proof fn lemma_partition_disjoint(rows: int, workers: int, r: int, i: int, j: int)
    requires
        rows >= 0,
        workers >= 1,
        0 <= i < j < workers,
        block_contains(block_of(rows, workers, i), r),
    ensures
        !block_contains(block_of(rows, workers, j), r),
{
    let size = rows / workers;
    lemma_fundamental_div_mod(rows, workers);
    lemma_mod_bound(rows, workers);
    lemma_div_pos_is_pos(rows, workers);
    lemma_mul_inequality(i + 1, j, size);
}

} // verus!

