use vstd::prelude::*;

verus! {

/// Number of columns classified side by side before their results are merged.
pub const BATCH_WIDTH: u32 = 10;

/// A run of consecutive columns `start..end`.
#[derive(Clone, Copy, Debug, PartialEq, Eq, Structural)]
pub struct ColumnBatch {
    pub start: u32,
    pub end: u32,
}

/// The `k`-th batch of an image `width` columns wide.
pub open spec fn batch(k: int, width: int) -> ColumnBatch {
    let start = k * BATCH_WIDTH;
    let end = if start + BATCH_WIDTH < width { start + BATCH_WIDTH } else { width };
    ColumnBatch { start: start as u32, end: end as u32 }
}

/// Splits the columns `0..width` into consecutive batches of `BATCH_WIDTH`
/// columns, the last one possibly shorter, in increasing order.
pub fn column_batches(width: u32) -> (r: Vec<ColumnBatch>)
    ensures
        r@.len() == (width + BATCH_WIDTH - 1) / BATCH_WIDTH as int,
        forall|k: int| 0 <= k < r@.len() ==> #[trigger] r@[k] == batch(k, width as int),
{
    let count: u64 = (width as u64 + BATCH_WIDTH as u64 - 1) / BATCH_WIDTH as u64;
    let mut batches: Vec<ColumnBatch> = Vec::new();
    let mut k: u64 = 0;
    while k < count
        invariant
            k <= count,
            count == (width + BATCH_WIDTH - 1) / BATCH_WIDTH as int,
            batches@.len() == k,
            forall|j: int| 0 <= j < k ==> #[trigger] batches@[j] == batch(j, width as int),
        decreases count - k,
    {
        assert(k * 10 < width) by (nonlinear_arith)
            requires
                k < count,
                count == (width + 9) / 10,
        ;
        let start: u32 = (k * BATCH_WIDTH as u64) as u32;
        let end: u32 = if width - start > BATCH_WIDTH {
            start + BATCH_WIDTH
        } else {
            width
        };
        batches.push(ColumnBatch { start, end });
        k = k + 1;
    }
    batches
}

} // verus!
