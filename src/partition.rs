use vstd::prelude::*;

verus! {

/// A half-open range `[start, end)` of row indices. The header is row 0 and
/// is never part of a range's count of data rows; `start >= end` is an empty
/// range.
#[derive(Clone, Copy, Debug, PartialEq, Eq, Structural)]
pub struct RowRange {
    pub start: usize,
    pub end: usize,
}

/// `ceil(total_rows / max_lines_per_chunk)`.
pub open spec fn chunk_count_spec(total_rows: nat, max_lines_per_chunk: nat) -> nat
    recommends
        max_lines_per_chunk > 0,
{
    if total_rows % max_lines_per_chunk == 0 {
        total_rows / max_lines_per_chunk
    } else {
        total_rows / max_lines_per_chunk + 1
    }
}

/// Rows given to each worker of a chunk: the chunk size divided by the number
/// of workers, rounded down.
pub open spec fn share(max_lines_per_chunk: nat, worker_count: nat) -> nat
    recommends
        worker_count > 0,
{
    max_lines_per_chunk / worker_count
}

/// First row of worker `worker_id` in chunk `chunk_index`.
pub open spec fn range_start(
    chunk_index: nat,
    max_lines_per_chunk: nat,
    worker_count: nat,
    worker_id: nat,
) -> nat {
    chunk_index * max_lines_per_chunk + worker_id * share(max_lines_per_chunk, worker_count)
}

/// End (exclusive) of the range of worker `worker_id` in chunk `chunk_index`,
/// clipped to `total_rows`.
pub open spec fn range_end(
    chunk_index: nat,
    max_lines_per_chunk: nat,
    worker_count: nat,
    total_rows: nat,
    worker_id: nat,
) -> nat {
    let s = range_start(chunk_index, max_lines_per_chunk, worker_count, worker_id);
    let e = s + share(max_lines_per_chunk, worker_count);
    if e < total_rows {
        e
    } else {
        total_rows
    }
}

/// Number of chunks needed for `total_rows` rows at `max_lines_per_chunk`
/// rows each: the quotient rounded up.
pub fn chunk_count(total_rows: usize, max_lines_per_chunk: usize) -> (r: usize)
    requires
        max_lines_per_chunk > 0,
    ensures
        r as nat == chunk_count_spec(total_rows as nat, max_lines_per_chunk as nat),
        r * max_lines_per_chunk >= total_rows,
        r == 0 || (r - 1) * max_lines_per_chunk < total_rows,
        r == 0 <==> total_rows == 0,
{
    proof {
        lemma_chunk_count_is_ceiling(total_rows as nat, max_lines_per_chunk as nat);
    }
    let q: usize = total_rows / max_lines_per_chunk;
    if total_rows % max_lines_per_chunk == 0 {
        q
    } else {
        assert(q < total_rows) by (nonlinear_arith)
            requires
                q == total_rows / max_lines_per_chunk,
                total_rows % max_lines_per_chunk != 0,
                max_lines_per_chunk > 0,
        {
            if max_lines_per_chunk == 1 {
                assert(total_rows % 1 == 0);
            }
        }
        q + 1
    }
}

/// The chunk count is `ceil(total_rows / max_lines_per_chunk)`: the smallest
/// number of chunks of that size that hold every row. It is zero exactly when
/// there are no rows.
pub proof fn lemma_chunk_count_is_ceiling(total_rows: nat, max_lines_per_chunk: nat)
    requires
        max_lines_per_chunk > 0,
    ensures
        chunk_count_spec(total_rows, max_lines_per_chunk) * max_lines_per_chunk >= total_rows,
        chunk_count_spec(total_rows, max_lines_per_chunk) == 0 || (chunk_count_spec(
            total_rows,
            max_lines_per_chunk,
        ) - 1) * max_lines_per_chunk < total_rows,
        chunk_count_spec(total_rows, max_lines_per_chunk) == 0 <==> total_rows == 0,
{
    let m = max_lines_per_chunk;
    let q = total_rows / m;
    let rem = total_rows % m;
    assert(total_rows == q * m + rem && rem < m) by (nonlinear_arith)
        requires
            q == total_rows / m,
            rem == total_rows % m,
            m > 0,
    ;
    if rem == 0 {
        assert(q * m == total_rows);
        if q > 0 {
            assert((q - 1) * m == q * m - m) by (nonlinear_arith);
        }
    } else {
        assert((q + 1) * m == q * m + m) by (nonlinear_arith);
        assert(((q + 1) - 1) * m == q * m);
    }
}

/// The rows of worker `worker_id` in chunk `chunk_index`:
/// `start = chunk_index * max_lines_per_chunk + worker_id * (max_lines_per_chunk / worker_count)`
/// and `end = min(start + max_lines_per_chunk / worker_count, total_rows)`.
///
/// Each worker gets the same share, rounded down. When the chunk size is not a
/// multiple of the worker count, the rows between the last worker's end and
/// the end of the chunk belong to no worker and are left out of the output.
/// This is a deliberate choice: the remainder is dropped rather than handed to
/// the last worker, and `lemma_output_preserves_rows` states exactly which
/// rows that leaves out.
pub fn worker_range(
    chunk_index: usize,
    max_lines_per_chunk: usize,
    worker_count: usize,
    total_rows: usize,
    worker_id: usize,
) -> (r: RowRange)
    requires
        worker_count > 0,
        worker_id < worker_count,
        (chunk_index + 1) * max_lines_per_chunk <= usize::MAX,
    ensures
        r.start as nat == range_start(
            chunk_index as nat,
            max_lines_per_chunk as nat,
            worker_count as nat,
            worker_id as nat,
        ),
        r.end as nat == range_end(
            chunk_index as nat,
            max_lines_per_chunk as nat,
            worker_count as nat,
            total_rows as nat,
            worker_id as nat,
        ),
{
    let q: usize = max_lines_per_chunk / worker_count;
    proof {
        lemma_share_fits(chunk_index as nat, max_lines_per_chunk as nat, worker_count as nat, worker_id as nat);
    }
    let base: usize = chunk_index * max_lines_per_chunk;
    let offset: usize = worker_id * q;
    let start: usize = base + offset;
    let stop: usize = start + q;
    let end: usize = if stop < total_rows {
        stop
    } else {
        total_rows
    };
    RowRange { start, end }
}

/// A worker's range, before clipping, ends no later than its chunk does.
proof fn lemma_share_fits(
    chunk_index: nat,
    max_lines_per_chunk: nat,
    worker_count: nat,
    worker_id: nat,
)
    requires
        worker_count > 0,
        worker_id < worker_count,
    ensures
        chunk_index * max_lines_per_chunk <= (chunk_index + 1) * max_lines_per_chunk,
        range_start(chunk_index, max_lines_per_chunk, worker_count, worker_id) + share(
            max_lines_per_chunk,
            worker_count,
        ) <= (chunk_index + 1) * max_lines_per_chunk,
        worker_id * share(max_lines_per_chunk, worker_count) + share(
            max_lines_per_chunk,
            worker_count,
        ) <= max_lines_per_chunk,
{
    let m = max_lines_per_chunk;
    let w = worker_count;
    let q = m / w;
    assert(q * w <= m) by (nonlinear_arith)
        requires
            q == m / w,
            w > 0,
    ;
    assert(worker_id * q + q <= w * q) by (nonlinear_arith)
        requires
            worker_id < w,
    ;
    assert((chunk_index + 1) * m == chunk_index * m + m) by (nonlinear_arith);
}

/// The ranges of all workers of chunk `chunk_index`, in worker order.
pub fn partition(
    chunk_index: usize,
    max_lines_per_chunk: usize,
    worker_count: usize,
    total_rows: usize,
) -> (r: Vec<RowRange>)
    requires
        worker_count > 0,
        (chunk_index + 1) * max_lines_per_chunk <= usize::MAX,
    ensures
        r@.len() == worker_count,
        forall|i: int|
            0 <= i < worker_count ==> {
                &&& #[trigger] r@[i].start as nat == range_start(
                    chunk_index as nat,
                    max_lines_per_chunk as nat,
                    worker_count as nat,
                    i as nat,
                )
                &&& r@[i].end as nat == range_end(
                    chunk_index as nat,
                    max_lines_per_chunk as nat,
                    worker_count as nat,
                    total_rows as nat,
                    i as nat,
                )
            },
{
    let mut ranges: Vec<RowRange> = Vec::with_capacity(worker_count);
    let mut i: usize = 0;
    while i < worker_count
        invariant
            i <= worker_count,
            worker_count > 0,
            (chunk_index + 1) * max_lines_per_chunk <= usize::MAX,
            ranges@.len() == i,
            forall|k: int|
                0 <= k < i ==> {
                    &&& #[trigger] ranges@[k].start as nat == range_start(
                        chunk_index as nat,
                        max_lines_per_chunk as nat,
                        worker_count as nat,
                        k as nat,
                    )
                    &&& ranges@[k].end as nat == range_end(
                        chunk_index as nat,
                        max_lines_per_chunk as nat,
                        worker_count as nat,
                        total_rows as nat,
                        k as nat,
                    )
                },
        decreases worker_count - i,
    {
        let r = worker_range(chunk_index, max_lines_per_chunk, worker_count, total_rows, i);
        ranges.push(r);
        i = i + 1;
    }
    ranges
}

/// Every row of a worker's range lies in its chunk, clipped to `total_rows`
/// (the range starts at or after the chunk's first row and ends at or before
/// both the chunk's end and `total_rows`), and the ranges of a chunk come in worker order without overlapping: a
/// lower worker's range ends at or before a higher worker's range starts.
pub proof fn lemma_worker_ranges_within_chunk(
    chunk_index: nat,
    max_lines_per_chunk: nat,
    worker_count: nat,
    total_rows: nat,
    i: nat,
    j: nat,
)
    requires
        worker_count > 0,
        i < worker_count,
        j < worker_count,
    ensures
        chunk_index * max_lines_per_chunk <= range_start(
            chunk_index,
            max_lines_per_chunk,
            worker_count,
            i,
        ),
        range_end(chunk_index, max_lines_per_chunk, worker_count, total_rows, i) <= (chunk_index
            + 1) * max_lines_per_chunk,
        range_end(chunk_index, max_lines_per_chunk, worker_count, total_rows, i) <= total_rows,
        i < j ==> range_end(chunk_index, max_lines_per_chunk, worker_count, total_rows, i)
            <= range_start(chunk_index, max_lines_per_chunk, worker_count, j),
{
    lemma_share_fits(chunk_index, max_lines_per_chunk, worker_count, i);
    let q = share(max_lines_per_chunk, worker_count);
    if i < j {
        assert(i * q + q <= j * q) by (nonlinear_arith)
            requires
                i < j,
        ;
    }
}

} // verus!
