use vstd::prelude::*;

use vstd::arithmetic::div_mod::{lemma_fundamental_div_mod_converse, lemma_mod_pos_bound};

use crate::partition::{chunk_count_spec, range_end, range_start, share, RowRange};

verus! {

/// The data rows, in order, that a worker with range `[start, end)` copies
/// from a source of which it has read the first `n` data rows. Data rows are
/// numbered from 0; the header comes before them and is copied on its own.
pub open spec fn worker_rows(start: int, end: int, n: int) -> Seq<int> {
    let hi = if end < n {
        end
    } else {
        n
    };
    Seq::new(
        if hi > start {
            (hi - start) as nat
        } else {
            0nat
        },
        |j: int| start + j,
    )
}

/// What one worker does with a record.
#[derive(Clone, Copy, Debug, PartialEq, Eq, Structural)]
pub struct RowStep {
    /// The record goes to the worker's output.
    pub copy: bool,
    /// The worker needs no further record.
    pub stop: bool,
}

/// The decisions of one worker as it reads the source from its first record.
/// The first record is the header and is always copied. After it, data row
/// `j` (counted from 0) is copied when `range.start <= j < range.end`, and
/// reading stops once `range.end` data rows have been read.
pub struct RowFilter {
    /// The worker's range of data rows.
    pub range: RowRange,
    /// The header has been read.
    pub header_done: bool,
    /// Data rows read so far; the next data row has this index.
    pub data_seen: usize,
}

impl RowFilter {
    /// The worker has read all the records it needs.
    pub open spec fn finished(&self) -> bool {
        self.header_done && self.data_seen >= self.range.end
    }

    /// A filter that has read no record.
    pub fn new(range: RowRange) -> (r: Self)
        ensures
            r.range == range,
            !r.header_done,
            r.data_seen == 0,
            !r.finished(),
    {
        RowFilter { range, header_done: false, data_seen: 0 }
    }

    /// Decides on the next record.
    pub fn next_row(&mut self) -> (r: RowStep)
        requires
            !old(self).finished(),
        ensures
            final(self).range == old(self).range,
            final(self).header_done,
            !old(self).header_done ==> r.copy && final(self).data_seen == old(self).data_seen,
            old(self).header_done ==> final(self).data_seen == old(self).data_seen + 1 && r.copy
                == (old(self).range.start <= old(self).data_seen && old(self).data_seen < old(
                self,
            ).range.end),
            r.stop == final(self).finished(),
            worker_rows(
                old(self).range.start as int,
                old(self).range.end as int,
                final(self).data_seen as int,
            ) == (if old(self).header_done && r.copy {
                worker_rows(
                    old(self).range.start as int,
                    old(self).range.end as int,
                    old(self).data_seen as int,
                ).push(old(self).data_seen as int)
            } else {
                worker_rows(
                    old(self).range.start as int,
                    old(self).range.end as int,
                    old(self).data_seen as int,
                )
            }),
            r.stop ==> forall|m: int|
                m >= final(self).data_seen ==> #[trigger] worker_rows(
                    old(self).range.start as int,
                    old(self).range.end as int,
                    m,
                ) == worker_rows(
                    old(self).range.start as int,
                    old(self).range.end as int,
                    final(self).data_seen as int,
                ),
    {
        let j = self.data_seen;
        let copy = if !self.header_done {
            self.header_done = true;
            true
        } else {
            self.data_seen = j + 1;
            self.range.start <= j && j < self.range.end
        };
        let stop = self.data_seen >= self.range.end;
        proof {
            let s = self.range.start as int;
            let e = self.range.end as int;
            let before = worker_rows(s, e, j as int);
            let after = worker_rows(s, e, self.data_seen as int);
            if old(self).header_done && copy {
                assert(after =~= before.push(j as int));
            } else {
                assert(after =~= before);
            }
            if stop {
                assert forall|m: int| m >= self.data_seen implies #[trigger] worker_rows(s, e, m)
                    == after by {
                    assert(worker_rows(s, e, m) =~= after);
                }
            }
        }
        RowStep { copy, stop }
    }
}

/// Values strictly increase along `s`: no value repeats and the order is kept.
pub open spec fn strictly_increasing(s: Seq<int>) -> bool {
    forall|i: int, j: int| 0 <= i < j < s.len() ==> s[i] < s[j]
}

/// The data rows of chunk `chunk_index` written by its first `k` workers, in
/// worker order, from a source of `n` data rows.
pub open spec fn chunk_rows(
    chunk_index: nat,
    max_lines_per_chunk: nat,
    worker_count: nat,
    total_rows: nat,
    n: nat,
    k: nat,
) -> Seq<int>
    decreases k,
{
    if k == 0 {
        Seq::empty()
    } else {
        let i = (k - 1) as nat;
        chunk_rows(chunk_index, max_lines_per_chunk, worker_count, total_rows, n, i)
            + worker_rows(
            range_start(chunk_index, max_lines_per_chunk, worker_count, i) as int,
            range_end(chunk_index, max_lines_per_chunk, worker_count, total_rows, i) as int,
            n as int,
        )
    }
}

/// The data rows of the first `c` chunk files, chunk after chunk.
pub open spec fn output_rows(
    max_lines_per_chunk: nat,
    worker_count: nat,
    total_rows: nat,
    n: nat,
    c: nat,
) -> Seq<int>
    decreases c,
{
    if c == 0 {
        Seq::empty()
    } else {
        output_rows(max_lines_per_chunk, worker_count, total_rows, n, (c - 1) as nat)
            + chunk_rows((c - 1) as nat, max_lines_per_chunk, worker_count, total_rows, n, worker_count)
    }
}

/// Data row `x` of a source of `n` data rows reaches some chunk file: it exists,
/// it is within the counted rows, and it falls inside the workers' shares of
/// its chunk.
pub open spec fn is_kept(
    x: int,
    max_lines_per_chunk: nat,
    worker_count: nat,
    total_rows: nat,
    n: nat,
) -> bool {
    &&& 0 <= x
    &&& x < total_rows
    &&& x < n
    &&& x % (max_lines_per_chunk as int) < worker_count * share(max_lines_per_chunk, worker_count)
}

proof fn lemma_chunk_rows(
    chunk_index: nat,
    max_lines_per_chunk: nat,
    worker_count: nat,
    total_rows: nat,
    n: nat,
    k: nat,
)
    requires
        worker_count > 0,
        k <= worker_count,
    ensures
        ({
            let s = chunk_rows(chunk_index, max_lines_per_chunk, worker_count, total_rows, n, k);
            let base = chunk_index * max_lines_per_chunk;
            let q = share(max_lines_per_chunk, worker_count);
            &&& strictly_increasing(s)
            &&& forall|i: int|
                0 <= i < s.len() ==> {
                    &&& base <= #[trigger] s[i]
                    &&& s[i] < base + k * q
                    &&& 0 <= s[i]
                    &&& s[i] < total_rows
                    &&& s[i] < n
                }
            &&& forall|x: int|
                base <= x < base + k * q && 0 <= x && x < total_rows && x < n
                    ==> #[trigger] s.contains(x)
        }),
    decreases k,
{
    if k > 0 {
        let i = (k - 1) as nat;
        lemma_chunk_rows(chunk_index, max_lines_per_chunk, worker_count, total_rows, n, i);
        let prev = chunk_rows(chunk_index, max_lines_per_chunk, worker_count, total_rows, n, i);
        let base = chunk_index * max_lines_per_chunk;
        let q = share(max_lines_per_chunk, worker_count);
        let st = range_start(chunk_index, max_lines_per_chunk, worker_count, i) as int;
        let en = range_end(chunk_index, max_lines_per_chunk, worker_count, total_rows, i) as int;
        let ws = worker_rows(st, en, n as int);
        let s = chunk_rows(chunk_index, max_lines_per_chunk, worker_count, total_rows, n, k);
        assert(s == prev + ws);
        assert(i * q + q == k * q) by (nonlinear_arith)
            requires
                i + 1 == k,
        ;
        assert(st == base + i * q);
        assert forall|a: int, b: int| 0 <= a < b < s.len() implies s[a] < s[b] by {
            if b < prev.len() {
            } else if a >= prev.len() {
                assert(ws[a - prev.len()] < ws[b - prev.len()]);
            } else {
                assert(prev[a] < base + i * q);
                assert(ws[b - prev.len()] >= st);
            }
        }
        assert forall|j: int| 0 <= j < s.len() implies {
            &&& base <= #[trigger] s[j]
            &&& s[j] < base + k * q
            &&& 0 <= s[j]
            &&& s[j] < total_rows
            &&& s[j] < n
        } by {
            if j < prev.len() {
                assert(s[j] == prev[j]);
                assert(i * q <= k * q) by (nonlinear_arith)
                    requires
                        i <= k,
                ;
            } else {
                assert(s[j] == ws[j - prev.len()]);
            }
        }
        assert forall|x: int|
            base <= x < base + k * q && 0 <= x && x < total_rows && x < n implies #[trigger] s.contains(
            x,
        ) by {
            if x < base + i * q {
                assert(prev.contains(x));
                let a = choose|a: int| 0 <= a < prev.len() && prev[a] == x;
                assert(s[a] == x);
            } else {
                let j = x - st;
                assert(ws[j] == x);
                assert(s[prev.len() + j] == x);
            }
        }
    }
}

proof fn lemma_output_rows(
    max_lines_per_chunk: nat,
    worker_count: nat,
    total_rows: nat,
    n: nat,
    c: nat,
)
    requires
        max_lines_per_chunk > 0,
        worker_count > 0,
    ensures
        ({
            let s = output_rows(max_lines_per_chunk, worker_count, total_rows, n, c);
            &&& strictly_increasing(s)
            &&& forall|i: int|
                0 <= i < s.len() ==> #[trigger] s[i] < c * max_lines_per_chunk && is_kept(
                    s[i],
                    max_lines_per_chunk,
                    worker_count,
                    total_rows,
                    n,
                )
            &&& forall|x: int|
                x < c * max_lines_per_chunk && is_kept(
                    x,
                    max_lines_per_chunk,
                    worker_count,
                    total_rows,
                    n,
                ) ==> #[trigger] s.contains(x)
        }),
    decreases c,
{
    if c > 0 {
        let p = (c - 1) as nat;
        let m = max_lines_per_chunk;
        let w = worker_count;
        let q = share(m, w);
        lemma_output_rows(m, w, total_rows, n, p);
        lemma_chunk_rows(p, m, w, total_rows, n, w);
        let prev = output_rows(m, w, total_rows, n, p);
        let t = chunk_rows(p, m, w, total_rows, n, w);
        let s = output_rows(m, w, total_rows, n, c);
        assert(s == prev + t);
        let base = p * m;
        assert(c * m == base + m) by (nonlinear_arith)
            requires
                p + 1 == c,
                base == p * m,
        ;
        assert(w * q <= m) by (nonlinear_arith)
            requires
                q == m / w,
                w > 0,
        ;
        assert forall|a: int, b: int| 0 <= a < b < s.len() implies s[a] < s[b] by {
            if b < prev.len() {
            } else if a >= prev.len() {
                assert(t[a - prev.len()] < t[b - prev.len()]);
            } else {
                assert(prev[a] < base);
                assert(t[b - prev.len()] >= base);
            }
        }
        assert forall|j: int| 0 <= j < s.len() implies #[trigger] s[j] < c * m && is_kept(
            s[j],
            m,
            w,
            total_rows,
            n,
        ) by {
            if j < prev.len() {
                assert(s[j] == prev[j]);
            } else {
                let x = t[j - prev.len()];
                assert(s[j] == x);
                lemma_fundamental_div_mod_converse(x, m as int, p as int, x - base);
            }
        }
        assert forall|x: int| x < c * m && is_kept(x, m, w, total_rows, n) implies #[trigger] s.contains(
            x,
        ) by {
            if x < base {
                assert(prev.contains(x));
                let a = choose|a: int| 0 <= a < prev.len() && prev[a] == x;
                assert(s[a] == x);
            } else {
                lemma_fundamental_div_mod_converse(x, m as int, p as int, x - base);
                assert(t.contains(x));
                let a = choose|a: int| 0 <= a < t.len() && t[a] == x;
                assert(s[prev.len() + a] == x);
            }
        }
    }
}

/// Putting the chunk files' data rows together, chunk after chunk and each
/// chunk worker after worker, gives rows of the source in their original
/// order, each at most once, and exactly the kept rows: those that exist, lie
/// within the counted rows, and fall within the workers' equal shares of their
/// chunk. Rows past the last share of a chunk are the only ones lost.
pub proof fn lemma_output_preserves_rows(
    max_lines_per_chunk: nat,
    worker_count: nat,
    total_rows: nat,
    n: nat,
)
    requires
        max_lines_per_chunk > 0,
        worker_count > 0,
    ensures
        ({
            let s = output_rows(
                max_lines_per_chunk,
                worker_count,
                total_rows,
                n,
                chunk_count_spec(total_rows, max_lines_per_chunk),
            );
            &&& strictly_increasing(s)
            &&& forall|x: int|
                #[trigger] s.contains(x) <==> is_kept(
                    x,
                    max_lines_per_chunk,
                    worker_count,
                    total_rows,
                    n,
                )
        }),
{
    let m = max_lines_per_chunk;
    let w = worker_count;
    let c = chunk_count_spec(total_rows, m);
    crate::partition::lemma_chunk_count_is_ceiling(total_rows, m);
    lemma_output_rows(m, w, total_rows, n, c);
    let s = output_rows(m, w, total_rows, n, c);
    assert forall|x: int| #[trigger] s.contains(x) <==> is_kept(x, m, w, total_rows, n) by {
        if s.contains(x) {
            let a = choose|a: int| 0 <= a < s.len() && s[a] == x;
            assert(is_kept(s[a], m, w, total_rows, n));
        }
    }
}

/// When the chunk size is a multiple of the worker count, the chunk files
/// hold every counted data row of the source exactly once, in order.
pub proof fn lemma_output_exact_when_divisible(
    max_lines_per_chunk: nat,
    worker_count: nat,
    total_rows: nat,
    n: nat,
)
    requires
        max_lines_per_chunk > 0,
        worker_count > 0,
        max_lines_per_chunk % worker_count == 0,
    ensures
        ({
            let s = output_rows(
                max_lines_per_chunk,
                worker_count,
                total_rows,
                n,
                chunk_count_spec(total_rows, max_lines_per_chunk),
            );
            &&& strictly_increasing(s)
            &&& forall|x: int|
                #[trigger] s.contains(x) <==> (0 <= x && x < total_rows && x < n)
        }),
{
    let m = max_lines_per_chunk;
    let w = worker_count;
    lemma_output_preserves_rows(m, w, total_rows, n);
    assert(w * share(m, w) == m) by (nonlinear_arith)
        requires
            m % w == 0,
            w > 0,
    {
        lemma_fundamental_div_mod_converse(m as int, w as int, (m / w) as int, 0);
    }
    let s = output_rows(m, w, total_rows, n, chunk_count_spec(total_rows, m));
    assert forall|x: int| #[trigger] s.contains(x) <==> (0 <= x && x < total_rows && x < n) by {
        if 0 <= x {
            lemma_mod_pos_bound(x, m as int);
        }
    }
}

} // verus!
