use vstd::prelude::*;

verus! {

/// The row terminator.
pub const NEWLINE: u8 = 10;

/// Length of the longest prefix of `b` that is valid UTF-8.
pub uninterp spec fn utf8_valid_up_to(b: Seq<u8>) -> nat;

/// Relies on `std::str::from_utf8` and, where it fails, on the error's
/// `Utf8Error::valid_up_to` and `Utf8Error::error_len`. The first result is
/// the length of the longest valid UTF-8 prefix of `b`. The second is `None`
/// when `b` is valid or ends in an incomplete sequence, and otherwise the
/// length of the invalid sequence that starts where the valid prefix ends.
#[verifier::external_body]
fn utf8_check(b: &[u8]) -> (r: (usize, Option<usize>))
    ensures
        r.0 as nat == utf8_valid_up_to(b@),
        r.0 <= b@.len(),
        r.1 matches Some(k) ==> 1 <= k && r.0 + k <= b@.len(),
{
    match std::str::from_utf8(b) {
        Ok(_) => (b.len(), None),
        Err(e) => (e.valid_up_to(), e.error_len()),
    }
}

/// Number of terminator bytes in `s`.
pub open spec fn newline_count(s: Seq<u8>) -> nat
    decreases s.len(),
{
    if s.len() == 0 {
        0
    } else {
        newline_count(s.drop_last()) + if s.last() == NEWLINE {
            1nat
        } else {
            0nat
        }
    }
}

/// The bytes of a sequence of reads, one after the other.
pub open spec fn concat_reads(reads: Seq<Seq<u8>>) -> Seq<u8>
    decreases reads.len(),
{
    if reads.len() == 0 {
        Seq::empty()
    } else {
        concat_reads(reads.drop_last()) + reads.last()
    }
}

/// A sequence never holds more terminators than bytes.
pub proof fn lemma_newline_count_bound(s: Seq<u8>)
    ensures
        newline_count(s) <= s.len(),
    decreases s.len(),
{
    if s.len() > 0 {
        lemma_newline_count_bound(s.drop_last());
    }
}

/// The terminators of two sequences put together are those of each.
pub proof fn lemma_newline_count_concat(a: Seq<u8>, b: Seq<u8>)
    ensures
        newline_count(a + b) == newline_count(a) + newline_count(b),
    decreases b.len(),
{
    if b.len() == 0 {
        assert(a + b =~= a);
    } else {
        assert((a + b).drop_last() =~= a + b.drop_last());
        lemma_newline_count_concat(a, b.drop_last());
    }
}

/// Number of terminator bytes in `buf[start..end]`.
pub fn count_newlines(buf: &[u8], start: usize, end: usize) -> (r: usize)
    requires
        start <= end <= buf@.len(),
    ensures
        r as nat == newline_count(buf@.subrange(start as int, end as int)),
        r <= end - start,
{
    let mut n: usize = 0;
    let mut i: usize = start;
    while i < end
        invariant
            start <= i <= end,
            end <= buf@.len(),
            n as nat == newline_count(buf@.subrange(start as int, i as int)),
            n <= i - start,
        decreases end - i,
    {
        proof {
            assert(buf@.subrange(start as int, i as int + 1).drop_last() =~= buf@.subrange(
                start as int,
                i as int,
            ));
        }
        if buf[i] == NEWLINE {
            n = n + 1;
        }
        i = i + 1;
    }
    n
}

/// Decodes `data` from the start and counts terminators up to the point
/// where an incomplete character ends it. A sequence that cannot be decoded
/// is stepped over and decoding resumes after it; its bytes are scanned too,
/// so that a terminator is never lost to a decoding error. Returns the count
/// and the index where the incomplete tail, if any, starts.
fn decode_and_count(data: &[u8]) -> (r: (usize, usize))
    ensures
        r.1 <= data@.len(),
        r.0 as nat == newline_count(data@.take(r.1 as int)),
{
    let len = data.len();
    let mut n: usize = 0;
    let mut pos: usize = 0;
    proof {
        assert(data@.take(0) =~= Seq::<u8>::empty());
    }
    while pos < len
        invariant
            len == data@.len(),
            pos <= len,
            n as nat == newline_count(data@.take(pos as int)),
            n <= pos,
        decreases len - pos,
    {
        let (valid, err) = utf8_check(&data[pos..len]);
        let stop = pos + valid;
        let c = count_newlines(data, pos, stop);
        proof {
            assert(data@.take(stop as int) =~= data@.take(pos as int) + data@.subrange(
                pos as int,
                stop as int,
            ));
            lemma_newline_count_concat(data@.take(pos as int), data@.subrange(pos as int, stop as int));
        }
        n = n + c;
        match err {
            None => {
                return (n, stop);
            },
            Some(k) => {
                let next = stop + k;
                let d = count_newlines(data, stop, next);
                proof {
                    assert(data@.take(next as int) =~= data@.take(stop as int) + data@.subrange(
                        stop as int,
                        next as int,
                    ));
                    lemma_newline_count_concat(
                        data@.take(stop as int),
                        data@.subrange(stop as int, next as int),
                    );
                }
                n = n + d;
                pos = next;
            },
        }
    }
    (n, pos)
}

/// Copies `b` to the end of `v`.
fn append_bytes(v: &mut Vec<u8>, b: &[u8])
    ensures
        final(v)@ == old(v)@ + b@,
{
    let mut i: usize = 0;
    while i < b.len()
        invariant
            i <= b@.len(),
            v@ == old(v)@ + b@.take(i as int),
        decreases b@.len() - i,
    {
        proof {
            assert(b@.take(i as int + 1) =~= b@.take(i as int).push(b@[i as int]));
        }
        v.push(b[i]);
        i = i + 1;
    }
    proof {
        assert(b@.take(b@.len() as int) =~= b@);
    }
}

/// Running row count over the buffers of one pass through a file. A
/// character split between two buffers is decoded once the second arrives.
pub struct LineCounter {
    /// Terminators in the bytes decoded so far.
    total: usize,
    /// The incomplete character at the end of the last buffer.
    pending: Vec<u8>,
    /// Bytes fed so far.
    bytes: usize,
    reads: Ghost<Seq<Seq<u8>>>,
}

impl LineCounter {
    /// The buffers fed so far, in order.
    pub closed spec fn reads(&self) -> Seq<Seq<u8>> {
        self.reads@
    }

    /// The row count of the buffers fed so far: the terminators among all
    /// their bytes.
    pub open spec fn count(&self) -> nat {
        newline_count(concat_reads(self.reads()))
    }

    /// The counter's fields agree with the buffers fed so far.
    pub closed spec fn wf(&self) -> bool {
        &&& self.total + newline_count(self.pending@) == newline_count(concat_reads(self.reads@))
        &&& self.bytes == concat_reads(self.reads@).len()
    }

    /// A counter that has seen no buffer.
    pub fn new() -> (r: Self)
        ensures
            r.wf(),
            r.reads() == Seq::<Seq<u8>>::empty(),
            r.count() == 0,
    {
        LineCounter { total: 0, pending: Vec::new(), bytes: 0, reads: Ghost(Seq::empty()) }
    }

    /// Number of bytes fed so far.
    pub fn bytes_seen(&self) -> (r: usize)
        requires
            self.wf(),
        ensures
            r == concat_reads(self.reads()).len(),
    {
        self.bytes
    }

    /// Counts the rows of the next buffer read from the file.
    pub fn feed(&mut self, buf: &[u8])
        requires
            old(self).wf(),
            concat_reads(old(self).reads()).len() + buf@.len() <= usize::MAX,
        ensures
            final(self).wf(),
            final(self).reads() == old(self).reads().push(buf@),
            final(self).count() == old(self).count() + newline_count(buf@),
    {
        let ghost old_pending = self.pending@;
        let ghost old_reads = self.reads@;
        let mut data: Vec<u8> = Vec::new();
        append_bytes(&mut data, self.pending.as_slice());
        append_bytes(&mut data, buf);
        let (n, tail) = decode_and_count(data.as_slice());
        let mut rest: Vec<u8> = Vec::new();
        append_bytes(&mut rest, &data.as_slice()[tail..data.len()]);
        proof {
            let all = old_pending + buf@;
            assert(data@ =~= all);
            assert(old_reads.push(buf@).drop_last() =~= old_reads);
            assert(all =~= all.take(tail as int) + all.subrange(tail as int, all.len() as int));
            lemma_newline_count_concat(all.take(tail as int), all.subrange(tail as int, all.len() as int));
            lemma_newline_count_concat(old_pending, buf@);
            lemma_newline_count_concat(concat_reads(old_reads), buf@);
            lemma_newline_count_bound(concat_reads(old_reads) + buf@);
        }
        self.total = self.total + n;
        self.pending = rest;
        self.bytes = self.bytes + buf.len();
        self.reads = Ghost(old_reads.push(buf@));
    }

    /// The rows counted so far, including any terminator in a trailing
    /// incomplete character.
    pub fn total(&self) -> (r: usize)
        requires
            self.wf(),
        ensures
            r as nat == self.count(),
    {
        let p = count_newlines(self.pending.as_slice(), 0, self.pending.len());
        proof {
            assert(self.pending@.subrange(0, self.pending@.len() as int) =~= self.pending@);
            lemma_newline_count_bound(concat_reads(self.reads@));
        }
        self.total + p
    }
}

/// Counting is idempotent and independent of how the file was cut into
/// reads: two counters fed the same bytes hold the same count.
pub proof fn lemma_row_count_idempotent(a: LineCounter, b: LineCounter)
    requires
        concat_reads(a.reads()) == concat_reads(b.reads()),
    ensures
        a.count() == b.count(),
{
}

/// Bytes inserted into a file never lower its row count, whether or not
/// they decode.
pub proof fn lemma_inserted_bytes_never_lower_count(
    a: LineCounter,
    b: LineCounter,
    prefix: Seq<u8>,
    inserted: Seq<u8>,
    suffix: Seq<u8>,
)
    requires
        concat_reads(a.reads()) == prefix + inserted + suffix,
        concat_reads(b.reads()) == prefix + suffix,
    ensures
        a.count() >= b.count(),
{
    lemma_newline_count_concat(prefix, inserted);
    lemma_newline_count_concat(prefix + inserted, suffix);
    lemma_newline_count_concat(prefix, suffix);
}

} // verus!
