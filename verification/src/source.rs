//! The batched candidate source: a forward-only producer of candidates split
//! out of a byte stream on a configurable delimiter byte, buffered in batches
//! sized to the worker count so that many parallel consumers amortize one
//! refill over a whole burst of records.
//!
//! The part that reads bytes stays outside the library; it hands each raw
//! delimiter-terminated record to [`Passes::add_to_pool`], which strips the
//! terminator and stores the candidate.

use vstd::prelude::*;

verus! {

/// The carriage-return byte, stripped before the delimiter only when asked.
pub open spec fn carriage_return() -> u8 {
    13
}

/// A raw record with its trailing delimiter stripped; when `strip_cr` is set,
/// a carriage return just before the delimiter goes too. Bytes anywhere else
/// are kept: no line-ending convention is imposed on the stream.
pub open spec fn strip_record(raw: Seq<u8>, delimiter: u8, strip_cr: bool) -> Seq<u8> {
    if raw.len() > 0 && raw.last() == delimiter {
        let t = raw.drop_last();
        if strip_cr && t.len() > 0 && t.last() == carriage_return() {
            t.drop_last()
        } else {
            t
        }
    } else {
        raw
    }
}

/// The index of the first delimiter byte in `data`, or `data.len()` when the
/// delimiter does not occur.
pub open spec fn find_delim(data: Seq<u8>, delimiter: u8) -> nat
    decreases data.len(),
{
    if data.len() == 0 {
        0
    } else if data[0] == delimiter {
        0
    } else {
        (1 + find_delim(data.skip(1), delimiter)) as nat
    }
}

/// What `find_delim` returns: an in-range index, nothing before it is the
/// delimiter, and it lands on a delimiter unless none occurs.
pub proof fn lemma_find_delim(data: Seq<u8>, delimiter: u8)
    ensures
        find_delim(data, delimiter) <= data.len(),
        forall|j: int| 0 <= j < find_delim(data, delimiter) ==> data[j] != delimiter,
        find_delim(data, delimiter) < data.len() ==> data[find_delim(data, delimiter) as int]
            == delimiter,
    decreases data.len(),
{
    if data.len() == 0 {
    } else if data[0] == delimiter {
    } else {
        lemma_find_delim(data.skip(1), delimiter);
        assert(forall|j: int|
            1 <= j < find_delim(data, delimiter) ==> data[j] == data.skip(1)[j - 1]);
    }
}

/// The candidates that a whole stream yields: each delimiter-terminated
/// record with its terminator stripped, and one final unterminated record if
/// the stream does not end on the delimiter. A final terminator yields no
/// empty trailing candidate.
pub open spec fn records_of(data: Seq<u8>, delimiter: u8, strip_cr: bool) -> Seq<Seq<u8>>
    decreases data.len(),
{
    if data.len() == 0 {
        Seq::empty()
    } else {
        let i = find_delim(data, delimiter) as int;
        if i < data.len() {
            seq![strip_record(data.take(i + 1), delimiter, strip_cr)] + records_of(
                data.skip(i + 1),
                delimiter,
                strip_cr,
            )
        } else {
            seq![data]
        }
    }
}

/// Law: no candidate a stream yields ever holds the delimiter byte.
pub proof fn lemma_records_free_of_delimiter(data: Seq<u8>, delimiter: u8, strip_cr: bool)
    ensures
        forall|k: int|
            0 <= k < records_of(data, delimiter, strip_cr).len() ==> !records_of(
                data,
                delimiter,
                strip_cr,
            )[k].contains(delimiter),
    decreases data.len(),
{
    lemma_find_delim(data, delimiter);
    if data.len() == 0 {
    } else {
        let i = find_delim(data, delimiter) as int;
        if i < data.len() {
            lemma_records_free_of_delimiter(data.skip(i + 1), delimiter, strip_cr);
            let first = strip_record(data.take(i + 1), delimiter, strip_cr);
            assert(data.take(i + 1).last() == delimiter);
            assert(forall|j: int| 0 <= j < first.len() ==> first[j] == data[j] && data[j] != delimiter);
            assert(!first.contains(delimiter)) by {
                if first.contains(delimiter) {
                    let j = choose|j: int| 0 <= j < first.len() && first[j] == delimiter;
                }
            }
            assert(forall|k: int|
                1 <= k < records_of(data, delimiter, strip_cr).len() ==> records_of(
                    data,
                    delimiter,
                    strip_cr,
                )[k] == records_of(data.skip(i + 1), delimiter, strip_cr)[k - 1]);
        } else {
            assert(!data.contains(delimiter)) by {
                if data.contains(delimiter) {
                    let j = choose|j: int| 0 <= j < data.len() && data[j] == delimiter;
                }
            }
        }
    }
}

/// Law: a final terminator yields no empty trailing candidate: appending the
/// delimiter to a stream that does not already end on it leaves the
/// candidates unchanged. (When carriage-return stripping is on and the
/// stream ends on a carriage return, the appended terminator does change the
/// last candidate, by stripping that carriage return; that case is excluded.)
pub proof fn lemma_final_terminator_adds_nothing(data: Seq<u8>, delimiter: u8, strip_cr: bool)
    requires
        data.len() > 0,
        data.last() != delimiter,
        !(strip_cr && data.last() == carriage_return()),
    ensures
        records_of(data + seq![delimiter], delimiter, strip_cr) == records_of(
            data,
            delimiter,
            strip_cr,
        ),
    decreases data.len(),
{
    let e = data + seq![delimiter];
    let f = find_delim(data, delimiter) as int;
    let fe = find_delim(e, delimiter) as int;
    lemma_find_delim(data, delimiter);
    lemma_find_delim(e, delimiter);
    assert(forall|j: int| 0 <= j < data.len() ==> e[j] == data[j]);
    assert(e.last() == delimiter);
    if f < data.len() {
        // the first delimiter is the same in both streams
        assert(fe == f) by {
            if fe < f {
                assert(e[fe] == delimiter);
                assert(data[fe] != delimiter);
            } else if fe > f {
                assert(e[f] == delimiter);
            }
        }
        assert(f < data.len() - 1);
        assert(e.take(f + 1) =~= data.take(f + 1));
        assert(e.skip(f + 1) =~= data.skip(f + 1) + seq![delimiter]);
        assert(data.skip(f + 1).last() == data.last());
        lemma_final_terminator_adds_nothing(data.skip(f + 1), delimiter, strip_cr);
    } else {
        // no delimiter in the stream: the appended one terminates the whole
        // stream as its single candidate
        assert(fe == data.len()) by {
            if fe < data.len() {
                assert(data[fe] != delimiter);
                assert(e[fe] == delimiter);
            } else if fe > data.len() {
                assert(e[data.len() as int] == delimiter);
            }
        }
        assert(e.take(fe + 1) =~= e);
        assert(e.skip(fe + 1) =~= Seq::<u8>::empty());
        assert(e.drop_last() =~= data);
        assert(strip_record(e, delimiter, strip_cr) == data);
        assert(records_of(e.skip(fe + 1), delimiter, strip_cr) == Seq::<Seq<u8>>::empty());
        assert(records_of(e, delimiter, strip_cr) == seq![
            strip_record(e.take(fe + 1), delimiter, strip_cr),
        ] + records_of(e.skip(fe + 1), delimiter, strip_cr));
        assert(strip_record(e.take(fe + 1), delimiter, strip_cr) == strip_record(
            e,
            delimiter,
            strip_cr,
        ));
        assert(records_of(e, delimiter, strip_cr) =~= seq![data]);
        assert(records_of(data, delimiter, strip_cr) =~= seq![data]);
    }
}

/// Law: a stream never yields more candidates than it has bytes.
pub proof fn lemma_records_count(data: Seq<u8>, delimiter: u8, strip_cr: bool)
    ensures
        records_of(data, delimiter, strip_cr).len() <= data.len(),
    decreases data.len(),
{
    lemma_find_delim(data, delimiter);
    if data.len() == 0 {
    } else {
        let i = find_delim(data, delimiter) as int;
        if i < data.len() {
            lemma_records_count(data.skip(i + 1), delimiter, strip_cr);
        }
    }
}

/// Splits an in-memory stream into its candidates.
pub fn split_stream(data: &Vec<u8>, delimiter: u8, strip_cr: bool) -> (r: Vec<Vec<u8>>)
    ensures
        crate::engine::views_of(r@) == records_of(data@, delimiter, strip_cr),
{
    let mut out: Vec<Vec<u8>> = Vec::new();
    let mut start: usize = 0;
    proof {
        assert(data@.skip(0) =~= data@);
        assert(crate::engine::views_of(out@) =~= Seq::<Seq<u8>>::empty());
        assert(Seq::<Seq<u8>>::empty() + records_of(data@, delimiter, strip_cr) =~= records_of(
            data@,
            delimiter,
            strip_cr,
        ));
    }
    while start < data.len()
        invariant
            start <= data@.len(),
            crate::engine::views_of(out@) + records_of(data@.skip(start as int), delimiter, strip_cr)
                == records_of(data@, delimiter, strip_cr),
        decreases data@.len() - start,
    {
        let ghost rest = data@.skip(start as int);
        let mut rec: Vec<u8> = Vec::new();
        let mut j: usize = start;
        proof {
            assert(rec@ =~= data@.subrange(start as int, start as int));
        }
        while j < data.len() && data[j] != delimiter
            invariant
                start <= j <= data@.len(),
                rec@ == data@.subrange(start as int, j as int),
                forall|k: int| start <= k < j ==> data@[k] != delimiter,
            decreases data@.len() - j,
        {
            rec.push(data[j]);
            proof {
                assert(rec@ =~= data@.subrange(start as int, j as int + 1));
            }
            j = j + 1;
        }
        proof {
            lemma_find_delim(rest, delimiter);
            assert(forall|k: int| 0 <= k < rest.len() ==> rest[k] == data@[start + k]);
            // the scan and find_delim agree on where the first delimiter is
            assert(find_delim(rest, delimiter) == j - start) by {
                let f = find_delim(rest, delimiter) as int;
                if f < j - start {
                    assert(rest[f] == delimiter);
                    assert(data@[start + f] != delimiter);
                } else if f > j - start {
                    assert(j < data@.len());
                    assert(rest[j - start] == delimiter);
                }
            }
        }
        if j < data.len() {
            // the record ends on the delimiter; strip it, and a carriage
            // return before it when configured to
            if strip_cr && rec.len() > 0 && rec[rec.len() - 1] == 13 {
                rec.pop();
            }
            proof {
                let i = (j - start) as int;
                assert(rest.take(i + 1).last() == rest[i] == delimiter);
                assert(rest.take(i + 1).drop_last() =~= data@.subrange(start as int, j as int));
                if strip_cr && j > start && data@[j as int - 1] == 13 {
                    assert(data@.subrange(start as int, j as int).drop_last() =~= data@.subrange(
                        start as int,
                        j as int - 1,
                    ));
                }
                assert(rec@ =~= strip_record(rest.take(i + 1), delimiter, strip_cr));
            }
            out.push(rec);
            proof {
                let i = (j - start) as int;
                assert(rest.skip(i + 1) =~= data@.skip(j as int + 1));
                assert(crate::engine::views_of(out@) =~= crate::engine::views_of(
                    out@.drop_last(),
                ).push(strip_record(rest.take(i + 1), delimiter, strip_cr)));
                assert(crate::engine::views_of(out@) + records_of(
                    data@.skip(j as int + 1),
                    delimiter,
                    strip_cr,
                ) =~= crate::engine::views_of(out@.drop_last()) + records_of(rest, delimiter, strip_cr));
            }
            start = j + 1;
        } else {
            // the stream ended without a delimiter: the tail is one candidate
            proof {
                assert(rec@ =~= rest);
                assert(records_of(rest, delimiter, strip_cr) =~= seq![rest]);
            }
            out.push(rec);
            proof {
                assert(data@.skip(data@.len() as int) =~= Seq::<u8>::empty());
                assert(records_of(Seq::<u8>::empty(), delimiter, strip_cr) =~= Seq::<Seq<u8>>::empty());
                assert(crate::engine::views_of(out@) =~= crate::engine::views_of(
                    out@.drop_last(),
                ).push(rest));
                assert(crate::engine::views_of(out@) + Seq::<Seq<u8>>::empty() =~= crate::engine::views_of(
                    out@.drop_last(),
                ) + records_of(rest, delimiter, strip_cr));
            }
            start = data.len();
        }
    }
    proof {
        assert(data@.skip(start as int) =~= Seq::<u8>::empty());
        assert(records_of(Seq::<u8>::empty(), delimiter, strip_cr) =~= Seq::<Seq<u8>>::empty());
        assert(crate::engine::views_of(out@) + Seq::<Seq<u8>>::empty() =~= crate::engine::views_of(
            out@,
        ));
    }
    out
}

/// The batched candidate source of one scan. Raw records read from the
/// stream enter through [`Passes::add_to_pool`], which strips the terminator;
/// consumers drain the pool through [`Passes::pop`] or take a whole batch at
/// once. The pool's draining order is unspecified by contract; this
/// implementation hands candidates back newest first.
pub struct Passes {
    delimiter: u8,
    strip_cr: bool,
    refill: usize,
    exhausted: bool,
    pool: Vec<Vec<u8>>,
}

impl Passes {
    /// The candidates now buffered, oldest first.
    pub closed spec fn spec_pool(&self) -> Seq<Seq<u8>> {
        crate::engine::views_of(self.pool@)
    }

    /// The byte that terminates a record.
    pub closed spec fn spec_delimiter(&self) -> u8 {
        self.delimiter
    }

    /// Whether a carriage return before the delimiter is stripped too.
    pub closed spec fn spec_strip_cr(&self) -> bool {
        self.strip_cr
    }

    /// How many records one refill burst reads: twice the worker count.
    pub closed spec fn spec_refill_quota(&self) -> usize {
        self.refill
    }

    /// Whether the underlying stream has ended.
    pub closed spec fn spec_exhausted(&self) -> bool {
        self.exhausted
    }

    /// A fresh source for one scan, its pool empty.
    pub fn new(delimiter: u8, worker_count: usize, strip_cr: bool) -> (r: Passes)
        requires
            worker_count <= usize::MAX / 2,
        ensures
            r.spec_pool() == Seq::<Seq<u8>>::empty(),
            r.spec_delimiter() == delimiter,
            r.spec_strip_cr() == strip_cr,
            r.spec_refill_quota() == 2 * worker_count,
            !r.spec_exhausted(),
    {
        let r = Passes {
            delimiter,
            strip_cr,
            refill: 2 * worker_count,
            exhausted: false,
            pool: Vec::new(),
        };
        proof {
            assert(crate::engine::views_of(r.pool@) =~= Seq::<Seq<u8>>::empty());
        }
        r
    }

    /// Takes one raw delimiter-terminated record, strips the terminator (and
    /// a carriage return before it when configured to), and buffers the
    /// candidate.
    pub fn add_to_pool(&mut self, raw: Vec<u8>)
        ensures
            final(self).spec_pool() == old(self).spec_pool().push(
                strip_record(raw@, old(self).spec_delimiter(), old(self).spec_strip_cr()),
            ),
            final(self).spec_delimiter() == old(self).spec_delimiter(),
            final(self).spec_strip_cr() == old(self).spec_strip_cr(),
            final(self).spec_refill_quota() == old(self).spec_refill_quota(),
            final(self).spec_exhausted() == old(self).spec_exhausted(),
    {
        let ghost raw_view = raw@;
        let mut rec = raw;
        if rec.len() > 0 && rec[rec.len() - 1] == self.delimiter {
            rec.pop();
            if self.strip_cr && rec.len() > 0 && rec[rec.len() - 1] == 13 {
                rec.pop();
            }
        }
        proof {
            assert(rec@ =~= strip_record(raw_view, self.delimiter, self.strip_cr));
        }
        self.pool.push(rec);
        proof {
            assert(crate::engine::views_of(self.pool@) =~= crate::engine::views_of(
                self.pool@.drop_last(),
            ).push(rec@));
        }
    }

    /// Marks the underlying stream as ended: a refill read zero records.
    pub fn mark_exhausted(&mut self)
        ensures
            final(self).spec_exhausted(),
            final(self).spec_pool() == old(self).spec_pool(),
            final(self).spec_delimiter() == old(self).spec_delimiter(),
            final(self).spec_strip_cr() == old(self).spec_strip_cr(),
            final(self).spec_refill_quota() == old(self).spec_refill_quota(),
    {
        self.exhausted = true;
    }

    /// How many candidates are buffered.
    pub fn pool_len(&self) -> (r: usize)
        ensures
            r == self.spec_pool().len(),
    {
        self.pool.len()
    }

    /// How many records one refill burst should read.
    pub fn refill_quota(&self) -> (r: usize)
        ensures
            r == self.spec_refill_quota(),
    {
        self.refill
    }

    /// Whether the next pull must first refill the pool from the stream.
    pub fn needs_refill(&self) -> (r: bool)
        ensures
            r == (self.spec_pool().len() == 0 && !self.spec_exhausted()),
    {
        self.pool.is_empty() && !self.exhausted
    }

    /// Hands out one buffered candidate, newest first; None when the pool is
    /// empty.
    pub fn pop(&mut self) -> (r: Option<Vec<u8>>)
        ensures
            final(self).spec_delimiter() == old(self).spec_delimiter(),
            final(self).spec_strip_cr() == old(self).spec_strip_cr(),
            final(self).spec_refill_quota() == old(self).spec_refill_quota(),
            final(self).spec_exhausted() == old(self).spec_exhausted(),
            old(self).spec_pool().len() == 0 ==> r is None && final(self).spec_pool() == old(
                self,
            ).spec_pool(),
            old(self).spec_pool().len() > 0 ==> r is Some && r.unwrap()@ == old(
                self,
            ).spec_pool().last() && final(self).spec_pool() == old(self).spec_pool().drop_last(),
    {
        let ghost pool_before = self.pool@;
        let r = self.pool.pop();
        proof {
            if pool_before.len() > 0 {
                assert(crate::engine::views_of(self.pool@) =~= crate::engine::views_of(
                    pool_before,
                ).drop_last());
            }
        }
        r
    }

    /// Takes every buffered candidate at once, leaving the pool empty.
    pub fn take_batch(&mut self) -> (r: Vec<Vec<u8>>)
        ensures
            crate::engine::views_of(r@) == old(self).spec_pool(),
            final(self).spec_pool().len() == 0,
            final(self).spec_delimiter() == old(self).spec_delimiter(),
            final(self).spec_strip_cr() == old(self).spec_strip_cr(),
            final(self).spec_refill_quota() == old(self).spec_refill_quota(),
            final(self).spec_exhausted() == old(self).spec_exhausted(),
    {
        let mut batch: Vec<Vec<u8>> = Vec::new();
        std::mem::swap(&mut self.pool, &mut batch);
        proof {
            assert(crate::engine::views_of(self.pool@) =~= Seq::<Seq<u8>>::empty());
        }
        batch
    }
}

} // verus!
