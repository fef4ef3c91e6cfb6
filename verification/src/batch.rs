use vstd::prelude::*;

verus! {

/// All batches of a list joined in order.
pub open spec fn concat_all<T>(batches: Seq<Seq<T>>) -> Seq<T>
    decreases batches.len(),
{
    if batches.len() == 0 {
        Seq::empty()
    } else {
        concat_all(batches.drop_last()) + batches.last()
    }
}

/// The batched emission stage: buffers up to `groupby` records, emits one
/// full batch to the caller when the threshold is reached, and flushes any
/// remaining partial batch on `finish`. A pure buffering layer: it never
/// reorders, drops or duplicates a record.
pub struct Batcher<T> {
    pending: Vec<T>,
    groupby: usize,
    count: u64,
    finished: bool,
    emitted: Ghost<Seq<Seq<T>>>,
}

impl<T> Batcher<T> {
    /// The batch size threshold.
    pub closed spec fn spec_groupby(self) -> int {
        self.groupby as int
    }

    /// All batches emitted so far, in emission order.
    pub closed spec fn spec_emitted(self) -> Seq<Seq<T>> {
        self.emitted@
    }

    /// Records accepted but not yet emitted, in submission order.
    pub closed spec fn spec_pending(self) -> Seq<T> {
        self.pending@
    }

    /// The running total of emitted records.
    pub closed spec fn spec_count(self) -> int {
        self.count as int
    }

    /// Whether `finish` has been called.
    pub closed spec fn spec_finished(self) -> bool {
        self.finished
    }

    /// The whole stream submitted so far, reconstructed from the emissions
    /// and the buffer.
    pub open spec fn spec_stream(self) -> Seq<T> {
        concat_all(self.spec_emitted()) + self.spec_pending()
    }

    /// Every emitted batch is non-empty and at most `groupby` long; all but
    /// the last are exactly `groupby` long, and only a final flush may leave
    /// a shorter last batch. The count tracks the emitted records, and the
    /// buffer stays below the threshold until `finish` empties it.
    pub closed spec fn wf(self) -> bool {
        &&& self.groupby >= 1
        &&& self.count == concat_all(self.emitted@).len()
        &&& if self.finished {
            self.pending@.len() == 0
        } else {
            self.pending@.len() < self.groupby
        }
        &&& forall|i: int|
            0 <= i < self.emitted@.len() ==> 1 <= (#[trigger] self.emitted@[i]).len()
                <= self.groupby
        &&& forall|i: int|
            0 <= i < self.emitted@.len() - (if self.finished {
                1int
            } else {
                0int
            }) ==> (#[trigger] self.emitted@[i]).len() == self.groupby
    }

    /// An empty stage with the given batch size.
    pub fn new(groupby: usize) -> (r: Batcher<T>)
        requires
            groupby >= 1,
        ensures
            r.wf(),
            r.spec_groupby() == groupby,
            r.spec_emitted() == Seq::<Seq<T>>::empty(),
            r.spec_pending() == Seq::<T>::empty(),
            r.spec_count() == 0,
            !r.spec_finished(),
    {
        Batcher {
            pending: Vec::new(),
            groupby,
            count: 0,
            finished: false,
            emitted: Ghost(Seq::empty()),
        }
    }

    /// Accept one record. When the buffer reaches the threshold the full
    /// batch is returned for synchronous delivery downstream and the buffer
    /// is cleared; otherwise nothing is emitted. The producer is never
    /// blocked and no record is dropped.
    pub fn submit(&mut self, item: T) -> (r: Option<Vec<T>>)
        requires
            old(self).wf(),
            !old(self).spec_finished(),
            old(self).spec_count() + old(self).spec_groupby() <= u64::MAX,
        ensures
            final(self).wf(),
            !final(self).spec_finished(),
            final(self).spec_groupby() == old(self).spec_groupby(),
            final(self).spec_stream() == old(self).spec_stream().push(item),
            match r {
                Some(batch) => {
                    &&& old(self).spec_pending().len() + 1 == old(self).spec_groupby()
                    &&& batch@ == old(self).spec_pending().push(item)
                    &&& batch@.len() == old(self).spec_groupby()
                    &&& final(self).spec_emitted() == old(self).spec_emitted().push(batch@)
                    &&& final(self).spec_pending() == Seq::<T>::empty()
                    &&& final(self).spec_count() == old(self).spec_count() + old(
                        self,
                    ).spec_groupby()
                },
                None => {
                    &&& old(self).spec_pending().len() + 1 < old(self).spec_groupby()
                    &&& final(self).spec_emitted() == old(self).spec_emitted()
                    &&& final(self).spec_pending() == old(self).spec_pending().push(item)
                    &&& final(self).spec_count() == old(self).spec_count()
                },
            },
    {
        self.pending.push(item);
        if self.pending.len() >= self.groupby {
            let mut batch: Vec<T> = Vec::new();
            core::mem::swap(&mut batch, &mut self.pending);
            proof {
                self.emitted@ = self.emitted@.push(batch@);
                assert(self.emitted@.drop_last() =~= old(self).spec_emitted());
                assert(concat_all(self.emitted@) =~= concat_all(old(self).spec_emitted())
                    + batch@);
                assert(self.spec_stream() =~= old(self).spec_stream().push(item));
            }
            self.count = self.count + (batch.len() as u64);
            Some(batch)
        } else {
            proof {
                assert(self.spec_stream() =~= old(self).spec_stream().push(item));
            }
            None
        }
    }

    /// Flush the remaining partial batch, if any, and close the stage. The
    /// returned count is the total number of records that passed through.
    pub fn finish(&mut self) -> (r: (Option<Vec<T>>, u64))
        requires
            old(self).wf(),
            !old(self).spec_finished(),
            old(self).spec_count() + old(self).spec_groupby() <= u64::MAX,
        ensures
            final(self).wf(),
            final(self).spec_finished(),
            final(self).spec_groupby() == old(self).spec_groupby(),
            final(self).spec_stream() == old(self).spec_stream(),
            final(self).spec_pending() == Seq::<T>::empty(),
            r.1 == final(self).spec_count(),
            final(self).spec_count() == final(self).spec_stream().len(),
            match r.0 {
                Some(batch) => {
                    &&& old(self).spec_pending().len() > 0
                    &&& batch@ == old(self).spec_pending()
                    &&& final(self).spec_emitted() == old(self).spec_emitted().push(batch@)
                },
                None => {
                    &&& old(self).spec_pending().len() == 0
                    &&& final(self).spec_emitted() == old(self).spec_emitted()
                },
            },
    {
        proof {
            lemma_concat_all_full_len(self.emitted@, self.groupby as int, self.finished);
        }
        self.finished = true;
        if self.pending.len() > 0 {
            let mut batch: Vec<T> = Vec::new();
            core::mem::swap(&mut batch, &mut self.pending);
            proof {
                self.emitted@ = self.emitted@.push(batch@);
                assert(self.emitted@.drop_last() =~= old(self).spec_emitted());
                assert(concat_all(self.emitted@) =~= concat_all(old(self).spec_emitted())
                    + batch@);
                assert(self.spec_stream() =~= old(self).spec_stream());
            }
            self.count = self.count + (batch.len() as u64);
            (Some(batch), self.count)
        } else {
            proof {
                assert(self.spec_stream() =~= old(self).spec_stream());
                assert(self.spec_stream() =~= concat_all(self.emitted@));
            }
            (None, self.count)
        }
    }

    /// The running total of emitted records.
    pub fn count(&self) -> (r: u64)
        ensures
            r == self.spec_count(),
    {
        self.count
    }
}

/// The shape facts of a well-formed stage, for callers: batch sizes, the
/// buffer bound, and the count's relation to the stream.
pub proof fn lemma_batcher_shape<T>(b: Batcher<T>)
    requires
        b.wf(),
    ensures
        b.spec_groupby() >= 1,
        b.spec_count() == b.spec_stream().len() - b.spec_pending().len(),
        b.spec_finished() ==> b.spec_pending().len() == 0,
        !b.spec_finished() ==> b.spec_pending().len() < b.spec_groupby(),
        forall|i: int|
            0 <= i < b.spec_emitted().len() ==> 1 <= (#[trigger] b.spec_emitted()[i]).len()
                <= b.spec_groupby(),
        forall|i: int|
            0 <= i < b.spec_emitted().len() - (if b.spec_finished() {
                1int
            } else {
                0int
            }) ==> (#[trigger] b.spec_emitted()[i]).len() == b.spec_groupby(),
{
}

/// In a stage that has not yet flushed, every emitted batch is full, so the
/// emitted records number exactly `groupby` times the number of batches.
proof fn lemma_concat_all_full_len<T>(batches: Seq<Seq<T>>, g: int, finished: bool)
    requires
        !finished,
        forall|i: int|
            0 <= i < batches.len() - (if finished {
                1int
            } else {
                0int
            }) ==> (#[trigger] batches[i]).len() == g,
    ensures
        concat_all(batches).len() == g * batches.len(),
    decreases batches.len(),
{
    if batches.len() == 0 {
        assert(g * 0 == 0) by (nonlinear_arith);
    } else {
        lemma_concat_all_full_len(batches.drop_last(), g, finished);
        assert(g * batches.len() == g * (batches.len() - 1) + g) by (nonlinear_arith);
    }
}

/// The batch law: a finished stage over a stream of length `L` with batch
/// size `g` has emitted exactly `ceiling(L / g)` batches, and joining the
/// batches in emission order reproduces the submitted stream.
pub proof fn lemma_batch_law<T>(b: Batcher<T>)
    requires
        b.wf(),
        b.spec_finished(),
    ensures
        b.spec_stream() == concat_all(b.spec_emitted()),
        b.spec_emitted().len() == (b.spec_stream().len() + b.spec_groupby() - 1) as int
            / b.spec_groupby(),
{
    let g = b.spec_groupby();
    let n = b.spec_emitted().len() as int;
    let stream = b.spec_stream();
    assert(stream =~= concat_all(b.spec_emitted()));
    if n == 0 {
        assert(stream.len() == 0);
        vstd::arithmetic::div_mod::lemma_fundamental_div_mod_converse(g - 1, g, 0, g - 1);
    } else {
        let t = b.spec_emitted().last().len() as int;
        lemma_concat_all_prefix_len(b.spec_emitted(), g);
        assert(stream.len() == (n - 1) * g + t);
        assert((n - 1) * g + t + g - 1 == n * g + (t - 1)) by (nonlinear_arith);
        vstd::arithmetic::div_mod::lemma_fundamental_div_mod_converse(
            n * g + (t - 1),
            g,
            n,
            t - 1,
        );
    }
}

/// A non-empty batch list whose batches are all full except possibly the
/// last holds `(n - 1) * g` records plus those of the last batch.
proof fn lemma_concat_all_prefix_len<T>(batches: Seq<Seq<T>>, g: int)
    requires
        batches.len() > 0,
        forall|i: int|
            0 <= i < batches.len() - 1 ==> (#[trigger] batches[i]).len() == g,
    ensures
        concat_all(batches).len() == (batches.len() - 1) * g + batches.last().len(),
    decreases batches.len(),
{
    if batches.len() == 1 {
        assert(concat_all(batches.drop_last()).len() == 0);
        assert((batches.len() - 1) * g == 0) by (nonlinear_arith)
            requires batches.len() == 1;
    } else {
        lemma_concat_all_prefix_len(batches.drop_last(), g);
        assert(batches.drop_last().last() =~= batches[batches.len() - 2]);
        assert((batches.len() - 2) * g + g == (batches.len() - 1) * g) by (nonlinear_arith);
    }
}

} // verus!
