use vstd::prelude::*;

use crate::accumulator::{Accumulator, fold_merge, singleton_summary, spec_merge};
use crate::batch::{Batcher, concat_all};
use crate::block::PrimitiveBlock;
use crate::minimal::MinimalBlock;
use vstd::multiset::Multiset;

verus! {

/// The name under which the block-collecting stage reports its count.
pub open spec fn collect_stage_name() -> Seq<char> {
    "CollectBlocksCall"@
}

/// The name under which the minimal-block collecting stage reports its
/// count.
pub open spec fn collect_minimal_stage_name() -> Seq<char> {
    "CollectBlocksMinimalCall"@
}

/// The sub-stream of `s` that worker `w` of `k` receives under round-robin
/// distribution: the items at positions congruent to `w`, in order.
pub open spec fn spec_round_robin<T>(s: Seq<T>, k: int, w: int) -> Seq<T>
    decreases s.len(),
{
    if s.len() == 0 {
        Seq::empty()
    } else {
        spec_round_robin(s.drop_last(), k, w) + (if (s.len() - 1) % k == w {
            seq![s.last()]
        } else {
            Seq::empty()
        })
    }
}

/// The views of a list of batches.
pub open spec fn batch_views<T>(s: Seq<Vec<T>>) -> Seq<Seq<T>> {
    s.map_values(|v: Vec<T>| v@)
}

/// The summaries of a list of accumulators.
pub open spec fn summaries_of(accs: Seq<Accumulator>) -> Seq<Map<Seq<char>, int>> {
    accs.map_values(|a: Accumulator| a@)
}

/// One single-stage summary per counter value.
pub open spec fn singletons_of(vals: Seq<int>, key: Seq<char>) -> Seq<Map<Seq<char>, int>> {
    vals.map_values(|v: int| singleton_summary(key, v))
}

/// The summary each of `k` round-robin workers reports for the stream `s`:
/// one counter under `key`, counting the items that worker received.
pub open spec fn worker_summaries<T>(s: Seq<T>, k: int, key: Seq<char>) -> Seq<
    Map<Seq<char>, int>,
> {
    Seq::new(k as nat, |w: int| singleton_summary(key, spec_round_robin(s, k, w).len() as int))
}

/// Distribute a stream round-robin across `k` workers: item `i` goes to
/// worker `i % k`, and each worker sees its items in submission order. No
/// item is dropped or duplicated, and no item reaches two workers.
pub fn split_round_robin<T>(items: Vec<T>, k: usize) -> (r: Vec<Vec<T>>)
    requires
        k >= 1,
    ensures
        r@.len() == k,
        forall|w: int| 0 <= w < k ==> (#[trigger] r@[w])@ == spec_round_robin(items@, k as int, w),
{
    let mut queues: Vec<Vec<T>> = Vec::new();
    let mut w: usize = 0;
    while w < k
        invariant
            0 <= w <= k,
            queues@.len() == w,
            forall|v: int| 0 <= v < w ==> (#[trigger] queues@[v])@ == Seq::<T>::empty(),
        decreases k - w,
    {
        queues.push(Vec::new());
        w = w + 1;
    }
    proof {
        assert forall|v: int| 0 <= v < k implies (#[trigger] queues@[v])@ == spec_round_robin(
            items@.take(0),
            k as int,
            v,
        ) by {
            assert(items@.take(0) =~= Seq::<T>::empty());
        }
    }
    let mut items = items;
    let ghost all: Seq<T> = items@;
    proof {
        vstd::std_specs::vec::axiom_spec_len(&items);
    }
    let ghost mut idx: int = 0;
    let mut i: usize = 0;
    while items.len() > 0
        invariant
            k >= 1,
            0 <= idx <= all.len(),
            all.len() <= usize::MAX,
            i == idx,
            items@ == all.skip(idx),
            queues@.len() == k,
            forall|v: int|
                0 <= v < k ==> (#[trigger] queues@[v])@ == spec_round_robin(
                    all.take(idx),
                    k as int,
                    v,
                ),
        decreases all.len() - idx,
    {
        proof {
            assert(all.skip(idx)[0] == all[idx]);
        }
        let e = items.remove(0);
        let wi = i % k;
        queues[wi].push(e);
        proof {
            assert(all.skip(idx).remove(0) =~= all.skip(idx + 1));
            assert(all.take(idx + 1).drop_last() =~= all.take(idx));
            assert(all.take(idx + 1).last() == all[idx]);
            assert(all.take(idx + 1).len() - 1 == idx);
            assert forall|v: int| 0 <= v < k implies (#[trigger] queues@[v])@ == spec_round_robin(
                all.take(idx + 1),
                k as int,
                v,
            ) by {
                if v == wi {
                    assert(spec_round_robin(all.take(idx + 1), k as int, v) =~= spec_round_robin(
                        all.take(idx),
                        k as int,
                        v,
                    ).push(all[idx]));
                } else {
                    assert(spec_round_robin(all.take(idx + 1), k as int, v) =~= spec_round_robin(
                        all.take(idx),
                        k as int,
                        v,
                    ));
                }
            }
            idx = idx + 1;
        }
        i = i + 1;
    }
    proof {
        assert(all.take(all.len() as int) =~= all);
    }
    queues
}

/// One worker's job over a generic record stream: push every item through
/// the batched emission stage, returning the emitted batches in order and
/// the worker's summary, whose single stage, under the given name, counts
/// the items that passed through.
fn collect_stream<T>(blocks: Vec<T>, groupby: usize, stage: &str) -> (r: (
    Vec<Vec<T>>,
    Accumulator,
))
    requires
        groupby >= 1,
        blocks@.len() + groupby <= u64::MAX,
    ensures
        concat_all(batch_views(r.0@)) == blocks@,
        forall|i: int|
            0 <= i < r.0@.len() - 1 ==> (#[trigger] r.0@[i])@.len() == groupby,
        forall|i: int|
            0 <= i < r.0@.len() ==> 1 <= (#[trigger] r.0@[i])@.len() <= groupby,
        r.0@.len() == (blocks@.len() + groupby - 1) as int / (groupby as int),
        r.1.wf(),
        r.1@ == singleton_summary(stage@, blocks@.len() as int),
{
    let mut batcher: Batcher<T> = Batcher::new(groupby);
    let mut out: Vec<Vec<T>> = Vec::new();
    let mut blocks = blocks;
    let ghost all: Seq<T> = blocks@;
    let ghost mut idx: int = 0;
    while blocks.len() > 0
        invariant
            groupby >= 1,
            all.len() + groupby <= u64::MAX,
            0 <= idx <= all.len(),
            blocks@ == all.skip(idx),
            batcher.wf(),
            !batcher.spec_finished(),
            batcher.spec_groupby() == groupby,
            batcher.spec_stream() == all.take(idx),
            batch_views(out@) == batcher.spec_emitted(),
        decreases all.len() - idx,
    {
        proof {
            assert(all.skip(idx)[0] == all[idx]);
            crate::batch::lemma_batcher_shape(batcher);
        }
        let e = blocks.remove(0);
        let emitted = batcher.submit(e);
        match emitted {
            Some(b) => {
                out.push(b);
                proof {
                    assert(batch_views(out@) =~= batcher.spec_emitted());
                }
            },
            None => {},
        }
        proof {
            assert(all.skip(idx).remove(0) =~= all.skip(idx + 1));
            assert(all.take(idx + 1) =~= all.take(idx).push(all[idx]));
            idx = idx + 1;
        }
    }
    proof {
        assert(all.take(all.len() as int) =~= all);
        crate::batch::lemma_batcher_shape(batcher);
    }
    let (last, cnt) = batcher.finish();
    match last {
        Some(b) => {
            out.push(b);
            proof {
                assert(batch_views(out@) =~= batcher.spec_emitted());
            }
        },
        None => {},
    }
    proof {
        crate::batch::lemma_batcher_shape(batcher);
        crate::batch::lemma_batch_law(batcher);
        assert(out@.len() == batcher.spec_emitted().len());
        assert(concat_all(batcher.spec_emitted()) + batcher.spec_pending()
            =~= concat_all(batcher.spec_emitted()));
        assert forall|i: int| 0 <= i < out@.len() implies 1 <= (#[trigger] out@[i])@.len()
            <= groupby by {
            assert(batch_views(out@)[i] == out@[i]@);
        }
        assert forall|i: int| 0 <= i < out@.len() - 1 implies (#[trigger] out@[i])@.len()
            == groupby by {
            assert(batch_views(out@)[i] == out@[i]@);
        }
    }
    let mut acc = Accumulator::new();
    acc.add_other(stage, cnt);
    proof {
        assert(acc@ =~= singleton_summary(stage@, all.len() as int));
    }
    (out, acc)
}

/// One worker's job over decoded blocks: batches in order plus the
/// worker's summary counting the blocks that passed through.
pub fn run_collect(blocks: Vec<PrimitiveBlock>, groupby: usize) -> (r: (
    Vec<Vec<PrimitiveBlock>>,
    Accumulator,
))
    requires
        groupby >= 1,
        blocks@.len() + groupby <= u64::MAX,
    ensures
        concat_all(batch_views(r.0@)) == blocks@,
        forall|i: int|
            0 <= i < r.0@.len() - 1 ==> (#[trigger] r.0@[i])@.len() == groupby,
        forall|i: int|
            0 <= i < r.0@.len() ==> 1 <= (#[trigger] r.0@[i])@.len() <= groupby,
        r.0@.len() == (blocks@.len() + groupby - 1) as int / (groupby as int),
        r.1.wf(),
        r.1@ == singleton_summary(collect_stage_name(), blocks@.len() as int),
{
    collect_stream(blocks, groupby, "CollectBlocksCall")
}

/// One worker's job over minimal blocks: batches in order plus the
/// worker's summary, reporting under the minimal collecting stage's name.
pub fn run_collect_minimal(blocks: Vec<MinimalBlock>, groupby: usize) -> (r: (
    Vec<Vec<MinimalBlock>>,
    Accumulator,
))
    requires
        groupby >= 1,
        blocks@.len() + groupby <= u64::MAX,
    ensures
        concat_all(batch_views(r.0@)) == blocks@,
        forall|i: int|
            0 <= i < r.0@.len() - 1 ==> (#[trigger] r.0@[i])@.len() == groupby,
        forall|i: int|
            0 <= i < r.0@.len() ==> 1 <= (#[trigger] r.0@[i])@.len() <= groupby,
        r.0@.len() == (blocks@.len() + groupby - 1) as int / (groupby as int),
        r.1.wf(),
        r.1@ == singleton_summary(collect_minimal_stage_name(), blocks@.len() as int),
{
    collect_stream(blocks, groupby, "CollectBlocksMinimalCall")
}

/// Merge the workers' summaries left to right into one. Because the merge
/// is associative and commutative, this is the summary of the whole job
/// whatever order the workers completed in.
pub fn merge_accumulators(accs: Vec<Accumulator>) -> (r: Accumulator)
    requires
        forall|i: int| 0 <= i < accs@.len() ==> (#[trigger] accs@[i]).wf(),
    ensures
        r.wf(),
        r@ == fold_merge(summaries_of(accs@)),
{
    let ghost maps = summaries_of(accs@);
    let mut r = Accumulator::new();
    proof {
        assert(maps.take(0) =~= Seq::<Map<Seq<char>, int>>::empty());
        assert(r@ =~= fold_merge(maps.take(0)));
    }
    let mut i: usize = 0;
    while i < accs.len()
        invariant
            0 <= i <= accs@.len(),
            maps == summaries_of(accs@),
            forall|j: int| 0 <= j < accs@.len() ==> (#[trigger] accs@[j]).wf(),
            r.wf(),
            r@ == fold_merge(maps.take(i as int)),
        decreases accs@.len() - i,
    {
        r.merge(&accs[i]);
        proof {
            assert(maps.take(i + 1).drop_last() =~= maps.take(i as int));
            assert(maps.take(i + 1).last() == maps[i as int]);
            assert(maps[i as int] == accs@[i as int]@);
        }
        i = i + 1;
    }
    proof {
        assert(maps.take(maps.len() as int) =~= maps);
    }
    r
}

/// The items of the first `j` workers' sub-streams, taken together as a
/// multiset.
pub open spec fn rr_contents<T>(s: Seq<T>, k: int, j: int) -> Multiset<T>
    decreases j,
{
    if j <= 0 {
        Multiset::empty()
    } else {
        rr_contents(s, k, j - 1).add(spec_round_robin(s, k, j - 1).to_multiset())
    }
}

proof fn lemma_rr_contents_empty<T>(s: Seq<T>, k: int, j: int)
    requires
        s.len() == 0,
        0 <= j,
    ensures
        rr_contents(s, k, j) =~= Multiset::empty(),
    decreases j,
{
    broadcast use vstd::seq_lib::group_to_multiset_ensures;

    if j > 0 {
        lemma_rr_contents_empty(s, k, j - 1);
        assert(spec_round_robin(s, k, j - 1).len() == 0);
        assert(spec_round_robin(s, k, j - 1).to_multiset().len() == 0);
        assert(rr_contents(s, k, j) =~= Multiset::empty());
    }
}

proof fn lemma_rr_contents_step<T>(s: Seq<T>, t: Seq<T>, k: int, j: int, w0: int, e: T)
    requires
        0 <= w0 < k,
        0 <= j <= k,
        forall|w: int|
            0 <= w < k && w != w0 ==> (#[trigger] spec_round_robin(s, k, w)).to_multiset()
                == spec_round_robin(t, k, w).to_multiset(),
        spec_round_robin(s, k, w0).to_multiset() == spec_round_robin(t, k, w0).to_multiset()
            .insert(e),
    ensures
        w0 < j ==> rr_contents(s, k, j) =~= rr_contents(t, k, j).insert(e),
        w0 >= j ==> rr_contents(s, k, j) =~= rr_contents(t, k, j),
    decreases j,
{
    if j > 0 {
        lemma_rr_contents_step(s, t, k, j - 1, w0, e);
    }
}

/// The fan-out loses no record and duplicates none: the items of the
/// workers' round-robin sub-streams, taken together, are exactly the
/// input stream's items. With the merge laws this makes a parallel run's
/// delivered content and summary those of the direct run, whatever the
/// worker count and whatever order the workers complete in.
pub proof fn lemma_fan_out_content_matches_direct<T>(s: Seq<T>, k: int)
    requires
        k >= 1,
    ensures
        rr_contents(s, k, k) == s.to_multiset(),
    decreases s.len(),
{
    broadcast use vstd::seq_lib::group_to_multiset_ensures;

    if s.len() == 0 {
        lemma_rr_contents_empty(s, k, k);
        assert(s.to_multiset().len() == 0);
        assert(rr_contents(s, k, k) =~= s.to_multiset());
    } else {
        let t = s.drop_last();
        let e = s.last();
        let w0 = (s.len() - 1) % k;
        lemma_fan_out_content_matches_direct(t, k);
        assert forall|w: int|
            0 <= w < k && w != w0 implies (#[trigger] spec_round_robin(s, k, w)).to_multiset()
            == spec_round_robin(t, k, w).to_multiset() by {
            assert(spec_round_robin(s, k, w) == spec_round_robin(t, k, w) + Seq::<T>::empty());
            assert(spec_round_robin(t, k, w) + Seq::<T>::empty() =~= spec_round_robin(t, k, w));
        }
        assert(spec_round_robin(s, k, w0).to_multiset() == spec_round_robin(t, k, w0)
            .to_multiset().insert(e)) by {
            assert(spec_round_robin(s, k, w0) == spec_round_robin(t, k, w0) + seq![e]);
            assert(spec_round_robin(t, k, w0) + seq![e] =~= spec_round_robin(t, k, w0).push(e));
            assert(spec_round_robin(t, k, w0).push(e).to_multiset() =~= spec_round_robin(
                t,
                k,
                w0,
            ).to_multiset().insert(e));
        }
        lemma_rr_contents_step(s, t, k, k, w0, e);
        assert(s =~= t.push(e));
        assert(t.push(e).to_multiset() =~= t.to_multiset().insert(e));
        assert(rr_contents(s, k, k) =~= s.to_multiset());
    }
}

/// The sum of a list of counters.
pub open spec fn sum_ints(v: Seq<int>) -> int
    decreases v.len(),
{
    if v.len() == 0 {
        0
    } else {
        sum_ints(v.drop_last()) + v.last()
    }
}

proof fn lemma_sum_zero(v: Seq<int>)
    requires
        forall|i: int| 0 <= i < v.len() ==> v[i] == 0,
    ensures
        sum_ints(v) == 0,
    decreases v.len(),
{
    if v.len() > 0 {
        lemma_sum_zero(v.drop_last());
    }
}

proof fn lemma_sum_pointwise_plus_one(a: Seq<int>, b: Seq<int>, w0: int)
    requires
        a.len() == b.len(),
        0 <= w0 < a.len(),
        b[w0] == a[w0] + 1,
        forall|w: int| 0 <= w < a.len() && w != w0 ==> a[w] == b[w],
    ensures
        sum_ints(b) == sum_ints(a) + 1,
    decreases a.len(),
{
    if w0 == a.len() - 1 {
        assert(a.drop_last() =~= b.drop_last());
    } else {
        lemma_sum_pointwise_plus_one(a.drop_last(), b.drop_last(), w0);
        assert(a.last() == b.last());
    }
}

/// The length of each round-robin worker's sub-stream.
pub open spec fn rr_lens<T>(s: Seq<T>, k: int) -> Seq<int> {
    Seq::new(k as nat, |w: int| spec_round_robin(s, k, w).len() as int)
}

/// Round-robin distribution loses no item and duplicates none: the workers'
/// sub-stream lengths sum to the length of the input stream.
pub proof fn lemma_round_robin_total<T>(s: Seq<T>, k: int)
    requires
        k >= 1,
    ensures
        sum_ints(rr_lens(s, k)) == s.len(),
    decreases s.len(),
{
    let vals = rr_lens(s, k);
    if s.len() == 0 {
        lemma_sum_zero(vals);
    } else {
        let t = s.drop_last();
        let w0 = (s.len() - 1) % k;
        lemma_round_robin_total(t, k);
        let valst = rr_lens(t, k);
        assert forall|w: int| 0 <= w < k && w != w0 implies valst[w] == vals[w] by {
            assert(spec_round_robin(s, k, w) == spec_round_robin(t, k, w) + Seq::<T>::empty());
            assert(spec_round_robin(t, k, w) + Seq::<T>::empty() =~= spec_round_robin(t, k, w));
        }
        assert(vals[w0] == valst[w0] + 1) by {
            assert(spec_round_robin(s, k, w0) == spec_round_robin(t, k, w0) + seq![s.last()]);
        }
        lemma_sum_pointwise_plus_one(valst, vals, w0);
    }
}

/// Merging the summaries of any family of workers, each reporting its own
/// item count under one stage name, yields the single summary counting the
/// total: how the stream was partitioned cannot matter.
pub proof fn lemma_fold_singletons(vals: Seq<int>, key: Seq<char>)
    requires
        vals.len() >= 1,
        forall|i: int| 0 <= i < vals.len() ==> 0 <= #[trigger] vals[i],
        sum_ints(vals) <= u64::MAX,
    ensures
        fold_merge(singletons_of(vals, key)) =~= singleton_summary(key, sum_ints(vals)),
    decreases vals.len(),
{
    let ms = singletons_of(vals, key);
    assert(ms.last() == singleton_summary(key, vals.last()));
    if vals.len() == 1 {
        assert(ms.drop_last() =~= Seq::<Map<Seq<char>, int>>::empty());
        assert(vals.drop_last().len() == 0);
        assert(sum_ints(vals.drop_last()) == 0);
        assert(sum_ints(vals) == sum_ints(vals.drop_last()) + vals.last());
        assert(spec_merge(Map::empty(), singleton_summary(key, vals.last()))
            =~= singleton_summary(key, vals.last()));
        assert(fold_merge(ms) == spec_merge(fold_merge(ms.drop_last()), ms.last()));
        assert(fold_merge(ms.drop_last()) == Map::<Seq<char>, int>::empty());
        assert(fold_merge(ms) == singleton_summary(key, sum_ints(vals)));
    } else {
        assert(ms.drop_last() =~= singletons_of(vals.drop_last(), key));
        assert(ms.drop_last() == singletons_of(vals.drop_last(), key));
        assert(0 <= vals.last());
        assert(forall|i: int|
            0 <= i < vals.drop_last().len() ==> 0 <= #[trigger] vals.drop_last()[i]);
        lemma_sum_nonneg(vals.drop_last());
        lemma_fold_singletons(vals.drop_last(), key);
        assert(spec_merge(
            singleton_summary(key, sum_ints(vals.drop_last())),
            singleton_summary(key, vals.last()),
        ) =~= singleton_summary(key, sum_ints(vals)));
        assert(fold_merge(ms) == spec_merge(fold_merge(ms.drop_last()), ms.last()));
        assert(fold_merge(ms.drop_last()) == fold_merge(singletons_of(vals.drop_last(), key)));
        assert(fold_merge(ms) == singleton_summary(key, sum_ints(vals)));
    }
}

proof fn lemma_sum_nonneg(v: Seq<int>)
    requires
        forall|i: int| 0 <= i < v.len() ==> 0 <= #[trigger] v[i],
    ensures
        sum_ints(v) >= 0,
    decreases v.len(),
{
    if v.len() > 0 {
        lemma_sum_nonneg(v.drop_last());
    }
}

/// The fan-out/merge law: for any worker count `k` of at least one, merging
/// the per-worker summaries of a round-robin distribution of a stream gives
/// exactly the summary of the direct, single-threaded run over the whole
/// stream.
pub proof fn lemma_fan_out_merge_matches_direct<T>(s: Seq<T>, k: int, key: Seq<char>)
    requires
        1 <= k,
        s.len() <= u64::MAX,
    ensures
        fold_merge(worker_summaries(s, k, key)) =~= singleton_summary(key, s.len() as int),
{
    let vals = rr_lens(s, k);
    lemma_round_robin_total(s, k);
    assert forall|i: int| 0 <= i < vals.len() implies 0 <= #[trigger] vals[i] by {}
    lemma_fold_singletons(vals, key);
    assert(worker_summaries(s, k, key) =~= singletons_of(vals, key));
    assert(worker_summaries(s, k, key) == singletons_of(vals, key));
}

} // verus!
