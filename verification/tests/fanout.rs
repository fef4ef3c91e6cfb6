use qtextract::accumulator::Accumulator;
use qtextract::block::PrimitiveBlock;
use qtextract::pipeline::{merge_accumulators, run_collect, split_round_robin};

/// Round-robin distribution sends item `i` to worker `i % k`, preserving
/// each worker's order.
#[test]
fn round_robin_shape() {
    let items: Vec<i64> = (0..10).collect();
    let queues = split_round_robin(items, 3);
    assert_eq!(queues.len(), 3);
    assert_eq!(queues[0], vec![0, 3, 6, 9]);
    assert_eq!(queues[1], vec![1, 4, 7]);
    assert_eq!(queues[2], vec![2, 5, 8]);
}

/// One worker receives the whole stream unchanged.
#[test]
fn round_robin_single_worker() {
    let items: Vec<i64> = (0..5).collect();
    let queues = split_round_robin(items, 1);
    assert_eq!(queues.len(), 1);
    assert_eq!(queues[0], vec![0, 1, 2, 3, 4]);
}

fn blocks(n: i64) -> Vec<PrimitiveBlock> {
    (0..n).map(|i| PrimitiveBlock::new(i, 0)).collect()
}

/// The fan-out/merge law on concrete values: the merged summary of three
/// workers over a round-robin distribution equals the summary of the
/// direct single-threaded run on the same stream.
#[test]
fn parallel_merge_matches_direct() {
    let direct = run_collect(blocks(10), 4).1;

    let queues = split_round_robin(blocks(10), 3);
    let mut worker_accs: Vec<Accumulator> = Vec::new();
    for q in queues {
        worker_accs.push(run_collect(q, 4).1);
    }
    let merged = merge_accumulators(worker_accs);

    assert_eq!(merged.get("CollectBlocksCall"), Some(10));
    assert_eq!(direct.get("CollectBlocksCall"), Some(10));
    assert_eq!(merged.len(), direct.len());
}

/// The worker job batches its blocks and counts them: ceiling(10 / 4)
/// batches, concatenating to the input, and a count of ten.
#[test]
fn collect_batches_and_counts() {
    let (batches, acc) = run_collect(blocks(10), 4);
    assert_eq!(batches.len(), 3);
    assert_eq!(batches[0].len(), 4);
    assert_eq!(batches[1].len(), 4);
    assert_eq!(batches[2].len(), 2);
    let total: usize = batches.iter().map(|b| b.len()).sum();
    assert_eq!(total, 10);
    let mut idx = 0i64;
    for b in &batches {
        for bl in b {
            assert_eq!(bl.index, idx);
            idx += 1;
        }
    }
    assert_eq!(acc.get("CollectBlocksCall"), Some(10));
}

/// The records a parallel run delivers are exactly the direct run's: no
/// block is lost or duplicated by the fan-out, only reordered across
/// workers, and the original order returns by the carried sequence index.
#[test]
fn parallel_delivers_same_content() {
    let direct: Vec<i64> = run_collect(blocks(11), 3)
        .0
        .into_iter()
        .flatten()
        .map(|b| b.index)
        .collect();

    let mut parallel: Vec<i64> = Vec::new();
    for q in split_round_robin(blocks(11), 4) {
        for batch in run_collect(q, 3).0 {
            for b in batch {
                parallel.push(b.index);
            }
        }
    }
    parallel.sort();
    assert_eq!(parallel, direct);
    assert_eq!(parallel, (0..11).collect::<Vec<i64>>());
}

/// Merging summaries sums matching stages and keeps the union of stages;
/// the order of the two sides does not matter.
#[test]
fn merge_sums_and_commutes() {
    let mut a = Accumulator::new();
    a.add_other("decode", 5);
    a.add_other("write", 2);
    let mut b = Accumulator::new();
    b.add_other("decode", 7);
    b.add_other("index", 1);

    let mut ab = Accumulator::new();
    ab.merge(&a);
    ab.merge(&b);
    let mut ba = Accumulator::new();
    ba.merge(&b);
    ba.merge(&a);

    for m in [&ab, &ba] {
        assert_eq!(m.get("decode"), Some(12));
        assert_eq!(m.get("write"), Some(2));
        assert_eq!(m.get("index"), Some(1));
        assert_eq!(m.get("absent"), None);
        assert_eq!(m.len(), 3);
    }
}

/// Adding to an existing stage accumulates; a counter saturates at the
/// largest representable value instead of wrapping.
#[test]
fn add_other_accumulates_and_saturates() {
    let mut a = Accumulator::new();
    a.add_other("s", 1);
    a.add_other("s", 41);
    assert_eq!(a.get("s"), Some(42));
    a.add_other("s", u64::MAX);
    assert_eq!(a.get("s"), Some(u64::MAX));
}
