use qtextract::batch::Batcher;

/// The batch law on concrete values: seven records at threshold three give
/// exactly three batches, ceiling(7 / 3), whose concatenation reproduces
/// the stream in order, and the count totals the records.
#[test]
fn three_batches_of_seven() {
    let mut b: Batcher<i64> = Batcher::new(3);
    let mut batches: Vec<Vec<i64>> = Vec::new();
    for x in 0..7i64 {
        if let Some(batch) = b.submit(x) {
            batches.push(batch);
        }
    }
    let (last, count) = b.finish();
    if let Some(batch) = last {
        batches.push(batch);
    }
    assert_eq!(batches.len(), 3);
    assert_eq!(batches[0], vec![0, 1, 2]);
    assert_eq!(batches[1], vec![3, 4, 5]);
    assert_eq!(batches[2], vec![6]);
    assert_eq!(count, 7);
}

/// A stream that divides evenly leaves nothing for the final flush.
#[test]
fn exact_multiple_has_no_partial_batch() {
    let mut b: Batcher<i64> = Batcher::new(2);
    let mut emitted = 0;
    for x in 0..6i64 {
        if b.submit(x).is_some() {
            emitted += 1;
        }
    }
    let (last, count) = b.finish();
    assert!(last.is_none());
    assert_eq!(emitted, 3);
    assert_eq!(count, 6);
}

/// An empty stream emits no batch at all.
#[test]
fn empty_stream_emits_nothing() {
    let mut b: Batcher<u8> = Batcher::new(4);
    let (last, count) = b.finish();
    assert!(last.is_none());
    assert_eq!(count, 0);
}

/// A threshold of one emits every record as its own batch at once.
#[test]
fn threshold_one_emits_immediately() {
    let mut b: Batcher<i64> = Batcher::new(1);
    let first = b.submit(42);
    assert_eq!(first, Some(vec![42]));
    let second = b.submit(43);
    assert_eq!(second, Some(vec![43]));
    let (last, count) = b.finish();
    assert!(last.is_none());
    assert_eq!(count, 2);
}

/// The running count advances only when a batch is emitted.
#[test]
fn count_tracks_emitted_records() {
    let mut b: Batcher<i64> = Batcher::new(3);
    b.submit(1);
    b.submit(2);
    assert_eq!(b.count(), 0);
    b.submit(3);
    assert_eq!(b.count(), 3);
    b.submit(4);
    let (_, count) = b.finish();
    assert_eq!(count, 4);
}
