use brad_qe::ops::stream::{
    batch_filter, compact, filter_all, settle, Batch, FilterStream, Polled, Step, StreamError,
};

fn batch(keys: &[i64]) -> Batch<i64> {
    Batch { rows: keys.to_vec() }
}

fn mask_for(batch: &Batch<i64>, keep: fn(i64) -> bool) -> Vec<bool> {
    batch.rows.iter().map(|k| keep(*k)).collect()
}

fn not_two(k: i64) -> bool {
    k != 2
}

#[test]
fn compact_keeps_flagged_rows_in_order() {
    let b = batch(&[10, 20, 30, 40, 50]);
    let out = compact(&b, &vec![true, false, true, true, false]).unwrap();
    assert_eq!(out.rows, vec![10, 30, 40]);
}

#[test]
fn compact_with_no_flag_set_keeps_nothing() {
    let out = compact(&batch(&[1, 2]), &vec![false, false]).unwrap();
    assert!(out.rows.is_empty());
    assert_eq!(out.num_rows(), 0);
}

#[test]
fn compact_of_an_empty_batch_is_empty() {
    let out = compact(&batch(&[]), &vec![]).unwrap();
    assert!(out.rows.is_empty());
}

#[test]
fn compact_refuses_a_mask_of_another_length() {
    assert_eq!(compact(&batch(&[1, 2]), &vec![true]), Err(StreamError::MaskLength));
    assert_eq!(
        compact(&batch(&[1]), &vec![true, false]),
        Err(StreamError::MaskLength)
    );
}

#[test]
fn batch_filter_applies_the_predicate() {
    let out = batch_filter(&batch(&[1, 2, 3]), &|b: &Batch<i64>| Ok(mask_for(b, not_two)));
    assert_eq!(out, Ok(batch(&[1, 3])));
}

#[test]
fn batch_filter_hands_on_an_evaluation_error() {
    let out = batch_filter(&batch(&[1, 2, 3]), &|_b: &Batch<i64>| {
        Err(StreamError::Evaluation)
    });
    assert_eq!(out, Err(StreamError::Evaluation));
}

#[test]
fn settle_passes_over_a_batch_without_rows() {
    assert_eq!(settle(Ok((batch(&[]), 0))), Step::Again);
    assert_eq!(settle(Ok((batch(&[7]), 1))), Step::Return(Polled::Batch(batch(&[7]))));
    assert_eq!(settle(Ok(("rows", 3))), Step::Return(Polled::Batch("rows")));
    assert_eq!(
        settle::<Batch<i64>>(Err(StreamError::Upstream)),
        Step::Return(Polled::Failed(StreamError::Upstream))
    );
}

#[test]
fn stream_forwards_what_is_no_batch() {
    let mut stream = FilterStream::new(|b: &Batch<i64>| Ok(mask_for(b, not_two)));
    assert_eq!(stream.poll_next::<i64>(Polled::Pending), Step::Return(Polled::Pending));
    assert!(!stream.is_ended());
    assert_eq!(stream.poll_next::<i64>(Polled::Finished), Step::Return(Polled::Finished));
    assert!(stream.is_ended());
    let mut other = FilterStream::new(|b: &Batch<i64>| Ok(mask_for(b, not_two)));
    assert_eq!(
        other.poll_next::<i64>(Polled::Failed(StreamError::Upstream)),
        Step::Return(Polled::Failed(StreamError::Upstream))
    );
    assert!(other.is_ended());
}

#[test]
fn stream_filters_each_batch() {
    let mut stream = FilterStream::new(|b: &Batch<i64>| Ok(mask_for(b, not_two)));
    assert_eq!(
        stream.poll_next(Polled::Batch(batch(&[1, 2]))),
        Step::Return(Polled::Batch(batch(&[1])))
    );
    assert_eq!(stream.poll_next(Polled::Batch(batch(&[2, 2]))), Step::Again);
    assert_eq!(
        stream.poll_next(Polled::Batch(batch(&[3]))),
        Step::Return(Polled::Batch(batch(&[3])))
    );
}

#[test]
fn stream_ends_on_an_evaluation_error() {
    let mut stream = FilterStream::new(|_b: &Batch<i64>| {
        Err::<Vec<bool>, StreamError>(StreamError::Evaluation)
    });
    assert_eq!(
        stream.poll_next(Polled::Batch(batch(&[1, 2]))),
        Step::Return(Polled::Failed(StreamError::Evaluation))
    );
}

#[test]
fn stream_goes_on_after_a_batch_that_was_filtered_out() {
    let mut stream = FilterStream::new(|b: &Batch<i64>| Ok(mask_for(b, not_two)));
    let upstream = vec![
        Polled::Batch(batch(&[2])),
        Polled::Pending,
        Polled::Batch(batch(&[2, 2])),
        Polled::Batch(batch(&[2, 5])),
        Polled::Finished,
    ];
    let mut seen = Vec::new();
    for polled in upstream {
        match stream.poll_next(polled) {
            Step::Again => continue,
            Step::Return(out) => seen.push(out),
        }
    }
    assert_eq!(seen, vec![Polled::Pending, Polled::Batch(batch(&[5])), Polled::Finished]);
}

#[test]
fn filter_shrinks_one_batch_and_keeps_the_other() {
    let first = batch(&[1, 2]);
    let second = batch(&[3]);
    let stream = vec![
        (first.clone(), mask_for(&first, not_two)),
        (second.clone(), mask_for(&second, not_two)),
    ];
    assert_eq!(filter_all(&stream), Ok(vec![batch(&[1]), batch(&[3])]));
}

#[test]
fn filter_emits_no_empty_batch() {
    let stream = vec![
        (batch(&[2, 2]), vec![false, false]),
        (batch(&[1, 2, 3]), vec![true, false, true]),
        (batch(&[]), vec![]),
        (batch(&[2]), vec![false]),
        (batch(&[4]), vec![true]),
    ];
    assert_eq!(filter_all(&stream), Ok(vec![batch(&[1, 3]), batch(&[4])]));
}

#[test]
fn filter_of_nothing_is_nothing() {
    let stream: Vec<(Batch<i64>, Vec<bool>)> = vec![];
    assert_eq!(filter_all(&stream), Ok(vec![]));
}

#[test]
fn filter_fails_on_the_first_mask_that_does_not_fit() {
    let stream = vec![
        (batch(&[1]), vec![true]),
        (batch(&[1, 2]), vec![true]),
        (batch(&[3]), vec![true]),
    ];
    assert_eq!(filter_all(&stream), Err(StreamError::MaskLength));
}

#[test]
fn filter_keeps_rows_in_their_order_across_batches() {
    let keep = |k: i64| k % 3 != 0;
    let batches = vec![batch(&[9, 1, 2]), batch(&[3, 6]), batch(&[4, 3, 5]), batch(&[7])];
    let stream: Vec<(Batch<i64>, Vec<bool>)> = batches
        .iter()
        .map(|b| (b.clone(), b.rows.iter().map(|k| keep(*k)).collect()))
        .collect();
    let out = filter_all(&stream).unwrap();
    let rows: Vec<i64> = out.iter().flat_map(|b| b.rows.clone()).collect();
    let expected: Vec<i64> =
        batches.iter().flat_map(|b| b.rows.clone()).filter(|k| keep(*k)).collect();
    assert_eq!(rows, expected);
    assert_eq!(rows, vec![1, 2, 4, 5, 7]);
    assert!(out.iter().all(|b| !b.rows.is_empty()));
}

#[test]
fn evaluation_error_is_the_last_thing_that_the_stream_hands_on() {
    let calls = std::cell::Cell::new(0);
    let mut stream = FilterStream::new(|b: &Batch<i64>| {
        calls.set(calls.get() + 1);
        if b.rows.contains(&0) {
            Err(StreamError::Evaluation)
        } else {
            Ok(mask_for(b, not_two))
        }
    });
    assert_eq!(
        stream.poll_next(Polled::Batch(batch(&[1]))),
        Step::Return(Polled::Batch(batch(&[1])))
    );
    assert_eq!(
        stream.poll_next(Polled::Batch(batch(&[0, 1]))),
        Step::Return(Polled::Failed(StreamError::Evaluation))
    );
    assert!(stream.is_ended());
    assert_eq!(
        stream.poll_next(Polled::Batch(batch(&[5, 6]))),
        Step::Return(Polled::Finished)
    );
    assert_eq!(stream.poll_next::<i64>(Polled::Pending), Step::Return(Polled::Finished));
    assert_eq!(
        stream.poll_next::<i64>(Polled::Failed(StreamError::Upstream)),
        Step::Return(Polled::Finished)
    );
    assert!(stream.is_ended());
    assert_eq!(calls.get(), 2);
}

#[test]
fn stream_stays_at_its_end_after_the_childs_end() {
    let mut stream = FilterStream::new(|b: &Batch<i64>| Ok(mask_for(b, not_two)));
    assert_eq!(stream.poll_next::<i64>(Polled::Finished), Step::Return(Polled::Finished));
    assert_eq!(
        stream.poll_next(Polled::Batch(batch(&[1]))),
        Step::Return(Polled::Finished)
    );
}

#[test]
fn advance_decides_on_a_batch_that_was_filtered_elsewhere() {
    let mut stream = FilterStream::new(());
    assert_eq!(stream.advance(Polled::Batch(Ok(("rows", 0)))), Step::Again);
    assert_eq!(
        stream.advance(Polled::Batch(Ok(("rows", 2)))),
        Step::Return(Polled::Batch("rows"))
    );
    assert_eq!(stream.advance::<&str>(Polled::Pending), Step::Return(Polled::Pending));
    assert!(!stream.is_ended());
    assert_eq!(
        stream.advance::<&str>(Polled::Batch(Err(StreamError::Evaluation))),
        Step::Return(Polled::Failed(StreamError::Evaluation))
    );
    assert!(stream.is_ended());
    assert_eq!(
        stream.advance(Polled::Batch(Ok(("rows", 2)))),
        Step::Return(Polled::Finished)
    );
}
