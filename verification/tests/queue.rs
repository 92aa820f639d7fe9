use hnsw_index::priority_queue::FixedLengthPriorityQueue;
use hnsw_index::types::ScoredPointOffset;

#[test]
fn queue_hands_back_what_leaves() {
    let mut queue = FixedLengthPriorityQueue::new(1);
    let low = ScoredPointOffset { idx: 1, score: 10 };
    let high = ScoredPointOffset { idx: 2, score: 20 };
    assert_eq!(queue.push(low), None);
    assert_eq!(queue.push(high), Some(low));
    assert_eq!(queue.push(low), Some(low));
    assert_eq!(queue.into_vec(), vec![high]);
}
