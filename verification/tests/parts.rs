use hnsw_index::entry_points::{EntryPoint, EntryPoints};
use hnsw_index::priority_queue::FixedLengthPriorityQueue;
use hnsw_index::ranking::insert_ranked;
use hnsw_index::scorer::{FilteredScorer, PairScorer, PointFilter, PointScorer};
use hnsw_index::search_context::SearchContext;
use hnsw_index::types::{score_from_bits, PointOffsetType, ScoreType, ScoredPointOffset};
use hnsw_index::visited_pool::{VisitedList, VisitedPool};

fn point(idx: PointOffsetType, score: ScoreType) -> ScoredPointOffset {
    ScoredPointOffset { idx, score }
}

#[test]
fn scores_are_ordered_like_floats() {
    let values: Vec<f32> = vec![
        f32::NEG_INFINITY,
        f32::MIN,
        -1.5,
        -1.0,
        -f32::MIN_POSITIVE,
        -1.0e-45,
        0.0,
        1.0e-45,
        f32::MIN_POSITIVE,
        0.5,
        1.0,
        2.0,
        f32::MAX,
        f32::INFINITY,
    ];
    for a in values.iter() {
        for b in values.iter() {
            let score_a = score_from_bits(a.to_bits()).unwrap();
            let score_b = score_from_bits(b.to_bits()).unwrap();
            assert_eq!(score_a < score_b, a < b);
            assert_eq!(score_a == score_b, a == b);
        }
    }
    assert_eq!(score_from_bits((-0.0f32).to_bits()), Some(0));
    assert_eq!(score_from_bits(1.0f32.to_bits()), Some(0x3f80_0000));
    assert_eq!(score_from_bits((-1.0f32).to_bits()), Some(-0x3f80_0000));
    assert_eq!(score_from_bits(f32::NAN.to_bits()), None);
    assert_eq!(score_from_bits((-f32::NAN).to_bits()), None);
}

#[test]
fn ranked_insert_comes_after_equals() {
    let mut items = vec![point(1, 5), point(2, 3), point(3, 3), point(4, 1)];
    insert_ranked(&mut items, point(9, 3));
    let ids: Vec<PointOffsetType> = items.iter().map(|x| x.idx).collect();
    assert_eq!(ids, vec![1, 2, 3, 9, 4]);
}

#[test]
fn queue_keeps_the_best() {
    let mut queue = FixedLengthPriorityQueue::new(3);
    for (idx, score) in vec![(1, 4), (2, 9), (3, 1), (4, 7), (5, 4), (6, 8)] {
        queue.push(point(idx, score));
    }
    assert_eq!(queue.len(), 3);
    assert_eq!(queue.max_len(), 3);
    assert_eq!(queue.into_vec(), vec![point(2, 9), point(6, 8), point(4, 7)]);
}

#[test]
fn queue_can_be_rebuilt() {
    let mut queue = FixedLengthPriorityQueue::new(3);
    for (idx, score) in vec![(1, 4), (2, 9), (3, 4), (4, 7)] {
        queue.push(point(idx, score));
    }
    let mut copy = FixedLengthPriorityQueue::new(3);
    for item in queue.iter() {
        copy.push(*item);
    }
    assert_eq!(copy.into_vec(), queue.into_vec());
}

#[test]
fn queue_without_room_hands_everything_back() {
    let mut queue = FixedLengthPriorityQueue::new(0);
    assert_eq!(queue.push(point(1, 4)), Some(point(1, 4)));
    assert_eq!(queue.len(), 0);
}

#[test]
fn visited_list_tells_what_it_has_seen() {
    let mut list = VisitedList::new(2);
    assert!(!list.check_and_update_visited(1));
    assert!(list.check_and_update_visited(1));
    assert!(!list.check_and_update_visited(7));
    assert!(!list.check_and_update_visited(0));
    assert!(list.check_and_update_visited(7));
    assert!(!list.check_and_update_visited(6));
}

#[test]
fn pool_hands_out_empty_lists() {
    let pool = VisitedPool::new();
    let mut list = pool.get(3);
    assert!(!list.check_and_update_visited(2));
    pool.return_back(list);
    let mut again = pool.get(5);
    assert!(!again.check_and_update_visited(2));
    assert!(!again.check_and_update_visited(4));
    let mut other = pool.get(5);
    assert!(!other.check_and_update_visited(2));
    pool.return_back(again);
    pool.return_back(other);
    let mut smaller = pool.get(1);
    assert!(!smaller.check_and_update_visited(2));
}

#[test]
fn entry_points_prefer_the_highest_admitted() {
    let all = PointFilter::new(|_p: PointOffsetType| true);
    let mut entries = EntryPoints::new(2);
    assert_eq!(entries.new_point(1, 1, &all), None);
    // At least as high: the new point becomes an extra one
    assert_eq!(entries.new_point(2, 1, &all), Some(EntryPoint { point_id: 1, level: 1 }));
    // Higher: the new point takes the place of the old one
    assert_eq!(entries.new_point(3, 4, &all), Some(EntryPoint { point_id: 1, level: 1 }));
    assert_eq!(entries.entry_points, vec![EntryPoint { point_id: 3, level: 4 }]);
    assert_eq!(entries.get_entry_point(&all), Some(EntryPoint { point_id: 3, level: 4 }));
    let no_three = PointFilter::new(|p: PointOffsetType| p != 3);
    assert_eq!(entries.get_entry_point(&no_three), Some(EntryPoint { point_id: 2, level: 1 }));
    // Not admitted: a second entry point
    assert_eq!(entries.new_point(5, 0, &no_three), None);
    assert_eq!(entries.get_entry_point(&no_three), Some(EntryPoint { point_id: 5, level: 0 }));
    let none = PointFilter::new(|_p: PointOffsetType| false);
    assert_eq!(entries.get_entry_point(&none), None);
}

#[test]
fn candidate_is_followed_only_if_it_is_kept() {
    let mut context = SearchContext::new(point(0, 5), 1);
    assert_eq!(context.candidates, vec![0]);
    context.process_candidate(point(1, 4));
    assert_eq!(context.candidates, vec![0]);
    context.process_candidate(point(2, 6));
    assert_eq!(context.candidates, vec![0, 2]);
    assert_eq!(context.nearest.into_vec(), vec![point(2, 6)]);
}

#[test]
fn scorer_filters_and_limits() {
    let scorer = FilteredScorer {
        query_scorer: PointScorer::new(|p: PointOffsetType| 10 * p as ScoreType),
        pair_scorer: PairScorer::new(|a: PointOffsetType, b: PointOffsetType| {
            a as ScoreType - b as ScoreType
        }),
        filter: PointFilter::new(|p: PointOffsetType| p % 2 == 0),
    };
    assert!(scorer.check_point(4));
    assert!(!scorer.check_point(5));
    assert_eq!(scorer.score_point(3), 30);
    assert_eq!(scorer.score_internal(7, 2), 5);
    let scored = scorer.score_iterable_points(&vec![1, 4, 2, 3, 6], 2);
    assert_eq!(scored, vec![point(4, 40), point(2, 20)]);
    let all = scorer.score_iterable_points(&vec![1, 4, 2, 3, 6], 9);
    assert_eq!(all, vec![point(4, 40), point(2, 20), point(6, 60)]);
    assert_eq!(scorer.score_iterable_points(&vec![4], 0), vec![]);
}
