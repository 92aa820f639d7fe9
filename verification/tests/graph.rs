use hnsw_index::graph_layers::GraphLayers;
use hnsw_index::priority_queue::FixedLengthPriorityQueue;
use hnsw_index::scorer::{FilteredScorer, PairScorer, PointFilter, PointScorer};
use hnsw_index::types::{score_from_bits, PointOffsetType, ScoreType, ScoredPointOffset};
use rand::distributions::Uniform;
use rand::seq::SliceRandom;
use rand::{thread_rng, Rng};

fn score_of(similarity: f32) -> ScoreType {
    score_from_bits(similarity.to_bits()).expect("a similarity is a number")
}

fn random_vectors(dim: usize, count: usize, normalize: bool) -> Vec<Vec<f32>> {
    let mut rng = thread_rng();
    let mut vectors: Vec<Vec<f32>> = vec![];
    for _ in 0..count {
        let mut vector: Vec<f32> = (0..dim).map(|_| rng.gen()).collect();
        if normalize {
            let length = vector.iter().map(|x| x * x).sum::<f32>().sqrt();
            for x in vector.iter_mut() {
                *x /= length;
            }
        }
        vectors.push(vector);
    }
    vectors
}

fn dot(a: &[f32], b: &[f32]) -> f32 {
    a.iter().zip(b.iter()).map(|(x, y)| x * y).sum()
}

fn random_layer(level_factor: f64, rng: &mut rand::rngs::ThreadRng) -> usize {
    let distribution = Uniform::new(0.0, 1.0);
    let sample: f64 = rng.sample(distribution);
    let picked_level = -sample.ln() * level_factor;
    picked_level.round() as usize
}

/// Closeness of points on a line, by their distance.
fn on_a_line(a: PointOffsetType, b: PointOffsetType) -> ScoreType {
    -((a as ScoreType) - (b as ScoreType)).abs()
}

#[test]
fn test_connect_new_point() {
    let num_points = 10;
    let m = 6;
    let ef_construct = 32;

    let points: Vec<Vec<f32>> = vec![
        vec![21.79, 7.18],  // Target
        vec![20.58, 5.46],  // 1  B - yes
        vec![21.19, 4.51],  // 2  C
        vec![24.73, 8.24],  // 3  D - yes
        vec![24.55, 9.98],  // 4  E
        vec![26.11, 6.85],  // 5  F
        vec![17.64, 11.14], // 6  G - yes
        vec![14.97, 11.52], // 7  I
        vec![14.97, 9.60],  // 8  J
        vec![16.23, 14.32], // 9  H
        vec![12.69, 19.13], // 10 K
    ];

    let similarity = |a: PointOffsetType, b: PointOffsetType| {
        -((points[a as usize][0] - points[b as usize][0]).powi(2)
            + (points[a as usize][1] - points[b as usize][1]).powi(2))
        .sqrt()
    };
    let scorer = PairScorer::new(|a: PointOffsetType, b: PointOffsetType| {
        score_of(similarity(a, b))
    });

    let mut insert_ids: Vec<PointOffsetType> = (1..points.len() as PointOffsetType).collect();

    let mut candidates = FixedLengthPriorityQueue::new(insert_ids.len());
    for id in insert_ids.iter().cloned() {
        candidates.push(ScoredPointOffset { idx: id, score: scorer.score(0, id) });
    }

    let res = GraphLayers::select_candidates_with_heuristic(candidates, m, &scorer);

    assert_eq!(&res, &vec![1, 3, 6]);

    let mut graph_layers = GraphLayers::new(num_points, m, m, ef_construct, 1, true);
    insert_ids.shuffle(&mut thread_rng());
    for id in insert_ids.iter().cloned() {
        graph_layers.connect_new_point(id, 0, 0, &scorer)
    }
    assert_eq!(graph_layers.links(0, 0), &vec![1, 2, 3, 4, 5, 6]);
}

#[test]
fn test_search_on_level() {
    let dim = 8;
    let m = 8;
    let ef_construct = 32;
    let entry_points_num = 10;
    let num_vectors = 10;

    let vectors = random_vectors(dim, num_vectors, false);

    let mut graph_layers =
        GraphLayers::new(num_vectors, m, m * 2, ef_construct, entry_points_num, false);

    graph_layers.links_layers[0][0] = vec![1, 2, 3, 4, 5, 6];

    let linking_idx: PointOffsetType = 7;

    let added_vector = vectors[linking_idx as usize].to_vec();
    let scorer = FilteredScorer {
        query_scorer: PointScorer::new(|p: PointOffsetType| {
            score_of(dot(&added_vector, &vectors[p as usize]))
        }),
        pair_scorer: PairScorer::new(|a: PointOffsetType, b: PointOffsetType| {
            score_of(dot(&vectors[a as usize], &vectors[b as usize]))
        }),
        filter: PointFilter::new(|_p: PointOffsetType| true),
    };

    let nearest_on_level = graph_layers.search_on_level(
        ScoredPointOffset { idx: 0, score: scorer.score_point(0) },
        0,
        32,
        &scorer,
    );

    assert_eq!(nearest_on_level.len(), graph_layers.links_layers[0][0].len() + 1);
}

#[test]
fn test_add_points() {
    let dim = 8;
    let m = 8;
    let ef_construct = 16;
    let entry_points_num = 10;
    let num_vectors = 1000;

    let vectors = random_vectors(dim, num_vectors, true);

    let mut graph_layers =
        GraphLayers::new(num_vectors, m, m * 2, ef_construct, entry_points_num, true);
    let level_factor = 1.0 / (m as f64).ln();

    let mut rng = thread_rng();

    for idx in 0..(num_vectors as PointOffsetType) {
        let added_vector = vectors[idx as usize].to_vec();
        let scorer = FilteredScorer {
            query_scorer: PointScorer::new(|p: PointOffsetType| {
                score_of(dot(&added_vector, &vectors[p as usize]))
            }),
            pair_scorer: PairScorer::new(|a: PointOffsetType, b: PointOffsetType| {
                score_of(dot(&vectors[a as usize], &vectors[b as usize]))
            }),
            filter: PointFilter::new(|_p: PointOffsetType| true),
        };
        let level = random_layer(level_factor, &mut rng);
        graph_layers.link_new_point(idx, level, &scorer);
    }
    let main_entry = graph_layers
        .entry_points
        .get_entry_point(&PointFilter::new(|_x: PointOffsetType| true))
        .expect("Expect entry point to exists");

    assert!(main_entry.level > 0);

    let num_levels = graph_layers.links_layers.iter().map(|x| x.len()).max().unwrap();
    assert_eq!(main_entry.level + 1, num_levels);

    let total_links_0: usize = graph_layers.links_layers.iter().map(|x| x[0].len()).sum();

    assert!(total_links_0 > 0);

    assert!(total_links_0 as f64 / num_vectors as f64 > m as f64);
}

#[test]
fn new_graph_has_one_empty_level_per_point() {
    let graph = GraphLayers::new(3, 4, 8, 16, 2, true);
    assert_eq!(graph.num_points(), 3);
    assert_eq!(graph.max_level, 0);
    assert_eq!(graph.links_layers, vec![vec![vec![]; 1]; 3]);
    assert_eq!(graph.get_m(0), 8);
    assert_eq!(graph.get_m(1), 4);
    assert_eq!(graph.get_m(5), 4);
    assert!(graph.entry_points.entry_points.is_empty());
    assert_eq!(graph.entry_points.extra_entry_points.max_len(), 2);
    assert!(graph.is_well_formed());
}

#[test]
fn set_levels_adds_empty_levels_and_keeps_links() {
    let mut graph = GraphLayers::new(2, 4, 8, 16, 2, true);
    graph.links_layers[1][0] = vec![0];
    graph.set_levels(1, 2);
    assert_eq!(graph.links_layers[1], vec![vec![0], vec![], vec![]]);
    assert_eq!(graph.links_layers[0].len(), 1);
    assert_eq!(graph.max_level, 2);
    graph.set_levels(1, 1);
    assert_eq!(graph.links_layers[1].len(), 3);
    assert_eq!(graph.max_level, 2);
    assert!(graph.reaches_level(1, 2));
    assert!(!graph.reaches_level(1, 3));
    assert!(!graph.reaches_level(2, 0));
}

#[test]
fn full_list_lets_the_last_point_go_only_for_a_closer_one() {
    let scorer = PairScorer::new(on_a_line);
    let mut graph = GraphLayers::new(10, 2, 2, 16, 1, false);
    graph.connect_new_point(5, 0, 0, &scorer);
    graph.connect_new_point(3, 0, 0, &scorer);
    assert_eq!(graph.links(0, 0), &vec![3, 5]);
    graph.connect_new_point(7, 0, 0, &scorer);
    assert_eq!(graph.links(0, 0), &vec![3, 5]);
    graph.connect_new_point(1, 0, 0, &scorer);
    assert_eq!(graph.links(0, 0), &vec![1, 3]);
}

#[test]
fn equally_close_point_comes_after_the_older_one() {
    let scorer = PairScorer::new(on_a_line);
    let mut graph = GraphLayers::new(10, 4, 4, 16, 1, false);
    graph.connect_new_point(6, 5, 0, &scorer);
    graph.connect_new_point(4, 5, 0, &scorer);
    assert_eq!(graph.links(5, 0), &vec![6, 4]);
}

#[test]
fn order_of_connecting_is_irrelevant() {
    let scorer = PairScorer::new(on_a_line);
    for order in vec![vec![4, 1, 3, 2], vec![1, 2, 3, 4], vec![4, 3, 2, 1]] {
        let mut graph = GraphLayers::new(5, 3, 3, 16, 1, false);
        for id in order {
            graph.connect_new_point(id, 0, 0, &scorer);
        }
        assert_eq!(graph.links(0, 0), &vec![1, 2, 3]);
    }
}

#[test]
fn selection_takes_the_first_and_leaves_out_the_closer() {
    // Base point at 10; the others stand on both sides of it.
    let scorer = PairScorer::new(on_a_line);
    let candidates: Vec<ScoredPointOffset> = [11, 12, 8, 13, 5]
        .iter()
        .map(|p| ScoredPointOffset { idx: *p, score: on_a_line(10, *p) })
        .collect();
    let chosen = GraphLayers::select_candidate_with_heuristic_from_sorted(&candidates, 9, &scorer);
    assert_eq!(chosen, vec![11, 8]);
    let one = GraphLayers::select_candidate_with_heuristic_from_sorted(&candidates, 1, &scorer);
    assert_eq!(one, vec![11]);
    let none = GraphLayers::select_candidate_with_heuristic_from_sorted(&candidates, 0, &scorer);
    assert_eq!(none, Vec::<PointOffsetType>::new());
}

fn line_scorer(
    query: PointOffsetType,
    excluded: PointOffsetType,
) -> FilteredScorer<
    impl Fn(PointOffsetType) -> ScoreType,
    impl Fn(PointOffsetType, PointOffsetType) -> ScoreType,
    impl Fn(PointOffsetType) -> bool,
> {
    FilteredScorer {
        query_scorer: PointScorer::new(move |p: PointOffsetType| on_a_line(query, p)),
        pair_scorer: PairScorer::new(on_a_line),
        filter: PointFilter::new(move |p: PointOffsetType| p != excluded),
    }
}

#[test]
fn search_finds_the_reachable_points_in_order() {
    let mut graph = GraphLayers::new(6, 4, 4, 16, 1, false);
    graph.links_layers[0][0] = vec![1];
    graph.links_layers[1][0] = vec![2, 0];
    graph.links_layers[2][0] = vec![3];
    graph.links_layers[4][0] = vec![5];
    let scorer = line_scorer(2, 99);
    let entry = ScoredPointOffset { idx: 0, score: scorer.score_point(0) };
    let found: Vec<PointOffsetType> =
        graph.search_on_level(entry, 0, 10, &scorer).iter().iter().map(|x| x.idx).collect();
    assert_eq!(found, vec![2, 1, 3, 0]);
    let best: Vec<ScoredPointOffset> = graph.search_on_level(entry, 0, 1, &scorer).into_vec();
    assert_eq!(best, vec![ScoredPointOffset { idx: 2, score: 0 }]);
    let none = graph.search_on_level(entry, 0, 0, &scorer);
    assert_eq!(none.len(), 0);
}

#[test]
fn search_does_not_pass_filtered_points() {
    let mut graph = GraphLayers::new(4, 4, 4, 16, 1, false);
    graph.links_layers[0][0] = vec![1, 2];
    graph.links_layers[1][0] = vec![3];
    let scorer = line_scorer(3, 1);
    let entry = ScoredPointOffset { idx: 0, score: scorer.score_point(0) };
    let found: Vec<PointOffsetType> =
        graph.search_on_level(entry, 0, 10, &scorer).iter().iter().map(|x| x.idx).collect();
    assert_eq!(found, vec![2, 0]);
}

#[test]
fn search_looks_at_no_more_links_than_wanted() {
    let mut graph = GraphLayers::new(6, 2, 2, 16, 1, false);
    graph.links_layers[0][0] = vec![5, 4, 3, 2];
    let scorer = line_scorer(0, 5);
    let entry = ScoredPointOffset { idx: 0, score: 0 };
    let found: Vec<PointOffsetType> =
        graph.search_on_level(entry, 0, 10, &scorer).iter().iter().map(|x| x.idx).collect();
    assert_eq!(found, vec![0, 3, 4]);
}

#[test]
fn greedy_search_descends_to_the_closest_point() {
    let mut graph = GraphLayers::new(8, 4, 4, 16, 1, false);
    for p in 0..8 {
        graph.set_levels(p, 2);
    }
    graph.links_layers[0][2] = vec![4];
    graph.links_layers[4][2] = vec![0];
    graph.links_layers[4][1] = vec![5, 6];
    graph.links_layers[6][1] = vec![7, 4];
    let scorer = line_scorer(7, 99);
    let top = graph.search_entry(0, 2, 1, &scorer);
    assert_eq!(top, ScoredPointOffset { idx: 4, score: -3 });
    let bottom = graph.search_entry(0, 2, 0, &scorer);
    assert_eq!(bottom, ScoredPointOffset { idx: 7, score: 0 });
    let stay = graph.search_entry(0, 0, 0, &scorer);
    assert_eq!(stay, ScoredPointOffset { idx: 0, score: -7 });
}

#[test]
fn first_point_becomes_the_entry_and_has_no_links() {
    let mut graph = GraphLayers::new(3, 4, 4, 16, 2, true);
    graph.link_new_point(1, 2, &line_scorer(1, 99));
    assert_eq!(graph.links_layers[1], vec![vec![], vec![], vec![]] as Vec<Vec<u32>>);
    assert_eq!(graph.entry_points.entry_points.len(), 1);
    assert_eq!(graph.entry_points.entry_points[0].point_id, 1);
    assert_eq!(graph.entry_points.entry_points[0].level, 2);
    assert_eq!(graph.max_level, 2);
}

#[test]
fn linking_without_heuristic_connects_both_directions() {
    let mut graph = GraphLayers::new(4, 4, 4, 16, 2, false);
    for p in 0..4 {
        graph.link_new_point(p, 0, &line_scorer(p, 99));
    }
    assert_eq!(graph.links(0, 0), &vec![1, 2, 3]);
    assert_eq!(graph.links(1, 0), &vec![0, 2, 3]);
    assert_eq!(graph.links(2, 0), &vec![1, 3, 0]);
    assert_eq!(graph.links(3, 0), &vec![2, 1, 0]);
    assert!(graph.is_well_formed());
}

#[test]
fn linking_with_heuristic_selects_neighbours() {
    let mut graph = GraphLayers::new(3, 4, 4, 16, 2, true);
    for p in 0..3 {
        graph.link_new_point(p, 0, &line_scorer(p, 99));
    }
    // Point 0 is closer to point 1 than to point 2.
    assert_eq!(graph.links(2, 0), &vec![1]);
    assert_eq!(graph.links(1, 0), &vec![0, 2]);
    assert_eq!(graph.links(0, 0), &vec![1]);
}

#[test]
fn full_list_is_overwritten_from_the_front() {
    let mut graph = GraphLayers::new(4, 1, 1, 16, 2, true);
    graph.link_new_point(1, 0, &line_scorer(1, 99));
    graph.link_new_point(3, 0, &line_scorer(3, 99));
    assert_eq!(graph.links(1, 0), &vec![3]);
    // The list of point 1 is full. Of 3 and 0, the one with the lower score is taken.
    graph.link_new_point(0, 0, &line_scorer(0, 99));
    assert_eq!(graph.links(0, 0), &vec![1]);
    assert_eq!(graph.links(1, 0), &vec![3]);
}

#[test]
fn linking_keeps_limits_makes_no_self_links_and_keeps_the_entry_on_top() {
    for heuristic in vec![true, false] {
        let mut graph = GraphLayers::new(60, 3, 5, 8, 4, heuristic);
        for i in 0..60u32 {
            let p = (i * 37) % 60;
            let level = (p % 4) as usize;
            graph.link_new_point(p, level, &line_scorer(p, 99));
            assert!(graph.is_well_formed());
            let filter = PointFilter::new(|_p: PointOffsetType| true);
            let entry = graph.entry_points.get_entry_point(&filter).unwrap();
            let levels = graph.links_layers.iter().map(|x| x.len()).max().unwrap();
            assert_eq!(entry.level + 1, levels);
            assert_eq!(entry.level, graph.max_level);
            for (q, layers) in graph.links_layers.iter().enumerate() {
                for (l, list) in layers.iter().enumerate() {
                    assert!(list.len() <= graph.get_m(l));
                    assert!(!list.contains(&(q as PointOffsetType)));
                }
            }
            if i > 0 {
                assert!(!graph.links(p, 0).is_empty());
            }
        }
    }
}

#[test]
fn linking_leaves_higher_lists_alone() {
    let mut graph = GraphLayers::new(4, 4, 4, 16, 2, false);
    graph.link_new_point(0, 2, &line_scorer(0, 99));
    graph.link_new_point(1, 2, &line_scorer(1, 99));
    let before = graph.links(0, 1).clone();
    graph.link_new_point(2, 0, &line_scorer(2, 99));
    assert_eq!(graph.links(0, 1), &before);
    assert_eq!(graph.links_layers[2].len(), 1);
    assert_eq!(graph.links(2, 0), &vec![1, 0]);
}

#[test]
fn linked_point_has_links_exactly_on_levels_that_were_there() {
    for heuristic in vec![true, false] {
        let mut graph = GraphLayers::new(12, 3, 6, 8, 2, heuristic);
        for p in 0..10u32 {
            graph.link_new_point(p, (p % 3) as usize, &line_scorer(p, 99));
        }
        assert_eq!(graph.max_level, 2);
        graph.link_new_point(10, 5, &line_scorer(10, 99));
        let lengths: Vec<bool> = graph.links_layers[10].iter().map(|x| x.is_empty()).collect();
        assert_eq!(lengths, vec![false, false, false, true, true, true]);
        let before = graph.links_layers.clone();
        graph.link_new_point(11, 0, &line_scorer(11, 99));
        assert_eq!(graph.links_layers[11].len(), 1);
        assert!(!graph.links(11, 0).is_empty());
        for p in 0..11usize {
            assert_eq!(graph.links_layers[p][1..], before[p][1..]);
        }
    }
}

#[test]
fn linking_without_heuristic_keeps_lists_in_order() {
    let mut graph = GraphLayers::new(60, 3, 5, 8, 4, false);
    for i in 0..60u32 {
        let p = (i * 37) % 60;
        graph.link_new_point(p, (p % 4) as usize, &line_scorer(p, 99));
        for (q, layers) in graph.links_layers.iter().enumerate() {
            for list in layers {
                for j in 1..list.len() {
                    let score = on_a_line(q as PointOffsetType, list[j]);
                    assert!(on_a_line(q as PointOffsetType, list[j - 1]) >= score);
                    assert!(!list[..j].contains(&list[j]));
                }
            }
        }
    }
}

#[test]
fn points_not_linked_stay_as_they_were() {
    for heuristic in vec![true, false] {
        let mut graph = GraphLayers::new(30, 3, 5, 8, 4, heuristic);
        for p in 0..15u32 {
            graph.link_new_point(2 * p, (p % 3) as usize, &line_scorer(2 * p, 99));
        }
        for p in 0..15usize {
            assert_eq!(graph.links_layers[2 * p + 1], vec![vec![]] as Vec<Vec<u32>>);
        }
        for layers in graph.links_layers.iter() {
            for list in layers {
                assert!(list.iter().all(|p| p % 2 == 0));
            }
        }
        assert!(graph.entry_points.entry_points.iter().all(|e| e.point_id % 2 == 0));
        let extra = graph.entry_points.extra_entry_points.iter();
        assert!(extra.iter().all(|e| e.point_id % 2 == 0));
    }
}

#[test]
fn restricted_search_leaves_out_only_farther_neighbours() {
    let mut graph = GraphLayers::new(40, 4, 6, 8, 4, false);
    for i in 0..40u32 {
        let p = (i * 17) % 40;
        graph.link_new_point(p, 0, &line_scorer(p, 99));
    }
    for query in 0..40u32 {
        for ef in 1..8usize {
            let scorer = line_scorer(query, 99);
            let entry = ScoredPointOffset { idx: 3, score: scorer.score_point(3) };
            let found = graph.search_on_level(entry, 0, ef, &scorer).into_vec();
            let ids: Vec<PointOffsetType> = found.iter().map(|x| x.idx).collect();
            for p in ids.iter() {
                for q in graph.links(*p, 0) {
                    let score = on_a_line(query, *q);
                    let beaten = found.len() == ef && found.iter().all(|x| x.score >= score);
                    assert!(ids.contains(q) || beaten);
                }
            }
        }
    }
}

#[test]
fn search_with_room_for_all_reachable_points_finds_them() {
    let mut graph = GraphLayers::new(7, 4, 4, 16, 1, false);
    graph.links_layers[0][0] = vec![6];
    graph.links_layers[6][0] = vec![2, 0];
    graph.links_layers[2][0] = vec![1];
    graph.links_layers[4][0] = vec![5];
    let scorer = line_scorer(0, 99);
    let entry = ScoredPointOffset { idx: 0, score: 0 };
    let found: Vec<PointOffsetType> =
        graph.search_on_level(entry, 0, 4, &scorer).iter().iter().map(|x| x.idx).collect();
    assert_eq!(found, vec![0, 1, 2, 6]);
    // With room for one point only, point 6 is left out, and what lies behind it.
    let best: Vec<PointOffsetType> =
        graph.search_on_level(entry, 0, 1, &scorer).iter().iter().map(|x| x.idx).collect();
    assert_eq!(best, vec![0]);
}

#[test]
fn search_reaches_points_only_over_admitted_ones() {
    let mut graph = GraphLayers::new(5, 4, 4, 16, 1, false);
    graph.links_layers[0][0] = vec![1, 2];
    graph.links_layers[1][0] = vec![4];
    graph.links_layers[2][0] = vec![3];
    graph.links_layers[3][0] = vec![4];
    let ids = |excluded: PointOffsetType| {
        let scorer = line_scorer(4, excluded);
        let entry = ScoredPointOffset { idx: 0, score: scorer.score_point(0) };
        let found = graph.search_on_level(entry, 0, 10, &scorer).into_vec();
        found.iter().map(|x| x.idx).collect::<Vec<PointOffsetType>>()
    };
    assert_eq!(ids(1), vec![4, 3, 2, 0]);
    assert_eq!(ids(3), vec![4, 2, 1, 0]);
    // The entry itself need not be admitted.
    assert_eq!(ids(0), vec![4, 3, 2, 1, 0]);
}

#[test]
fn broken_links_and_entries_are_noticed() {
    let mut graph = GraphLayers::new(3, 4, 4, 16, 2, false);
    graph.links_layers[0][0] = vec![1, 2];
    assert!(graph.is_well_formed());
    graph.links_layers[0][0] = vec![1, 3];
    assert!(!graph.is_well_formed());
    graph.links_layers[0][0] = vec![];
    graph.set_levels(1, 1);
    graph.links_layers[1][1] = vec![2];
    assert!(!graph.is_well_formed());
    graph.links_layers[1][1] = vec![];
    let filter = PointFilter::new(|_p: PointOffsetType| true);
    graph.entry_points.new_point(2, 1, &filter);
    assert!(!graph.is_well_formed());
    graph.set_levels(2, 1);
    assert!(graph.is_well_formed());
    graph.entry_points.new_point(7, 0, &filter);
    assert!(!graph.is_well_formed());
}
