use linscan::budget::{order_by_magnitude, remaining_after};
use linscan::index::Index;
use linscan::persist::DeserializationError;
use linscan::posting::{lower_bound, score_chunk, Posting};
use linscan::topk::{top_k, SearchResult};

const SCALE: f32 = 10_000.0;

fn fixed(x: f32) -> i32 {
    (x * SCALE).round() as i32
}

fn two_docs(parallel: bool) -> Index {
    let mut ind = Index::new(parallel);
    let v1 = vec![(1_u32, fixed(0.4)), (5, fixed(0.6))];
    let v2 = vec![(2_u32, fixed(0.4)), (5, fixed(0.9))];
    ind.insert(&v1);
    ind.insert(&v2);
    ind
}

#[test]
fn test_serde() {
    let ind = two_docs(false);

    let bytes = ind.save();
    let ind_rec = Index::load(&bytes, false).unwrap();

    assert_eq!(ind.num_docs(), ind_rec.num_docs());
    assert_eq!(ind.num_coordinates(), ind_rec.num_coordinates());
    for c in [1_u32, 2, 5] {
        assert_eq!(ind.postings(c), ind_rec.postings(c));
    }
}

#[test]
fn insert_assigns_docids_in_order() {
    let ind = two_docs(false);
    assert_eq!(ind.num_docs(), 2);
    assert_eq!(ind.postings(1), vec![Posting { docid: 0, value: 4000 }]);
    assert_eq!(ind.postings(2), vec![Posting { docid: 1, value: 4000 }]);
    assert_eq!(
        ind.postings(5),
        vec![Posting { docid: 0, value: 6000 }, Posting { docid: 1, value: 9000 }]
    );
    assert_eq!(ind.postings(7), vec![]);
    assert_eq!(ind.num_coordinates(), 3);
    assert_eq!(ind.total_postings(), 4);
}

#[test]
fn same_inserts_give_same_stores() {
    let a = two_docs(false);
    let b = two_docs(true);
    for c in 0..8_u32 {
        assert_eq!(a.postings(c), b.postings(c));
    }
}

#[test]
fn single_coordinate_query_ranks_by_inner_product() {
    let ind = two_docs(false);
    let q = vec![(5_u32, fixed(1.2))];
    let r = ind.retrieve(&q, 2, None);
    assert_eq!(
        r,
        vec![
            SearchResult { docid: 1, score: 108_000_000 },
            SearchResult { docid: 0, score: 72_000_000 },
        ]
    );
}

#[test]
fn absent_coordinate_contributes_nothing() {
    let ind = two_docs(false);
    let q1 = vec![(5_u32, fixed(1.2))];
    let q2 = vec![(13_u32, fixed(0.4)), (5, fixed(1.2))];
    assert_eq!(ind.retrieve(&q1, 2, None), ind.retrieve(&q2, 2, None));
}

#[test]
fn scores_are_exact_inner_products() {
    let ind = two_docs(false);
    let q = vec![(1_u32, 3), (2, -2), (5, 1)];
    assert_eq!(ind.score_query(&q), vec![4000 * 3 + 6000, -4000 * 2 + 9000]);
}

#[test]
fn partitioned_scoring_matches_serial() {
    let mut ind = Index::new(false);
    for d in 0..37_i32 {
        let doc = vec![(d as u32 % 5, d - 18), (9, 2 * d + 1)];
        ind.insert(&doc);
    }
    ind.finalize();
    for c in [0_u32, 1, 4, 9, 11] {
        let mut serial = vec![7_i128; 37];
        ind.accumulate_serial(c, -3, &mut serial);
        for parts in 1..=40_usize {
            let mut split = vec![7_i128; 37];
            ind.accumulate_partitioned(c, -3, parts, &mut split);
            assert_eq!(split, serial);
        }
    }
}

#[test]
fn parallel_index_retrieves_like_serial() {
    let mut a = Index::new(false);
    let mut b = Index::new(true);
    for d in 0..50_i32 {
        let doc = vec![(d as u32 % 7, d), (100, 50 - d)];
        a.insert(&doc);
        b.insert(&doc);
    }
    b.finalize();
    assert!(b.is_parallel());
    let q = vec![(3_u32, 2), (100, 1), (6, -1)];
    assert_eq!(a.score_query(&q), b.score_query(&q));
    assert_eq!(a.retrieve(&q, 10, None), b.retrieve(&q, 10, None));
}

#[test]
fn top_k_orders_and_bounds() {
    let scores = vec![5_i128, -1, 9, 5, 0];
    assert_eq!(
        top_k(&scores, 3),
        vec![
            SearchResult { docid: 2, score: 9 },
            SearchResult { docid: 0, score: 5 },
            SearchResult { docid: 3, score: 5 },
        ]
    );
    assert_eq!(top_k(&scores, 10).len(), 5);
    assert_eq!(top_k(&scores, 0), vec![]);
    assert_eq!(top_k(&vec![], 4), vec![]);
}

#[test]
fn top_k_keeps_no_lower_score_than_left_out() {
    let scores: Vec<i128> = (0..100).map(|i| ((i * 37) % 101) as i128 - 50).collect();
    let r = top_k(&scores, 7);
    assert_eq!(r.len(), 7);
    let min_kept = r.iter().map(|e| e.score).min().unwrap();
    for (d, s) in scores.iter().enumerate() {
        if !r.iter().any(|e| e.docid as usize == d) {
            assert!(*s <= min_kept);
        }
    }
    for w in r.windows(2) {
        assert!(w[0].score >= w[1].score);
    }
}

#[test]
fn zero_budget_scores_nothing() {
    let ind = two_docs(false);
    let q = vec![(5_u32, fixed(1.2))];
    let r = ind.retrieve(&q, 2, Some(0));
    assert_eq!(r.len(), 2);
    assert!(r.iter().all(|e| e.score == 0));
    let (scores, scored) = ind.score_within_budget(&q, 0);
    assert_eq!(scored, 0);
    assert_eq!(scores, vec![0, 0]);
}

#[test]
fn ample_budget_scores_everything() {
    let ind = two_docs(false);
    let q = vec![(13_u32, fixed(0.4)), (5, fixed(1.2))];
    assert_eq!(ind.retrieve(&q, 2, Some(u64::MAX)), ind.retrieve(&q, 2, None));
}

#[test]
fn budget_order_is_by_descending_magnitude() {
    let q = vec![(1_u32, 3), (2, -7), (3, 5), (4, -3), (5, 0)];
    assert_eq!(order_by_magnitude(&q), vec![(2, -7), (3, 5), (1, 3), (4, -3), (5, 0)]);
    assert_eq!(order_by_magnitude(&vec![(1, i32::MIN), (2, i32::MAX)]), vec![(1, i32::MIN), (2, i32::MAX)]);
}

#[test]
fn remaining_budget_floors_at_zero() {
    assert_eq!(remaining_after(100, 30), 70);
    assert_eq!(remaining_after(100, 100), 0);
    assert_eq!(remaining_after(100, 1 << 80), 0);
}

#[test]
fn batch_retrieval_keeps_query_order() {
    let ind = two_docs(false);
    let queries = vec![
        vec![(1_u32, 1)],
        vec![(2_u32, 1)],
        vec![(5_u32, fixed(1.2))],
        vec![],
    ];
    let r = ind.retrieve_parallel(&queries, 1, None);
    assert_eq!(r.len(), 4);
    assert_eq!(r[0], vec![SearchResult { docid: 0, score: 4000 }]);
    assert_eq!(r[1], vec![SearchResult { docid: 1, score: 4000 }]);
    assert_eq!(r[2], vec![SearchResult { docid: 1, score: 108_000_000 }]);
    assert_eq!(r[3][0].score, 0);
}

#[test]
fn binary_search_finds_first_at_least() {
    let s = vec![
        Posting { docid: 2, value: 1 },
        Posting { docid: 5, value: 1 },
        Posting { docid: 9, value: 1 },
    ];
    assert_eq!(lower_bound(&s, 0), 0);
    assert_eq!(lower_bound(&s, 5), 1);
    assert_eq!(lower_bound(&s, 6), 2);
    assert_eq!(lower_bound(&s, 10), 3);
}

#[test]
fn chunk_scoring_takes_only_its_range() {
    let s = vec![
        Posting { docid: 1, value: 2 },
        Posting { docid: 4, value: 3 },
        Posting { docid: 6, value: 5 },
    ];
    let mut chunk = vec![10_i128, 20, 30];
    score_chunk(&s, 10, 1, 3, &mut chunk);
    assert_eq!(chunk, vec![10, 50, 30]);
}

#[test]
fn load_rejects_garbage() {
    assert_eq!(Index::load(&[1, 2, 3], false).err(), Some(DeserializationError::Malformed));
}

#[test]
fn load_rejects_inconsistent_stores() {
    let dup = (2_u32, vec![(1_u32, vec![(0_u32, 1_i32)]), (1, vec![(1, 1)])]);
    assert_eq!(Index::from_stored(&dup, false).err(), Some(DeserializationError::Inconsistent));
    let unsorted = (2_u32, vec![(1_u32, vec![(1_u32, 1_i32), (0, 1)])]);
    assert_eq!(Index::from_stored(&unsorted, false).err(), Some(DeserializationError::Inconsistent));
    let too_big = (2_u32, vec![(1_u32, vec![(2_u32, 1_i32)])]);
    assert_eq!(Index::from_stored(&too_big, false).err(), Some(DeserializationError::Inconsistent));
    let empty = (2_u32, vec![(1_u32, vec![])]);
    assert_eq!(Index::from_stored(&empty, false).err(), Some(DeserializationError::Inconsistent));
}

#[test]
fn stored_form_round_trips() {
    let ind = two_docs(false);
    let stored = ind.to_stored();
    assert_eq!(stored.0, 2);
    let back = Index::from_stored(&stored, true).unwrap();
    assert!(back.is_parallel());
    assert_eq!(back.postings(5), ind.postings(5));
    let bytes = ind.save();
    assert!(bytes.len() > 8);
    let loaded = Index::load(&bytes, false).unwrap();
    assert_eq!(loaded.to_stored(), stored);
}

#[test]
fn top_k_breaks_ties_by_docid() {
    let scores = vec![3_i128, 7, 3, 7, 3];
    assert_eq!(
        top_k(&scores, 3),
        vec![
            SearchResult { docid: 1, score: 7 },
            SearchResult { docid: 3, score: 7 },
            SearchResult { docid: 0, score: 3 },
        ]
    );
}

#[test]
fn load_ignores_trailing_bytes() {
    let ind = two_docs(false);
    let mut bytes = ind.save();
    bytes.extend_from_slice(&[9, 9, 9]);
    let loaded = Index::load(&bytes, false).unwrap();
    assert_eq!(loaded.to_stored(), ind.to_stored());
    let truncated = &ind.save()[..10];
    assert_eq!(Index::load(truncated, false).err(), Some(DeserializationError::Malformed));
}

#[test]
fn positive_budget_scores_first_coordinate() {
    let ind = two_docs(false);
    let q = vec![(1_u32, 1), (5_u32, fixed(1.2))];
    let (scores, scored) = ind.score_within_budget(&order_by_magnitude(&q), 1);
    assert!(scored >= 1);
    assert_eq!(scores[1], 108_000_000);
}
