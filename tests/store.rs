use vector_db::{Score, VectorDB};

fn score(x: f32) -> Score {
    Score::from_bits(x.to_bits())
}

fn value(s: Score) -> f32 {
    f32::from_bits(s.to_bits())
}

#[test]
fn test_add_and_get_vector() {
    let mut db = VectorDB::new();
    let vector: Vec<f32> = vec![1.0, 2.0, 3.0];
    db.add_vector(1, vector.clone());

    assert_eq!(db.get_vector(1), Some(&vector));
    assert_eq!(db.get_vector(2), None);
}

#[test]
fn test_search() {
    let mut db: VectorDB<Vec<f32>> = VectorDB::new();
    db.add_vector(1, vec![1.0, 0.0, 0.0]);
    db.add_vector(2, vec![0.0, 1.0, 0.0]);
    db.add_vector(3, vec![0.5, 0.5, 0.0]);

    // Cosine similarity of the query [1, 0, 0] with each entry.
    let scores = vec![score(1.0), score(0.0), score(0.5 / (0.5f32 * 0.5 + 0.5 * 0.5).sqrt())];
    let results = db.search(&scores, 2);

    assert_eq!(results.len(), 2);
    assert_eq!(results[0].0, 1);
    assert!(value(results[0].1) > 0.9);
    assert!(value(results[1].1) > 0.5);
}

#[test]
fn search_ranks_three_entries() {
    let mut db: VectorDB<Vec<f32>> = VectorDB::new();
    db.add_vector(1, vec![1.0, 0.0, 0.0]);
    db.add_vector(2, vec![0.0, 1.0, 0.0]);
    db.add_vector(3, vec![0.5, 0.5, 0.0]);
    let third = 0.5 / (0.5f32 * 0.5 + 0.5 * 0.5).sqrt();
    let scores = vec![score(1.0), score(0.0), score(third)];
    let results = db.search(&scores, 2);
    assert_eq!(results, vec![(1, score(1.0)), (3, score(third))]);
    assert!((value(results[1].1) - 0.707).abs() < 0.001);
}

#[test]
fn empty_store_finds_nothing() {
    let db: VectorDB<Vec<f32>> = VectorDB::new();
    assert!(db.is_empty());
    assert_eq!(db.len(), 0);
    assert!(db.search(&vec![], 5).is_empty());
    assert_eq!(db.get_vector(0), None);
    assert_eq!(db.get_vector(42), None);
    assert_eq!(db.get_vector(u32::MAX), None);
}

#[test]
fn search_clamps_to_store_size() {
    let mut db: VectorDB<Vec<f32>> = VectorDB::new();
    db.add_vector(1, vec![1.0, 0.0, 0.0]);
    let results = db.search(&vec![score(1.0)], 10);
    assert_eq!(results, vec![(1, score(1.0))]);
}

#[test]
fn search_with_zero_top_k_is_empty() {
    let mut db: VectorDB<u8> = VectorDB::new();
    db.add_vector(1, 0);
    db.add_vector(2, 0);
    assert!(db.search(&vec![score(0.5), score(0.25)], 0).is_empty());
}

#[test]
fn search_returns_min_of_k_and_size() {
    let mut db: VectorDB<u8> = VectorDB::new();
    for id in 0..6u32 {
        db.add_vector(id, 0);
    }
    let scores: Vec<Score> = (0..6).map(|i| score(i as f32 / 10.0)).collect();
    for k in 0..9usize {
        assert_eq!(db.search(&scores, k).len(), k.min(6));
    }
}

#[test]
fn search_orders_by_descending_score() {
    let mut db: VectorDB<u8> = VectorDB::new();
    let values = [0.3f32, -0.9, 0.8, -0.1, 1.0, 0.0, -1.0, 0.5];
    for (i, _) in values.iter().enumerate() {
        db.add_vector(i as u32, 0);
    }
    let scores: Vec<Score> = values.iter().map(|v| score(*v)).collect();
    let results = db.search(&scores, values.len());
    let ids: Vec<u32> = results.iter().map(|r| r.0).collect();
    assert_eq!(ids, vec![4, 2, 7, 0, 5, 3, 1, 6]);
    for w in results.windows(2) {
        assert!(value(w[0].1) >= value(w[1].1));
    }
}

#[test]
fn equal_scores_keep_insertion_order() {
    let mut db: VectorDB<u8> = VectorDB::new();
    db.add_vector(10, 0);
    db.add_vector(20, 0);
    db.add_vector(30, 0);
    db.add_vector(40, 0);
    let scores = vec![score(0.5), score(0.9), score(0.5), score(0.5)];
    let results = db.search(&scores, 3);
    assert_eq!(results, vec![(20, score(0.9)), (10, score(0.5)), (30, score(0.5))]);
}

#[test]
fn positive_and_negative_zero_tie() {
    let mut db: VectorDB<u8> = VectorDB::new();
    db.add_vector(1, 0);
    db.add_vector(2, 0);
    let results = db.search(&vec![score(-0.0), score(0.0)], 2);
    assert_eq!(results, vec![(1, score(-0.0)), (2, score(0.0))]);
}

#[test]
fn nan_scores_rank_last() {
    let mut db: VectorDB<u8> = VectorDB::new();
    db.add_vector(1, 0);
    db.add_vector(2, 0);
    db.add_vector(3, 0);
    db.add_vector(4, 0);
    let scores = vec![score(f32::NAN), score(f32::NEG_INFINITY), score(-f32::NAN), score(0.25)];
    let results = db.search(&scores, 4);
    let ids: Vec<u32> = results.iter().map(|r| r.0).collect();
    assert_eq!(ids, vec![4, 2, 1, 3]);
    assert!(value(results[2].1).is_nan());
    assert!(value(results[3].1).is_nan());
}

#[test]
fn infinite_scores_rank_at_the_ends() {
    let mut db: VectorDB<u8> = VectorDB::new();
    db.add_vector(1, 0);
    db.add_vector(2, 0);
    db.add_vector(3, 0);
    let scores = vec![score(f32::NEG_INFINITY), score(0.1), score(f32::INFINITY)];
    let ids: Vec<u32> = db.search(&scores, 3).iter().map(|r| r.0).collect();
    assert_eq!(ids, vec![3, 2, 1]);
}

#[test]
fn repeated_search_gives_same_result() {
    let mut db: VectorDB<u8> = VectorDB::new();
    for id in 0..5u32 {
        db.add_vector(id, 0);
    }
    let scores = vec![score(0.2), score(0.7), score(0.2), score(f32::NAN), score(0.7)];
    let first = db.search(&scores, 4);
    let second = db.search(&scores, 4);
    assert_eq!(first, second);
    assert_eq!(first.iter().map(|r| r.0).collect::<Vec<u32>>(), vec![1, 4, 0, 2]);
}

#[test]
fn lookup_after_insert_returns_embedding() {
    let mut db: VectorDB<Vec<f32>> = VectorDB::new();
    db.add_vector(7, vec![0.25, -1.5]);
    db.add_vector(9, vec![3.0]);
    assert_eq!(db.get_vector(7), Some(&vec![0.25, -1.5]));
    assert_eq!(db.get_vector(9), Some(&vec![3.0]));
    assert_eq!(db.len(), 2);
}

#[test]
fn duplicate_id_returns_first_entry() {
    let mut db: VectorDB<Vec<f32>> = VectorDB::new();
    db.add_vector(5, vec![1.0]);
    db.add_vector(5, vec![2.0]);
    assert_eq!(db.get_vector(5), Some(&vec![1.0]));
    assert_eq!(db.len(), 2);
    let ids: Vec<u32> = db.entries().iter().map(|e| e.0).collect();
    assert_eq!(ids, vec![5, 5]);
}

#[test]
fn duplicate_ids_both_appear_in_search() {
    let mut db: VectorDB<u8> = VectorDB::new();
    db.add_vector(5, 1);
    db.add_vector(5, 2);
    let results = db.search(&vec![score(0.1), score(0.9)], 2);
    assert_eq!(results, vec![(5, score(0.9)), (5, score(0.1))]);
}

#[test]
fn lookup_of_missing_id_is_absent() {
    let mut db: VectorDB<Vec<f32>> = VectorDB::new();
    db.add_vector(1, vec![1.0]);
    db.add_vector(2, vec![2.0]);
    assert_eq!(db.get_vector(3), None);
}
