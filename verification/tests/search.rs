use llm_wiki::search::rank_hits;

fn std_rank(scores: &[f32], limit: usize) -> Vec<usize> {
    let mut idx: Vec<usize> = (0..scores.len()).collect();
    idx.sort_by(|&l, &r| scores[r].total_cmp(&scores[l]));
    idx.truncate(limit);
    idx
}

#[test]
fn ranking_matches_a_stable_descending_sort() {
    let scores = [0.5f32, -0.0, 0.0, f32::NAN, -f32::NAN, 0.5, -1.0, f32::INFINITY, 1e-30, -1e-30, 0.25];
    let bits: Vec<u32> = scores.iter().map(|s| s.to_bits()).collect();
    for limit in 0..15 {
        assert_eq!(rank_hits(&bits, limit), std_rank(&scores, limit), "limit {}", limit);
    }
    assert!(rank_hits(&Vec::new(), 3).is_empty());
}

#[test]
fn ties_keep_index_order() {
    let scores = [0.3f32, 0.9, 0.3, 0.9, 0.3];
    let bits: Vec<u32> = scores.iter().map(|s| s.to_bits()).collect();
    assert_eq!(rank_hits(&bits, 5), vec![1, 3, 0, 2, 4]);
    assert_eq!(rank_hits(&bits, 2), vec![1, 3]);
}
