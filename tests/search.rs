use obstacle_groups::search::{
    after_circle_stage, after_rectangle_stage, argmin_first, candidate_offsets, quantized_offsets,
    score_key,
    Decision, SearchError, ShapeKind,
};

#[test]
fn offsets_cover_the_window() {
    assert_eq!(quantized_offsets(-2, 2), Ok(vec![-2, -1, 0, 1]));
    assert_eq!(quantized_offsets(0, 1), Ok(vec![0]));
}

#[test]
fn empty_window_is_an_error() {
    assert_eq!(quantized_offsets(3, 3), Err(SearchError::EmptyRange));
    assert_eq!(quantized_offsets(4, -4), Err(SearchError::EmptyRange));
}

#[test]
fn argmin_takes_the_earliest_least() {
    assert_eq!(argmin_first(&vec![5, 3, 7, 3, 9]), Ok(1));
    assert_eq!(argmin_first(&vec![4]), Ok(0));
    assert_eq!(argmin_first(&vec![9, 8, 7]), Ok(2));
}

#[test]
fn argmin_of_nothing_is_an_error() {
    assert_eq!(argmin_first(&Vec::new()), Err(SearchError::NoCandidates));
}

#[test]
fn score_keys_follow_score_order() {
    let scores = [0.0f64, 1e-300, 0.001, 0.002, 0.5, 1.0, 7.25, f64::INFINITY];
    for w in scores.windows(2) {
        assert!(score_key(w[0].to_bits()) < score_key(w[1].to_bits()));
    }
    assert!(score_key((-1.0f64).to_bits()) < score_key((-0.5f64).to_bits()));
    assert!(score_key((-0.5f64).to_bits()) < score_key(0.0f64.to_bits()));
    assert_eq!(score_key(0.0f64.to_bits()), 0x8000_0000_0000_0000);
    assert_eq!(score_key((-0.0f64).to_bits()), 0x7fff_ffff_ffff_ffff);
}

#[test]
fn good_circle_skips_the_rectangle_stage() {
    let accept = score_key(0.002f64.to_bits());
    assert_eq!(
        after_circle_stage(score_key(0.0005f64.to_bits()), accept),
        Decision::Accept(ShapeKind::Circle)
    );
    assert_eq!(after_circle_stage(score_key(0.01f64.to_bits()), accept), Decision::SearchRectangle);
    assert_eq!(after_circle_stage(accept, accept), Decision::SearchRectangle);
}

#[test]
fn lower_rectangle_score_wins() {
    let c = score_key(0.03f64.to_bits());
    let r = score_key(0.01f64.to_bits());
    assert_eq!(after_rectangle_stage(c, r), ShapeKind::Rectangle);
    assert_eq!(after_rectangle_stage(r, c), ShapeKind::Circle);
    assert_eq!(after_rectangle_stage(c, c), ShapeKind::Circle);
}

#[test]
fn candidates_enumerate_in_lexicographic_order() {
    let c = candidate_offsets(&vec![(0, 2), (-1, 2)]).unwrap();
    assert_eq!(
        c,
        vec![vec![0, -1], vec![0, 0], vec![0, 1], vec![1, -1], vec![1, 0], vec![1, 1]]
    );
    assert_eq!(candidate_offsets(&vec![(-2, 2), (-15, 15), (-15, 15)]).unwrap().len(), 3600);
    assert_eq!(candidate_offsets(&vec![]).unwrap(), vec![Vec::<i64>::new()]);
}

#[test]
fn candidates_of_an_empty_window_are_an_error() {
    assert_eq!(candidate_offsets(&vec![(0, 2), (5, 5)]), Err(SearchError::EmptyRange));
}
