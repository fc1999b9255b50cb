use scorecalc::decimal::Decimal;
use scorecalc::ranking::{assign_ranks, ranked_order};

fn d(s: &str) -> Decimal {
    Decimal::from_string(s).unwrap()
}

#[test]
fn ties_share_rank_and_null_sinks_last() {
    let scores = vec![Some(d("10")), Some(d("10")), Some(d("5")), None];
    let ranks = assign_ranks(&scores);
    assert_eq!(ranks, vec![Some(1), Some(1), Some(2), None]);
    let ord = ranked_order(&ranks);
    assert_eq!(ord, vec![0, 1, 2, 3]);
}

#[test]
fn ranking_is_dense_and_order_is_stable() {
    let scores = vec![Some(d("5")), None, Some(d("9")), Some(d("5")), Some(d("7.5"))];
    let ranks = assign_ranks(&scores);
    assert_eq!(ranks, vec![Some(3), None, Some(1), Some(3), Some(2)]);
    let ord = ranked_order(&ranks);
    assert_eq!(ord, vec![2, 4, 0, 3, 1]);
}

#[test]
fn equal_values_across_scales_tie() {
    let scores = vec![Some(d("1.0")), Some(d("1")), Some(d("0.5"))];
    let ranks = assign_ranks(&scores);
    assert_eq!(ranks, vec![Some(1), Some(1), Some(2)]);
}

#[test]
fn all_null_means_nobody_ranked() {
    let scores: Vec<Option<Decimal>> = vec![None, None];
    let ranks = assign_ranks(&scores);
    assert_eq!(ranks, vec![None, None]);
    let ord = ranked_order(&ranks);
    assert_eq!(ord, vec![0, 1]);
}
