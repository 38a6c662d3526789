//! Ranking of scores and expert routing.

use candle_lm::error::LmError;
use candle_lm::float::{F32, F64};
use candle_lm::glm5_next::router::Glm5NextTopkRouter;
use candle_lm::topk::topk_last_dim;

fn row(vals: &[f32]) -> Vec<F32> {
    vals.iter().map(|v| F32 { bits: v.to_bits() }).collect()
}

#[test]
fn the_largest_scores_come_first() {
    let scores = row(&[0.5, -1.0, 3.0, f32::NEG_INFINITY, 2.0, -0.25]);
    assert_eq!(topk_last_dim(&scores, 3).unwrap(), vec![2, 4, 0]);
    assert_eq!(topk_last_dim(&scores, 6).unwrap(), vec![2, 4, 0, 5, 1, 3]);
    assert_eq!(topk_last_dim(&scores, 0).unwrap(), Vec::<usize>::new());
    assert_eq!(topk_last_dim(&row(&[]), 0).unwrap(), Vec::<usize>::new());
}

#[test]
fn equal_scores_are_both_chosen() {
    let mut best = topk_last_dim(&row(&[1.0, 0.0, 1.0, -0.0]), 2).unwrap();
    best.sort();
    assert_eq!(best, vec![0, 2]);
}

#[test]
fn more_than_there_are_is_refused() {
    assert_eq!(
        topk_last_dim(&row(&[1.0, 2.0]), 3).unwrap_err(),
        LmError::TopkWidth { k: 3, len: 2 }
    );
}

fn router(experts: usize, groups: usize, topk_group: usize, top_k: usize) -> Glm5NextTopkRouter {
    Glm5NextTopkRouter {
        top_k,
        num_experts: experts,
        hidden: 4,
        num_group: groups,
        topk_group,
        norm_topk_prob: true,
        routed_scaling_factor: F64 { bits: 2.5f64.to_bits() },
    }
}

#[test]
fn experts_of_the_best_groups_are_chosen() {
    let r = router(6, 3, 1, 2);
    let scores = row(&[0.9, 0.1, 0.6, 0.5, 0.2, 0.3]);
    assert_eq!(r.group_tops(&scores).unwrap(), vec![(0, 1), (2, 3), (5, 4)]);
    // Group sums 1.0, 1.1 and 0.5: the best expert of all is in another group.
    let chosen = r.forward(&scores, &row(&[1.0, 1.1, 0.5])).unwrap();
    assert_eq!(chosen, vec![2, 3]);
    let chosen = router(6, 3, 2, 2).forward(&scores, &row(&[1.0, 1.1, 0.5])).unwrap();
    assert_eq!(chosen, vec![0, 2]);
}

#[test]
fn impossible_groupings_are_refused() {
    let scores = row(&[0.1; 6]);
    assert_eq!(
        router(6, 4, 1, 1).forward(&scores, &row(&[0.0; 4])).unwrap_err(),
        LmError::ExpertGroups { experts: 6, groups: 4 }
    );
    assert_eq!(
        router(6, 6, 1, 1).group_tops(&scores).unwrap_err(),
        LmError::TopkWidth { k: 2, len: 1 }
    );
    assert_eq!(
        router(6, 3, 4, 1).forward(&scores, &row(&[0.0; 3])).unwrap_err(),
        LmError::TopkWidth { k: 4, len: 3 }
    );
    assert_eq!(
        router(6, 3, 1, 7).forward(&scores, &row(&[0.0; 3])).unwrap_err(),
        LmError::TopkWidth { k: 7, len: 6 }
    );
}
