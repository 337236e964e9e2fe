use mcts::ucb::{isqrt_u64, log2_u64, ucb1_value};

#[test]
fn log2_small_values() {
    assert_eq!(log2_u64(0), 0);
    assert_eq!(log2_u64(1), 0);
    assert_eq!(log2_u64(2), 1);
    assert_eq!(log2_u64(3), 1);
    assert_eq!(log2_u64(4), 2);
    assert_eq!(log2_u64(70), 6);
    assert_eq!(log2_u64(1024), 10);
}

#[test]
fn isqrt_small_values() {
    assert_eq!(isqrt_u64(0), 0);
    assert_eq!(isqrt_u64(1), 1);
    assert_eq!(isqrt_u64(3), 1);
    assert_eq!(isqrt_u64(4), 2);
    assert_eq!(isqrt_u64(15), 3);
    assert_eq!(isqrt_u64(16), 4);
    assert_eq!(isqrt_u64(1_000_000), 1000);
    assert_eq!(isqrt_u64(u64::MAX), 4294967295);
}

#[test]
fn ucb1_pure_exploitation_is_the_mean() {
    // 5 / 50 = 0.1 in fixed point: floor(5 * 65536 / 50)
    assert_eq!(ucb1_value(5, 50, 70, 0), 6553);
    // 1 / 20 = 0.05 in fixed point: floor(65536 / 20)
    assert_eq!(ucb1_value(1, 20, 70, 0), 3276);
}

#[test]
fn ucb1_negative_scores_round_down() {
    // -5 / 2 = -2.5: floor(-5 * 65536 / 2) = -163840
    assert_eq!(ucb1_value(-5, 2, 4, 0), -163840);
    // -1 / 3: floor rounds towards minus infinity
    assert_eq!(ucb1_value(-1, 3, 4, 0), -21846);
}

#[test]
fn ucb1_unvisited_child_is_maximal() {
    assert_eq!(ucb1_value(0, 0, 5, 0), i64::MAX);
    assert_eq!(ucb1_value(0, 0, 5, 123), i64::MAX);
}

#[test]
fn ucb1_exploration_term_grows_with_factor() {
    let low = ucb1_value(5, 50, 70, 0);
    let mid = ucb1_value(5, 50, 70, 65536);
    let high = ucb1_value(5, 50, 70, 131072);
    assert!(low < mid && mid < high);
}

#[test]
fn ucb1_large_factor_prefers_less_visited() {
    // child a: mean 0.1 over 50 visits; child b: mean 0.05 over 20 visits
    let a0 = ucb1_value(5, 50, 70, 0);
    let b0 = ucb1_value(1, 20, 70, 0);
    assert!(a0 > b0);
    let a1 = ucb1_value(5, 50, 70, 65536);
    let b1 = ucb1_value(1, 20, 70, 65536);
    assert!(b1 > a1);
}
