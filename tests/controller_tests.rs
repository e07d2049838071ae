use moma_simulation_engine::controller::{FeedbackController, UNIT};

fn path_controller() -> FeedbackController {
    // gain 5, decay 0.01, threshold 1e-4, target 0.25
    FeedbackController::new(5, 10_000, 100, 250_000).unwrap()
}

#[test]
fn controller_rejects_decay_above_one() {
    assert_eq!(FeedbackController::new(5, 1_000_001, 0, 0), None);
    assert!(FeedbackController::new(5, 1_000_000, 0, 0).is_some());
}

#[test]
fn controller_first_step_is_scaled_error() {
    let c = path_controller();
    assert_eq!(c.error(500_000), 250_000);
    assert_eq!(c.update(0, 500_000), 1_250_000);
}

#[test]
fn controller_decays_then_adds() {
    let c = path_controller();
    // 1_250_000 * 0.99 + (300_000 - 250_000) * 5
    assert_eq!(c.update(1_250_000, 300_000), 1_237_500 + 250_000);
}

#[test]
fn controller_clamps_at_zero() {
    let c = path_controller();
    assert_eq!(c.error(0), -250_000);
    assert_eq!(c.update(100_000, 200_000), 0);
}

#[test]
fn controller_resets_on_degenerate_measurement() {
    let c = path_controller();
    // Below the threshold the old penalty is dropped before the update.
    assert_eq!(c.update(9_000_000, 50), 0);
    let hot = FeedbackController::new(5, 10_000, 100, 0).unwrap();
    assert_eq!(hot.update(9_000_000, 99), 495);
}

#[test]
fn controller_saturates_at_max() {
    let c = FeedbackController::new(u32::MAX, 0, 0, 0).unwrap();
    assert_eq!(c.update(u64::MAX, u64::MAX), u64::MAX);
}

#[test]
fn controller_penalty_never_negative_over_a_run() {
    let c = FeedbackController::new(50, 50_000, 100, 850_000).unwrap();
    let measurements = [0u64, 900_000, 100_000, 1_000_000, 20, 850_000, 0, 999_999, 5, 300_000];
    let mut penalty: u64 = 0;
    let mut history = Vec::new();
    for m in measurements {
        penalty = c.update(penalty, m);
        history.push(penalty);
    }
    // u64 cannot go below zero; check the values follow the rule exactly.
    let mut expect: i128 = 0;
    for (i, m) in measurements.iter().enumerate() {
        let base = if *m < 100 { 0 } else { expect };
        let v = base * (UNIT as i128 - 50_000) / UNIT as i128 + (*m as i128 - 850_000) * 50;
        expect = v.max(0);
        assert_eq!(history[i] as i128, expect);
    }
}
