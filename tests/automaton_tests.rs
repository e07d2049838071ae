use moma_simulation_engine::automaton::{random_state, render, step_moore, step_ring};

#[test]
fn ring_step_uses_wrapped_neighbours() {
    let state = vec![1u64, 2, 3, 4];
    let next = step_ring(&state, &|v: u64, ctx: u64| (v + ctx) % 100);
    // cell 0: left 4, right 2; cell 3: left 3, right 1
    assert_eq!(next, vec![1 + 6, 2 + 4, 3 + 6, 4 + 4]);
}

#[test]
fn ring_step_context_wraps_on_overflow() {
    let state = vec![u64::MAX, 5, 2];
    let next = step_ring(&state, &|_v: u64, ctx: u64| ctx);
    assert_eq!(next, vec![7, u64::MAX.wrapping_add(2), u64::MAX.wrapping_add(5)]);
}

#[test]
fn ring_step_single_cell() {
    let next = step_ring(&vec![7u64], &|v: u64, ctx: u64| v * 100 + ctx);
    assert_eq!(next, vec![714]);
}

#[test]
fn moore_step_sums_eight_neighbours() {
    // 3 by 3 torus: every cell sees all others.
    let state: Vec<u64> = (1..=9).collect();
    let next = step_moore(&state, 3, 3, &|_v: u64, sum: u64| sum);
    for (i, v) in next.iter().enumerate() {
        assert_eq!(*v, 45 - state[i]);
    }
}

#[test]
fn moore_step_on_wider_torus() {
    let mut state = vec![0u64; 16];
    state[5] = 1; // (1, 1) on a 4 by 4 torus
    let next = step_moore(&state, 4, 4, &|v: u64, sum: u64| v * 10 + sum);
    assert_eq!(next[5], 10);
    assert_eq!(next[0], 1);
    assert_eq!(next[10], 1);
    assert_eq!(next[3], 0);
    assert_eq!(next[15], 0);
}

#[test]
fn render_maps_last_digit() {
    let r: String = render(&vec![0, 1, 2, 3, 4, 5, 6, 7, 8, 9, 10, 23]).into_iter().collect();
    assert_eq!(r, " .:-=+*#%@ -");
}

#[test]
fn random_state_stays_below_modulus() {
    let s = random_state(200, 3);
    assert_eq!(s.len(), 200);
    assert!(s.iter().all(|v| *v < 3));
    let one = random_state(50, 1);
    assert!(one.iter().all(|v| *v == 0));
}

#[test]
fn random_state_empty_with_zero_modulus() {
    assert!(random_state(0, 0).is_empty());
}
