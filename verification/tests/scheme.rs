use wave_sim::scheme::{advance, simulate};

fn burgers(ratio: f64) -> impl Fn(f64, f64) -> f64 {
    move |u: f64, ul: f64| u * (1.0 - ratio * (u - ul))
}

#[test]
fn step_ends_follow_boundary_rule() {
    let prev = vec![1.0, 2.0, 3.0, 4.0];
    let next = advance(&prev, &|u: f64, _ul: f64| u);
    assert_eq!(next[0], 4.0);
    assert_eq!(next[3], 3.0);
    assert_eq!(next[1], 2.0);
    assert_eq!(next[2], 3.0);
}

#[test]
fn step_interior_uses_cell_and_left_neighbour() {
    let prev = vec![10i64, 20, 30, 40, 50];
    let next = advance(&prev, &|u: i64, ul: i64| 100 * u + ul);
    assert_eq!(next, vec![50, 2010, 3020, 4030, 40]);
}

#[test]
fn step_of_two_cells_swaps_them() {
    let prev = vec![1u8, 2u8];
    let next = advance(&prev, &|_u: u8, _ul: u8| 77);
    assert_eq!(next, vec![2, 1]);
}

#[test]
fn burgers_step_exact_value() {
    // dt/dx = 0.5: the cell at 2.0 with a left neighbour at 1.0 becomes
    // 2.0 * (1 - 0.5 * 1.0) = 1.0.
    let prev = vec![1.0, 1.0, 2.0, 2.0, 1.0];
    let next = advance(&prev, &burgers(0.5));
    assert_eq!(next, vec![1.0, 1.0, 1.0, 2.0, 2.0]);
}

#[test]
fn run_has_requested_rows_and_starts_with_initial() {
    let initial = vec![1.0, 2.0, 2.0, 1.0, 1.0];
    let rows = simulate(&initial, 6, &burgers(0.1));
    assert_eq!(rows.len(), 6);
    assert_eq!(rows[0], initial);
    for t in 0..5 {
        assert_eq!(rows[t + 1], advance(&rows[t], &burgers(0.1)));
        assert_eq!(rows[t + 1].len(), initial.len());
    }
}

#[test]
fn run_of_one_time_point_takes_no_step() {
    let initial = vec![3.0f64];
    let rows = simulate(&initial, 1, &burgers(0.1));
    assert_eq!(rows, vec![vec![3.0]]);
    let empty: Vec<f64> = Vec::new();
    let rows = simulate(&empty, 1, &burgers(0.1));
    assert_eq!(rows, vec![Vec::<f64>::new()]);
}

#[test]
fn flat_state_stays_flat() {
    let initial = vec![1.5f64; 12];
    let rows = simulate(&initial, 40, &burgers(0.45));
    for row in &rows {
        assert!(row.iter().all(|v| *v == 1.5));
    }
}

#[test]
fn pure_transport_rotates_and_returns() {
    let initial = vec![1, 2, 3, 4, 5];
    let rows = simulate(&initial, 11, &|_u: i32, ul: i32| ul);
    assert_eq!(rows[1], vec![5, 1, 2, 3, 4]);
    assert_eq!(rows[2], vec![4, 5, 1, 2, 3]);
    assert_eq!(rows[5], initial);
    assert_eq!(rows[10], initial);
    assert_eq!(rows[7], rows[2]);
}

#[test]
fn shorter_run_is_prefix_of_longer() {
    let initial = vec![1.0, 2.0, 2.0, 1.0, 1.0, 1.0];
    let short = simulate(&initial, 4, &burgers(0.2));
    let long = simulate(&initial, 9, &burgers(0.2));
    assert_eq!(&long[..4], &short[..]);
}
