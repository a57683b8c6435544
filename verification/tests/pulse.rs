use wave_sim::profile::square_pulse;

#[test]
fn pulse_raises_only_the_given_cells() {
    let grid = square_pulse(8, 2, 5, 1.0f64, 2.0f64);
    assert_eq!(grid, vec![1.0, 1.0, 2.0, 2.0, 2.0, 1.0, 1.0, 1.0]);
}

#[test]
fn pulse_of_empty_slice_is_flat() {
    let grid = square_pulse(4, 3, 3, 1u32, 2u32);
    assert_eq!(grid, vec![1, 1, 1, 1]);
}

#[test]
fn pulse_reaching_the_last_cell() {
    let grid = square_pulse(5, 3, 5, 0i64, 9i64);
    assert_eq!(grid, vec![0, 0, 0, 9, 9]);
}

#[test]
fn pulse_over_whole_grid() {
    let grid = square_pulse(3, 0, 3, 1.0f32, 2.0f32);
    assert_eq!(grid, vec![2.0, 2.0, 2.0]);
}

#[test]
fn pulse_on_empty_grid() {
    let grid: Vec<f64> = square_pulse(0, 0, 0, 1.0, 2.0);
    assert!(grid.is_empty());
}

#[test]
fn pulse_of_lesson_defaults() {
    // 100 cells over a length of 2.0: the cells from 0.5 to 1.0 are 25..50.
    let grid = square_pulse(100, 25, 50, 1.0f64, 2.0f64);
    assert_eq!(grid.len(), 100);
    for (i, v) in grid.iter().enumerate() {
        if (25..50).contains(&i) {
            assert_eq!(*v, 2.0);
        } else {
            assert_eq!(*v, 1.0);
        }
    }
}
