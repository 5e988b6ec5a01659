use puzzle_sim::cube::{self, CubeArgs};
use puzzle_sim::octo::{self, OctoArgs};
use puzzle_sim::shuffle::{shuffle, shuffle_count, ShuffleArgs, ShuffleError};
use puzzle_sim::simplex::{self, SimplexArgs};
use puzzle_sim::stats::SimulationError;

#[test]
fn perfect_shuffle_interleaves_halves() {
    assert_eq!(shuffle(&[1, 2, 3, 4]), vec![1, 3, 2, 4]);
    assert_eq!(shuffle(&[1, 2, 3, 4, 5, 6]), vec![1, 4, 2, 5, 3, 6]);
    assert_eq!(shuffle(&[1, 2, 3]), vec![1, 2]);
    assert_eq!(shuffle(&[]), Vec::<u32>::new());
}

#[test]
fn shuffle_periods() {
    assert_eq!(shuffle_count(0).unwrap(), 1);
    assert_eq!(shuffle_count(2).unwrap(), 1);
    assert_eq!(shuffle_count(4).unwrap(), 2);
    assert_eq!(shuffle_count(6).unwrap(), 4);
    assert_eq!(shuffle_count(52).unwrap(), 8);
}

#[test]
fn shuffle_args_validation() {
    assert!(matches!(ShuffleArgs { n: 0 }.validate(), Err(ShuffleError::InvalidInputError(0))));
    assert!(ShuffleArgs { n: 3 }.validate().is_ok());
}

#[test]
fn cube_validation() {
    let args = CubeArgs { num_iterations: 5, dim: 3, start: 7 };
    assert!(args.validate().is_ok());
    let far = CubeArgs { num_iterations: 5, dim: 3, start: 8 };
    assert!(matches!(far.validate(), Err(SimulationError::InvalidTarget(8))));
    let flat = CubeArgs { num_iterations: 5, dim: 0, start: 0 };
    assert!(matches!(flat.validate(), Err(SimulationError::InvalidTarget(0))));
    let huge = CubeArgs { num_iterations: 5, dim: 64, start: 0 };
    assert!(matches!(huge.validate(), Err(SimulationError::InvalidTarget(64))));
    let none = CubeArgs { num_iterations: 0, dim: 3, start: 0 };
    assert!(matches!(none.validate(), Err(SimulationError::InvalidIterationCount(0))));
}

#[test]
fn cube_geometry() {
    let args = CubeArgs { num_iterations: 1, dim: 3, start: 0 };
    assert_eq!(args.dimensions(), vec![0, 1, 2]);
    assert_eq!(args.end_corner(), 7);
    let wide = CubeArgs { num_iterations: 1, dim: 63, start: 0 };
    assert_eq!(wide.end_corner(), (1u64 << 63) - 1);
}

#[test]
fn cube_walks() {
    let dims = vec![0u8, 1, 2];
    assert_eq!(cube::simulate_single_path(&dims, 7, 7).unwrap(), 0);
    let moves = cube::simulate_single_path(&dims, 0, 7).unwrap();
    assert!(moves >= 3);
    assert_eq!(moves % 2, 1);
    let near = cube::simulate_single_path(&dims, 5, 7).unwrap();
    assert_eq!(near % 2, 1);
}

#[test]
fn octo_validation_and_walk() {
    assert!(matches!(
        OctoArgs { num_iterations: 2, end: 0 }.validate(),
        Err(SimulationError::InvalidTarget(0))
    ));
    assert!(matches!(
        OctoArgs { num_iterations: 2, end: 1 }.validate(),
        Err(SimulationError::InvalidTarget(1))
    ));
    assert!(OctoArgs { num_iterations: 2, end: 5 }.validate().is_ok());
    assert!(matches!(octo::simulate_single_path(-3), Err(SimulationError::InvalidTarget(-3))));
    for _ in 0..100 {
        assert!(octo::simulate_single_path(4).unwrap() >= 2);
    }
}

#[test]
fn octo_draw_skips_current_magnitude() {
    assert_eq!(octo::skip_current(1, 3), 1);
    assert_eq!(octo::skip_current(2, 3), 2);
    assert_eq!(octo::skip_current(3, 3), 4);
    assert_eq!(octo::skip_current(4, 3), 5);
}

#[test]
fn simplex_validation_and_walk() {
    assert!(matches!(
        SimplexArgs { num_iterations: 2, dim: 0 }.validate(),
        Err(SimulationError::InvalidTarget(0))
    ));
    assert!(matches!(
        SimplexArgs { num_iterations: 0, dim: 4 }.validate(),
        Err(SimulationError::InvalidIterationCount(0))
    ));
    assert_eq!(simplex::simulate_single_path(1).unwrap(), 0);
    for _ in 0..100 {
        assert!(simplex::simulate_single_path(3).unwrap() >= 1);
    }
}
