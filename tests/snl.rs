use puzzle_sim::snl::{GameBoard, SnlArgs, SnlError, SnlStatistics, BOARD_SIZE, DICE_SIDES};
use puzzle_sim::stats::SimulationError;
use std::collections::HashMap;

fn board() -> GameBoard {
    GameBoard::new().unwrap()
}

fn row_sum(row: &[u8]) -> usize {
    row.iter().map(|&c| c as usize).sum()
}

#[test]
fn playable_rows_sum_to_one() {
    let b = board();
    assert_eq!(b.transition_matrix.len(), BOARD_SIZE + 1);
    for i in 0..BOARD_SIZE {
        let row = &b.transition_matrix[i];
        assert_eq!(row.len(), BOARD_SIZE + 1);
        if !b.transitions.contains_key(&i) {
            assert_eq!(row_sum(row), DICE_SIDES);
            let p: f64 = row.iter().map(|&c| c as f64 / DICE_SIDES as f64).sum();
            assert!((p - 1.0).abs() < 1e-9);
        }
    }
}

#[test]
fn source_and_goal_rows_are_zero() {
    let b = board();
    for (&source, _) in b.transitions.iter() {
        assert_eq!(row_sum(&b.transition_matrix[source]), 0);
    }
    assert_eq!(row_sum(&b.transition_matrix[BOARD_SIZE]), 0);
}

#[test]
fn row_of_square_94() {
    let b = board();
    let row = &b.transition_matrix[94];
    let mut expected = vec![0u8; BOARD_SIZE + 1];
    for d in [75, 96, 97, 78, 99, 100] {
        expected[d] = 1;
    }
    assert_eq!(row, &expected);
    assert_eq!(row[100] as f64 / DICE_SIDES as f64, 1.0 / 6.0);
}

#[test]
fn faces_past_the_goal_accumulate() {
    let b = board();
    assert_eq!(b.transition_matrix[99][100], 6);
    assert_eq!(b.transition_matrix[97][100], 4);
    assert_eq!(b.transition_matrix[97][78], 1);
    assert_eq!(b.transition_matrix[97][99], 1);
    assert_eq!(b.transition_matrix[0][38], 1);
    assert_eq!(b.transition_matrix[0][14], 1);
}

#[test]
fn matrix_build_is_deterministic() {
    let map = GameBoard::create_snakes_and_ladders_map();
    let a = GameBoard::create_transition_matrix(&map).unwrap();
    let b = GameBoard::create_transition_matrix(&map).unwrap();
    assert_eq!(a, b);
}

#[test]
fn empty_remap_table_gives_plain_board() {
    let map: HashMap<usize, usize> = HashMap::new();
    let m = GameBoard::create_transition_matrix(&map).unwrap();
    assert_eq!(m[0][1], 1);
    assert_eq!(m[0][6], 1);
    assert_eq!(m[95][100], 2);
    assert_eq!(row_sum(&m[50]), 6);
}

#[test]
fn standard_map_has_nineteen_entries() {
    let map = GameBoard::create_snakes_and_ladders_map();
    assert_eq!(map.len(), 19);
    assert_eq!(map[&80], 100);
    assert_eq!(map[&16], 6);
}

#[test]
fn games_from_start_terminate() {
    let b = board();
    let moves = b.simulate_games(10_000, 0).unwrap();
    assert_eq!(moves.len(), 10_000);
    assert!(moves.iter().all(|&m| 1 <= m && m <= 100_000));
}

#[test]
fn game_next_to_goal_takes_one_move() {
    let b = board();
    assert_eq!(b.simulate_single_game(99).unwrap(), 1);
}

#[test]
fn invalid_starts_are_refused() {
    let b = board();
    assert!(matches!(b.simulate_single_game(100), Err(SnlError::InvalidPosition(100))));
    assert!(matches!(b.simulate_single_game(1), Err(SnlError::InvalidPosition(1))));
    assert!(matches!(b.simulate_games(5, 101), Err(SnlError::InvalidPosition(101))));
}

#[test]
fn start_square_follows_remap() {
    let b = board();
    assert_eq!(b.start_square(1), 38);
    assert_eq!(b.start_square(98), 78);
    assert_eq!(b.start_square(2), 2);
}

#[test]
fn sweep_skips_sources() {
    let b = board();
    let starts = b.sweep_starts();
    assert_eq!(starts.len(), 80);
    assert_eq!(starts[0], 0);
    assert_eq!(starts[1], 2);
    assert_eq!(*starts.last().unwrap(), 97);
    assert!(!starts.contains(&1));
    assert!(!starts.contains(&99));
}

#[test]
fn snl_args_validation() {
    let ok = SnlArgs { num_iterations: 10, start: 0 };
    assert!(ok.validate().is_ok());
    let off = SnlArgs { num_iterations: 10, start: 100 };
    assert!(matches!(off.validate(), Err(SnlError::InvalidStart(100))));
    let none = SnlArgs { num_iterations: 0, start: 3 };
    assert!(matches!(
        none.validate(),
        Err(SnlError::SimError(SimulationError::InvalidIterationCount(0)))
    ));
}

#[test]
fn per_start_statistics() {
    let s = SnlStatistics::new(7, &[10, 20, 30]).unwrap();
    assert_eq!(s.start, 7);
    assert_eq!(s.statistics.median_low, 20);
    assert!(matches!(
        SnlStatistics::new(7, &[]),
        Err(SnlError::SimError(SimulationError::EmptyMoveArray))
    ));
}

#[test]
fn games_next_to_goal_all_take_one_move() {
    let b = board();
    assert_eq!(b.simulate_games(50, 99).unwrap(), vec![1u64; 50]);
}

#[test]
fn games_from_start_take_at_least_seven_moves() {
    let b = board();
    let moves = b.simulate_games(500, 0).unwrap();
    assert!(moves.iter().all(|&m| m >= 7));
}

#[test]
fn replay_follows_drawn_squares() {
    let b = board();
    assert_eq!(b.replay_game(99, &vec![100]), Some(1));
    assert_eq!(b.replay_game(99, &vec![100, 5, 7]), Some(1));
    assert_eq!(b.replay_game(94, &vec![96, 100]), Some(2));
    assert_eq!(b.replay_game(100, &vec![]), Some(0));
    assert_eq!(b.replay_game(0, &vec![38, 44]), None);
    assert_eq!(b.replay_game(0, &vec![50, 100]), None);
    assert_eq!(b.replay_game(94, &vec![95, 100]), None);
    assert_eq!(b.replay_game(101, &vec![100]), None);
}
