use kalaha::board::{new_player, Game, State};

#[test]
fn new_player_has_four_seeds_in_each_pit() {
    assert_eq!(new_player(), [4, 4, 4, 4, 4, 4, 0]);
}

#[test]
fn new_game_is_the_initial_position() {
    let g = Game::new();
    assert_eq!(g.p, [[4, 4, 4, 4, 4, 4, 0], [4, 4, 4, 4, 4, 4, 0]]);
    assert_eq!(g.t, 0);
}

#[test]
fn initial_position_is_in_progress() {
    assert_eq!(Game::new().state(), State::InProgress);
}

#[test]
fn state_is_in_progress_while_both_sides_hold_a_seed() {
    let g = Game { p: [[0, 0, 0, 0, 0, 1, 0], [1, 0, 0, 0, 0, 0, 40]], t: 1 };
    assert_eq!(g.state(), State::InProgress);
}

#[test]
fn state_counts_pits_and_store_of_the_side_that_still_has_seeds() {
    let g = Game { p: [[0, 0, 0, 0, 0, 0, 10], [1, 2, 0, 0, 0, 0, 5]], t: 0 };
    assert_eq!(g.state(), State::Win(0));
    let g = Game { p: [[0, 0, 0, 0, 0, 0, 10], [1, 2, 3, 4, 0, 0, 5]], t: 1 };
    assert_eq!(g.state(), State::Win(1));
    let g = Game { p: [[1, 2, 3, 4, 0, 0, 5], [0, 0, 0, 0, 0, 0, 10]], t: 1 };
    assert_eq!(g.state(), State::Win(0));
}

#[test]
fn state_is_a_draw_on_equal_holdings() {
    let g = Game { p: [[0, 0, 0, 0, 0, 0, 10], [1, 2, 3, 4, 0, 0, 0]], t: 1 };
    assert_eq!(g.state(), State::Draw);
    let g = Game { p: [[0, 0, 0, 0, 0, 0, 24], [0, 0, 0, 0, 0, 0, 24]], t: 0 };
    assert_eq!(g.state(), State::Draw);
}

#[test]
fn state_of_the_empty_board_is_a_draw() {
    let g = Game { p: [[0; 7], [0; 7]], t: 0 };
    assert_eq!(g.state(), State::Draw);
}

#[test]
fn possible_lists_the_pits_with_seeds_in_rising_order() {
    assert_eq!(Game::new().possible(), vec![0, 1, 2, 3, 4, 5]);
    let g = Game { p: [[0, 0, 0, 1, 2, 1, 20], [0, 0, 2, 1, 1, 0, 20]], t: 0 };
    assert_eq!(g.possible(), vec![3, 4, 5]);
    let g = Game { p: [[0, 0, 0, 1, 2, 1, 20], [0, 0, 2, 1, 1, 0, 20]], t: 1 };
    assert_eq!(g.possible(), vec![2, 3, 4]);
}

#[test]
fn possible_is_empty_where_the_mover_has_no_seeds() {
    let g = Game { p: [[0, 0, 0, 0, 0, 0, 30], [1, 0, 0, 0, 0, 0, 17]], t: 0 };
    assert_eq!(g.possible(), Vec::<usize>::new());
}

#[test]
fn possible_ignores_the_store() {
    let g = Game { p: [[0, 0, 0, 0, 0, 0, 30], [0, 0, 0, 0, 0, 3, 15]], t: 1 };
    assert_eq!(g.possible(), vec![5]);
}

#[test]
fn the_seeds_of_a_position_are_counted() {
    assert_eq!(Game::new().seeds(), 48);
    let g = Game { p: [[0, 0, 0, 1, 2, 1, 20], [0, 0, 2, 1, 1, 0, 20]], t: 1 };
    assert_eq!(g.seeds(), 48);
    assert_eq!(Game { p: [[0; 7], [0; 7]], t: 0 }.seeds(), 0);
    assert_eq!(Game { p: [[127, 0, 0, 0, 0, 0, 0], [0; 7]], t: 0 }.seeds(), 127);
}

#[test]
fn a_position_is_valid_with_cells_from_zero_a_turn_and_few_seeds() {
    assert!(Game::new().is_valid());
    assert!(Game { p: [[0; 7], [0; 7]], t: 1 }.is_valid());
    assert!(Game { p: [[127, 0, 0, 0, 0, 0, 0], [0; 7]], t: 0 }.is_valid());
    assert!(Game { p: [[100, 0, 0, 0, 0, 0, 0], [0, 0, 0, 0, 0, 0, 27]], t: 0 }.is_valid());
}

#[test]
fn a_position_is_not_valid_with_a_wrong_turn_a_cell_below_zero_or_too_many_seeds() {
    assert!(!Game { p: [[4, 4, 4, 4, 4, 4, 0], [4, 4, 4, 4, 4, 4, 0]], t: 2 }.is_valid());
    assert!(!Game { p: [[4, 4, 4, 4, 4, 4, 0], [4, 4, 4, 4, 4, 4, 0]], t: -1 }.is_valid());
    assert!(!Game { p: [[4, 4, 4, -1, 4, 4, 0], [4, 4, 4, 4, 4, 4, 0]], t: 0 }.is_valid());
    assert!(!Game { p: [[4, 4, 4, 4, 4, 4, 0], [4, 4, 4, 4, 4, 4, -128]], t: 0 }.is_valid());
    assert!(!Game { p: [[100, 0, 0, 0, 0, 0, 0], [0, 0, 0, 0, 0, 0, 28]], t: 0 }.is_valid());
    assert!(!Game { p: [[127; 7], [127; 7]], t: 0 }.is_valid());
}

#[test]
fn seeds_are_added_up_whatever_the_cells_hold() {
    assert_eq!(Game { p: [[127; 7], [127; 7]], t: 0 }.seeds(), 1778);
    assert_eq!(Game { p: [[-128; 7], [-128; 7]], t: 3 }.seeds(), -1792);
    assert_eq!(Game { p: [[-1, 2, 0, 0, 0, 0, 0], [0; 7]], t: 0 }.seeds(), 1);
}

#[test]
fn possible_asks_only_for_a_turn() {
    let g = Game { p: [[100, 0, 100, 0, 0, -3, 0], [1, 0, 0, 0, 0, 0, 120]], t: 0 };
    assert_eq!(g.possible(), vec![0, 2, 5]);
}
