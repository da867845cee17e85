use kalaha::board::{Game, State};

fn seeds(g: &Game) -> i32 {
    g.p.iter().map(|row| row.iter().map(|&c| c as i32).sum::<i32>()).sum()
}

#[test]
fn an_empty_pit_cannot_be_played() {
    let g = Game { p: [[0, 4, 4, 4, 4, 4, 4], [4, 4, 4, 4, 4, 4, 0]], t: 0 };
    assert_eq!(g.step(0), None);
    let g = Game { p: [[4, 4, 4, 4, 4, 4, 0], [4, 4, 4, 0, 4, 4, 4]], t: 1 };
    assert_eq!(g.step(3), None);
}

#[test]
fn pit_two_of_the_initial_position_ends_in_the_store_and_keeps_the_turn() {
    let n = Game::new().step(2).unwrap();
    assert_eq!(n.p, [[4, 4, 0, 5, 5, 5, 1], [4, 4, 4, 4, 4, 4, 0]]);
    assert_eq!(n.t, 0);
}

#[test]
fn a_move_that_ends_in_a_pit_passes_the_turn() {
    let n = Game::new().step(0).unwrap();
    assert_eq!(n.p, [[0, 5, 5, 5, 5, 4, 0], [4, 4, 4, 4, 4, 4, 0]]);
    assert_eq!(n.t, 1);
}

#[test]
fn side_one_sows_its_own_row_first() {
    let g = Game { p: [[4, 4, 4, 4, 4, 4, 0], [4, 4, 4, 4, 4, 4, 0]], t: 1 };
    let n = g.step(5).unwrap();
    assert_eq!(n.p, [[5, 5, 5, 4, 4, 4, 0], [4, 4, 4, 4, 4, 0, 1]]);
    assert_eq!(n.t, 0);
}

#[test]
fn a_last_seed_alone_in_an_own_pit_takes_the_pit_opposite() {
    let g = Game { p: [[1, 0, 4, 4, 4, 4, 0], [4, 4, 4, 4, 4, 4, 0]], t: 0 };
    let n = g.step(0).unwrap();
    assert_eq!(n.p, [[0, 1, 4, 4, 4, 4, 4], [4, 4, 4, 4, 0, 4, 0]]);
    assert_eq!(n.t, 1);
}

#[test]
fn a_capture_after_a_round_takes_the_seed_just_sown_opposite() {
    let g = Game { p: [[0, 1, 0, 0, 0, 8, 3], [1, 1, 1, 1, 1, 1, 5]], t: 0 };
    let n = g.step(5).unwrap();
    assert_eq!(n.p, [[1, 1, 0, 0, 0, 0, 6], [2, 2, 2, 2, 2, 0, 5]]);
    assert_eq!(n.t, 1);
}

#[test]
fn thirteen_seeds_end_in_the_pit_they_came_from_and_capture() {
    let g = Game { p: [[13, 0, 0, 0, 0, 0, 0], [1, 1, 1, 1, 1, 1, 5]], t: 0 };
    let n = g.step(0).unwrap();
    assert_eq!(n.p, [[1, 1, 1, 1, 1, 1, 3], [2, 2, 2, 2, 2, 0, 5]]);
    assert_eq!(n.t, 1);
}

#[test]
fn a_last_seed_in_a_pit_with_seeds_captures_nothing() {
    let n = Game::new().step(3).unwrap();
    assert_eq!(n.p, [[4, 4, 4, 0, 5, 5, 1], [5, 4, 4, 4, 4, 4, 0]]);
    assert_eq!(n.t, 1);
}

#[test]
fn a_last_seed_on_the_other_side_captures_nothing() {
    let g = Game { p: [[0, 0, 0, 0, 0, 2, 0], [0, 3, 0, 0, 0, 0, 0]], t: 0 };
    let n = g.step(5).unwrap();
    assert_eq!(n.p, [[0, 0, 0, 0, 0, 0, 1], [1, 3, 0, 0, 0, 0, 0]]);
    assert_eq!(n.t, 1);
}

#[test]
fn the_store_of_the_other_side_is_passed_over() {
    let g = Game { p: [[4, 4, 4, 4, 4, 8, 0], [4, 4, 4, 4, 4, 4, 0]], t: 0 };
    let n = g.step(5).unwrap();
    assert_eq!(n.p, [[5, 4, 4, 4, 4, 0, 1], [5, 5, 5, 5, 5, 5, 0]]);
    assert_eq!(n.t, 1);
    let g = Game { p: [[0, 0, 0, 0, 0, 10, 0], [4, 4, 4, 4, 4, 4, 14]], t: 0 };
    let n = g.step(5).unwrap();
    assert_eq!(n.p, [[1, 1, 1, 0, 0, 0, 6], [5, 5, 5, 0, 5, 5, 14]]);
    assert_eq!(n.t, 1);
}

#[test]
fn a_move_leaves_the_position_it_starts_from_untouched() {
    let g = Game::new();
    let _ = g.step(4);
    assert_eq!(g, Game::new());
}

#[test]
fn every_move_keeps_the_seeds_on_the_board() {
    let mut frontier = vec![Game::new()];
    for _ in 0..4 {
        let mut after = Vec::new();
        for g in &frontier {
            for s in 0..6 {
                if let Some(n) = g.step(s) {
                    assert_eq!(seeds(&n), 48);
                    assert!(n.t == 0 || n.t == 1);
                    assert!(n.p.iter().all(|row| row.iter().all(|&c| c >= 0)));
                    after.push(n);
                }
            }
        }
        frontier = after;
    }
    assert!(!frontier.is_empty());
}

#[test]
fn the_turn_stays_exactly_when_the_last_seed_reaches_the_store() {
    let g = Game::new();
    for s in 0..6usize {
        let n = g.step(s).unwrap();
        let lands_in_store = (s + 4) % 13 == 6;
        assert_eq!(n.t == g.t, lands_in_store);
    }
}

#[test]
fn a_finished_game_is_told_from_the_move_that_ends_it() {
    let g = Game { p: [[0, 0, 0, 0, 0, 1, 24], [0, 0, 0, 0, 2, 0, 21]], t: 0 };
    let n = g.step(5).unwrap();
    assert_eq!(n.t, 0);
    assert_eq!(n.p, [[0, 0, 0, 0, 0, 0, 25], [0, 0, 0, 0, 2, 0, 21]]);
    assert_eq!(n.state(), State::Win(0));
}
