use kalaha::board::{Game, State};
use kalaha::expand::next;

#[test]
fn the_initial_position_has_ten_successors() {
    let list = next(&Game::new());
    assert_eq!(list.len(), 10);
    assert_eq!(list[0], Game { p: [[0, 5, 5, 5, 5, 4, 0], [4, 4, 4, 4, 4, 4, 0]], t: 1 });
    assert_eq!(list[1], Game { p: [[4, 0, 5, 5, 5, 5, 0], [4, 4, 4, 4, 4, 4, 0]], t: 1 });
    assert_eq!(list[2], Game { p: [[0, 5, 1, 6, 6, 5, 1], [4, 4, 4, 4, 4, 4, 0]], t: 1 });
    assert_eq!(list[3], Game { p: [[4, 0, 1, 6, 6, 6, 1], [4, 4, 4, 4, 4, 4, 0]], t: 1 });
    assert_eq!(list[4], Game { p: [[4, 4, 0, 0, 6, 6, 2], [5, 5, 4, 4, 4, 4, 0]], t: 1 });
    assert_eq!(list[5], Game { p: [[4, 4, 0, 5, 0, 6, 2], [5, 5, 5, 4, 4, 4, 0]], t: 1 });
    assert_eq!(list[6], Game { p: [[4, 4, 0, 5, 5, 0, 2], [5, 5, 5, 5, 4, 4, 0]], t: 1 });
    assert_eq!(list[7], Game { p: [[4, 4, 4, 0, 5, 5, 1], [5, 4, 4, 4, 4, 4, 0]], t: 1 });
    assert_eq!(list[8], Game { p: [[4, 4, 4, 4, 0, 5, 1], [5, 5, 4, 4, 4, 4, 0]], t: 1 });
    assert_eq!(list[9], Game { p: [[4, 4, 4, 4, 4, 0, 1], [5, 5, 5, 4, 4, 4, 0]], t: 1 });
}

#[test]
fn successors_follow_kept_turns_to_their_end() {
    let g = Game { p: [[0, 0, 0, 1, 2, 1, 20], [0, 0, 2, 1, 1, 0, 20]], t: 0 };
    let list = next(&g);
    assert_eq!(
        list,
        vec![
            Game { p: [[0, 0, 0, 0, 3, 1, 20], [0, 0, 2, 1, 1, 0, 20]], t: 1 },
            Game { p: [[0, 0, 0, 0, 1, 2, 21], [0, 0, 2, 1, 1, 0, 20]], t: 1 },
            Game { p: [[0, 0, 0, 1, 0, 0, 22], [1, 0, 2, 1, 1, 0, 20]], t: 1 },
            Game { p: [[0, 0, 0, 0, 3, 0, 21], [0, 0, 2, 1, 1, 0, 20]], t: 1 },
            Game { p: [[0, 0, 0, 0, 1, 1, 22], [0, 0, 2, 1, 1, 0, 20]], t: 1 },
            Game { p: [[0, 0, 0, 0, 1, 0, 23], [0, 0, 2, 1, 1, 0, 20]], t: 1 },
        ]
    );
}

#[test]
fn a_move_that_ends_the_game_with_the_turn_kept_is_a_successor() {
    let g = Game { p: [[0, 0, 0, 0, 0, 1, 23], [0, 0, 0, 0, 2, 0, 22]], t: 0 };
    let list = next(&g);
    assert_eq!(list, vec![Game { p: [[0, 0, 0, 0, 0, 0, 24], [0, 0, 0, 0, 2, 0, 22]], t: 0 }]);
    assert_eq!(list[0].state(), State::Draw);
}

#[test]
fn a_mover_without_seeds_has_no_successors() {
    let g = Game { p: [[0, 0, 0, 0, 0, 0, 30], [1, 0, 0, 0, 0, 0, 17]], t: 0 };
    assert!(next(&g).is_empty());
}

#[test]
fn successors_are_the_same_on_every_call() {
    let g = Game::new();
    assert_eq!(next(&g), next(&g));
}

#[test]
fn every_successor_has_passed_the_turn_or_ended_the_game() {
    for g in next(&Game::new()) {
        for h in next(&g) {
            assert!(h.t != g.t || h.state() != State::InProgress);
            let seeds: i32 = h.p.iter().map(|r| r.iter().map(|&c| c as i32).sum::<i32>()).sum();
            assert_eq!(seeds, 48);
        }
    }
}
