use kalaha::board::{Game, State};
use kalaha::codec::pack;
use kalaha::search::find_outcome_dfs;
use std::collections::{HashMap, HashSet};

fn fixture() -> Game {
    Game { p: [[0, 0, 0, 1, 2, 1, 20], [0, 0, 2, 1, 1, 0, 20]], t: 0 }
}

fn small() -> Game {
    Game { p: [[0, 0, 0, 0, 1, 1, 23], [0, 0, 0, 0, 1, 1, 22]], t: 0 }
}

#[test]
fn the_endgame_of_six_seeds_is_a_draw() {
    let g = fixture();
    let mut cache: HashMap<u64, State> = HashMap::with_capacity(2_000_000);
    let mut limit = 2_000_000;
    let mut khits = 0;
    let none: HashSet<u64> = HashSet::new();
    let outcome = find_outcome_dfs(&g, &mut cache, &mut limit, &none, &none, &mut khits);
    assert_eq!(outcome, State::Draw);
    assert_ne!(outcome, State::InProgress);
    assert_eq!(cache.len(), 53);
    assert_eq!(limit, 2_000_000 - 53);
    assert_eq!(khits, 0);
    assert_eq!(cache.get(&pack(&g)), Some(&State::Draw));
}

#[test]
fn a_budget_one_short_leaves_the_verdict_open() {
    let g = fixture();
    let mut cache: HashMap<u64, State> = HashMap::new();
    let none: HashSet<u64> = HashSet::new();
    let mut limit = 52;
    let mut khits = 0;
    assert_eq!(
        find_outcome_dfs(&g, &mut cache, &mut limit, &none, &none, &mut khits),
        State::InProgress
    );
    assert_eq!(limit, 0);
    assert_eq!(cache.len(), 49);
    assert!(cache.values().all(|v| *v != State::InProgress));
    assert_eq!(cache.get(&pack(&g)), None);
    let mut cache: HashMap<u64, State> = HashMap::new();
    let mut limit = 53;
    assert_eq!(find_outcome_dfs(&g, &mut cache, &mut limit, &none, &none, &mut khits), State::Draw);
    assert_eq!(limit, 0);
}

#[test]
fn no_budget_gives_no_verdict_and_changes_nothing() {
    let g = fixture();
    let mut cache: HashMap<u64, State> = HashMap::new();
    let none: HashSet<u64> = HashSet::new();
    let mut limit = 0;
    let mut khits = 7;
    assert_eq!(
        find_outcome_dfs(&g, &mut cache, &mut limit, &none, &none, &mut khits),
        State::InProgress
    );
    assert!(cache.is_empty());
    assert_eq!(limit, 0);
    assert_eq!(khits, 7);
}

#[test]
fn a_finished_game_has_its_result_at_no_cost() {
    let g = Game { p: [[0, 0, 0, 0, 0, 0, 10], [1, 2, 3, 4, 0, 0, 5]], t: 1 };
    let mut cache: HashMap<u64, State> = HashMap::new();
    let mut wins: HashSet<u64> = HashSet::new();
    wins.insert(pack(&g));
    let draws: HashSet<u64> = HashSet::new();
    let mut limit = 0;
    let mut khits = 0;
    assert_eq!(find_outcome_dfs(&g, &mut cache, &mut limit, &wins, &draws, &mut khits), State::Win(1));
    assert!(cache.is_empty());
    assert_eq!(khits, 0);
}

#[test]
fn a_cached_verdict_is_returned_as_it_stands() {
    let g = small();
    let none: HashSet<u64> = HashSet::new();
    let mut cache: HashMap<u64, State> = HashMap::new();
    cache.insert(pack(&g), State::Win(1));
    let mut limit = 5;
    let mut khits = 0;
    assert_eq!(find_outcome_dfs(&g, &mut cache, &mut limit, &none, &none, &mut khits), State::Win(1));
    assert_eq!(limit, 5);
    assert_eq!(khits, 0);
    assert_eq!(cache.len(), 1);
}

#[test]
fn the_cache_is_asked_before_the_knowledge() {
    let g = small();
    let mut wins: HashSet<u64> = HashSet::new();
    wins.insert(pack(&g));
    let draws: HashSet<u64> = HashSet::new();
    let mut cache: HashMap<u64, State> = HashMap::new();
    cache.insert(pack(&g), State::Draw);
    let mut limit = 5;
    let mut khits = 0;
    assert_eq!(find_outcome_dfs(&g, &mut cache, &mut limit, &wins, &draws, &mut khits), State::Draw);
    assert_eq!(khits, 0);
}

#[test]
fn a_known_win_is_a_win_for_the_mover_and_counts_as_a_hit() {
    let g = small();
    let mut wins: HashSet<u64> = HashSet::new();
    wins.insert(pack(&g));
    let draws: HashSet<u64> = HashSet::new();
    let mut cache: HashMap<u64, State> = HashMap::new();
    let mut limit = 0;
    let mut khits = 3;
    assert_eq!(find_outcome_dfs(&g, &mut cache, &mut limit, &wins, &draws, &mut khits), State::Win(0));
    assert_eq!(khits, 4);
    assert!(cache.is_empty());
    let h = Game { t: 1, ..g };
    wins.insert(pack(&h));
    assert_eq!(find_outcome_dfs(&h, &mut cache, &mut limit, &wins, &draws, &mut khits), State::Win(1));
    assert_eq!(khits, 5);
}

#[test]
fn a_known_draw_is_a_draw_and_counts_as_a_hit() {
    let g = small();
    let wins: HashSet<u64> = HashSet::new();
    let mut draws: HashSet<u64> = HashSet::new();
    draws.insert(pack(&g));
    let mut cache: HashMap<u64, State> = HashMap::new();
    let mut limit = 0;
    let mut khits = 0;
    assert_eq!(find_outcome_dfs(&g, &mut cache, &mut limit, &wins, &draws, &mut khits), State::Draw);
    assert_eq!(khits, 1);
}

#[test]
fn known_wins_are_asked_before_known_draws() {
    let g = small();
    let mut wins: HashSet<u64> = HashSet::new();
    let mut draws: HashSet<u64> = HashSet::new();
    wins.insert(pack(&g));
    draws.insert(pack(&g));
    let mut cache: HashMap<u64, State> = HashMap::new();
    let mut limit = 9;
    let mut khits = 0;
    assert_eq!(find_outcome_dfs(&g, &mut cache, &mut limit, &wins, &draws, &mut khits), State::Win(0));
}

#[test]
fn the_small_endgame_is_won_by_its_mover_in_eight_positions() {
    let g = small();
    let none: HashSet<u64> = HashSet::new();
    let mut cache: HashMap<u64, State> = HashMap::new();
    let mut limit = 1_000_000;
    let mut khits = 0;
    assert_eq!(find_outcome_dfs(&g, &mut cache, &mut limit, &none, &none, &mut khits), State::Win(0));
    assert_eq!(limit, 999_992);
    assert_eq!(cache.len(), 8);
    assert_eq!(cache.get(&504403149793001468), Some(&State::Win(1)));
    assert_eq!(cache.get(&720575931973894140), Some(&State::Win(0)));
    assert_eq!(cache.get(&792633526011822076), Some(&State::Win(0)));
}

#[test]
fn knowledge_of_a_move_that_wins_ends_the_search_there() {
    let g = small();
    let mut wins: HashSet<u64> = HashSet::new();
    wins.insert(pack(&g.step(5).unwrap()));
    let draws: HashSet<u64> = HashSet::new();
    let mut cache: HashMap<u64, State> = HashMap::new();
    let mut limit = 10;
    let mut khits = 0;
    assert_eq!(find_outcome_dfs(&g, &mut cache, &mut limit, &wins, &draws, &mut khits), State::Win(0));
    assert_eq!(limit, 7);
    assert_eq!(khits, 1);
    assert_eq!(cache.len(), 3);
}

#[test]
fn a_draw_is_taken_where_no_move_wins() {
    let g = small();
    let wins: HashSet<u64> = HashSet::new();
    let mut draws: HashSet<u64> = HashSet::new();
    draws.insert(pack(&g.step(4).unwrap()));
    draws.insert(pack(&g.step(5).unwrap()));
    let mut cache: HashMap<u64, State> = HashMap::new();
    let mut limit = 10;
    let mut khits = 0;
    assert_eq!(find_outcome_dfs(&g, &mut cache, &mut limit, &wins, &draws, &mut khits), State::Draw);
    assert_eq!(limit, 9);
    assert_eq!(khits, 2);
    assert_eq!(cache.get(&pack(&g)), Some(&State::Draw));
    assert_eq!(cache.len(), 1);
}

#[test]
fn a_win_found_after_a_draw_is_preferred() {
    let g = small();
    let wins: HashSet<u64> = HashSet::new();
    let mut draws: HashSet<u64> = HashSet::new();
    draws.insert(pack(&g.step(4).unwrap()));
    let mut cache: HashMap<u64, State> = HashMap::new();
    let mut limit = 10;
    let mut khits = 0;
    assert_eq!(find_outcome_dfs(&g, &mut cache, &mut limit, &wins, &draws, &mut khits), State::Win(0));
    assert_eq!(limit, 4);
    assert_eq!(khits, 1);
    assert_eq!(cache.len(), 6);
}

#[test]
fn a_position_lost_for_its_mover() {
    let g = Game { p: [[0, 0, 0, 0, 0, 1, 20], [0, 0, 0, 0, 1, 0, 26]], t: 0 };
    let none: HashSet<u64> = HashSet::new();
    let mut cache: HashMap<u64, State> = HashMap::new();
    let mut limit = 100;
    let mut khits = 0;
    assert_eq!(find_outcome_dfs(&g, &mut cache, &mut limit, &none, &none, &mut khits), State::Win(1));
    assert_eq!(limit, 99);
    assert_eq!(cache.get(&216172714736484348), Some(&State::Win(1)));
}

#[test]
fn a_second_search_is_answered_from_the_cache() {
    let g = fixture();
    let none: HashSet<u64> = HashSet::new();
    let mut cache: HashMap<u64, State> = HashMap::new();
    let mut limit = 1000;
    let mut khits = 0;
    let first = find_outcome_dfs(&g, &mut cache, &mut limit, &none, &none, &mut khits);
    let mut limit = 0;
    let second = find_outcome_dfs(&g, &mut cache, &mut limit, &none, &none, &mut khits);
    assert_eq!(first, second);
    assert_eq!(second, State::Draw);
}
