use kalaha::board::{Game, State};
use kalaha::expand::next;
use kalaha::learn::{
    get_knowledge, persist_due, random_game_len, random_playout, resolve, LCYCLES, LIMIT, WINTERVAL,
};
use kalaha::search::find_outcome_dfs;
use std::collections::{HashMap, HashSet};

#[test]
fn the_constants_of_a_run() {
    assert_eq!(LIMIT, 150_000);
    assert_eq!(LCYCLES, 10_000);
    assert_eq!(WINTERVAL, 100);
}

#[test]
fn the_knowledge_is_written_after_every_hundredth_round() {
    assert!(!persist_due(0));
    assert!(!persist_due(98));
    assert!(persist_due(99));
    assert!(!persist_due(100));
    assert!(persist_due(199));
    assert!(persist_due(9_999));
}

#[test]
fn a_random_playout_is_a_game_from_the_initial_position_to_an_end() {
    let mut rng = rand::thread_rng();
    for _ in 0..20 {
        let games = random_playout(&mut rng);
        assert_eq!(games[0], Game::new());
        assert!(games.len() >= 2 && games.len() <= 2_233);
        for pair in games.windows(2) {
            assert_eq!(pair[0].state(), State::InProgress);
            assert!(next(&pair[0]).contains(&pair[1]));
        }
        assert_ne!(games.last().unwrap().state(), State::InProgress);
        for g in &games {
            let seeds: i32 = g.p.iter().map(|r| r.iter().map(|&c| c as i32).sum::<i32>()).sum();
            assert_eq!(seeds, 48);
        }
    }
}

#[test]
fn random_playouts_differ() {
    let mut rng = rand::thread_rng();
    let first = random_playout(&mut rng);
    let mut differs = false;
    for _ in 0..50 {
        if random_playout(&mut rng) != first {
            differs = true;
        }
    }
    assert!(differs);
}

#[test]
fn a_random_game_has_a_turn_and_an_end() {
    let mut rng = rand::thread_rng();
    for _ in 0..20 {
        let turns = random_game_len(&mut rng);
        assert!(turns >= 1 && turns < 2_233);
    }
}

#[test]
fn resolving_nothing_gives_no_fact() {
    let none: HashSet<u64> = HashSet::new();
    assert_eq!(resolve(Vec::new(), &none, &none), (None, 0));
}

#[test]
fn resolving_goes_back_from_the_end_while_the_budget_lasts() {
    let first = Game { p: [[0, 0, 0, 1, 2, 1, 20], [0, 0, 2, 1, 1, 0, 20]], t: 0 };
    let second = Game { p: [[0, 0, 0, 0, 1, 0, 23], [0, 0, 2, 1, 1, 0, 20]], t: 1 };
    let third = Game { p: [[0, 0, 0, 0, 1, 0, 23], [0, 0, 0, 2, 2, 0, 20]], t: 0 };
    let last = Game { p: [[0, 0, 0, 0, 0, 1, 23], [0, 0, 0, 2, 2, 0, 20]], t: 1 };
    let none: HashSet<u64> = HashSet::new();
    let (fact, hits) = resolve(vec![first, second, third, last], &none, &none);
    assert_eq!(fact, Some((first, State::Draw)));
    assert_eq!(hits, 0);
}

#[test]
fn resolving_a_finished_game_alone_gives_its_result() {
    let end = Game { p: [[0, 0, 0, 0, 0, 0, 25], [0, 0, 0, 0, 2, 0, 21]], t: 0 };
    let none: HashSet<u64> = HashSet::new();
    assert_eq!(resolve(vec![end], &none, &none), (Some((end, State::Win(0))), 0));
}

#[test]
fn resolving_stops_at_the_first_position_that_the_budget_cannot_settle() {
    let end = Game { p: [[0, 0, 0, 0, 0, 0, 25], [0, 0, 0, 0, 2, 0, 21]], t: 0 };
    let none: HashSet<u64> = HashSet::new();
    let (fact, _) = resolve(vec![Game::new(), end], &none, &none);
    assert_eq!(fact, Some((end, State::Win(0))));
}

#[test]
fn resolving_counts_the_hits_of_its_searches() {
    let g = Game { p: [[0, 0, 0, 0, 1, 1, 23], [0, 0, 0, 0, 1, 1, 22]], t: 0 };
    let mut wins: HashSet<u64> = HashSet::new();
    wins.insert(kalaha::codec::pack(&g.step(5).unwrap()));
    let draws: HashSet<u64> = HashSet::new();
    assert_eq!(resolve(vec![g], &wins, &draws), (Some((g, State::Win(0))), 1));
}

#[test]
fn a_round_ends_with_a_fact_that_a_search_bears_out() {
    let none: HashSet<u64> = HashSet::new();
    let (fact, hits) = get_knowledge(&none, &none);
    assert_eq!(hits, 0);
    let (game, outcome) = fact.expect("the finished game at the end has a result");
    assert_ne!(outcome, State::InProgress);
    assert!(game.is_packable());
    assert_eq!(game.seeds(), 48);
    if game.state() != State::InProgress {
        assert_eq!(game.state(), outcome);
    }
    let mut cache: HashMap<u64, State> = HashMap::new();
    let mut limit = 4 * LIMIT;
    let mut khits = 0;
    let again = find_outcome_dfs(&game, &mut cache, &mut limit, &none, &none, &mut khits);
    assert!(again == outcome || again == State::InProgress);
}
