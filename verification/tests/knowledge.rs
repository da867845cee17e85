use kalaha::board::{Game, State};
use kalaha::codec::pack;
use kalaha::knowledge::{dump_keys, load_keys, merge_fact};
use kalaha::search::find_outcome_dfs;
use std::collections::{HashMap, HashSet};

fn set(keys: &[u64]) -> HashSet<u64> {
    keys.iter().copied().collect()
}

#[test]
fn a_draw_enters_the_known_draws() {
    let g = Game { p: [[0, 0, 0, 0, 0, 1, 23], [0, 0, 0, 0, 0, 1, 23]], t: 0 };
    let mut wins = set(&[5]);
    let mut draws = set(&[6]);
    assert_eq!(merge_fact(&mut wins, &mut draws, &g, State::Draw), 0);
    assert_eq!(wins, set(&[5]));
    assert_eq!(draws, set(&[6, 216172773624512508]));
    assert_eq!(merge_fact(&mut wins, &mut draws, &g, State::Draw), 0);
    assert_eq!(draws, set(&[6, 216172773624512508]));
}

#[test]
fn a_win_for_the_mover_enters_the_position() {
    let g = Game { p: [[0, 0, 0, 0, 1, 1, 23], [0, 0, 0, 0, 1, 1, 22]], t: 0 };
    let mut wins = HashSet::new();
    let mut draws = HashSet::new();
    assert_eq!(merge_fact(&mut wins, &mut draws, &g, State::Win(0)), 0);
    assert_eq!(wins, set(&[792633526011822076]));
    assert!(draws.is_empty());
}

#[test]
fn a_fact_entered_twice_is_reported() {
    let g = Game { p: [[0, 0, 0, 0, 1, 1, 23], [0, 0, 0, 0, 1, 1, 22]], t: 0 };
    let mut wins = HashSet::new();
    let mut draws = HashSet::new();
    assert_eq!(merge_fact(&mut wins, &mut draws, &g, State::Win(0)), 0);
    assert_eq!(merge_fact(&mut wins, &mut draws, &g, State::Win(0)), 1);
    assert_eq!(wins.len(), 1);
}

#[test]
fn a_win_for_the_other_side_enters_the_successors() {
    let g = Game { p: [[0, 0, 0, 0, 1, 1, 10], [0, 0, 0, 0, 0, 3, 33]], t: 0 };
    let mut wins = set(&[432276226275540986]);
    let mut draws = HashSet::new();
    assert_eq!(merge_fact(&mut wins, &mut draws, &g, State::Win(1)), 1);
    assert_eq!(wins, set(&[504333820313468922, 432276226275540986]));
    assert!(!wins.contains(&pack(&g)));
    assert!(draws.is_empty());
}

#[test]
fn what_was_learned_is_found_again_by_a_search_without_knowledge() {
    let g = Game { p: [[0, 0, 0, 0, 1, 1, 10], [0, 0, 0, 0, 0, 3, 33]], t: 0 };
    let none: HashSet<u64> = HashSet::new();
    let mut cache: HashMap<u64, State> = HashMap::new();
    let mut limit = 1_000_000;
    let mut khits = 0;
    let outcome = find_outcome_dfs(&g, &mut cache, &mut limit, &none, &none, &mut khits);
    assert_eq!(outcome, State::Win(1));
    let mut wins = HashSet::new();
    let mut draws = HashSet::new();
    merge_fact(&mut wins, &mut draws, &g, outcome);
    assert_eq!(wins.len(), 2);
    for h in kalaha::expand::next(&g) {
        assert!(wins.contains(&pack(&h)));
        let mut cache: HashMap<u64, State> = HashMap::new();
        let mut limit = 1_000_000;
        let again = find_outcome_dfs(&h, &mut cache, &mut limit, &none, &none, &mut khits);
        assert_eq!(again, State::Win(h.t));
    }
}

#[test]
fn keys_are_written_lowest_byte_first() {
    let bytes = dump_keys(&set(&[0x0102_0304_0506_0708]));
    assert_eq!(bytes, vec![8, 7, 6, 5, 4, 3, 2, 1]);
    let bytes = dump_keys(&set(&[8925843902477234040]));
    assert_eq!(bytes, vec![0x78, 0xef, 0xbd, 0xf7, 0xbc, 0xf7, 0xde, 0x7b]);
}

#[test]
fn keys_are_read_lowest_byte_first() {
    let mut target = HashSet::new();
    let count = load_keys(&mut target, &[8, 7, 6, 5, 4, 3, 2, 1, 1, 0, 0, 0, 0, 0, 0, 0]);
    assert_eq!(count, 2);
    assert_eq!(target, set(&[0x0102_0304_0506_0708, 1]));
}

#[test]
fn a_cut_off_key_at_the_end_is_passed_over() {
    let mut target = HashSet::new();
    let count = load_keys(&mut target, &[1, 0, 0, 0, 0, 0, 0, 0, 2, 0, 0]);
    assert_eq!(count, 1);
    assert_eq!(target, set(&[1]));
    let count = load_keys(&mut target, &[9, 9, 9]);
    assert_eq!(count, 0);
    assert_eq!(target, set(&[1]));
}

#[test]
fn no_bytes_hold_no_keys() {
    let mut target = set(&[4]);
    assert_eq!(load_keys(&mut target, &[]), 0);
    assert_eq!(target, set(&[4]));
    assert!(dump_keys(&HashSet::new()).is_empty());
}

#[test]
fn loading_adds_to_what_is_there_and_counts_repeats() {
    let mut target = set(&[1, 77]);
    let count = load_keys(&mut target, &[1, 0, 0, 0, 0, 0, 0, 0, 1, 0, 0, 0, 0, 0, 0, 0]);
    assert_eq!(count, 2);
    assert_eq!(target, set(&[1, 77]));
}

#[test]
fn what_is_dumped_loads_back() {
    let source = set(&[0, 1, u64::MAX, 8925843902477234040, 0x8000_0000_0000_0000, 255, 256]);
    let bytes = dump_keys(&source);
    assert_eq!(bytes.len(), 8 * source.len());
    let mut back = HashSet::new();
    assert_eq!(load_keys(&mut back, &bytes), source.len() as u64);
    assert_eq!(back, source);
}
