//! The learning round: a game played out at random, resolved backward from its
//! end into one fact for the knowledge store.

use crate::board::{Board, Game, State};
use crate::expand::{boards, lemma_successors, lemma_successors_exist, next};
use crate::knowledge::{learned_draws, learned_wins, lemma_merge_sound};
use crate::search::{cache_sound, find_outcome_dfs, knowledge_sound, lemma_search_sound, search};
use rand::Rng;
use std::collections::{HashMap, HashSet};
use vstd::prelude::*;

verus! {

/// The positions that one search may open.
pub const LIMIT: usize = 150_000;

/// The rounds of one learning run.
pub const LCYCLES: usize = 10_000;

/// The knowledge is written out after every so many rounds.
pub const WINTERVAL: usize = 100;

/// A search that may open `LIMIT` positions has no more hits than this: six
/// for each position opened, and one.
pub const MOST_HITS: usize = 6 * LIMIT + 1;

/// No game played from the initial position has more positions than this.
pub const LONGEST: usize = 2_233;

/// The generator of random numbers that `rand` keeps for each thread.
#[verifier::external_type_specification]
#[verifier::external_body]
pub struct ExThreadRng(rand::ThreadRng);

/// `rand::thread_rng`, which hands out the generator of the calling thread.
/// Nothing is claimed of it.
pub assume_specification[ rand::thread_rng ]() -> rand::ThreadRng;

/// `Rng::gen_range(0, n)` on the thread's generator, which needs `0 < n` and
/// returns a number from 0 up to but not including `n`. Which one is not
/// said. Believed, not proved.
#[verifier::external_body]
fn pick(rng: &mut rand::ThreadRng, n: usize) -> (r: usize)
    requires
        n > 0,
    ensures
        r < n,
{
    rng.gen_range(0, n)
}

/// A game played out in full turns: it begins at the initial position, each
/// position but the last is unfinished and is followed by one in which its
/// mover's turn can end, and the last is finished.
pub open spec fn is_playout(positions: Seq<Board>) -> bool {
    &&& positions.len() > 0
    &&& positions[0] == Board::initial()
    &&& forall|j: int|
        0 <= j < positions.len() - 1 ==> !(#[trigger] positions[j]).finished()
            && positions[j].successors().contains(positions[j + 1])
    &&& positions.last().finished()
}

/// Whether the knowledge is to be written out after the round numbered
/// `round`, counted from 0: after every `WINTERVAL`-th round.
pub fn persist_due(round: usize) -> (due: bool)
    ensures
        due == (round % WINTERVAL == WINTERVAL - 1),
{
    round % WINTERVAL == WINTERVAL - 1
}

/// Plays one game from the initial position, choosing at random among the
/// positions in which each turn can end, and returns the positions passed
/// through, the finished one last.
pub fn random_playout(rng: &mut rand::ThreadRng) -> (games: Vec<Game>)
    ensures
        is_playout(boards(games@)),
        games@.len() <= LONGEST,
        forall|j: int| 0 <= j < games@.len() ==> (#[trigger] games@[j])@.packable(),
{
    let mut games: Vec<Game> = Vec::new();
    let mut g: Game = Game::new();
    proof {
        lemma_initial();
    }
    loop
        invariant_except_break
            g@.packable(),
            g@.total() == 48,
            games@.len() + g@.rank() <= Board::initial().rank(),
            games@.len() == 0 ==> g@ == Board::initial(),
            games@.len() > 0 ==> boards(games@)[0] == Board::initial() && !boards(
                games@,
            ).last().finished()
                && boards(games@).last().successors().contains(g@),
            forall|j: int|
                0 <= j < games@.len() - 1 ==> !(#[trigger] boards(games@)[j]).finished() && boards(
                    games@,
                )[j].successors().contains(boards(games@)[j + 1]),
        invariant
            Board::initial().rank() == 2_232,
            forall|j: int| 0 <= j < games@.len() ==> (#[trigger] games@[j])@.packable(),
        ensures
            is_playout(boards(games@)),
            games@.len() <= LONGEST,
        decreases g@.rank(),
    {
        let ghost before = games@;
        games.push(g);
        proof {
            assert(boards(games@) =~= boards(before).push(g@));
            assert forall|j: int|
                0 <= j < games@.len() - 1 implies !(#[trigger] boards(games@)[j]).finished()
                && boards(games@)[j].successors().contains(boards(games@)[j + 1]) by {
                if j < before.len() - 1 {
                    assert(boards(games@)[j] == boards(before)[j]);
                    assert(boards(games@)[j + 1] == boards(before)[j + 1]);
                } else {
                    assert(boards(games@)[j] == boards(before).last());
                }
            }
        }
        let state = g.state();
        if state != State::InProgress {
            break ;
        }
        let possibilities = next(&g);
        proof {
            lemma_successors_exist(g@);
            lemma_successors(g@, 0);
        }
        let n: usize = possibilities.len();
        let at: usize = pick(rng, n);
        proof {
            assert(boards(possibilities@)[at as int] == possibilities@[at as int]@);
        }
        g = possibilities[at];
    }
    games
}

/// The initial position is well-formed, holds 48 seeds and has rank 2232.
pub proof fn lemma_initial()
    ensures
        Board::initial().packable(),
        Board::initial().total() == 48,
        Board::initial().rank() == 2_232,
{
    let b = Board::initial();
    assert(b.cells[0] == 4 && b.cells[1] == 4 && b.cells[2] == 4 && b.cells[3] == 4 && b.cells[4]
        == 4 && b.cells[5] == 4 && b.cells[6] == 0);
    assert(b.cells[7] == 4 && b.cells[8] == 4 && b.cells[9] == 4 && b.cells[10] == 4 && b.cells[11]
        == 4 && b.cells[12] == 4 && b.cells[13] == 0);
}

/// What the backward resolution has reached: the last fact established, the
/// cache of the searches so far, the hits so far, and whether it still goes on.
pub struct Resolution {
    pub fact: Option<(Board, State)>,
    pub cache: Map<u64, State>,
    pub hits: nat,
    pub open: bool,
}

/// The backward resolution after the last `n` of `positions` have been taken,
/// the last first. Each is searched with a budget of `LIMIT` and the cache
/// that the searches before left. A verdict other than `InProgress` makes the
/// position and the verdict the fact; the first `InProgress` ends the
/// resolution and leaves the fact as it was.
pub open spec fn resolution(positions: Seq<Board>, n: nat, wins: Set<u64>, draws: Set<u64>) -> Resolution
    decreases n,
{
    if n == 0 {
        Resolution { fact: None, cache: Map::empty(), hits: 0, open: true }
    } else {
        let r = resolution(positions, (n - 1) as nat, wins, draws);
        if !r.open {
            r
        } else {
            let b = positions[positions.len() - n];
            let s = search(b, r.cache, LIMIT as nat, wins, draws);
            Resolution {
                fact: if s.verdict == State::InProgress {
                    r.fact
                } else {
                    Some((b, s.verdict))
                },
                cache: s.cache,
                hits: r.hits + s.hits,
                open: s.verdict != State::InProgress,
            }
        }
    }
}

/// The fact that a position and a verdict state, if there is one.
pub open spec fn fact_of(knowledge: Option<(Game, State)>) -> Option<(Board, State)> {
    match knowledge {
        Some((g, v)) => Some((g@, v)),
        None => None,
    }
}

/// A resolution that has ended stays as it is.
pub proof fn lemma_resolution_ended(
    positions: Seq<Board>,
    n: nat,
    m: nat,
    wins: Set<u64>,
    draws: Set<u64>,
)
    requires
        n <= m,
        !resolution(positions, n, wins, draws).open,
    ensures
        resolution(positions, m, wins, draws) == resolution(positions, n, wins, draws),
    decreases m,
{
    if n < m {
        lemma_resolution_ended(positions, n, (m - 1) as nat, wins, draws);
    }
}

/// The resolution establishes only true facts. Where the knowledge is sound,
/// the fact it ends with, if any, is one of the positions with its value, and
/// the cache is sound.
pub proof fn lemma_resolution_sound(positions: Seq<Board>, n: nat, wins: Set<u64>, draws: Set<u64>)
    requires
        n <= positions.len(),
        forall|j: int| 0 <= j < positions.len() ==> (#[trigger] positions[j]).packable(),
        knowledge_sound(wins, draws),
    ensures
        cache_sound(resolution(positions, n, wins, draws).cache),
        resolution(positions, n, wins, draws).fact matches Some((b, v)) ==> b.packable() && v
            == b.value() && positions.contains(b),
    decreases n,
{
    if n > 0 {
        lemma_resolution_sound(positions, (n - 1) as nat, wins, draws);
        let r = resolution(positions, (n - 1) as nat, wins, draws);
        if r.open {
            let b = positions[positions.len() - n];
            lemma_search_sound(b, r.cache, LIMIT as nat, wins, draws);
        }
    }
}

/// Every position of a game played out from the initial position is
/// well-formed and holds 48 seeds.
pub proof fn lemma_playout_packable(p: Seq<Board>, j: int)
    requires
        is_playout(p),
        0 <= j < p.len(),
    ensures
        p[j].packable(),
        p[j].total() == 48,
    decreases j,
{
    lemma_initial();
    if j > 0 {
        lemma_playout_packable(p, j - 1);
        lemma_successors(p[j - 1], 0);
        let succ = p[j - 1].successors();
        let x = choose|x: int| 0 <= x < succ.len() && succ[x] == p[j];
        assert(succ[x].wf() && succ[x].total() == p[j - 1].total());
    }
}

/// A round keeps the knowledge true. Where the knowledge is sound, it is
/// still sound after the fact is merged into it that the resolution of a
/// played-out game ends with.
pub proof fn lemma_round_sound(p: Seq<Board>, wins: Set<u64>, draws: Set<u64>)
    requires
        is_playout(p),
        knowledge_sound(wins, draws),
    ensures
        resolution(p, p.len(), wins, draws).fact matches Some((b, v)) ==> knowledge_sound(
            learned_wins(wins, b, v),
            learned_draws(draws, b, v),
        ),
{
    assert forall|j: int| 0 <= j < p.len() implies (#[trigger] p[j]).packable() by {
        lemma_playout_packable(p, j);
    }
    lemma_resolution_sound(p, p.len(), wins, draws);
    match resolution(p, p.len(), wins, draws).fact {
        Some((b, v)) => {
            lemma_merge_sound(wins, draws, b, v);
        },
        None => {},
    }
}

/// Takes the positions of a game from the last to the first and searches each
/// with a budget of `LIMIT` and one cache for them all, until a search ends
/// with `InProgress` or no position is left. Returns the last position that
/// got a verdict, with that verdict, and the hits of all the searches.
pub fn resolve(games: Vec<Game>, known_wins: &HashSet<u64>, known_draws: &HashSet<u64>) -> (res: (
    Option<(Game, State)>,
    usize,
))
    requires
        forall|j: int| 0 <= j < games@.len() ==> (#[trigger] games@[j])@.packable(),
        games@.len() * MOST_HITS <= usize::MAX,
    ensures
        fact_of(res.0) == resolution(boards(games@), games@.len(), known_wins@, known_draws@).fact,
        res.1 == resolution(boards(games@), games@.len(), known_wins@, known_draws@).hits,
{
    let ghost all = boards(games@);
    let ghost total = games@.len();
    let mut games = games;
    let mut cache: HashMap<u64, State> = HashMap::with_capacity(LIMIT);
    let mut knowledge: Option<(Game, State)> = None;
    let mut khits: usize = 0;
    assert(MOST_HITS == 900_001);
    loop
        invariant_except_break
            khits <= (total - games@.len()) * 900_001,
            resolution(all, (total - games@.len()) as nat, known_wins@, known_draws@) == (Resolution {
                fact: fact_of(knowledge),
                cache: cache@,
                hits: khits as nat,
                open: true,
            }),
        invariant
            games@.len() <= total,
            all.len() == total,
            boards(games@) == all.subrange(0, games@.len() as int),
            forall|j: int| 0 <= j < games@.len() ==> (#[trigger] games@[j])@.packable(),
            total * 900_001 <= usize::MAX,
            LIMIT == 150_000,
        ensures
            fact_of(knowledge) == resolution(all, total, known_wins@, known_draws@).fact,
            khits == resolution(all, total, known_wins@, known_draws@).hits,
        decreases games@.len(),
    {
        let ghost before = games@;
        match games.pop() {
            Some(last) => {
                let ghost n = (total - before.len()) as nat;
                proof {
                    assert(last == before[before.len() - 1]);
                    assert(all[total - (n + 1)] == boards(before)[before.len() - 1]);
                    assert(boards(games@) =~= all.subrange(0, games@.len() as int));
                }
                let mut limit: usize = LIMIT;
                let outcome = find_outcome_dfs(
                    &last,
                    &mut cache,
                    &mut limit,
                    known_wins,
                    known_draws,
                    &mut khits,
                );
                if outcome == State::InProgress {
                    proof {
                        lemma_resolution_ended(all, n + 1, total as nat, known_wins@, known_draws@);
                    }
                    break ;
                }
                knowledge = Some((last, outcome));
            },
            None => {
                break ;
            },
        }
    }
    (knowledge, khits)
}

/// One round of learning: plays a game at random and resolves it backward.
/// Returns the fact that the resolution ended with, if any, and the hits of
/// its searches.
pub fn get_knowledge(known_wins: &HashSet<u64>, known_draws: &HashSet<u64>) -> (res: (
    Option<(Game, State)>,
    usize,
))
    ensures
        exists|p: Seq<Board>|
            is_playout(p) && fact_of(res.0) == resolution(p, p.len(), known_wins@, known_draws@).fact
                && res.1 == resolution(p, p.len(), known_wins@, known_draws@).hits,
{
    let mut rng = rand::thread_rng();
    let games = random_playout(&mut rng);
    let ghost p = boards(games@);
    assert(games@.len() * MOST_HITS <= usize::MAX) by {
        assert(MOST_HITS == 900_001);
        assert(LONGEST == 2_233);
        assert(games@.len() * 900_001 <= 2_233 * 900_001);
    }
    let res = resolve(games, known_wins, known_draws);
    proof {
        assert(is_playout(p) && fact_of(res.0) == resolution(
            p,
            p.len(),
            known_wins@,
            known_draws@,
        ).fact && res.1 == resolution(p, p.len(), known_wins@, known_draws@).hits);
    }
    res
}

/// The number of full turns in a game played at random.
pub fn random_game_len(rng: &mut rand::ThreadRng) -> (turns: usize)
    ensures
        exists|p: Seq<Board>| is_playout(p) && p.len() == turns + 1,
{
    let games = random_playout(rng);
    proof {
        assert(is_playout(boards(games@)) && boards(games@).len() == games@.len());
    }
    games.len() - 1
}

} // verus!
