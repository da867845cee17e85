//! The outcome search: backward induction over the moves, bounded by a budget
//! of positions to open, remembered in a cache, and cut short by what is
//! already known.

use crate::board::{Board, Game, State};
use crate::codec::{lemma_key_fits, lemma_key_injective, pack};
use crate::moves::lemma_step_conserves;
use crate::rank::lemma_step_decreases;
use crate::value::{better, decided, lemma_best_decided, lemma_value_decided};
use std::collections::{HashMap, HashSet};
use vstd::prelude::*;

verus! {

/// What a search hands back: its verdict, the cache and the budget as it
/// leaves them, and how often it was answered by what was already known.
pub struct Search {
    pub verdict: State,
    pub cache: Map<u64, State>,
    pub budget: nat,
    pub hits: nat,
}

/// The search from position `b` with the given cache, budget and knowledge.
/// In this order: a finished game has its result; a cached position its
/// cached verdict; a known win is a win for the mover and a known draw a draw,
/// each counted as a hit; with no budget left the verdict is `InProgress`.
/// Otherwise one unit of budget is spent, the moves are searched in turn, and
/// their verdict is cached unless it is `InProgress`.
pub open spec fn search(
    b: Board,
    cache: Map<u64, State>,
    budget: nat,
    wins: Set<u64>,
    draws: Set<u64>,
) -> Search
    decreases b.rank(), 7int,
    when b.wf()
{
    let key = b.key() as u64;
    if b.finished() {
        Search { verdict: b.outcome(), cache, budget, hits: 0 }
    } else if cache.contains_key(key) {
        Search { verdict: cache[key], cache, budget, hits: 0 }
    } else if wins.contains(key) {
        Search { verdict: State::Win(b.turn as i8), cache, budget, hits: 1 }
    } else if draws.contains(key) {
        Search { verdict: State::Draw, cache, budget, hits: 1 }
    } else if budget == 0 {
        Search { verdict: State::InProgress, cache, budget, hits: 0 }
    } else {
        let r = search_from(
            b,
            0,
            State::Win((1 - b.turn) as i8),
            cache,
            (budget - 1) as nat,
            0,
            wins,
            draws,
        );
        if r.verdict == State::InProgress {
            r
        } else {
            Search {
                verdict: r.verdict,
                cache: r.cache.insert(key, r.verdict),
                budget: r.budget,
                hits: r.hits,
            }
        }
    }
}

/// The search of the moves from pit `i` on, where `best` is the best verdict
/// of the moves before and `hits` the hits so far. A move that cannot be
/// settled ends the search with `InProgress`; a move that wins for the mover
/// ends it with that win; a draw becomes the best so far; a win for the
/// opponent changes nothing.
pub open spec fn search_from(
    b: Board,
    i: int,
    best: State,
    cache: Map<u64, State>,
    budget: nat,
    hits: nat,
    wins: Set<u64>,
    draws: Set<u64>,
) -> Search
    decreases b.rank(), 6 - i,
    when b.wf() && 0 <= i
    via search_from_decreases
{
    if i >= 6 {
        Search { verdict: best, cache, budget, hits }
    } else {
        match b.step(i) {
            None => search_from(b, i + 1, best, cache, budget, hits, wins, draws),
            Some(n) => {
                let r = search(n, cache, budget, wins, draws);
                match r.verdict {
                    State::InProgress => Search {
                        verdict: State::InProgress,
                        cache: r.cache,
                        budget: r.budget,
                        hits: hits + r.hits,
                    },
                    State::Draw => search_from(
                        b,
                        i + 1,
                        State::Draw,
                        r.cache,
                        r.budget,
                        hits + r.hits,
                        wins,
                        draws,
                    ),
                    State::Win(p) => if p == b.turn {
                        Search {
                            verdict: r.verdict,
                            cache: r.cache,
                            budget: r.budget,
                            hits: hits + r.hits,
                        }
                    } else {
                        search_from(b, i + 1, best, r.cache, r.budget, hits + r.hits, wins, draws)
                    },
                }
            },
        }
    }
}

#[via_fn]
proof fn search_from_decreases(
    b: Board,
    i: int,
    best: State,
    cache: Map<u64, State>,
    budget: nat,
    hits: nat,
    wins: Set<u64>,
    draws: Set<u64>,
) {
    if i < 6 && b.step(i) is Some {
        lemma_step_decreases(b, i);
        lemma_step_conserves(b, i);
    }
}

/// Every verdict in the cache is the value of its position.
pub open spec fn cache_sound(cache: Map<u64, State>) -> bool {
    forall|b: Board|
        #![trigger b.key()]
        b.packable() && !b.finished() && cache.contains_key(b.key() as u64) ==> cache[b.key() as u64]
            == b.value()
}

/// The knowledge is true: a position whose key is among the known wins is won
/// by its mover with best play, and one whose key is among the known draws is
/// drawn. Finished games are not looked up and are not spoken of.
pub open spec fn knowledge_sound(wins: Set<u64>, draws: Set<u64>) -> bool {
    forall|b: Board|
        #![trigger b.key()]
        b.packable() && !b.finished() ==> (wins.contains(b.key() as u64) ==> b.value() == State::Win(
            b.turn as i8,
        )) && (draws.contains(b.key() as u64) ==> b.value() == State::Draw)
}

/// No verdict in the cache is `InProgress`.
pub open spec fn cache_settled(cache: Map<u64, State>) -> bool {
    forall|k: u64| cache.contains_key(k) ==> #[trigger] cache[k] != State::InProgress
}

impl Board {
    /// The positions that a search of this one opens when nothing cuts it
    /// short: none for a finished game, else this one and those under each of
    /// its moves.
    pub open spec fn size(self) -> nat
        decreases self.rank(), 7int,
        when self.wf()
    {
        if self.finished() {
            0
        } else {
            1 + self.size_from(0)
        }
    }

    /// The positions opened under the moves from pit `i` on.
    pub open spec fn size_from(self, i: int) -> nat
        decreases self.rank(), 6 - i,
        when self.wf() && 0 <= i
        via Self::size_from_decreases
    {
        if i >= 6 {
            0
        } else {
            (match self.step(i) {
                None => 0nat,
                Some(n) => n.size(),
            }) + self.size_from(i + 1)
        }
    }

    #[via_fn]
    proof fn size_from_decreases(self, i: int) {
        if i < 6 && self.step(i) is Some {
            lemma_step_decreases(self, i);
            lemma_step_conserves(self, i);
        }
    }
}

/// The search tells the truth. With a sound cache and sound knowledge its
/// verdict is the value of the position, unless it is `InProgress`; and it
/// leaves the cache sound.
pub proof fn lemma_search_sound(
    b: Board,
    cache: Map<u64, State>,
    budget: nat,
    wins: Set<u64>,
    draws: Set<u64>,
)
    requires
        b.packable(),
        cache_sound(cache),
        knowledge_sound(wins, draws),
    ensures
        search(b, cache, budget, wins, draws).verdict == State::InProgress || search(
            b,
            cache,
            budget,
            wins,
            draws,
        ).verdict == b.value(),
        cache_sound(search(b, cache, budget, wins, draws).cache),
    decreases b.rank(), 7int,
{
    let key = b.key() as u64;
    let t = b.turn;
    if b.finished() {
    } else if cache.contains_key(key) {
        assert(cache[b.key() as u64] == b.value());
    } else if wins.contains(key) {
        assert(wins.contains(b.key() as u64));
    } else if draws.contains(key) {
        assert(draws.contains(b.key() as u64));
    } else if budget == 0 {
    } else {
        let worst = State::Win((1 - t) as i8);
        let r = search_from(b, 0, worst, cache, (budget - 1) as nat, 0, wins, draws);
        lemma_search_from_sound(b, 0, worst, cache, (budget - 1) as nat, 0, wins, draws);
        lemma_best_decided(b, 0);
        if r.verdict != State::InProgress {
            assert(r.verdict == b.value());
            let after = r.cache.insert(key, r.verdict);
            lemma_key_fits(b);
            assert forall|c: Board|
                #![trigger c.key()]
                c.packable() && !c.finished() && after.contains_key(c.key() as u64) implies after[c.key()
                    as u64]
                == c.value() by {
                lemma_key_fits(c);
                if c.key() as u64 == key {
                    lemma_key_injective(c, b);
                } else {
                    assert(r.cache.contains_key(c.key() as u64));
                }
            }
        }
    }
}

/// The search of the moves from pit `i` on tells the truth: unless it ends
/// with `InProgress`, its verdict is the better, for the mover, of the best
/// so far and the best of those moves.
pub proof fn lemma_search_from_sound(
    b: Board,
    i: int,
    best: State,
    cache: Map<u64, State>,
    budget: nat,
    hits: nat,
    wins: Set<u64>,
    draws: Set<u64>,
)
    requires
        b.packable(),
        0 <= i <= 6,
        best == State::Draw || best == State::Win((1 - b.turn) as i8),
        cache_sound(cache),
        knowledge_sound(wins, draws),
    ensures
        search_from(b, i, best, cache, budget, hits, wins, draws).verdict == State::InProgress
            || search_from(b, i, best, cache, budget, hits, wins, draws).verdict == better(
            b.turn,
            best,
            b.best_from(i),
        ),
        cache_sound(search_from(b, i, best, cache, budget, hits, wins, draws).cache),
    decreases b.rank(), 6 - i,
{
    let t = b.turn;
    lemma_best_decided(b, i);
    if i < 6 {
        lemma_best_decided(b, i + 1);
        match b.step(i) {
            None => {
                lemma_search_from_sound(b, i + 1, best, cache, budget, hits, wins, draws);
            },
            Some(n) => {
                lemma_step_decreases(b, i);
                lemma_step_conserves(b, i);
                lemma_value_decided(n);
                lemma_search_sound(n, cache, budget, wins, draws);
                let r = search(n, cache, budget, wins, draws);
                match r.verdict {
                    State::InProgress => {},
                    State::Draw => {
                        lemma_search_from_sound(
                            b,
                            i + 1,
                            State::Draw,
                            r.cache,
                            r.budget,
                            hits + r.hits,
                            wins,
                            draws,
                        );
                    },
                    State::Win(p) => {
                        if p != t {
                            lemma_search_from_sound(
                                b,
                                i + 1,
                                best,
                                r.cache,
                                r.budget,
                                hits + r.hits,
                                wins,
                                draws,
                            );
                        }
                    },
                }
            },
        }
    }
}

/// The search ends. With a budget of at least the size of the position and no
/// `InProgress` in the cache, whatever is known, its verdict is not
/// `InProgress`: it is a win or a draw. It opens no more positions than the
/// size, and leaves no `InProgress` in the cache.
pub proof fn lemma_search_total(
    b: Board,
    cache: Map<u64, State>,
    budget: nat,
    wins: Set<u64>,
    draws: Set<u64>,
)
    requires
        b.packable(),
        cache_settled(cache),
        budget >= b.size(),
    ensures
        search(b, cache, budget, wins, draws).verdict != State::InProgress,
        search(b, cache, budget, wins, draws).budget <= budget,
        budget - search(b, cache, budget, wins, draws).budget <= b.size(),
        cache_settled(search(b, cache, budget, wins, draws).cache),
    decreases b.rank(), 7int,
{
    let key = b.key() as u64;
    if b.finished() {
    } else if cache.contains_key(key) {
    } else if wins.contains(key) {
    } else if draws.contains(key) {
    } else {
        let worst = State::Win((1 - b.turn) as i8);
        lemma_search_from_total(b, 0, worst, cache, (budget - 1) as nat, 0, wins, draws);
    }
}

/// The search of the moves from pit `i` on ends, under the same conditions.
pub proof fn lemma_search_from_total(
    b: Board,
    i: int,
    best: State,
    cache: Map<u64, State>,
    budget: nat,
    hits: nat,
    wins: Set<u64>,
    draws: Set<u64>,
)
    requires
        b.packable(),
        0 <= i <= 6,
        best != State::InProgress,
        cache_settled(cache),
        budget >= b.size_from(i),
    ensures
        search_from(b, i, best, cache, budget, hits, wins, draws).verdict != State::InProgress,
        search_from(b, i, best, cache, budget, hits, wins, draws).budget <= budget,
        budget - search_from(b, i, best, cache, budget, hits, wins, draws).budget <= b.size_from(i),
        cache_settled(search_from(b, i, best, cache, budget, hits, wins, draws).cache),
    decreases b.rank(), 6 - i,
{
    if i < 6 {
        match b.step(i) {
            None => {
                lemma_search_from_total(b, i + 1, best, cache, budget, hits, wins, draws);
            },
            Some(n) => {
                lemma_step_decreases(b, i);
                lemma_step_conserves(b, i);
                lemma_search_total(n, cache, budget, wins, draws);
                let r = search(n, cache, budget, wins, draws);
                match r.verdict {
                    State::InProgress => {},
                    State::Draw => {
                        lemma_search_from_total(
                            b,
                            i + 1,
                            State::Draw,
                            r.cache,
                            r.budget,
                            hits + r.hits,
                            wins,
                            draws,
                        );
                    },
                    State::Win(p) => {
                        if p != b.turn {
                            lemma_search_from_total(
                                b,
                                i + 1,
                                best,
                                r.cache,
                                r.budget,
                                hits + r.hits,
                                wins,
                                draws,
                            );
                        }
                    },
                }
            },
        }
    }
}

/// A search that nothing cuts short finds the value: from an empty cache, with
/// nothing known and a budget of at least the size of the position, the
/// verdict is the result of best play.
pub proof fn lemma_search_exact(b: Board, budget: nat)
    requires
        b.packable(),
        budget >= b.size(),
    ensures
        search(b, Map::empty(), budget, Set::empty(), Set::empty()).verdict == b.value(),
        decided(b.value()),
{
    lemma_search_sound(b, Map::empty(), budget, Set::empty(), Set::empty());
    lemma_search_total(b, Map::empty(), budget, Set::empty(), Set::empty());
    lemma_value_decided(b);
}

/// What is known can be checked. Where the knowledge is sound, a search of a
/// known win that nothing cuts short, with an empty cache and nothing known,
/// ends with a win for the mover; of a known draw, with a draw.
pub proof fn lemma_known_is_found(wins: Set<u64>, draws: Set<u64>, b: Board, budget: nat)
    requires
        knowledge_sound(wins, draws),
        b.packable(),
        !b.finished(),
        budget >= b.size(),
    ensures
        wins.contains(b.key() as u64) ==> search(
            b,
            Map::empty(),
            budget,
            Set::empty(),
            Set::empty(),
        ).verdict == State::Win(b.turn as i8),
        draws.contains(b.key() as u64) ==> search(
            b,
            Map::empty(),
            budget,
            Set::empty(),
            Set::empty(),
        ).verdict == State::Draw,
{
    lemma_search_exact(b, budget);
    assert(wins.contains(b.key() as u64) ==> b.value() == State::Win(b.turn as i8));
}

/// The verdict on `g`, searched with at most `*limit` positions opened.
/// `cache` holds the verdicts found on the way, under the keys of their
/// positions, `*limit` is lowered by the positions opened, and `*khits` is
/// raised by the answers taken from `known_wins` and `known_draws`. An
/// `InProgress` verdict on an unfinished game says that the budget ran out.
/// The hits need room in `*khits`: there are at most six for each position
/// opened, and one.
pub fn find_outcome_dfs(
    g: &Game,
    cache: &mut HashMap<u64, State>,
    limit: &mut usize,
    known_wins: &HashSet<u64>,
    known_draws: &HashSet<u64>,
    khits: &mut usize,
) -> (res: State)
    requires
        g@.packable(),
        *old(khits) + 6 * *old(limit) + 1 <= usize::MAX,
    ensures
        res == search(g@, old(cache)@, *old(limit) as nat, known_wins@, known_draws@).verdict,
        final(cache)@ == search(g@, old(cache)@, *old(limit) as nat, known_wins@, known_draws@).cache,
        *final(limit) == search(g@, old(cache)@, *old(limit) as nat, known_wins@, known_draws@).budget,
        *final(khits) == *old(khits) + search(
            g@,
            old(cache)@,
            *old(limit) as nat,
            known_wins@,
            known_draws@,
        ).hits,
        *final(limit) <= *old(limit),
        *final(khits) - *old(khits) <= 6 * (*old(limit) - *final(limit)) + 1,
    decreases g@.rank(),
{
    let ghost b = g@;
    let ghost cache0 = cache@;
    let ghost limit0 = *limit as nat;
    let ghost khits0 = *khits as nat;
    let gstate = g.state();
    if gstate != State::InProgress {
        return gstate;
    }
    proof {
        lemma_key_fits(b);
    }
    let g_packed: u64 = pack(g);
    match cache.get(&g_packed) {
        Some(ans) => {
            return *ans;
        },
        None => {},
    }
    if known_wins.contains(&g_packed) {
        *khits += 1;
        return State::Win(g.t);
    }
    if known_draws.contains(&g_packed) {
        *khits += 1;
        return State::Draw;
    }
    if *limit == 0 {
        return State::InProgress;
    }
    *limit -= 1;

    let player: i8 = g.t;
    let mut best = State::Win(1 - player);
    let ghost target = search_from(
        b,
        0,
        best,
        cache0,
        (limit0 - 1) as nat,
        0,
        known_wins@,
        known_draws@,
    );
    let mut i: usize = 0;
    while i < 6
        invariant_except_break
            search_from(
                b,
                i as int,
                best,
                cache@,
                *limit as nat,
                (*khits - khits0) as nat,
                known_wins@,
                known_draws@,
            ) == target,
            *khits + 6 * *limit + (6 - i) <= khits0 + 6 * limit0,
        invariant
            b == g@,
            b.packable(),
            !b.finished(),
            player == g.t,
            i <= 6,
            khits0 <= *khits,
            *limit < limit0,
            khits0 + 6 * limit0 + 1 <= usize::MAX,
            best != State::InProgress,
            cache0 == old(cache)@,
            limit0 == *old(limit),
            khits0 == *old(khits),
            target.verdict == State::InProgress ==> search(
                b,
                cache0,
                limit0,
                known_wins@,
                known_draws@,
            ) == target,
        ensures
            (Search {
                verdict: best,
                cache: cache@,
                budget: *limit as nat,
                hits: (*khits - khits0) as nat,
            }) == target,
            best != State::InProgress,
            *khits + 6 * *limit <= khits0 + 6 * limit0,
        decreases 6 - i,
    {
        match g.step(i) {
            Some(ng) => {
                proof {
                    lemma_step_decreases(b, i as int);
                    lemma_step_conserves(b, i as int);
                }
                let outcome = find_outcome_dfs(&ng, cache, limit, known_wins, known_draws, khits);
                match outcome {
                    State::InProgress => {
                        return State::InProgress;
                    },
                    State::Draw => {
                        if best != State::Draw {
                            best = State::Draw;
                        }
                    },
                    State::Win(p) => {
                        if p == player {
                            best = outcome;
                            break ;
                        }
                    },
                }
            },
            None => {},
        }
        i += 1;
    }
    cache.insert(g_packed, best);
    best
}

} // verus!
