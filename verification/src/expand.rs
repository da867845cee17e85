//! The expansion engine: every position that a full turn can lead to.

use crate::board::{lemma_can_play, Board, Game, State};
use crate::moves::{lemma_can_move, lemma_step_conserves, lemma_store_grows};
use crate::rank::lemma_step_decreases;
use crate::value::{lemma_lost, lemma_majority};
use vstd::prelude::*;

verus! {

impl Board {
    /// The positions in which the turns that begin with one of the pits `i`,
    /// `i + 1`, ..., 5 can end, in the order of the pits. A move that keeps the
    /// turn in an unfinished game is followed by every continuation of it; any
    /// other move ends the turn where it leads.
    pub open spec fn successors_from(self, i: int) -> Seq<Board>
        decreases self.rank(), 6 - i,
        when self.wf() && 0 <= i
        via Self::successors_decreases
    {
        if i >= 6 {
            Seq::empty()
        } else {
            (match self.step(i) {
                None => Seq::empty(),
                Some(c) => if c.turn == self.turn && !c.finished() {
                    c.successors_from(0)
                } else {
                    seq![c]
                },
            }) + self.successors_from(i + 1)
        }
    }

    #[via_fn]
    proof fn successors_decreases(self, i: int) {
        if i < 6 && self.step(i) is Some {
            lemma_step_decreases(self, i);
            lemma_step_conserves(self, i);
        }
    }

    /// The positions in which the mover's full turn can end.
    pub open spec fn successors(self) -> Seq<Board> {
        self.successors_from(0)
    }
}

/// A full turn loses no seed and lowers the rank: every position it can end
/// in is well-formed, holds the seeds of the position it began from, and is
/// of lower rank.
pub proof fn lemma_successors(b: Board, i: int)
    requires
        b.wf(),
        0 <= i <= 6,
    ensures
        forall|j: int|
            0 <= j < b.successors_from(i).len() ==> {
                let h = #[trigger] b.successors_from(i)[j];
                h.wf() && h.total() == b.total() && h.rank() < b.rank()
            },
    decreases b.rank(), 6 - i,
{
    if i < 6 {
        lemma_successors(b, i + 1);
        let tail = b.successors_from(i + 1);
        match b.step(i) {
            None => {
                assert(b.successors_from(i) =~= tail);
            },
            Some(c) => {
                lemma_step_decreases(b, i);
                lemma_step_conserves(b, i);
                if c.turn == b.turn && !c.finished() {
                    lemma_successors(c, 0);
                    assert(b.successors_from(i) == c.successors_from(0) + tail);
                } else {
                    assert(b.successors_from(i) == seq![c] + tail);
                }
            },
        }
    }
}

/// While the game goes on, the mover's turn can end somewhere.
pub proof fn lemma_successors_exist(b: Board)
    requires
        b.wf(),
        !b.finished(),
    ensures
        b.successors().len() > 0,
    decreases b.rank(),
{
    lemma_can_move(b);
    let s = choose|s: int| 0 <= s < 6 && #[trigger] b.step(s) is Some;
    lemma_successors_reach(b, s, 0);
}

/// The turns that begin with pit `s` are among those that begin with a pit
/// from `i` on, for `i <= s`.
proof fn lemma_successors_reach(b: Board, s: int, i: int)
    requires
        b.wf(),
        !b.finished(),
        0 <= i <= s < 6,
        b.step(s) is Some,
    ensures
        b.successors_from(i).len() > 0,
    decreases b.rank(), 6 - i,
{
    if i < s {
        lemma_successors_reach(b, s, i + 1);
        if b.step(i) is Some {
            lemma_step_decreases(b, i);
            lemma_step_conserves(b, i);
        }
    } else {
        let c = b.step(s).unwrap();
        lemma_step_decreases(b, s);
        lemma_step_conserves(b, s);
        if c.turn == b.turn && !c.finished() {
            lemma_successors_exist(c);
        }
    }
}

/// After a full turn from a position that is lost for its mover, the game is
/// over or stands at a position that its mover wins.
pub proof fn lemma_lost_successors(b: Board, i: int)
    requires
        b.wf(),
        0 <= i <= 6,
        b.value() == State::Win((1 - b.turn) as i8),
    ensures
        forall|j: int|
            0 <= j < b.successors_from(i).len() ==> {
                let h = #[trigger] b.successors_from(i)[j];
                !h.finished() ==> h.value() == State::Win(h.turn as i8)
            },
    decreases b.rank(), 6 - i,
{
    let t = b.turn;
    let o = 1 - t;
    if i < 6 {
        lemma_lost_successors(b, i + 1);
        let tail = b.successors_from(i + 1);
        match b.step(i) {
            None => {
                assert(b.successors_from(i) =~= tail);
            },
            Some(c) => {
                lemma_step_decreases(b, i);
                lemma_step_conserves(b, i);
                assert(c.value() == State::Win(o as i8)) by {
                    if b.finished() {
                        assert(b.pit(t, i) > 0) by {
                            assert(b.cells[t * 7 + i] >= 0);
                        }
                        lemma_can_play(b, o);
                        lemma_can_play(b, t);
                        lemma_store_grows(b, i, o);
                        lemma_majority(c, o);
                    } else {
                        lemma_lost(b, i);
                    }
                }
                if c.turn == b.turn && !c.finished() {
                    lemma_lost_successors(c, 0);
                    assert(b.successors_from(i) == c.successors_from(0) + tail);
                } else {
                    assert(b.successors_from(i) == seq![c] + tail);
                }
            },
        }
    }
}

/// The positions that a sequence of games stands for.
pub open spec fn boards(games: Seq<Game>) -> Seq<Board> {
    games.map_values(|g: Game| g@)
}

/// The turns that are still to be worked off: for each entry of the stack, a
/// position and the pit to try next in it, the positions that the turns from
/// that pit on can end in, the top entry first.
pub open spec fn pending(stack: Seq<(Game, usize)>) -> Seq<Board>
    decreases stack.len(),
{
    if stack.len() == 0 {
        Seq::empty()
    } else {
        stack.last().0@.successors_from(stack.last().1 as int) + pending(stack.drop_last())
    }
}

impl Board {
    /// The steps that it takes to work off the turns from pit `i` on: one for
    /// each pit and one to leave the position, and those of every position in
    /// which the turn is kept.
    pub open spec fn work_from(self, i: int) -> nat
        decreases self.rank(), 6 - i,
        when self.wf() && 0 <= i
        via Self::work_decreases
    {
        if i >= 6 {
            1
        } else {
            1 + (match self.step(i) {
                None => 0nat,
                Some(c) => if c.turn == self.turn && !c.finished() {
                    c.work_from(0)
                } else {
                    0nat
                },
            }) + self.work_from(i + 1)
        }
    }

    #[via_fn]
    proof fn work_decreases(self, i: int) {
        if i < 6 && self.step(i) is Some {
            lemma_step_decreases(self, i);
            lemma_step_conserves(self, i);
        }
    }
}

/// The steps that it takes to work off a stack.
pub open spec fn backlog(stack: Seq<(Game, usize)>) -> nat
    decreases stack.len(),
{
    if stack.len() == 0 {
        0
    } else {
        stack.last().0@.work_from(stack.last().1 as int) + backlog(stack.drop_last())
    }
}

/// Every position that the mover's full turn can end in: for each pit with
/// seeds the position after that move, or, where the move keeps the turn and
/// the game goes on, the positions that the turn can still lead to. The
/// positions in which a turn is kept wait on a stack, each with the pit to
/// try next, so that a long chain of kept turns takes no room but there.
pub fn next(g: &Game) -> (res: Vec<Game>)
    requires
        g.wf(),
    ensures
        boards(res@) == g@.successors(),
        forall|j: int| 0 <= j < res@.len() ==> (#[trigger] res@[j]).wf(),
{
    let mut res: Vec<Game> = Vec::new();
    let mut stack: Vec<(Game, usize)> = Vec::new();
    stack.push((*g, 0));
    proof {
        assert(boards(res@) =~= Seq::<Board>::empty());
        assert(stack@.drop_last() =~= Seq::<(Game, usize)>::empty());
        assert(pending(stack@.drop_last()) =~= Seq::<Board>::empty());
        assert(pending(stack@) =~= g@.successors());
    }
    while stack.len() > 0
        invariant
            boards(res@) + pending(stack@) == g@.successors(),
            forall|j: int| 0 <= j < res@.len() ==> (#[trigger] res@[j]).wf(),
            forall|k: int| 0 <= k < stack@.len() ==> (#[trigger] stack@[k]).0.wf() && stack@[k].1 <= 6,
        decreases backlog(stack@),
    {
        let ghost before = stack@;
        let ghost found = res@;
        let top = stack.pop();
        let (pos, i) = top.unwrap();
        let ghost below = stack@;
        proof {
            assert(before.last() == (pos, i));
            assert(before.drop_last() =~= below);
            assert(pending(before) == pos@.successors_from(i as int) + pending(below));
            assert(backlog(before) == pos@.work_from(i as int) + backlog(below));
        }
        if i < 6 {
            stack.push((pos, i + 1));
            let ghost waiting = stack@;
            proof {
                assert(waiting.drop_last() =~= below);
                assert(pending(waiting) == pos@.successors_from(i + 1) + pending(below));
                assert(backlog(waiting) == pos@.work_from(i + 1) + backlog(below));
            }
            match pos.step(i) {
                Some(cand) => {
                    proof {
                        lemma_step_decreases(pos@, i as int);
                        lemma_step_conserves(pos@, i as int);
                    }
                    if cand.t == pos.t && cand.state() == State::InProgress {
                        stack.push((cand, 0));
                        proof {
                            assert(stack@.drop_last() =~= waiting);
                            assert(pending(stack@) == cand@.successors_from(0) + pending(waiting));
                            assert(backlog(stack@) == cand@.work_from(0) + backlog(waiting));
                            assert(found.map_values(|x: Game| x@) + (cand@.successors_from(0) + (
                            pos@.successors_from(i + 1) + pending(below))) =~= found.map_values(
                                |x: Game| x@,
                            ) + ((cand@.successors_from(0) + pos@.successors_from(i + 1)) + pending(
                                below,
                            )));
                        }
                    } else {
                        res.push(cand);
                        proof {
                            assert(boards(res@) =~= boards(found) + seq![cand@]);
                            assert((boards(found) + seq![cand@]) + (pos@.successors_from(i + 1)
                                + pending(below)) =~= boards(found) + ((seq![cand@]
                                + pos@.successors_from(i + 1)) + pending(below)));
                        }
                    }
                },
                None => {
                    proof {
                        assert(Seq::<Board>::empty() + pos@.successors_from(i + 1)
                            =~= pos@.successors_from(i + 1));
                    }
                },
            }
        } else {
            proof {
                assert(pos@.successors_from(i as int) =~= Seq::<Board>::empty());
                assert(Seq::<Board>::empty() + pending(below) =~= pending(below));
            }
        }
    }
    proof {
        assert(pending(stack@) =~= Seq::<Board>::empty());
        assert(boards(res@) + Seq::<Board>::empty() =~= boards(res@));
    }
    res
}

} // verus!
