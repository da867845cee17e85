//! The value of a position: the result of the game when both sides play as
//! well as can be played.

use crate::board::{Board, State};
use crate::moves::{lemma_can_move, lemma_step_conserves, lemma_store_grows};
use crate::rank::lemma_step_decreases;
use vstd::prelude::*;

verus! {

/// What a verdict is worth to `side`: its own win more than a draw, a draw
/// more than anything else.
pub open spec fn worth(side: int, v: State) -> int {
    match v {
        State::Win(p) => if p == side {
            2
        } else {
            0
        },
        State::Draw => 1,
        State::InProgress => 0,
    }
}

/// The one of two verdicts that is worth more to `side`; the second where
/// they are worth the same.
pub open spec fn better(side: int, a: State, b: State) -> State {
    if worth(side, a) > worth(side, b) {
        a
    } else {
        b
    }
}

/// A verdict that names the result of a game: a draw, or a win for side 0 or
/// side 1.
pub open spec fn decided(v: State) -> bool {
    v == State::Draw || v == State::Win(0) || v == State::Win(1)
}

impl Board {
    /// The result of best play by both sides. A finished game has the result
    /// on the board; otherwise the mover takes the best of what its moves lead
    /// to.
    pub open spec fn value(self) -> State
        decreases self.rank(), 7int,
        when self.wf()
    {
        if self.finished() {
            self.outcome()
        } else {
            self.best_from(0)
        }
    }

    /// The best for the mover of what the moves from pit `i` on lead to: a win
    /// for the mover if one of them leads to one, else a draw if one of them
    /// leads to one, else a win for the opponent.
    pub open spec fn best_from(self, i: int) -> State
        decreases self.rank(), 6 - i,
        when self.wf() && 0 <= i
        via Self::best_from_decreases
    {
        if i >= 6 {
            State::Win((1 - self.turn) as i8)
        } else {
            match self.step(i) {
                None => self.best_from(i + 1),
                Some(n) => better(self.turn, n.value(), self.best_from(i + 1)),
            }
        }
    }

    #[via_fn]
    proof fn best_from_decreases(self, i: int) {
        if i < 6 && self.step(i) is Some {
            lemma_step_decreases(self, i);
            lemma_step_conserves(self, i);
        }
    }
}

/// Best play ends in a draw or in a win for one of the two sides.
pub proof fn lemma_value_decided(b: Board)
    requires
        b.wf(),
    ensures
        decided(b.value()),
    decreases b.rank(), 7int,
{
    if !b.finished() {
        lemma_best_decided(b, 0);
    }
}

/// The best of the moves from pit `i` on is a draw or a win for a side.
pub proof fn lemma_best_decided(b: Board, i: int)
    requires
        b.wf(),
        0 <= i,
    ensures
        decided(b.best_from(i)),
    decreases b.rank(), 6 - i,
{
    if i < 6 {
        lemma_best_decided(b, i + 1);
        if b.step(i) is Some {
            lemma_step_decreases(b, i);
            lemma_step_conserves(b, i);
            lemma_value_decided(b.step(i).unwrap());
        }
    }
}

/// A decided verdict is known by what it is worth to a side.
pub proof fn lemma_worth(side: int, v: State)
    requires
        side == 0 || side == 1,
        decided(v),
    ensures
        worth(side, v) == 2 <==> v == State::Win(side as i8),
        worth(side, v) == 1 <==> v == State::Draw,
        worth(side, v) == 0 <==> v == State::Win((1 - side) as i8),
        0 <= worth(side, v) <= 2,
{
}

/// The best of the moves from pit `i` on is worth to the mover no less than
/// what any of them leads to, and no more than the best of them.
pub proof fn lemma_best_is_max(b: Board, i: int)
    requires
        b.wf(),
        0 <= i <= 6,
    ensures
        forall|k: int|
            i <= k < 6 && (#[trigger] b.step(k)) is Some ==> worth(b.turn, b.step(k).unwrap().value())
                <= worth(b.turn, b.best_from(i)),
        worth(b.turn, b.best_from(i)) == 0 || exists|k: int|
            i <= k < 6 && (#[trigger] b.step(k)) is Some && b.step(k).unwrap().value() == b.best_from(
                i,
            ),
    decreases 6 - i,
{
    if i < 6 {
        lemma_best_is_max(b, i + 1);
        let rest = b.best_from(i + 1);
        match b.step(i) {
            None => {
                assert(b.best_from(i) == rest);
            },
            Some(n) => {
                lemma_step_conserves(b, i);
                lemma_step_decreases(b, i);
                assert(b.step(i) == Some(n));
                assert(b.best_from(i) == better(b.turn, n.value(), rest));
                if worth(b.turn, n.value()) > worth(b.turn, rest) {
                    assert(b.step(i) is Some && b.step(i).unwrap().value() == b.best_from(i));
                }
            },
        }
        if worth(b.turn, b.best_from(i)) != 0 {
            if b.best_from(i) == rest {
                let k = choose|k: int|
                    i + 1 <= k < 6 && (#[trigger] b.step(k)) is Some && b.step(k).unwrap().value()
                        == rest;
                assert(i <= k < 6 && b.step(k) is Some && b.step(k).unwrap().value() == b.best_from(
                    i,
                ));
            }
        }
    }
}

/// A side with more than half of the seeds in its store has won, however the
/// game goes on.
pub proof fn lemma_majority(b: Board, p: int)
    requires
        b.wf(),
        p == 0 || p == 1,
        2 * b.store(p) > b.total(),
    ensures
        b.value() == State::Win(p as i8),
    decreases b.rank(),
{
    let t = b.turn;
    assert(b.in_pits(0) >= 0 && b.in_pits(1) >= 0 && b.store(0) >= 0 && b.store(1) >= 0) by {
        assert(b.cells[0] >= 0 && b.cells[1] >= 0 && b.cells[2] >= 0 && b.cells[3] >= 0
            && b.cells[4] >= 0 && b.cells[5] >= 0 && b.cells[6] >= 0);
        assert(b.cells[7] >= 0 && b.cells[8] >= 0 && b.cells[9] >= 0 && b.cells[10] >= 0
            && b.cells[11] >= 0 && b.cells[12] >= 0 && b.cells[13] >= 0);
    }
    if b.finished() {
    } else {
        lemma_best_is_max(b, 0);
        lemma_best_decided(b, 0);
        lemma_worth(t, b.best_from(0));
        assert forall|k: int| 0 <= k < 6 && (#[trigger] b.step(k)) is Some implies b.step(
            k,
        ).unwrap().value() == State::Win(p as i8) by {
            lemma_step_decreases(b, k);
            lemma_step_conserves(b, k);
            lemma_store_grows(b, k, p);
            lemma_majority(b.step(k).unwrap(), p);
        }
        if t == p {
            lemma_can_move(b);
            let s = choose|s: int| 0 <= s < 6 && #[trigger] b.step(s) is Some;
            assert(worth(t, b.step(s).unwrap().value()) == 2);
        }
    }
}

/// In a position that is lost for the mover every move leads to a position
/// that is lost for it.
pub proof fn lemma_lost(b: Board, s: int)
    requires
        b.wf(),
        !b.finished(),
        b.value() == State::Win((1 - b.turn) as i8),
        0 <= s < 6,
        b.step(s) is Some,
    ensures
        b.step(s).unwrap().value() == State::Win((1 - b.turn) as i8),
{
    lemma_best_is_max(b, 0);
    lemma_step_conserves(b, s);
    lemma_value_decided(b.step(s).unwrap());
    lemma_worth(b.turn, b.step(s).unwrap().value());
}

} // verus!
