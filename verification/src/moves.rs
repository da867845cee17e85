//! The move engine: sowing the seeds of one pit, with the extra turn and the
//! capture.

use crate::board::{lemma_cells, lemma_holds_at_most, lemma_rows, lemma_two_cells, Board, Game};
use crate::sowing::{lemma_next_seed, lemma_shares_sum, lemma_short_sow, share};
use vstd::prelude::*;

verus! {

impl Board {
    /// Seeds that cell `i` of `side` receives when the mover sows `k` seeds
    /// from its pit `s`. The opponent's store is passed over.
    pub open spec fn gain(self, s: int, k: int, side: int, i: int) -> int {
        if side == self.turn {
            share(s, k, i)
        } else if i < 6 {
            share(s, k, 7 + i)
        } else {
            0
        }
    }

    /// The cells after the first `k` seeds of pit `s` have been sown, the pit
    /// itself counted as emptied.
    pub open spec fn sown_with(self, s: int, k: int) -> Board {
        Board {
            cells: Seq::new(
                14,
                |x: int|
                    (if x == self.turn * 7 + s {
                        0
                    } else {
                        self.cells[x]
                    }) + self.gain(s, k, x / 7, x % 7),
            ),
            turn: self.turn,
        }
    }

    /// The cells after all seeds of pit `s` have been sown, before the capture
    /// and the change of turn.
    pub open spec fn sown(self, s: int) -> Board {
        self.sown_with(s, self.pit(self.turn, s))
    }

    /// The ring cell in which the last seed of pit `s` lands.
    pub open spec fn landing(self, s: int) -> int {
        (s + self.pit(self.turn, s)) % 13
    }

    /// The last seed of pit `s` lands in one of the mover's own pits and is
    /// alone there.
    pub open spec fn captures(self, s: int) -> bool {
        self.landing(s) < 6 && self.sown(s).pit(self.turn, self.landing(s)) == 1
    }

    /// The mover takes what lies opposite its pit `l`: that pit of the opponent
    /// is emptied into the mover's store, and the turn passes.
    pub open spec fn captured(self, l: int) -> Board {
        let t = self.turn;
        Board {
            cells: self.cells.update(t * 7 + 6, self.store(t) + self.pit(1 - t, 5 - l)).update(
                (1 - t) * 7 + 5 - l,
                0,
            ),
            turn: 1 - t,
        }
    }

    /// The same cells with the other side to move.
    pub open spec fn passed(self) -> Board {
        Board { cells: self.cells, turn: 1 - self.turn }
    }

    /// The position after the mover plays pit `s`, or `None` where that pit is
    /// empty. The seeds are sown round the ring. A last seed in the mover's
    /// store keeps the turn. Otherwise the turn passes, and where the last seed
    /// lies alone in a pit of the mover, the opposite pit is emptied into the
    /// mover's store.
    pub open spec fn step(self, s: int) -> Option<Board> {
        if self.pit(self.turn, s) == 0 {
            None
        } else if self.landing(s) == 6 {
            Some(self.sown(s))
        } else if self.captures(s) {
            Some(self.sown(s).captured(self.landing(s)))
        } else {
            Some(self.sown(s).passed())
        }
    }

    /// The position after the pits in `moves` are played one after another
    /// from this one, each by the side whose turn it then is. `None` where one
    /// of them names no pit or an empty one.
    pub open spec fn after(self, moves: Seq<int>) -> Option<Board>
        decreases moves.len(),
    {
        if moves.len() == 0 {
            Some(self)
        } else if !(0 <= moves[0] < 6) {
            None
        } else {
            match self.step(moves[0]) {
                None => None,
                Some(n) => n.after(moves.drop_first()),
            }
        }
    }
}

/// The cells after sowing `k` seeds from pit `s`, one by one: what was there,
/// but for the emptied pit, and what the sowing adds.
pub proof fn lemma_sown_cells(b: Board, s: int, k: int)
    requires
        b.wf(),
        0 <= s < 6,
        0 <= k,
    ensures
        b.sown_with(s, k).cells.len() == 14,
        b.sown_with(s, k).turn == b.turn,
        forall|side: int, i: int|
            0 <= side < 2 && 0 <= i < 7 ==> #[trigger] b.sown_with(s, k).pit(side, i) == (if side
                == b.turn && i == s {
                0
            } else {
                b.pit(side, i)
            }) + b.gain(s, k, side, i),
        forall|side: int, i: int|
            0 <= side < 2 && 0 <= i < 7 ==> 0 <= #[trigger] b.gain(s, k, side, i) <= k,
        forall|side: int, i: int| 0 <= side < 2 && 0 <= i < 7 ==> #[trigger] b.pit(side, i) >= 0,
{
    lemma_shares_sum(s, k);
    assert forall|side: int, i: int| 0 <= side < 2 && 0 <= i < 7 implies #[trigger] b.sown_with(
        s,
        k,
    ).pit(side, i) == (if side == b.turn && i == s {
        0
    } else {
        b.pit(side, i)
    }) + b.gain(s, k, side, i) by {
        let x = side * 7 + i;
        assert(x / 7 == side && x % 7 == i);
    }
    assert forall|side: int, i: int| 0 <= side < 2 && 0 <= i < 7 implies 0 <= #[trigger] b.gain(
        s,
        k,
        side,
        i,
    ) <= k by {
        if side == b.turn {
            assert(0 <= share(s, k, i) <= k);
        } else if i < 6 {
            assert(0 <= share(s, k, 7 + i) <= k);
        }
    }
    assert forall|side: int, i: int| 0 <= side < 2 && 0 <= i < 7 implies #[trigger] b.pit(side, i)
        >= 0 by {
        assert(b.cells[side * 7 + i] >= 0);
    }
}

/// Sowing `k` seeds from pit `s` leaves on the board what was there outside
/// that pit, and `k` more.
pub proof fn lemma_sown_total(b: Board, s: int, k: int)
    requires
        b.wf(),
        0 <= s < 6,
        0 <= k,
    ensures
        b.sown_with(s, k).total() == b.total() - b.pit(b.turn, s) + k,
        forall|x: int| 0 <= x < 14 ==> #[trigger] b.sown_with(s, k).cells[x] >= 0,
{
    lemma_shares_sum(s, k);
    lemma_sown_cells(b, s, k);
    let m = b.sown_with(s, k);
    let t = b.turn;
    let o = 1 - t;
    assert(m.pit(t, 0) + m.pit(t, 1) + m.pit(t, 2) + m.pit(t, 3) + m.pit(t, 4) + m.pit(t, 5)
        + m.pit(t, 6) == b.holding(t) - b.pit(t, s) + share(s, k, 0) + share(s, k, 1) + share(
        s,
        k,
        2,
    ) + share(s, k, 3) + share(s, k, 4) + share(s, k, 5) + share(s, k, 6));
    assert(m.pit(o, 0) + m.pit(o, 1) + m.pit(o, 2) + m.pit(o, 3) + m.pit(o, 4) + m.pit(o, 5)
        + m.pit(o, 6) == b.holding(o) + share(s, k, 7) + share(s, k, 8) + share(s, k, 9) + share(
        s,
        k,
        10,
    ) + share(s, k, 11) + share(s, k, 12));
    assert forall|x: int| 0 <= x < 14 implies #[trigger] m.cells[x] >= 0 by {
        let side = x / 7;
        let i = x % 7;
        assert(x == side * 7 + i);
        assert(m.pit(side, i) >= 0);
    }
}

/// A capture moves seeds from a pit to a store and loses none.
pub proof fn lemma_captured(m: Board, l: int)
    requires
        m.cells.len() == 14,
        forall|x: int| 0 <= x < 14 ==> #[trigger] m.cells[x] >= 0,
        m.turn == 0 || m.turn == 1,
        0 <= l < 6,
    ensures
        m.captured(l).cells.len() == 14,
        forall|x: int| 0 <= x < 14 ==> #[trigger] m.captured(l).cells[x] >= 0,
        m.captured(l).total() == m.total(),
        m.captured(l).store(m.turn) == m.store(m.turn) + m.pit(1 - m.turn, 5 - l),
        m.captured(l).store(1 - m.turn) == m.store(1 - m.turn),
        m.captured(l).in_play() == m.in_play() - m.pit(1 - m.turn, 5 - l),
        m.pit(1 - m.turn, 5 - l) >= 0,
        forall|i: int| 0 <= i < 6 ==> #[trigger] m.captured(l).pit(m.turn, i) == m.pit(m.turn, i),
        forall|i: int|
            0 <= i < 6 ==> #[trigger] m.captured(l).pit(1 - m.turn, i) == (if i == 5 - l {
                0
            } else {
                m.pit(1 - m.turn, i)
            }),
{
    let n = m.captured(l);
    let t = m.turn;
    assert(m.cells[t * 7 + 6] >= 0);
    assert(m.cells[(1 - t) * 7 + 5 - l] >= 0);
    assert forall|x: int| 0 <= x < 14 implies #[trigger] n.cells[x] >= 0 by {
        assert(m.cells[x] >= 0);
    }
    if t == 0 {
        assert(n.holding(0) == m.holding(0) + m.pit(1, 5 - l));
        assert(n.holding(1) == m.holding(1) - m.pit(1, 5 - l));
    } else {
        assert(n.holding(1) == m.holding(1) + m.pit(0, 5 - l));
        assert(n.holding(0) == m.holding(0) - m.pit(0, 5 - l));
    }
}

/// A move keeps every seed on the board, and the position well-formed.
pub proof fn lemma_step_conserves(b: Board, s: int)
    requires
        b.wf(),
        0 <= s < 6,
        b.step(s) is Some,
    ensures
        b.step(s).unwrap().wf(),
        b.step(s).unwrap().total() == b.total(),
{
    let k = b.pit(b.turn, s);
    lemma_sown_total(b, s, k);
    let m = b.sown(s);
    let l = b.landing(s);
    assert(m.turn == b.turn);
    assert(m.cells.len() == 14);
    if l == 6 {
    } else if b.captures(s) {
        lemma_captured(m, l);
    } else {
        assert(m.passed().total() == m.total());
    }
}

/// However long the play, no seed is lost or gained: every position that a
/// sequence of moves leads to holds the seeds of the position it began from.
pub proof fn lemma_play_conserves(b: Board, moves: Seq<int>)
    requires
        b.wf(),
        b.after(moves) is Some,
    ensures
        b.after(moves).unwrap().wf(),
        b.after(moves).unwrap().total() == b.total(),
    decreases moves.len(),
{
    if moves.len() > 0 {
        lemma_step_conserves(b, moves[0]);
        lemma_play_conserves(b.step(moves[0]).unwrap(), moves.drop_first());
    }
}

/// Every position that can be reached from the initial one holds 48 seeds.
pub proof fn lemma_reachable_total(moves: Seq<int>)
    requires
        Board::initial().after(moves) is Some,
    ensures
        Board::initial().after(moves).unwrap().wf(),
        Board::initial().after(moves).unwrap().total() == 48,
{
    let b = Board::initial();
    assert(b.wf() && b.total() == 48) by {
        assert(b.cells[0] == 4 && b.cells[1] == 4 && b.cells[2] == 4 && b.cells[3] == 4
            && b.cells[4] == 4 && b.cells[5] == 4 && b.cells[6] == 0);
        assert(b.cells[7] == 4 && b.cells[8] == 4 && b.cells[9] == 4 && b.cells[10] == 4
            && b.cells[11] == 4 && b.cells[12] == 4 && b.cells[13] == 0);
    }
    lemma_play_conserves(b, moves);
}

/// The mover keeps the turn exactly when its last seed falls into its own
/// store.
pub proof fn lemma_extra_turn(b: Board, s: int)
    requires
        b.wf(),
        0 <= s < 6,
        b.step(s) is Some,
    ensures
        b.landing(s) == 6 <==> b.step(s).unwrap().turn == b.turn,
        b.landing(s) == 6 ==> b.step(s).unwrap().store(b.turn) > b.store(b.turn),
{
    let k = b.pit(b.turn, s);
    lemma_sown_cells(b, s, k);
    if b.landing(s) == 6 {
        assert(b.gain(s, k, b.turn, 6) >= 1) by {
            reveal(share);
        }
    }
}

/// A capture. Where fewer than thirteen seeds are sown and the last falls into
/// a pit of the mover that was empty before the move, the turn passes, the
/// seed stays alone in that pit, the opponent's pit opposite is empty
/// afterwards, and the mover's store has gained what lay there after the
/// sowing. Where the sowing went round by the opponent's side, both the store
/// and the opposite pit had a seed from it.
pub proof fn lemma_capture(b: Board, s: int)
    requires
        b.wf(),
        0 <= s < 6,
        1 <= b.pit(b.turn, s) < 13,
        b.landing(s) < 6,
        b.pit(b.turn, b.landing(s)) == 0,
    ensures
        b.captures(s),
        b.step(s) == Some(b.sown(s).captured(b.landing(s))),
        b.step(s).unwrap().turn == 1 - b.turn,
        b.step(s).unwrap().pit(b.turn, b.landing(s)) == 1,
        b.step(s).unwrap().pit(1 - b.turn, 5 - b.landing(s)) == 0,
        b.step(s).unwrap().store(b.turn) == b.sown(s).store(b.turn) + b.sown(s).pit(
            1 - b.turn,
            5 - b.landing(s),
        ),
        b.landing(s) > s ==> b.step(s).unwrap().store(b.turn) == b.store(b.turn) + b.pit(
            1 - b.turn,
            5 - b.landing(s),
        ),
        b.landing(s) < s ==> b.step(s).unwrap().store(b.turn) == b.store(b.turn) + 1 + b.pit(
            1 - b.turn,
            5 - b.landing(s),
        ) + 1,
{
    let k = b.pit(b.turn, s);
    let t = b.turn;
    let o = 1 - t;
    let l = b.landing(s);
    let m = b.sown(s);
    lemma_sown_total(b, s, k);
    lemma_landed(b, s);
    lemma_captured(m, l);
}

/// What a sowing of fewer than thirteen seeds that ends in a pit of the mover
/// leaves in that pit, in the mover's store and in the pit opposite.
proof fn lemma_landed(b: Board, s: int)
    requires
        b.wf(),
        0 <= s < 6,
        1 <= b.pit(b.turn, s) < 13,
        b.landing(s) < 6,
    ensures
        b.landing(s) != s,
        b.sown(s).pit(b.turn, b.landing(s)) == b.pit(b.turn, b.landing(s)) + 1,
        b.landing(s) > s ==> b.sown(s).store(b.turn) == b.store(b.turn) && b.sown(s).pit(
            1 - b.turn,
            5 - b.landing(s),
        ) == b.pit(1 - b.turn, 5 - b.landing(s)),
        b.landing(s) < s ==> b.sown(s).store(b.turn) == b.store(b.turn) + 1 && b.sown(s).pit(
            1 - b.turn,
            5 - b.landing(s),
        ) == b.pit(1 - b.turn, 5 - b.landing(s)) + 1,
{
    let k = b.pit(b.turn, s);
    let t = b.turn;
    let o = 1 - t;
    let l = b.landing(s);
    let m = b.sown(s);
    lemma_sown_cells(b, s, k);
    lemma_short_sow(s, k, l);
    lemma_short_sow(s, k, 6);
    lemma_short_sow(s, k, 7 + (5 - l));
    assert(m.pit(t, l) == b.pit(t, l) + b.gain(s, k, t, l));
    assert(m.pit(t, 6) == b.pit(t, 6) + b.gain(s, k, t, 6));
    assert(m.pit(o, 5 - l) == b.pit(o, 5 - l) + b.gain(s, k, o, 5 - l));
}

/// No move takes a seed out of a store.
pub proof fn lemma_store_grows(b: Board, s: int, p: int)
    requires
        b.wf(),
        0 <= s < 6,
        0 <= p < 2,
        b.step(s) is Some,
    ensures
        b.step(s).unwrap().store(p) >= b.store(p),
{
    let k = b.pit(b.turn, s);
    let m = b.sown(s);
    let l = b.landing(s);
    lemma_sown_cells(b, s, k);
    lemma_sown_total(b, s, k);
    assert(m.store(p) == b.store(p) + b.gain(s, k, p, 6));
    if l == 6 {
    } else if b.captures(s) {
        lemma_captured(m, l);
    } else {
        assert(m.passed().cells == m.cells);
    }
}

/// A pit of the mover with seeds in it can be played.
pub proof fn lemma_can_move(b: Board)
    requires
        b.wf(),
        b.can_play(b.turn),
    ensures
        exists|s: int| 0 <= s < 6 && #[trigger] b.step(s) is Some,
{
    let s = choose|s: int| 0 <= s < 6 && #[trigger] b.pit(b.turn, s) > 0;
    assert(b.step(s) is Some);
}

/// A position whose cells are those of `m`, one by one, and whose turn is
/// that of `m`, is `m`.
proof fn lemma_same_board(g: Game, m: Board)
    requires
        m.cells.len() == 14,
        g.t == m.turn,
        forall|sd: int, i: int|
            0 <= sd < 2 && 0 <= i < 7 ==> #[trigger] g.p[sd][i] as int == m.pit(sd, i),
    ensures
        g@ == m,
{
    assert forall|x: int| 0 <= x < 14 implies g@.cells[x] == m.cells[x] by {
        let sd = x / 7;
        let i = x % 7;
        assert(x == sd * 7 + i);
        assert(g.p[sd][i] as int == m.pit(sd, i));
    }
    assert(g@.cells =~= m.cells);
}

/// The ring cell that is cell `pos` of `side` when `t` moves.
spec fn ring_cell(t: int, side: int, pos: int) -> int {
    if side == t {
        pos
    } else {
        7 + pos
    }
}

/// The cell that the next seed goes to has room for it.
proof fn lemma_room(b: Board, s: int, j: int, side: int, pos: int)
    requires
        b.wf(),
        0 <= s < 6,
        0 <= j < b.pit(b.turn, s),
        0 <= side < 2,
        0 <= pos <= 6,
        side == b.turn || pos < 6,
    ensures
        (if side == b.turn && pos == s {
            0
        } else {
            b.pit(side, pos)
        }) + b.gain(s, j, side, pos) + 1 <= i8::MAX,
{
    lemma_sown_cells(b, s, j);
    if side == b.turn && pos == s {
        lemma_holds_at_most(b, b.turn * 7 + s);
    } else {
        lemma_two_cells(b, side * 7 + pos, b.turn * 7 + s);
    }
}

/// The seed numbered `j + 1` raises the cell it falls into by one and leaves
/// the others as they are.
proof fn lemma_sow_one(b: Board, s: int, j: int, side: int, pos: int)
    requires
        b.turn == 0 || b.turn == 1,
        0 <= s < 6,
        0 <= j,
        0 <= side < 2,
        0 <= pos <= 6,
        side == b.turn || pos < 6,
        ring_cell(b.turn, side, pos) == (s + j + 1) % 13,
    ensures
        forall|sd: int, i: int|
            0 <= sd < 2 && 0 <= i < 7 ==> #[trigger] b.gain(s, j + 1, sd, i) == b.gain(s, j, sd, i) + (
            if sd == side && i == pos {
                1int
            } else {
                0int
            }),
{
    assert forall|sd: int, i: int| 0 <= sd < 2 && 0 <= i < 7 implies #[trigger] b.gain(
        s,
        j + 1,
        sd,
        i,
    ) == b.gain(s, j, sd, i) + (if sd == side && i == pos {
        1int
    } else {
        0int
    }) by {
        if sd == b.turn {
            lemma_next_seed(s, j, i);
        } else if i < 6 {
            lemma_next_seed(s, j, 7 + i);
        }
    }
}

/// The cell after cell `pos` of `side` in the order of play.
spec fn cell_after(t: int, side: int, pos: int) -> (int, int) {
    if (pos == 5 && side != t) || pos == 6 {
        (1 - side, 0)
    } else {
        (side, pos + 1)
    }
}

/// The next cell in the order of play is the next cell of the ring.
proof fn lemma_cell_after(t: int, side: int, pos: int, r: int)
    requires
        0 <= t < 2,
        0 <= side < 2,
        0 <= pos <= 6,
        side == t || pos < 6,
        0 <= r,
        ring_cell(t, side, pos) == r % 13,
    ensures
        ring_cell(t, cell_after(t, side, pos).0, cell_after(t, side, pos).1) == (r + 1) % 13,
        0 <= cell_after(t, side, pos).0 < 2,
        0 <= cell_after(t, side, pos).1 <= 6,
        cell_after(t, side, pos).0 == t || cell_after(t, side, pos).1 < 6,
{
}

/// Takes up the seeds of pit `s` and sows them. Returns the cells after the
/// sowing, and the side and the cell in which the last seed fell.
fn sow(g: &Game, s: usize) -> (res: (Game, usize, usize))
    requires
        g.wf(),
        s < 6,
        g@.pit(g@.turn, s as int) != 0,
    ensures
        res.0@ == g@.sown(s as int),
        res.1 < 2,
        res.2 <= 6,
        res.1 == g@.turn || res.2 < 6,
        ring_cell(g@.turn, res.1 as int, res.2 as int) == g@.landing(s as int),
{
    let ghost b = g@;
    let t: usize = g.t as usize;
    proof {
        lemma_cells(*g);
        assert(b.pit(b.turn, s as int) == g.p[t as int][s as int]);
    }
    let mut n: Game = *g;
    let mut leftover: i8 = n.p[t][s];
    let ghost k: int = leftover as int;
    let mut side: usize = t;
    let mut pos: usize = s + 1;
    n.p[side][s] = 0;
    proof {
        lemma_sown_cells(b, s as int, 0);
    }
    loop
        invariant_except_break
            0 < leftover <= k,
            ring_cell(t as int, side as int, pos as int) == (s + (k - leftover) + 1) % 13,
            forall|sd: int, i: int|
                0 <= sd < 2 && 0 <= i < 7 ==> #[trigger] n.p[sd][i] as int == (if sd == t && i == s {
                    0
                } else {
                    b.pit(sd, i)
                }) + b.gain(s as int, k - leftover, sd, i),
        invariant
            b == g@,
            b.wf(),
            s < 6,
            t == b.turn,
            k == b.pit(b.turn, s as int),
            k >= 1,
            side < 2,
            pos <= 6,
            side == t || pos < 6,
            n.t == g.t,
        ensures
            ring_cell(t as int, side as int, pos as int) == b.landing(s as int),
            forall|sd: int, i: int|
                0 <= sd < 2 && 0 <= i < 7 ==> #[trigger] n.p[sd][i] as int == b.sown(s as int).pit(
                    sd,
                    i,
                ),
        decreases leftover,
    {
        let ghost j: int = k - leftover;
        proof {
            lemma_room(b, s as int, j, side as int, pos as int);
            lemma_sow_one(b, s as int, j, side as int, pos as int);
            lemma_cell_after(t as int, side as int, pos as int, s + j + 1);
        }
        let ghost before = n;
        n.p[side][pos] = n.p[side][pos] + 1;
        leftover = leftover - 1;
        proof {
            assert forall|sd: int, i: int| 0 <= sd < 2 && 0 <= i < 7 implies #[trigger] n.p[sd][i] as int
                == (if sd == t && i == s {
                0
            } else {
                b.pit(sd, i)
            }) + b.gain(s as int, j + 1, sd, i) by {
                assert(before.p[sd][i] as int == (if sd == t && i == s {
                    0
                } else {
                    b.pit(sd, i)
                }) + b.gain(s as int, j, sd, i));
                assert(n.p[sd][i] == if sd == side && i == pos {
                    (before.p[sd][i] + 1) as i8
                } else {
                    before.p[sd][i]
                });
            }
        }
        if leftover == 0 {
            proof {
                lemma_sown_cells(b, s as int, k);
            }
            break ;
        }
        if (pos == 5 && side != t) || (pos == 6) {
            side = 1 - side;
            pos = 0;
        } else {
            pos += 1;
        }
    }
    proof {
        lemma_sown_cells(b, s as int, k);
        lemma_same_board(n, b.sown(s as int));
    }
    (n, side, pos)
}

/// Empties the pit opposite pit `pos` of the mover into the mover's store and
/// passes the turn.
fn capture(m: &Game, pos: usize) -> (n: Game)
    requires
        m@.cells.len() == 14,
        forall|x: int| 0 <= x < 14 ==> #[trigger] m@.cells[x] >= 0,
        m@.turn == 0 || m@.turn == 1,
        m@.total() <= i8::MAX,
        pos < 6,
    ensures
        n@ == m@.captured(pos as int),
{
    let t: usize = m.t as usize;
    let opp: usize = 5 - pos;
    let mut n: Game = *m;
    proof {
        lemma_rows(*m);
        lemma_captured(m@, pos as int);
        lemma_holds_at_most(m@.captured(pos as int), t as int * 7 + 6);
        assert(m@.pit(t as int, 6) == m.p[t as int][6]);
        assert(m@.pit(1 - t as int, opp as int) == m.p[1 - t as int][opp as int]);
    }
    n.p[t][6] = n.p[t][6] + n.p[1 - t][opp];
    n.p[1 - t][opp] = 0;
    n.t = 1 - n.t;
    proof {
        assert(n@.cells =~= m@.captured(pos as int).cells);
    }
    n
}

impl Game {
    /// The side to move plays pit `s`: the position that follows, or `None`
    /// where the pit is empty.
    pub fn step(&self, s: usize) -> (res: Option<Game>)
        requires
            self.wf(),
            s < 6,
        ensures
            match res {
                Some(n) => self@.step(s as int) == Some(n@) && n.wf(),
                None => self@.step(s as int) is None,
            },
    {
        let t: usize = self.t as usize;
        proof {
            lemma_cells(*self);
            assert(self@.pit(self@.turn, s as int) == self.p[t as int][s as int]);
        }
        if self.p[t][s] == 0 {
            return None;
        }
        let (m, side, pos) = sow(self, s);
        proof {
            lemma_step_conserves(self@, s as int);
            lemma_sown_total(self@, s as int, self@.pit(self@.turn, s as int));
            lemma_rows(m);
        }
        if pos < 6 {
            if side == t && m.p[side][pos] == 1 {
                Some(capture(&m, pos))
            } else {
                let mut n: Game = m;
                n.t = 1 - n.t;
                proof {
                    assert(n@.cells =~= m@.cells);
                }
                Some(n)
            }
        } else {
            Some(m)
        }
    }
}

} // verus!
