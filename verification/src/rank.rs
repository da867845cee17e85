//! The rank of a position: a number that every move lowers, by which the
//! game, and every search of it, comes to an end.

use crate::board::Board;
use crate::moves::{lemma_captured, lemma_sown_cells, lemma_sown_total, lemma_step_conserves};
use crate::sowing::{lemma_share_form, share};
use vstd::prelude::*;

verus! {

impl Board {
    /// A measure that every move lowers. A seed in play counts 43 and each
    /// cell of its way 1: a round of the board that stores one seed sets no
    /// more than the twelve pits back, which is 42 cells of way in all.
    pub open spec fn rank(self) -> nat {
        (43 * self.in_play() + self.way(0) + self.way(1)) as nat
    }
}

/// A seed in a pit is at most six cells from the store of its side.
pub proof fn lemma_way_bound(b: Board)
    requires
        b.cells.len() == 14,
        forall|x: int| 0 <= x < 14 ==> #[trigger] b.cells[x] >= 0,
    ensures
        0 <= b.way(0) + b.way(1) <= 6 * b.in_play(),
        0 <= b.in_play() <= b.total(),
{
    assert(b.cells[0] >= 0 && b.cells[1] >= 0 && b.cells[2] >= 0 && b.cells[3] >= 0 && b.cells[4]
        >= 0 && b.cells[5] >= 0 && b.cells[6] >= 0);
    assert(b.cells[7] >= 0 && b.cells[8] >= 0 && b.cells[9] >= 0 && b.cells[10] >= 0
        && b.cells[11] >= 0 && b.cells[12] >= 0 && b.cells[13] >= 0);
}

/// The sowing takes out of play what it puts into the mover's store.
proof fn lemma_sown_play(b: Board, s: int)
    requires
        b.wf(),
        0 <= s < 6,
    ensures
        b.sown(s).in_play() == b.in_play() - share(s, b.pit(b.turn, s), 6),
{
    let k = b.pit(b.turn, s);
    let t = b.turn;
    let o = 1 - t;
    let m = b.sown(s);
    lemma_sown_cells(b, s, k);
    lemma_sown_total(b, s, k);
    assert(m.store(t) == b.store(t) + b.gain(s, k, t, 6));
    assert(m.store(o) == b.store(o) + b.gain(s, k, o, 6));
}

/// The way of the seeds after the sowing: the seeds of the emptied pit no
/// longer count, and each pit counts for what it received.
proof fn lemma_sown_way(b: Board, s: int)
    requires
        b.wf(),
        0 <= s < 6,
    ensures
        b.sown(s).way(b.turn) == b.way(b.turn) - (6 - s) * b.pit(b.turn, s) + 6 * share(
            s,
            b.pit(b.turn, s),
            0,
        ) + 5 * share(s, b.pit(b.turn, s), 1) + 4 * share(s, b.pit(b.turn, s), 2) + 3 * share(
            s,
            b.pit(b.turn, s),
            3,
        ) + 2 * share(s, b.pit(b.turn, s), 4) + share(s, b.pit(b.turn, s), 5),
        b.sown(s).way(1 - b.turn) == b.way(1 - b.turn) + 6 * share(s, b.pit(b.turn, s), 7) + 5
            * share(s, b.pit(b.turn, s), 8) + 4 * share(s, b.pit(b.turn, s), 9) + 3 * share(
            s,
            b.pit(b.turn, s),
            10,
        ) + 2 * share(s, b.pit(b.turn, s), 11) + share(s, b.pit(b.turn, s), 12),
{
    let k = b.pit(b.turn, s);
    let t = b.turn;
    let o = 1 - t;
    let m = b.sown(s);
    lemma_sown_cells(b, s, k);
    assert(m.pit(o, 0) == b.pit(o, 0) + b.gain(s, k, o, 0));
    assert(m.pit(o, 1) == b.pit(o, 1) + b.gain(s, k, o, 1));
    assert(m.pit(o, 2) == b.pit(o, 2) + b.gain(s, k, o, 2));
    assert(m.pit(o, 3) == b.pit(o, 3) + b.gain(s, k, o, 3));
    assert(m.pit(o, 4) == b.pit(o, 4) + b.gain(s, k, o, 4));
    assert(m.pit(o, 5) == b.pit(o, 5) + b.gain(s, k, o, 5));
    assert(m.pit(t, 0) == (if s == 0 { 0 } else { b.pit(t, 0) }) + b.gain(s, k, t, 0));
    assert(m.pit(t, 1) == (if s == 1 { 0 } else { b.pit(t, 1) }) + b.gain(s, k, t, 1));
    assert(m.pit(t, 2) == (if s == 2 { 0 } else { b.pit(t, 2) }) + b.gain(s, k, t, 2));
    assert(m.pit(t, 3) == (if s == 3 { 0 } else { b.pit(t, 3) }) + b.gain(s, k, t, 3));
    assert(m.pit(t, 4) == (if s == 4 { 0 } else { b.pit(t, 4) }) + b.gain(s, k, t, 4));
    assert(m.pit(t, 5) == (if s == 5 { 0 } else { b.pit(t, 5) }) + b.gain(s, k, t, 5));
}

/// What the sowing of `k` seeds from pit `s` adds to the ways is less than
/// what it takes from them and from the seeds in play.
proof fn lemma_sowing_pays(s: int, k: int)
    requires
        0 <= s < 6,
        1 <= k,
    ensures
        6 * share(s, k, 0) + 5 * share(s, k, 1) + 4 * share(s, k, 2) + 3 * share(s, k, 3) + 2
            * share(s, k, 4) + share(s, k, 5) + 6 * share(s, k, 7) + 5 * share(s, k, 8) + 4
            * share(s, k, 9) + 3 * share(s, k, 10) + 2 * share(s, k, 11) + share(s, k, 12) < 43
            * share(s, k, 6) + (6 - s) * k,
{
    lemma_share_form(s, k, 0);
    lemma_share_form(s, k, 1);
    lemma_share_form(s, k, 2);
    lemma_share_form(s, k, 3);
    lemma_share_form(s, k, 4);
    lemma_share_form(s, k, 5);
    lemma_share_form(s, k, 6);
    lemma_share_form(s, k, 7);
    lemma_share_form(s, k, 8);
    lemma_share_form(s, k, 9);
    lemma_share_form(s, k, 10);
    lemma_share_form(s, k, 11);
    lemma_share_form(s, k, 12);
    let q = k / 13;
    let r = k % 13;
    assert(k == 13 * q + r);
    if s == 0 {
        assert((6 - s) * k == 6 * k);
    } else if s == 1 {
        assert((6 - s) * k == 5 * k);
    } else if s == 2 {
        assert((6 - s) * k == 4 * k);
    } else if s == 3 {
        assert((6 - s) * k == 3 * k);
    } else if s == 4 {
        assert((6 - s) * k == 2 * k);
    } else {
        assert((6 - s) * k == k);
    }
}

/// A capture puts no seed farther from its store.
proof fn lemma_captured_way(m: Board, l: int)
    requires
        m.cells.len() == 14,
        forall|x: int| 0 <= x < 14 ==> #[trigger] m.cells[x] >= 0,
        m.turn == 0 || m.turn == 1,
        0 <= l < 6,
    ensures
        m.captured(l).way(m.turn) == m.way(m.turn),
        m.captured(l).way(1 - m.turn) <= m.way(1 - m.turn),
{
    lemma_captured(m, l);
    assert(m.cells[(1 - m.turn) * 7 + 5 - l] >= 0);
}

/// What follows the sowing puts no seed back into play and none farther from
/// its store.
proof fn lemma_settled(b: Board, s: int)
    requires
        b.wf(),
        0 <= s < 6,
        b.step(s) is Some,
    ensures
        b.step(s).unwrap().in_play() <= b.sown(s).in_play(),
        b.step(s).unwrap().way(0) + b.step(s).unwrap().way(1) <= b.sown(s).way(0) + b.sown(s).way(
            1,
        ),
{
    let m = b.sown(s);
    let l = b.landing(s);
    lemma_sown_total(b, s, b.pit(b.turn, s));
    if l == 6 {
    } else if b.captures(s) {
        lemma_captured(m, l);
        lemma_captured_way(m, l);
    } else {
        assert(m.passed().cells == m.cells);
    }
}

/// Every move lowers the rank of the position.
pub proof fn lemma_step_decreases(b: Board, s: int)
    requires
        b.wf(),
        0 <= s < 6,
        b.step(s) is Some,
    ensures
        b.step(s).unwrap().rank() < b.rank(),
{
    let n = b.step(s).unwrap();
    let k = b.pit(b.turn, s);
    lemma_step_conserves(b, s);
    lemma_way_bound(b);
    lemma_way_bound(n);
    lemma_settled(b, s);
    assert(k >= 1) by {
        assert(b.cells[b.turn * 7 + s] >= 0);
    }
    lemma_sown_play(b, s);
    lemma_sown_way(b, s);
    lemma_sowing_pays(s, k);
}

} // verus!
