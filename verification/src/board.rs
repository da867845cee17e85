//! The position model: two rows of six pits and a store, and the side to move.

use vstd::prelude::*;

verus! {

/// One side of the board: six pits followed by the store.
pub type Player = [i8; 7];

/// A position: the two rows and the side that moves next (0 or 1).
#[derive(Copy, Clone, Debug, Hash, PartialEq, Eq)]
pub struct Game {
    pub p: [Player; 2],
    pub t: i8,
}

/// The verdict on a position. For a finished game it is the result on the
/// board; for an unfinished one `Win` and `Draw` name the result of best play,
/// and `InProgress` says that none has been established.
#[derive(Copy, Clone, Debug, PartialEq, Eq, Structural)]
pub enum State {
    InProgress,
    Draw,
    Win(i8),
}

/// The mathematical position: fourteen seed counts and the side to move.
/// Cell `side * 7 + i` is pit `i` of `side` for `i < 6`, and its store for `i == 6`.
pub struct Board {
    pub cells: Seq<int>,
    pub turn: int,
}

impl Board {
    /// Seeds in cell `i` of `side`.
    pub open spec fn pit(self, side: int, i: int) -> int {
        self.cells[side * 7 + i]
    }

    /// Seeds in the store of `side`.
    pub open spec fn store(self, side: int) -> int {
        self.pit(side, 6)
    }

    /// Seeds in the six pits of `side`.
    pub open spec fn in_pits(self, side: int) -> int {
        self.pit(side, 0) + self.pit(side, 1) + self.pit(side, 2) + self.pit(side, 3) + self.pit(
            side,
            4,
        ) + self.pit(side, 5)
    }

    /// Seeds that `side` holds in pits and store together.
    pub open spec fn holding(self, side: int) -> int {
        self.in_pits(side) + self.store(side)
    }

    /// All seeds on the board.
    pub open spec fn total(self) -> int {
        self.holding(0) + self.holding(1)
    }

    /// Seeds that are not yet in a store.
    pub open spec fn in_play(self) -> int {
        self.in_pits(0) + self.in_pits(1)
    }

    /// The way that the seeds in the pits of `side` still have to its store,
    /// in cells, added up over the seeds.
    pub open spec fn way(self, side: int) -> int {
        6 * self.pit(side, 0) + 5 * self.pit(side, 1) + 4 * self.pit(side, 2) + 3 * self.pit(
            side,
            3,
        ) + 2 * self.pit(side, 4) + self.pit(side, 5)
    }

    /// Fourteen non-negative cells, a side to move, and few enough seeds that
    /// every count fits a cell.
    pub open spec fn wf(self) -> bool {
        &&& self.cells.len() == 14
        &&& forall|k: int| 0 <= k < 14 ==> #[trigger] self.cells[k] >= 0
        &&& (self.turn == 0 || self.turn == 1)
        &&& self.total() <= i8::MAX
    }

    /// `side` has a pit with seeds in it.
    pub open spec fn can_play(self, side: int) -> bool {
        exists|i: int| 0 <= i < 6 && #[trigger] self.pit(side, i) > 0
    }

    /// The game is over: a side has no seeds left in its pits.
    pub open spec fn finished(self) -> bool {
        !self.can_play(0) || !self.can_play(1)
    }

    /// The result on the board: none while both sides can play; after that the
    /// side that holds more seeds (pits and store) has won, and equal holdings
    /// are a draw.
    pub open spec fn outcome(self) -> State {
        if !self.finished() {
            State::InProgress
        } else if self.holding(0) < self.holding(1) {
            State::Win(1)
        } else if self.holding(0) > self.holding(1) {
            State::Win(0)
        } else {
            State::Draw
        }
    }

    /// The position every game starts from.
    pub open spec fn initial() -> Board {
        Board { cells: seq![4, 4, 4, 4, 4, 4, 0, 4, 4, 4, 4, 4, 4, 0], turn: 0 }
    }
}

impl View for Game {
    type V = Board;

    open spec fn view(&self) -> Board {
        Board {
            cells: Seq::new(14, |k: int| self.p[k / 7][k % 7] as int),
            turn: self.t as int,
        }
    }
}

/// With non-negative cells a side can play exactly when its pits hold a seed.
pub proof fn lemma_can_play(b: Board, side: int)
    requires
        b.wf(),
        side == 0 || side == 1,
    ensures
        b.can_play(side) <==> b.in_pits(side) != 0,
{
    assert(b.cells[side * 7 + 0] >= 0);
    assert(b.cells[side * 7 + 1] >= 0);
    assert(b.cells[side * 7 + 2] >= 0);
    assert(b.cells[side * 7 + 3] >= 0);
    assert(b.cells[side * 7 + 4] >= 0);
    assert(b.cells[side * 7 + 5] >= 0);
    if b.in_pits(side) != 0 {
        if b.pit(side, 0) > 0 {
        } else if b.pit(side, 1) > 0 {
        } else if b.pit(side, 2) > 0 {
        } else if b.pit(side, 3) > 0 {
        } else if b.pit(side, 4) > 0 {
        } else {
            assert(b.pit(side, 5) > 0);
        }
    }
}

/// No cell holds more than there is on the board.
pub proof fn lemma_holds_at_most(b: Board, x: int)
    requires
        b.cells.len() == 14,
        forall|k: int| 0 <= k < 14 ==> #[trigger] b.cells[k] >= 0,
        0 <= x < 14,
    ensures
        b.cells[x] <= b.total(),
{
    assert(b.cells[0] >= 0 && b.cells[1] >= 0 && b.cells[2] >= 0 && b.cells[3] >= 0 && b.cells[4]
        >= 0 && b.cells[5] >= 0 && b.cells[6] >= 0);
    assert(b.cells[7] >= 0 && b.cells[8] >= 0 && b.cells[9] >= 0 && b.cells[10] >= 0
        && b.cells[11] >= 0 && b.cells[12] >= 0 && b.cells[13] >= 0);
}

/// Two different cells hold together no more than there is on the board.
pub proof fn lemma_two_cells(b: Board, x: int, y: int)
    requires
        b.cells.len() == 14,
        forall|k: int| 0 <= k < 14 ==> #[trigger] b.cells[k] >= 0,
        0 <= x < 14,
        0 <= y < 14,
        x != y,
    ensures
        b.cells[x] + b.cells[y] <= b.total(),
{
    assert(b.cells[0] >= 0 && b.cells[1] >= 0 && b.cells[2] >= 0 && b.cells[3] >= 0 && b.cells[4]
        >= 0 && b.cells[5] >= 0 && b.cells[6] >= 0);
    assert(b.cells[7] >= 0 && b.cells[8] >= 0 && b.cells[9] >= 0 && b.cells[10] >= 0
        && b.cells[11] >= 0 && b.cells[12] >= 0 && b.cells[13] >= 0);
}

/// The row every side starts with: four seeds in each pit and an empty store.
pub fn new_player() -> (row: Player)
    ensures
        row@ == seq![4i8, 4i8, 4i8, 4i8, 4i8, 4i8, 0i8],
{
    let row: Player = [4, 4, 4, 4, 4, 4, 0];
    assert(row@ =~= seq![4i8, 4i8, 4i8, 4i8, 4i8, 4i8, 0i8]);
    row
}

/// Seeds in a row, store included.
fn row_sum(row: &Player) -> (sum: i8)
    requires
        forall|i: int| 0 <= i < 7 ==> row[i] >= 0,
        row[0] + row[1] + row[2] + row[3] + row[4] + row[5] + row[6] <= i8::MAX,
    ensures
        sum == row[0] + row[1] + row[2] + row[3] + row[4] + row[5] + row[6],
{
    row[0] + row[1] + row[2] + row[3] + row[4] + row[5] + row[6]
}

/// The cells of a position are the entries of its rows.
pub proof fn lemma_rows(g: Game)
    ensures
        g@.cells.len() == 14,
        g@.turn == g.t,
        forall|x: int| 0 <= x < 14 ==> #[trigger] g@.cells[x] == g.p[x / 7][x % 7],
        forall|sd: int, i: int| 0 <= sd < 2 && 0 <= i < 7 ==> #[trigger] g@.pit(sd, i) == g.p[sd][i],
{
    assert forall|sd: int, i: int| 0 <= sd < 2 && 0 <= i < 7 implies #[trigger] g@.pit(sd, i)
        == g.p[sd][i] by {
        let x = sd * 7 + i;
        assert(x / 7 == sd && x % 7 == i);
    }
}

/// The seeds in the first `n` cells.
pub open spec fn partial(b: Board, n: int) -> int
    decreases n,
{
    if n <= 0 {
        0
    } else {
        partial(b, n - 1) + b.cells[n - 1]
    }
}

/// The seeds in all fourteen cells are the seeds on the board.
pub proof fn lemma_partial(b: Board)
    ensures
        partial(b, 14) == b.total(),
{
    reveal_with_fuel(partial, 15);
}

/// The cells of a well-formed position, one by one.
pub proof fn lemma_cells(g: Game)
    requires
        g.wf(),
    ensures
        forall|side: int, i: int|
            0 <= side < 2 && 0 <= i < 7 ==> #[trigger] g@.pit(side, i) == g.p[side][i] && g.p[side][i]
                >= 0,
{
    assert forall|side: int, i: int| 0 <= side < 2 && 0 <= i < 7 implies #[trigger] g@.pit(side, i)
        == g.p[side][i] && g.p[side][i] >= 0 by {
        let k = side * 7 + i;
        assert(k / 7 == side && k % 7 == i);
        assert(g@.cells[k] >= 0);
    }
}

impl Game {
    /// The cells are non-negative, the turn is 0 or 1, and the seeds on the
    /// board are few enough to stand in a single cell.
    pub open spec fn wf(&self) -> bool {
        self@.wf()
    }

    /// The position every game starts from: four seeds in each pit, empty
    /// stores, side 0 to move.
    pub fn new() -> (g: Game)
        ensures
            g@ == Board::initial(),
            g.wf(),
    {
        let g = Game { p: [new_player(), new_player()], t: 0 };
        proof {
            assert(g.p[0]@ == seq![4i8, 4i8, 4i8, 4i8, 4i8, 4i8, 0i8]);
            assert(g.p[1]@ == seq![4i8, 4i8, 4i8, 4i8, 4i8, 4i8, 0i8]);
            assert forall|k: int| 0 <= k < 14 implies g@.cells[k] == Board::initial().cells[k] by {
                if k < 7 {
                    assert(g.p[0]@[k] == seq![4i8, 4i8, 4i8, 4i8, 4i8, 4i8, 0i8][k]);
                } else {
                    assert(g.p[1]@[k - 7] == seq![4i8, 4i8, 4i8, 4i8, 4i8, 4i8, 0i8][k - 7]);
                }
            }
            assert(g@.cells =~= Board::initial().cells);
        }
        g
    }

    /// Whether the position is well-formed.
    pub fn is_valid(&self) -> (ok: bool)
        ensures
            ok == self.wf(),
    {
        let ghost b = self@;
        proof {
            lemma_rows(*self);
        }
        if self.t != 0 && self.t != 1 {
            return false;
        }
        for x in 0..14usize
            invariant
                b == self@,
                forall|k: int| 0 <= k < x ==> #[trigger] b.cells[k] >= 0,
        {
            if self.p[x / 7][x % 7] < 0 {
                assert(b.cells[x as int] < 0);
                return false;
            }
        }
        self.seeds() <= 127
    }

    /// The seeds on the board.
    pub fn seeds(&self) -> (n: i16)
        ensures
            n == self@.total(),
    {
        let ghost b = self@;
        proof {
            lemma_rows(*self);
        }
        let mut sum: i16 = 0;
        for x in 0..14usize
            invariant
                b == self@,
                sum == partial(b, x as int),
                -128 * x <= sum <= 127 * x,
        {
            sum = sum + self.p[x / 7][x % 7] as i16;
        }
        proof {
            lemma_partial(b);
        }
        sum
    }

    /// The result on the board: `InProgress` exactly while both sides have a
    /// pit with seeds; otherwise the side holding more seeds has won, and equal
    /// holdings are a draw.
    pub fn state(&self) -> (res: State)
        requires
            self.wf(),
        ensures
            res == self@.outcome(),
            res == State::InProgress <==> self@.can_play(0) && self@.can_play(1),
    {
        proof {
            lemma_can_play(self@, 0);
            lemma_can_play(self@, 1);
            lemma_cells(*self);
        }
        let p0full: i8 = row_sum(&self.p[0]);
        let p1full: i8 = row_sum(&self.p[1]);
        let p0: i8 = p0full - self.p[0][6];
        let p1: i8 = p1full - self.p[1][6];
        if p0 != 0 && p1 != 0 {
            State::InProgress
        } else {
            if p0full < p1full {
                State::Win(1)
            } else if p0full > p1full {
                State::Win(0)
            } else {
                State::Draw
            }
        }
    }

    /// The pits that the side to move may choose, in rising order: those that
    /// hold a seed.
    pub fn possible(&self) -> (res: Vec<usize>)
        requires
            self.t == 0 || self.t == 1,
        ensures
            forall|j: int|
                0 <= j < res@.len() ==> res@[j] < 6 && self@.pit(self@.turn, res@[j] as int) != 0,
            forall|j: int, k: int| 0 <= j < k < res@.len() ==> res@[j] < res@[k],
            forall|i: int| 0 <= i < 6 && self@.pit(self@.turn, i) != 0 ==> res@.contains(i as usize),
    {
        let side: usize = self.t as usize;
        let mut res: Vec<usize> = Vec::new();
        proof {
            lemma_rows(*self);
        }
        for i in 0..6usize
            invariant
                side == self@.turn,
                side < 2,
                forall|m: int| 0 <= m < 6 ==> #[trigger] self@.pit(side as int, m) == self.p[side as int][m],
                forall|j: int|
                    0 <= j < res@.len() ==> res@[j] < i && self@.pit(
                        self@.turn,
                        res@[j] as int,
                    ) != 0,
                forall|j: int, k: int| 0 <= j < k < res@.len() ==> res@[j] < res@[k],
                forall|m: int| 0 <= m < i && self@.pit(self@.turn, m) != 0 ==> res@.contains(m as usize),
        {
            if self.p[side][i] != 0 {
                let ghost before = res@;
                res.push(i);
                proof {
                    assert(res@[before.len() as int] == i);
                    assert forall|m: int| 0 <= m < i + 1 && self@.pit(self@.turn, m) != 0 implies res@.contains(
                        m as usize,
                    ) by {
                        if m < i {
                            let j = choose|j: int| 0 <= j < before.len() && before[j] == m as usize;
                            assert(res@[j] == m as usize);
                        }
                    }
                }
            }
        }
        res
    }
}

} // verus!
