//! The state codec: a position as one 64-bit key. Each of the fourteen cells
//! and then the turn is written as that many one bits and a closing zero bit,
//! the first cell in the highest place.

use crate::board::{lemma_cells, Board, Game};
use crate::moves::lemma_reachable_total;
use vstd::arithmetic::power2::{lemma2_to64, lemma_pow2_adds, lemma_pow2_pos, lemma_pow2_unfold, pow2};
use vstd::prelude::*;

verus! {

/// The number whose bits are those of `acc` followed by `v` one bits.
pub open spec fn ones(acc: nat, v: nat) -> nat
    decreases v,
{
    if v == 0 {
        acc
    } else {
        2 * ones(acc, (v - 1) as nat) + 1
    }
}

/// The number whose bits are those of `acc` followed by one field: `v` one
/// bits and a zero bit.
pub open spec fn with_field(acc: nat, v: nat) -> nat {
    2 * ones(acc, v)
}

/// How many one bits `n` ends in.
pub open spec fn trailing_ones(n: nat) -> nat
    decreases n,
{
    if n % 2 == 1 {
        1 + trailing_ones(n / 2)
    } else {
        0
    }
}

/// `n` without the one bits it ends in.
pub open spec fn strip_ones(n: nat) -> nat
    decreases n,
{
    if n % 2 == 1 {
        strip_ones(n / 2)
    } else {
        n
    }
}

/// What is left of `key` after `n` fields have been read off its low end.
pub open spec fn rest(key: nat, n: nat) -> nat
    decreases n,
{
    if n == 0 {
        key
    } else {
        strip_ones(rest(key, (n - 1) as nat) / 2)
    }
}

/// The field of `key` that is read after `n` others: the count of one bits
/// above the closing zero.
pub open spec fn field(key: nat, n: nat) -> nat {
    trailing_ones(rest(key, n) / 2)
}

impl Board {
    /// The fifteen numbers that make up the key, in the order they are
    /// written: cell 0 to cell 13, then the turn.
    pub open spec fn part(self, i: int) -> nat {
        if i < 14 {
            self.cells[i] as nat
        } else {
            self.turn as nat
        }
    }

    /// The key of the first `n` parts.
    pub open spec fn key_upto(self, n: nat) -> nat
        decreases n,
    {
        if n == 0 {
            0
        } else {
            with_field(self.key_upto((n - 1) as nat), self.part(n - 1))
        }
    }

    /// The packed key of the position.
    pub open spec fn key(self) -> nat {
        self.key_upto(15)
    }

    /// The length of the key in bits: one for every seed, one more where side
    /// 1 is to move, and the fifteen closing zeros.
    pub open spec fn bits(self) -> int {
        self.total() + self.turn + 15
    }

    /// A position that has a key whichever side is to move: well-formed, with
    /// at most 48 seeds.
    pub open spec fn packable(self) -> bool {
        self.wf() && self.total() <= 48
    }

    /// The position that `key` stands for: the turn is read first, then the
    /// cells from the last to the first.
    pub open spec fn decode(key: nat) -> Board {
        Board {
            cells: Seq::new(14, |x: int| field(key, (14 - x) as nat) as int),
            turn: field(key, 0) as int,
        }
    }
}

/// More one bits make a larger number.
pub proof fn lemma_ones_grow(acc: nat, i: nat, v: nat)
    requires
        i <= v,
    ensures
        acc <= ones(acc, i) <= ones(acc, v),
    decreases v,
{
    if i < v {
        lemma_ones_grow(acc, i, (v - 1) as nat);
    } else if v > 0 {
        lemma_ones_grow(acc, (i - 1) as nat, (v - 1) as nat);
    }
}

/// `v` one bits after `acc` make the number one below `(acc + 1) * 2^v`.
pub proof fn lemma_ones_bound(acc: nat, v: nat)
    ensures
        ones(acc, v) + 1 == (acc + 1) * pow2(v),
    decreases v,
{
    if v == 0 {
        assert(pow2(0) == 1) by {
            lemma2_to64();
        }
    } else {
        lemma_ones_bound(acc, (v - 1) as nat);
        lemma_pow2_unfold(v);
        assert((acc + 1) * (2 * pow2((v - 1) as nat)) == 2 * ((acc + 1) * pow2((v - 1) as nat)))
            by (nonlinear_arith);
    }
}

/// Reading a field back: above the closing zero stand the `v` one bits, and
/// under them what was there before, if that ended in a zero bit.
pub proof fn lemma_read_field(acc: nat, v: nat)
    requires
        acc % 2 == 0,
    ensures
        with_field(acc, v) % 2 == 0,
        trailing_ones(with_field(acc, v) / 2) == v,
        strip_ones(with_field(acc, v) / 2) == acc,
    decreases v,
{
    if v > 0 {
        lemma_read_field(acc, (v - 1) as nat);
        let inner = ones(acc, (v - 1) as nat);
        assert(ones(acc, v) == 2 * inner + 1);
        assert(ones(acc, v) / 2 == inner);
        assert(with_field(acc, (v - 1) as nat) / 2 == inner);
    }
}

/// The key of a few parts is even, and no larger than the key of more.
pub proof fn lemma_key_upto(b: Board, n: nat, m: nat)
    requires
        n <= m,
    ensures
        b.key_upto(n) % 2 == 0,
        b.key_upto(n) <= b.key_upto(m),
    decreases m,
{
    if n < m {
        lemma_key_upto(b, n, (m - 1) as nat);
        lemma_ones_grow(b.key_upto((m - 1) as nat), 0, b.part(m - 1));
    }
}

/// Reading `n` fields off a key leaves the key of the other parts, and the
/// next field read is the last of those.
pub proof fn lemma_rest(b: Board, n: nat)
    requires
        n < 15,
    ensures
        rest(b.key(), n) == b.key_upto((15 - n) as nat),
        field(b.key(), n) == b.part(14 - n),
    decreases n,
{
    if n > 0 {
        lemma_rest(b, (n - 1) as nat);
        lemma_key_upto(b, (15 - n) as nat, (15 - n) as nat);
        lemma_read_field(b.key_upto((15 - n) as nat), b.part(15 - n));
    }
    lemma_key_upto(b, (14 - n) as nat, (14 - n) as nat);
    lemma_read_field(b.key_upto((14 - n) as nat), b.part(14 - n));
}

/// Decoding the key of a position gives the position back.
pub proof fn lemma_round_trip(b: Board)
    requires
        b.wf(),
    ensures
        Board::decode(b.key()) == b,
{
    let d = Board::decode(b.key());
    lemma_rest(b, 0);
    assert forall|x: int| 0 <= x < 14 implies d.cells[x] == b.cells[x] by {
        lemma_rest(b, (14 - x) as nat);
        assert(b.cells[x] >= 0);
    }
    assert(d.cells =~= b.cells);
}

/// Two positions with the same key are the same position.
pub proof fn lemma_key_injective(a: Board, b: Board)
    requires
        a.wf(),
        b.wf(),
        a.key() == b.key(),
    ensures
        a == b,
{
    lemma_round_trip(a);
    lemma_round_trip(b);
}

/// The seeds counted in the first `n` cells.
pub open spec fn seeds_upto(b: Board, n: nat) -> int
    decreases n,
{
    if n == 0 {
        0
    } else {
        seeds_upto(b, (n - 1) as nat) + b.part(n - 1)
    }
}

/// The key of the first `n` parts has a bit for each seed in them and `n`
/// closing zeros.
pub proof fn lemma_key_length(b: Board, n: nat)
    ensures
        b.key_upto(n) + 1 <= pow2((seeds_upto(b, n) + n) as nat),
        seeds_upto(b, n) >= 0,
    decreases n,
{
    if n == 0 {
        lemma2_to64();
    } else {
        let before = b.key_upto((n - 1) as nat);
        let e = (seeds_upto(b, (n - 1) as nat) + n - 1) as nat;
        let v = b.part(n - 1);
        lemma_key_length(b, (n - 1) as nat);
        lemma_ones_bound(before, v);
        lemma_pow2_adds(e, v);
        lemma_pow2_pos(v);
        lemma_pow2_unfold(e + v + 1);
        assert((before + 1) * pow2(v) <= pow2(e) * pow2(v)) by (nonlinear_arith)
            requires
                before + 1 <= pow2(e),
                pow2(v) > 0,
        ;
    }
}

/// A position whose key has at most 64 bits has a key that fits 64 bits.
pub proof fn lemma_key_fits(b: Board)
    requires
        b.wf(),
        b.bits() <= 64,
    ensures
        b.key() <= u64::MAX,
{
    lemma_key_length(b, 15);
    reveal_with_fuel(seeds_upto, 16);
    assert(seeds_upto(b, 15) == b.total() + b.turn) by {
        assert(b.cells[0] >= 0 && b.cells[1] >= 0 && b.cells[2] >= 0 && b.cells[3] >= 0
            && b.cells[4] >= 0 && b.cells[5] >= 0 && b.cells[6] >= 0);
        assert(b.cells[7] >= 0 && b.cells[8] >= 0 && b.cells[9] >= 0 && b.cells[10] >= 0
            && b.cells[11] >= 0 && b.cells[12] >= 0 && b.cells[13] >= 0);
    }
    let e = (seeds_upto(b, 15) + 15) as nat;
    lemma2_to64();
    if e < 64 {
        vstd::arithmetic::power2::lemma_pow2_strictly_increases(e, 64);
    }
}

/// Every position that can be reached from the initial one has a key of at
/// most 64 bits, and decoding that key gives the position back.
pub proof fn lemma_reachable_round_trip(moves: Seq<int>)
    requires
        Board::initial().after(moves) is Some,
    ensures
        Board::initial().after(moves).unwrap().packable(),
        Board::initial().after(moves).unwrap().bits() <= 64,
        Board::initial().after(moves).unwrap().key() <= u64::MAX,
        Board::decode(Board::initial().after(moves).unwrap().key()) == Board::initial().after(
            moves,
        ).unwrap(),
{
    let b = Board::initial().after(moves).unwrap();
    lemma_reachable_total(moves);
    lemma_key_fits(b);
    lemma_round_trip(b);
}

/// Shifting a bit in from the low end doubles the number, with the bit added.
proof fn lemma_shift_in(x: u64)
    requires
        x <= 0x7fff_ffff_ffff_ffff,
    ensures
        x << 1 == 2 * x,
        (x << 1) | 1 == 2 * x + 1,
{
    assert(x << 1 == 2 * x) by (bit_vector)
        requires
            x <= 0x7fff_ffff_ffff_ffff,
    ;
    assert((x << 1) | 1 == 2 * x + 1) by (bit_vector)
        requires
            x <= 0x7fff_ffff_ffff_ffff,
    ;
}

/// The lowest bit is the remainder by two, and shifting it out halves the
/// number.
proof fn lemma_shift_out(x: u64)
    ensures
        x & 1 == x % 2,
        x >> 1 == x / 2,
{
    assert(x & 1 == x % 2) by (bit_vector);
    assert(x >> 1 == x / 2) by (bit_vector);
}

/// A number below `2^e` ends in at most `e` one bits, and what is left
/// without them ends in a zero bit.
proof fn lemma_trailing_bound(n: nat, e: nat)
    requires
        n < pow2(e),
    ensures
        trailing_ones(n) <= e,
        strip_ones(n) % 2 == 0,
    decreases n,
{
    if n % 2 == 1 {
        if e == 0 {
            lemma2_to64();
        } else {
            lemma_pow2_unfold(e);
            lemma_trailing_bound(n / 2, (e - 1) as nat);
        }
    }
}

/// Appends one field to the key in `t`: `b` one bits and a closing zero bit.
/// The bits already in `t` move up and none of them may be lost.
pub fn send_i8(t: &mut u64, b: i8)
    requires
        b >= 0,
        with_field(*old(t) as nat, b as nat) <= u64::MAX,
    ensures
        *final(t) == with_field(*old(t) as nat, b as nat),
{
    let ghost acc = *t as nat;
    let mut i: i8 = 0;
    while i < b
        invariant
            0 <= i <= b,
            *t == ones(acc, i as nat),
            2 * ones(acc, b as nat) <= u64::MAX,
        decreases b - i,
    {
        proof {
            lemma_ones_grow(acc, (i + 1) as nat, b as nat);
            lemma_shift_in(*t);
        }
        *t = *t << 1;
        *t = *t | 1;
        i += 1;
    }
    proof {
        lemma_shift_in(*t);
    }
    *t = *t << 1;
}

/// Takes the lowest field off the key in `t` and returns its value: the
/// closing zero bit goes, then the one bits above it are counted and go too.
pub fn read_i8(t: &mut u64) -> (res: i8)
    requires
        *old(t) % 2 == 0,
    ensures
        res == trailing_ones((*old(t) / 2) as nat),
        *final(t) == strip_ones((*old(t) / 2) as nat),
        *final(t) % 2 == 0,
{
    let mut res: i8 = 0;
    proof {
        lemma_shift_out(*t);
    }
    *t = *t >> 1;
    let ghost n0 = *t as nat;
    proof {
        vstd::arithmetic::power2::lemma2_to64_rest();
        lemma_trailing_bound(n0, 63);
        lemma_shift_out(*t);
    }
    while *t & 1 == 1
        invariant
            trailing_ones(n0) == res + trailing_ones(*t as nat),
            strip_ones(n0) == strip_ones(*t as nat),
            0 <= res,
            trailing_ones(n0) <= 63,
            *t & 1 == *t % 2,
        decreases *t,
    {
        proof {
            lemma_shift_out(*t);
        }
        res += 1;
        *t = *t >> 1;
        proof {
            lemma_shift_out(*t);
        }
    }
    res
}

impl Game {
    /// Whether the position is well-formed and holds at most 48 seeds.
    pub fn is_packable(&self) -> (ok: bool)
        ensures
            ok == self@.packable(),
    {
        self.is_valid() && self.seeds() <= 48
    }
}

/// The key of a position: its cells from the first of side 0 to the store of
/// side 1, then the turn, each as a field.
pub fn pack(g: &Game) -> (res: u64)
    requires
        g.wf(),
        g@.bits() <= 64,
    ensures
        res == g@.key(),
{
    let mut res: u64 = 0;
    proof {
        lemma_cells(*g);
        lemma_key_fits(g@);
    }
    for p in 0..2usize
        invariant
            g.wf(),
            g@.key() <= u64::MAX,
            res == g@.key_upto((p * 7) as nat),
    {
        for i in 0..7usize
            invariant
                g.wf(),
                g@.key() <= u64::MAX,
                p < 2,
                res == g@.key_upto((p * 7 + i) as nat),
        {
            proof {
                lemma_cells(*g);
                assert(g@.pit(p as int, i as int) == g.p[p as int][i as int]);
                lemma_key_upto(g@, (p * 7 + i + 1) as nat, 15);
            }
            send_i8(&mut res, g.p[p][i]);
        }
    }
    proof {
        lemma_key_upto(g@, 15, 15);
    }
    send_i8(&mut res, g.t);
    res
}

/// The position that a key stands for: the turn is read first, then the cells
/// from the store of side 1 back to the first cell of side 0.
pub fn unpack(d: u64) -> (res: Game)
    requires
        d % 2 == 0,
    ensures
        res@ == Board::decode(d as nat),
{
    let mut dd: u64 = d;
    let mut res: Game = Game::new();
    res.t = read_i8(&mut dd);
    proof {
        assert(rest(d as nat, 0) == d as nat);
        assert(rest(d as nat, 1) == strip_ones(rest(d as nat, 0) / 2));
    }
    let mut p: usize = 2;
    while p > 0
        invariant
            p <= 2,
            dd % 2 == 0,
            dd == rest(d as nat, (15 - p * 7) as nat),
            res.t == field(d as nat, 0),
            forall|sd: int, i: int|
                p <= sd < 2 && 0 <= i < 7 ==> #[trigger] res.p[sd][i] as int == field(
                    d as nat,
                    (14 - (sd * 7 + i)) as nat,
                ),
        decreases p,
    {
        p -= 1;
        let mut i: usize = 7;
        while i > 0
            invariant
                p < 2,
                i <= 7,
                dd % 2 == 0,
                dd == rest(d as nat, (15 - (p * 7 + i)) as nat),
                res.t == field(d as nat, 0),
                forall|sd: int, j: int|
                    p < sd < 2 && 0 <= j < 7 ==> #[trigger] res.p[sd][j] as int == field(
                        d as nat,
                        (14 - (sd * 7 + j)) as nat,
                    ),
                forall|j: int|
                    i <= j < 7 ==> #[trigger] res.p[p as int][j] as int == field(
                        d as nat,
                        (14 - (p * 7 + j)) as nat,
                    ),
            decreases i,
        {
            i -= 1;
            let ghost before = res;
            let v: i8 = read_i8(&mut dd);
            res.p[p][i] = v;
            proof {
                assert forall|sd: int, j: int|
                    p < sd < 2 && 0 <= j < 7 implies #[trigger] res.p[sd][j] as int
                    == field(d as nat, (14 - (sd * 7 + j)) as nat) by {
                    assert(res.p[sd][j] == before.p[sd][j]);
                }
                assert forall|j: int| i <= j < 7 implies #[trigger] res.p[p as int][j] as int == field(
                    d as nat,
                    (14 - (p * 7 + j)) as nat,
                ) by {
                    if j > i {
                        assert(res.p[p as int][j] == before.p[p as int][j]);
                    }
                }
            }
        }
    }
    proof {
        assert forall|x: int| 0 <= x < 14 implies res@.cells[x] == Board::decode(d as nat).cells[x] by {
            let sd = x / 7;
            let i = x % 7;
            assert(x == sd * 7 + i);
            assert(res.p[sd][i] as int == field(d as nat, (14 - (sd * 7 + i)) as nat));
        }
        assert(res@.cells =~= Board::decode(d as nat).cells);
    }
    res
}

} // verus!
