//! Sowing round the ring: which cell receives how many of the seeds taken
//! up.

use vstd::prelude::*;

verus! {

/// Steps from pit `s` of the side to move forward to ring cell `c`. The ring
/// is the order of play as the mover sees it: its own pits are cells 0 to 5,
/// its store is cell 6, and the opponent's pits are cells 7 to 12. The way
/// from a cell round to itself is 13 steps.
pub open spec fn ring_dist(s: int, c: int) -> int {
    if c > s {
        c - s
    } else {
        c - s + 13
    }
}

/// Seeds that ring cell `c` receives when `k` seeds are sown from pit `s`:
/// the seeds numbered `d`, `d + 13`, `d + 26`, ... up to `k`, where `d` is the
/// way from `s` to `c`.
#[verifier::opaque]
pub open spec fn share(s: int, k: int, c: int) -> int {
    (k + 13 - ring_dist(s, c)) / 13
}

/// A share is one for each full round of the board, and one more for the
/// cells within reach of the seeds left over.
pub proof fn lemma_share_form(s: int, k: int, c: int)
    requires
        0 <= s < 6,
        0 <= k,
        0 <= c < 13,
    ensures
        share(s, k, c) == k / 13 + (if ring_dist(s, c) <= k % 13 {
            1int
        } else {
            0int
        }),
{
    reveal(share);
    let q = k / 13;
    let r = k % 13;
    let d = ring_dist(s, c);
    assert(k + 13 - d == 13 * q + (r + 13 - d));
    if d <= r {
        assert((k + 13 - d) / 13 == q + 1);
    } else {
        assert((k + 13 - d) / 13 == q);
    }
}

/// Sowing hands out exactly the seeds that were taken up: the shares of the
/// thirteen ring cells add up to `k`.
pub proof fn lemma_shares_sum(s: int, k: int)
    requires
        0 <= s < 6,
        0 <= k,
    ensures
        share(s, k, 0) + share(s, k, 1) + share(s, k, 2) + share(s, k, 3) + share(s, k, 4) + share(
            s,
            k,
            5,
        ) + share(s, k, 6) + share(s, k, 7) + share(s, k, 8) + share(s, k, 9) + share(s, k, 10)
            + share(s, k, 11) + share(s, k, 12) == k,
        forall|c: int| 0 <= c < 13 ==> 0 <= #[trigger] share(s, k, c) <= k,
{
    assert forall|c: int| 0 <= c < 13 implies 0 <= #[trigger] share(s, k, c) <= k by {
        lemma_share_form(s, k, c);
    }
    lemma_share_form(s, k, 0);
    lemma_share_form(s, k, 1);
    lemma_share_form(s, k, 2);
    lemma_share_form(s, k, 3);
    lemma_share_form(s, k, 4);
    lemma_share_form(s, k, 5);
    lemma_share_form(s, k, 6);
    lemma_share_form(s, k, 7);
    lemma_share_form(s, k, 8);
    lemma_share_form(s, k, 9);
    lemma_share_form(s, k, 10);
    lemma_share_form(s, k, 11);
    lemma_share_form(s, k, 12);
}

/// Fewer than thirteen seeds go one each to the cells that follow the pit.
pub proof fn lemma_short_sow(s: int, k: int, c: int)
    requires
        0 <= s < 6,
        0 <= k < 13,
        0 <= c < 13,
    ensures
        share(s, k, c) == (if ring_dist(s, c) <= k {
            1int
        } else {
            0int
        }),
{
    reveal(share);
}

/// The seed numbered `j + 1` goes to the ring cell `j + 1` steps after the
/// pit, and to no other.
pub proof fn lemma_next_seed(s: int, j: int, c: int)
    requires
        0 <= s < 6,
        0 <= j,
        0 <= c < 13,
    ensures
        share(s, j + 1, c) == share(s, j, c) + (if c == (s + j + 1) % 13 {
            1int
        } else {
            0int
        }),
{
    reveal(share);
    let d = ring_dist(s, c);
    let q = j / 13;
    let r = j % 13;
    assert(1 <= d <= 13);
    assert(j + 13 - d == 13 * q + (r + 13 - d));
    assert(j + 1 + 13 - d == 13 * q + (r + 14 - d));
    assert(s + j + 1 == 13 * q + (s + r + 1));
    if r + 1 == d {
        assert((j + 13 - d) / 13 == q);
        assert((j + 1 + 13 - d) / 13 == q + 1);
        assert((s + j + 1) % 13 == c);
    } else if r + 1 > d {
        assert((j + 13 - d) / 13 == q + 1);
        assert((j + 1 + 13 - d) / 13 == q + 1);
        assert((s + j + 1) % 13 != c);
    } else {
        assert((j + 13 - d) / 13 == q);
        assert((j + 1 + 13 - d) / 13 == q);
        assert((s + j + 1) % 13 != c);
    }
}

} // verus!
