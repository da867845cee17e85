//! Statistics of random play: how often each game length occurs.

use vstd::prelude::*;

verus! {

/// How often `x` occurs in `s`.
pub open spec fn occurrences(s: Seq<usize>, x: usize) -> nat
    decreases s.len(),
{
    if s.len() == 0 {
        0
    } else {
        occurrences(s.drop_last(), x) + (if s.last() == x {
            1nat
        } else {
            0nat
        })
    }
}

/// The histogram `hist` has an entry for the length `x`.
pub open spec fn listed(hist: Seq<(usize, usize)>, x: usize) -> bool {
    exists|i: int| 0 <= i < hist.len() && (#[trigger] hist[i]).0 == x
}

/// A value occurs in a sequence no more often than the sequence is long.
pub proof fn lemma_occurrences_bound(s: Seq<usize>, x: usize)
    ensures
        occurrences(s, x) <= s.len(),
    decreases s.len(),
{
    if s.len() > 0 {
        lemma_occurrences_bound(s.drop_last(), x);
    }
}

/// The histogram of `lengths`: each length that occurs, once, with the number
/// of times it occurs, the lengths in rising order.
pub fn histogram(lengths: &Vec<usize>) -> (hist: Vec<(usize, usize)>)
    ensures
        forall|i: int, j: int| 0 <= i < j < hist@.len() ==> hist@[i].0 < hist@[j].0,
        forall|i: int|
            0 <= i < hist@.len() ==> (#[trigger] hist@[i]).1 > 0 && hist@[i].1 == occurrences(
                lengths@,
                hist@[i].0,
            ),
        forall|x: usize| #[trigger] occurrences(lengths@, x) > 0 ==> listed(hist@, x),
{
    let mut hist: Vec<(usize, usize)> = Vec::new();
    assert(lengths@.take(0) =~= Seq::<usize>::empty());
    let mut k: usize = 0;
    while k < lengths.len()
        invariant
            k <= lengths@.len(),
            forall|i: int, j: int| 0 <= i < j < hist@.len() ==> hist@[i].0 < hist@[j].0,
            forall|i: int|
                0 <= i < hist@.len() ==> (#[trigger] hist@[i]).1 > 0 && hist@[i].1 == occurrences(
                    lengths@.take(k as int),
                    hist@[i].0,
                ),
            forall|x: usize|
                #[trigger] occurrences(lengths@.take(k as int), x) > 0 ==> listed(hist@, x),
        decreases lengths@.len() - k,
    {
        let x: usize = lengths[k];
        let ghost seen = lengths@.take(k as int);
        let ghost more = lengths@.take(k + 1);
        let ghost before = hist@;
        proof {
            assert(more.drop_last() =~= seen);
            assert(more.last() == x);
            assert forall|y: usize| #[trigger] occurrences(more, y) == occurrences(seen, y) + (if y
                == x {
                1nat
            } else {
                0nat
            }) by {}
            lemma_occurrences_bound(seen, x);
        }
        let mut i: usize = 0;
        while i < hist.len() && hist[i].0 < x
            invariant
                i <= hist@.len(),
                hist@ == before,
                forall|j: int| 0 <= j < i ==> (#[trigger] hist@[j]).0 < x,
            decreases hist@.len() - i,
        {
            i += 1;
        }
        if i < hist.len() && hist[i].0 == x {
            let count: usize = hist[i].1;
            hist[i] = (x, count + 1);
            proof {
                assert forall|j: int| 0 <= j < hist@.len() implies (#[trigger] hist@[j]).1 > 0
                    && hist@[j].1 == occurrences(more, hist@[j].0) by {
                    if j != i {
                        assert(hist@[j] == before[j]);
                        assert(before[j].0 != x);
                    }
                }
                assert forall|y: usize| #[trigger] occurrences(more, y) > 0 implies listed(hist@, y) by {
                    if y == x {
                        assert(hist@[i as int].0 == y);
                    } else {
                        assert(listed(before, y));
                        let j = choose|j: int| 0 <= j < before.len() && (#[trigger] before[j]).0 == y;
                        assert(hist@[j].0 == y);
                    }
                }
            }
        } else {
            proof {
                if occurrences(seen, x) > 0 {
                    assert(listed(before, x));
                    let j = choose|j: int| 0 <= j < before.len() && (#[trigger] before[j]).0 == x;
                    if j < i {
                        assert(before[j].0 < x);
                    } else if j > i {
                        assert(before[i as int].0 < before[j].0);
                    }
                }
            }
            hist.insert(i, (x, 1));
            proof {
                assert forall|a: int, b: int|
                    0 <= a < b < hist@.len() implies hist@[a].0 < hist@[b].0 by {
                    let a0 = if a < i { a } else { a - 1 };
                    let b0 = if b < i { b } else { b - 1 };
                    if a != i && b != i {
                        assert(before[a0].0 < before[b0].0);
                    } else if a == i {
                        assert(hist@[b] == before[b0]);
                    } else {
                        assert(hist@[a] == before[a0]);
                    }
                }
                assert forall|j: int| 0 <= j < hist@.len() implies (#[trigger] hist@[j]).1 > 0
                    && hist@[j].1 == occurrences(more, hist@[j].0) by {
                    if j < i {
                        assert(hist@[j] == before[j]);
                    } else if j > i {
                        assert(hist@[j] == before[j - 1]);
                        assert(before[i as int].0 < before[j - 1].0 || i == j - 1);
                    }
                }
                assert forall|y: usize| #[trigger] occurrences(more, y) > 0 implies listed(hist@, y) by {
                    if y == x {
                        assert(hist@[i as int].0 == y);
                    } else {
                        assert(listed(before, y));
                        let j = choose|j: int| 0 <= j < before.len() && (#[trigger] before[j]).0 == y;
                        if j < i {
                            assert(hist@[j] == before[j]);
                        } else {
                            assert(hist@[j + 1] == before[j]);
                        }
                    }
                }
            }
        }
        k += 1;
    }
    proof {
        assert(lengths@.take(lengths@.len() as int) =~= lengths@);
    }
    hist
}

} // verus!
