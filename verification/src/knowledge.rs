//! The knowledge store: the keys of the positions known to be won by their
//! mover and of those known to be drawn, how a new fact enters them, and how
//! they are written down as bytes.

use crate::board::{Board, Game, State};
use crate::codec::{lemma_key_fits, lemma_key_injective, pack};
use crate::expand::{boards, lemma_lost_successors, lemma_successors, next};
use crate::search::knowledge_sound;
use crate::value::lemma_value_decided;
use byteorder::{ByteOrder, LittleEndian};
use std::collections::HashSet;
use vstd::slice::slice_subrange;
use vstd::std_specs::hash::spec_hash_keys_iter;
use vstd::std_specs::iter::IteratorSpec;
use vstd::prelude::*;

verus! {

/// The keys of a sequence of positions.
pub open spec fn keys(positions: Seq<Board>) -> Seq<u64> {
    positions.map_values(|b: Board| b.key() as u64)
}

/// The known wins after the fact that position `b` has verdict `v`. A win for
/// the mover of `b` adds `b`. A win for the other side adds every position in
/// which the mover's turn can end: there the winner is to move. Any other
/// verdict adds nothing.
pub open spec fn learned_wins(wins: Set<u64>, b: Board, v: State) -> Set<u64> {
    match v {
        State::Win(p) => if p == b.turn {
            wins.insert(b.key() as u64)
        } else {
            wins.union(keys(b.successors()).to_set())
        },
        _ => wins,
    }
}

/// The known draws after the fact that position `b` has verdict `v`: a draw
/// adds `b`.
pub open spec fn learned_draws(draws: Set<u64>, b: Board, v: State) -> Set<u64> {
    if v == State::Draw {
        draws.insert(b.key() as u64)
    } else {
        draws
    }
}

/// How many of `fresh`, entered one after another into a set that holds
/// `have`, were in the set already.
pub open spec fn repeats(fresh: Seq<u64>, have: Set<u64>) -> nat
    decreases fresh.len(),
{
    if fresh.len() == 0 {
        0
    } else {
        (if have.contains(fresh[0]) {
            1nat
        } else {
            0nat
        }) + repeats(fresh.drop_first(), have.insert(fresh[0]))
    }
}

/// The keys that the fact `(b, v)` enters into the known wins, in order.
pub open spec fn entered_wins(b: Board, v: State) -> Seq<u64> {
    match v {
        State::Win(p) => if p == b.turn {
            seq![b.key() as u64]
        } else {
            keys(b.successors())
        },
        _ => Seq::empty(),
    }
}

/// True facts keep the knowledge true. Where the knowledge is sound and `v` is
/// the value of `b`, the knowledge with that fact merged into it is sound.
pub proof fn lemma_merge_sound(wins: Set<u64>, draws: Set<u64>, b: Board, v: State)
    requires
        knowledge_sound(wins, draws),
        b.packable(),
        v == b.value(),
    ensures
        knowledge_sound(learned_wins(wins, b, v), learned_draws(draws, b, v)),
{
    let wins2 = learned_wins(wins, b, v);
    let draws2 = learned_draws(draws, b, v);
    lemma_value_decided(b);
    lemma_key_fits(b);
    assert forall|c: Board| #![trigger c.key()] c.packable() && !c.finished() implies (wins2.contains(
        c.key() as u64,
    ) ==> c.value() == State::Win(c.turn as i8)) && (draws2.contains(c.key() as u64) ==> c.value()
        == State::Draw) by {
        let k = c.key() as u64;
        lemma_key_fits(c);
        assert(wins.contains(c.key() as u64) ==> c.value() == State::Win(c.turn as i8));
        assert(draws.contains(c.key() as u64) ==> c.value() == State::Draw);
        if k == b.key() as u64 {
            lemma_key_injective(c, b);
        }
        match v {
            State::Win(p) => {
                if p != b.turn && wins2.contains(k) && !wins.contains(k) {
                    let succ = b.successors();
                    assert(keys(succ).to_set().contains(k));
                    let j = choose|j: int| 0 <= j < keys(succ).len() && keys(succ)[j] == k;
                    let h = succ[j];
                    assert(b.value() == State::Win((1 - b.turn) as i8));
                    lemma_successors(b, 0);
                    lemma_lost_successors(b, 0);
                    assert(h.wf() && h.total() == b.total());
                    lemma_key_fits(h);
                    lemma_key_injective(c, h);
                }
            },
            _ => {},
        }
    }
}

/// Merges the fact that `game` has the verdict `outcome` into the knowledge.
/// A draw enters `game` among the known draws. A win for the mover of `game`
/// enters it among the known wins; a win for the other side enters there
/// every position in which the mover's turn can end. Returns how many of the
/// keys entered among the known wins were there already.
pub fn merge_fact(
    known_wins: &mut HashSet<u64>,
    known_draws: &mut HashSet<u64>,
    game: &Game,
    outcome: State,
) -> (again: usize)
    requires
        game@.packable(),
        outcome != State::InProgress,
    ensures
        final(known_wins)@ == learned_wins(old(known_wins)@, game@, outcome),
        final(known_draws)@ == learned_draws(old(known_draws)@, game@, outcome),
        again == repeats(entered_wins(game@, outcome), old(known_wins)@),
{
    let ghost wins0 = known_wins@;
    proof {
        lemma_key_fits(game@);
    }
    match outcome {
        State::Draw => {
            known_draws.insert(pack(game));
            0
        },
        State::Win(p) => {
            if p == game.t {
                let added: bool = known_wins.insert(pack(game));
                proof {
                    let fresh = seq![game@.key() as u64];
                    assert(fresh.drop_first() =~= Seq::<u64>::empty());
                    assert(repeats(fresh.drop_first(), wins0.insert(fresh[0])) == 0);
                }
                if added {
                    0
                } else {
                    1
                }
            } else {
                let list = next(game);
                let ghost fresh = keys(game@.successors());
                let mut again: usize = 0;
                let mut j: usize = 0;
                proof {
                    lemma_successors(game@, 0);
                    assert(fresh.subrange(0, fresh.len() as int) =~= fresh);
                    assert(wins0.union(fresh.subrange(0, 0).to_set()) =~= wins0);
                }
                while j < list.len()
                    invariant
                        j <= list.len(),
                        again <= j,
                        boards(list@) == game@.successors(),
                        fresh == keys(game@.successors()),
                        game@.packable(),
                        forall|x: int|
                            0 <= x < game@.successors().len() ==> {
                                let h = #[trigger] game@.successors()[x];
                                h.wf() && h.total() == game@.total()
                            },
                        known_wins@ == wins0.union(fresh.subrange(0, j as int).to_set()),
                        again + repeats(fresh.subrange(j as int, fresh.len() as int), known_wins@)
                            == repeats(fresh, wins0),
                    decreases list.len() - j,
                {
                    let g: Game = list[j];
                    proof {
                        assert(boards(list@)[j as int] == g@);
                        let h = game@.successors()[j as int];
                        assert(h.wf() && h.total() == game@.total());
                        lemma_key_fits(g@);
                        let rest = fresh.subrange(j as int, fresh.len() as int);
                        assert(rest[0] == g@.key() as u64);
                        assert(rest.drop_first() =~= fresh.subrange(j + 1, fresh.len() as int));
                        assert(fresh.subrange(0, j + 1) =~= fresh.subrange(0, j as int).push(
                            g@.key() as u64,
                        ));
                        lemma_push_to_set(fresh.subrange(0, j as int), g@.key() as u64);
                    }
                    let key: u64 = pack(&g);
                    if !known_wins.insert(key) {
                        again += 1;
                    }
                    proof {
                        assert(known_wins@ =~= wins0.union(fresh.subrange(0, j + 1).to_set()));
                    }
                    j += 1;
                }
                proof {
                    assert(fresh.subrange(0, fresh.len() as int) =~= fresh);
                    assert(fresh.len() == list@.len());
                }
                again
            }
        },
        State::InProgress => 0,
    }
}

/// The number that eight bytes stand for, the lowest byte first.
pub open spec fn le_value(s: Seq<u8>) -> nat {
    (s[0] as nat) + 0x100 * (s[1] as nat) + 0x1_0000 * (s[2] as nat) + 0x100_0000 * (s[3] as nat)
        + 0x1_0000_0000 * (s[4] as nat) + 0x100_0000_0000 * (s[5] as nat) + 0x1_0000_0000_0000 * (
    s[6] as nat) + 0x100_0000_0000_0000 * (s[7] as nat)
}

/// The keys written in `bytes`: one for each full run of eight bytes, in
/// order. A shorter rest at the end stands for nothing.
pub open spec fn stored_keys(bytes: Seq<u8>) -> Seq<u64> {
    Seq::new((bytes.len() / 8) as nat, |i: int| le_value(bytes.subrange(8 * i, 8 * i + 8)) as u64)
}

/// `byteorder::LittleEndian::read_u64`, which needs eight bytes and reads the
/// first eight of `buf` as one number, the lowest byte first. Believed, not
/// proved.
#[verifier::external_body]
fn read_le(buf: &[u8]) -> (v: u64)
    requires
        buf@.len() >= 8,
    ensures
        v == le_value(buf@.subrange(0, 8)),
{
    LittleEndian::read_u64(buf)
}

/// `byteorder::LittleEndian::write_u64` on a buffer of eight bytes, which it
/// fills with the bytes of `v`, the lowest first. Believed, not proved.
#[verifier::external_body]
fn write_le(v: u64) -> (out: [u8; 8])
    ensures
        le_value(out@) == v,
{
    let mut out = [0u8; 8];
    LittleEndian::write_u64(&mut out, v);
    out
}

/// Enters into `target` every key written in `bytes` and returns how many
/// were read. Bytes after the last full key are passed over.
pub fn load_keys(target: &mut HashSet<u64>, bytes: &[u8]) -> (count: u64)
    ensures
        final(target)@ == old(target)@.union(stored_keys(bytes@).to_set()),
        count == bytes@.len() / 8,
{
    let ghost all = stored_keys(bytes@);
    let ghost target0 = target@;
    let mut counter: u64 = 0;
    let mut at: usize = 0;
    proof {
        assert(target0.union(all.subrange(0, 0).to_set()) =~= target0);
    }
    while bytes.len() - at >= 8
        invariant
            at <= bytes@.len(),
            at == 8 * counter,
            all == stored_keys(bytes@),
            target@ == target0.union(all.subrange(0, counter as int).to_set()),
        decreases bytes@.len() - at,
    {
        let key: u64 = read_le(slice_subrange(bytes, at, at + 8));
        proof {
            assert(bytes@.subrange(at as int, at + 8).subrange(0, 8) =~= bytes@.subrange(
                8 * counter,
                8 * counter + 8,
            ));
            assert(all[counter as int] == key);
            let s0 = all.subrange(0, counter as int);
            assert(all.subrange(0, counter + 1) =~= s0.push(key));
            lemma_push_to_set(s0, key);
        }
        target.insert(key);
        counter += 1;
        at += 8;
    }
    proof {
        assert(all.subrange(0, counter as int) =~= all);
    }
    counter
}

/// The elements of a sequence with one more at its end are those of the
/// sequence and that one.
proof fn lemma_push_to_set(s: Seq<u64>, k: u64)
    ensures
        s.push(k).to_set() == s.to_set().insert(k),
{
    assert forall|y: u64| s.push(k).to_set().contains(y) implies s.to_set().insert(k).contains(
        y,
    ) by {
        let idx = choose|idx: int| 0 <= idx < s.push(k).len() && s.push(k)[idx] == y;
        if idx < s.len() {
            assert(s[idx] == y);
        }
    }
    assert forall|y: u64| s.to_set().insert(k).contains(y) implies s.push(k).to_set().contains(
        y,
    ) by {
        if y == k {
            assert(s.push(k)[s.len() as int] == k);
        } else {
            let idx = choose|idx: int| 0 <= idx < s.len() && s[idx] == y;
            assert(s.push(k)[idx] == y);
        }
    }
    assert(s.push(k).to_set() =~= s.to_set().insert(k));
}

/// Appends the eight bytes of `chunk` to `bytes`.
fn append_chunk(bytes: &mut Vec<u8>, chunk: &[u8; 8])
    ensures
        final(bytes)@ == old(bytes)@ + chunk@,
{
    let ghost before = bytes@;
    for i in 0..8usize
        invariant
            bytes@ == before + chunk@.subrange(0, i as int),
    {
        bytes.push(chunk[i]);
        assert(chunk@.subrange(0, i + 1) =~= chunk@.subrange(0, i as int).push(chunk@[i as int]));
    }
    assert(chunk@.subrange(0, 8) =~= chunk@);
}

/// The keys of `source` written out as bytes, eight for each key with the
/// lowest byte first, every key once, in the order in which the set hands
/// them out.
pub fn dump_keys(source: &HashSet<u64>) -> (bytes: Vec<u8>)
    ensures
        bytes@.len() == 8 * source@.len(),
        stored_keys(bytes@).to_set() == source@,
        stored_keys(bytes@).no_duplicates(),
{
    let mut bytes: Vec<u8> = Vec::new();
    for k in it: source.iter()
        invariant
            bytes@.len() == 8 * it.index(),
            forall|j: int|
                0 <= j < it.index() ==> le_value(#[trigger] bytes@.subrange(8 * j, 8 * j + 8))
                    == *it.seq()[j],
    {
        let ghost before = bytes@;
        let chunk: [u8; 8] = write_le(*k);
        append_chunk(&mut bytes, &chunk);
        proof {
            let n = it.index();
            assert forall|j: int| 0 <= j < n + 1 implies le_value(
                #[trigger] bytes@.subrange(8 * j, 8 * j + 8),
            ) == *it.seq()[j] by {
                if j < n {
                    assert(bytes@.subrange(8 * j, 8 * j + 8) =~= before.subrange(8 * j, 8 * j + 8));
                } else {
                    assert(bytes@.subrange(8 * j, 8 * j + 8) =~= chunk@);
                }
            }
        }
    }
    proof {
        let keys = stored_keys(bytes@);
        let handed = spec_hash_keys_iter(source).remaining();
        assert(keys =~= handed.unref()) by {
            assert forall|j: int| 0 <= j < keys.len() implies keys[j] == handed.unref()[j] by {
                assert(le_value(bytes@.subrange(8 * j, 8 * j + 8)) == *handed[j]);
            }
        }
        assert(keys.no_duplicates()) by {
            assert forall|i: int, j: int|
                0 <= i < keys.len() && 0 <= j < keys.len() && i != j implies keys[i]
                != keys[j] by {
                assert(handed[i] != handed[j]);
            }
        }
    }
    bytes
}

} // verus!
