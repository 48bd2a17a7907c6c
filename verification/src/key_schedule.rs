//! The key schedule: one subkey per round, derived from the master key and
//! the round's position in the forward order.

use crate::bits::{bit_count, count_ones, lemma_rotate_left_mod8, rotate_byte_left, rotate_left};
use vstd::prelude::*;

verus! {

/// The order in which a run walks through the rounds.
#[derive(Clone, Copy, Debug)]
pub enum Direction {
    /// Encryption: step `i` is forward round `i`.
    Forward,
    /// Decryption: step `i` is forward round `rounds - i - 1`.
    Reverse,
}

/// The other direction.
pub open spec fn opposite(direction: Direction) -> Direction {
    match direction {
        Direction::Forward => Direction::Reverse,
        Direction::Reverse => Direction::Forward,
    }
}

/// The forward round that step `round_index` of a run of `rounds` rounds
/// stands for.
pub open spec fn effective_round(round_index: nat, rounds: nat, direction: Direction) -> int {
    match direction {
        Direction::Forward => round_index as int,
        Direction::Reverse => rounds - round_index - 1,
    }
}

/// The sum, over all bytes of `key`, of their set-bit counts.
pub open spec fn popcount_sum(key: Seq<u8>) -> nat
    decreases key.len(),
{
    if key.len() == 0 {
        0
    } else {
        popcount_sum(key.drop_last()) + bit_count(key.last() as nat)
    }
}

/// The rotation amount of forward round `round`. It is not reduced here:
/// the rotation itself works modulo the width of a byte.
pub open spec fn salt(key: Seq<u8>, round: nat) -> nat {
    popcount_sum(key) + round
}

/// The subkey of forward round `round`: every byte of `key` rotated left by
/// the round's salt. An empty key has an empty subkey in every round.
pub open spec fn subkey_of_round(key: Seq<u8>, round: nat) -> Seq<u8> {
    Seq::new(key.len(), |i: int| rotate_left(key[i], salt(key, round)))
}

/// The subkey used at step `round_index` of a run in the given direction.
pub open spec fn subkey_at(key: Seq<u8>, round_index: nat, rounds: nat, direction: Direction) -> Seq<
    u8,
> {
    subkey_of_round(key, effective_round(round_index, rounds, direction) as nat)
}

/// The key's set-bit sum, reduced modulo 8. The sum itself may exceed any
/// machine integer; its residue is all that a rotation needs.
pub fn popcount_sum_mod8(key: &[u8]) -> (residue: u8)
    ensures
        residue == popcount_sum(key@) % 8,
{
    let mut residue: u8 = 0;
    let mut i: usize = 0;
    while i < key.len()
        invariant
            i <= key.len(),
            residue == popcount_sum(key@.take(i as int)) % 8,
        decreases key.len() - i,
    {
        let ones = count_ones(key[i]);
        proof {
            assert(key@.take(i + 1).drop_last() == key@.take(i as int));
        }
        residue = (residue + ones) % 8;
        i += 1;
    }
    proof {
        assert(key@.take(i as int) == key@);
    }
    residue
}

/// The residue of a sum modulo 8 is the residue of the sum of the residues.
proof fn lemma_residues_add(a: nat, b: nat)
    ensures
        (a % 8 + b % 8) % 8 == (a + b) % 8,
{
}

/// Derives the subkey for step `round_index` of a run of `rounds` rounds.
pub fn subkey(key: &[u8], round_index: u32, rounds: u32, direction: Direction) -> (out: Vec<u8>)
    requires
        round_index < rounds,
    ensures
        out@ == subkey_at(key@, round_index as nat, rounds as nat, direction),
        out@.len() == key@.len(),
{
    let round: u32 = match direction {
        Direction::Forward => round_index,
        Direction::Reverse => rounds - round_index - 1,
    };
    let residue: u8 = popcount_sum_mod8(key);
    let amount: u32 = (residue as u32 + round % 8) % 8;
    let ghost full = salt(key@, round as nat);
    proof {
        lemma_residues_add(popcount_sum(key@), round as nat);
    }
    let mut out: Vec<u8> = Vec::with_capacity(key.len());
    let mut i: usize = 0;
    while i < key.len()
        invariant
            i <= key.len(),
            out@.len() == i,
            amount == full % 8,
            forall|j: int| 0 <= j < i ==> out@[j] == rotate_left(key@[j], full),
        decreases key.len() - i,
    {
        proof {
            lemma_rotate_left_mod8(key@[i as int], full);
        }
        out.push(rotate_byte_left(key[i], amount));
        i += 1;
    }
    out
}

/// The schedule is symmetric: forward step `j` and reverse step
/// `rounds - 1 - j` of a run of `rounds` rounds use the same subkey, that of
/// forward round `j`. The same holds with the two directions exchanged.
pub proof fn lemma_schedule_symmetry(key: Seq<u8>, j: nat, rounds: nat)
    requires
        j < rounds,
    ensures
        subkey_at(key, j, rounds, Direction::Forward) == subkey_at(
            key,
            (rounds - 1 - j) as nat,
            rounds,
            Direction::Reverse,
        ),
        subkey_at(key, j, rounds, Direction::Forward) == subkey_of_round(key, j),
        forall|direction: Direction|
            subkey_at(key, j, rounds, direction) == #[trigger] subkey_at(
                key,
                (rounds - 1 - j) as nat,
                rounds,
                opposite(direction),
            ),
{
}

} // verus!
