//! Why decryption undoes encryption, and what a run keeps of its input.

use crate::engine::{
    decrypt_split_index, decrypted, encrypt_split_index, encrypted, mix, recombine, round_step,
    run_rounds, split, Halves,
};
use crate::key_schedule::{lemma_schedule_symmetry, opposite, subkey_at, Direction};
use crate::round_function::round_output;
use vstd::prelude::*;

verus! {

/// The halves exchanged.
pub open spec fn swapped(halves: Halves) -> Halves {
    (halves.1, halves.0)
}

/// The two halves differ in length by at most one byte.
pub open spec fn near_balanced(halves: Halves) -> bool {
    halves.0.len() <= halves.1.len() + 1 && halves.1.len() <= halves.0.len() + 1
}

/// XOR with the same byte twice gives the first byte back.
proof fn lemma_xor_twice(a: u8, b: u8)
    ensures
        (a ^ b) ^ b == a,
{
    assert((a ^ b) ^ b == a) by (bit_vector);
}

/// Mixing twice with the same pad gives `left` back, as long as `left` is at
/// most one byte longer than the pad.
pub proof fn lemma_mix_twice(left: Seq<u8>, pad: Seq<u8>)
    requires
        left.len() <= pad.len() + 1,
    ensures
        mix(left, pad).len() == left.len(),
        mix(mix(left, pad), pad) == left,
{
    let once = mix(left, pad);
    let twice = mix(once, pad);
    assert forall|i: int| 0 <= i < left.len() implies twice[i] == left[i] by {
        if i < pad.len() {
            lemma_xor_twice(left[i], pad[i]);
        }
    }
}

/// A round on near-balanced halves exchanges their lengths.
pub proof fn lemma_round_exchanges_lengths(halves: Halves, subkey: Seq<u8>)
    requires
        near_balanced(halves),
    ensures
        round_step(halves, subkey).0.len() == halves.1.len(),
        round_step(halves, subkey).1.len() == halves.0.len(),
{
    lemma_mix_twice(halves.0, round_output(halves.1, subkey));
}

/// A run on near-balanced halves keeps them near-balanced: after an even
/// number of steps each half has the length it started with, after an odd
/// number the lengths are exchanged.
pub proof fn lemma_run_lengths(
    start: Halves,
    key: Seq<u8>,
    rounds: nat,
    direction: Direction,
    steps: nat,
)
    requires
        near_balanced(start),
    ensures
        near_balanced(run_rounds(start, key, rounds, direction, steps)),
        steps % 2 == 0 ==> {
            &&& run_rounds(start, key, rounds, direction, steps).0.len() == start.0.len()
            &&& run_rounds(start, key, rounds, direction, steps).1.len() == start.1.len()
        },
        steps % 2 == 1 ==> {
            &&& run_rounds(start, key, rounds, direction, steps).0.len() == start.1.len()
            &&& run_rounds(start, key, rounds, direction, steps).1.len() == start.0.len()
        },
    decreases steps,
{
    if steps > 0 {
        let before = (steps - 1) as nat;
        lemma_run_lengths(start, key, rounds, direction, before);
        lemma_round_exchanges_lengths(
            run_rounds(start, key, rounds, direction, before),
            subkey_at(key, before, rounds, direction),
        );
    }
}

/// A round is undone by exchanging the halves and running the round again
/// under the same subkey: what comes out is the input with its halves
/// exchanged.
pub proof fn lemma_round_undone(halves: Halves, subkey: Seq<u8>)
    requires
        halves.0.len() <= halves.1.len() + 1,
    ensures
        round_step(swapped(round_step(halves, subkey)), subkey) == swapped(halves),
{
    lemma_mix_twice(halves.0, round_output(halves.1, subkey));
}

/// A run in one direction is retraced by a run in the other direction that
/// starts from its exchanged end: after `steps` steps the second run holds
/// what the first one held `steps` steps before its end, exchanged.
pub proof fn lemma_opposite_run_retraces(
    start: Halves,
    key: Seq<u8>,
    rounds: nat,
    direction: Direction,
    steps: nat,
)
    requires
        near_balanced(start),
        steps <= rounds,
    ensures
        run_rounds(
            swapped(run_rounds(start, key, rounds, direction, rounds)),
            key,
            rounds,
            opposite(direction),
            steps,
        ) == swapped(run_rounds(start, key, rounds, direction, (rounds - steps) as nat)),
    decreases steps,
{
    if steps > 0 {
        let before = (steps - 1) as nat;
        let target = (rounds - steps) as nat;
        lemma_opposite_run_retraces(start, key, rounds, direction, before);
        let earlier = run_rounds(start, key, rounds, direction, target);
        let subkey = subkey_at(key, target, rounds, direction);
        lemma_run_lengths(start, key, rounds, direction, target);
        lemma_schedule_symmetry(key, target, rounds);
        assert(run_rounds(start, key, rounds, direction, (target + 1) as nat) == round_step(
            earlier,
            subkey,
        ));
        lemma_round_undone(earlier, subkey);
    }
}

/// A whole run is undone by cutting its output where its right half ends
/// and running the same number of rounds in the other direction.
proof fn lemma_run_undone(
    data: Seq<u8>,
    at: int,
    key: Seq<u8>,
    rounds: nat,
    direction: Direction,
)
    requires
        0 <= at <= data.len(),
        near_balanced(split(data, at)),
    ensures
        ({
            let end = run_rounds(split(data, at), key, rounds, direction, rounds);
            recombine(
                run_rounds(
                    split(recombine(end), end.1.len() as int),
                    key,
                    rounds,
                    opposite(direction),
                    rounds,
                ),
            ) == data
        }),
{
    let start = split(data, at);
    let end = run_rounds(start, key, rounds, direction, rounds);
    let back = split(recombine(end), end.1.len() as int);
    assert(back.0 =~= end.1);
    assert(back.1 =~= end.0);
    lemma_opposite_run_retraces(start, key, rounds, direction, rounds);
}

/// A ciphertext is as long as its plaintext, and what decryption returns is
/// as long as what it was given.
pub proof fn lemma_length_preserved(data: Seq<u8>, key: Seq<u8>, rounds: nat)
    ensures
        encrypted(data, key, rounds).len() == data.len(),
        decrypted(data, key, rounds).len() == data.len(),
{
    lemma_run_lengths(
        split(data, encrypt_split_index(data.len()) as int),
        key,
        rounds,
        Direction::Forward,
        rounds,
    );
    lemma_run_lengths(
        split(data, decrypt_split_index(data.len(), rounds) as int),
        key,
        rounds,
        Direction::Reverse,
        rounds,
    );
}

/// Decryption cuts a ciphertext exactly where the right half of the
/// encrypting run ended, whatever the parity of the length and of the round
/// count.
pub proof fn lemma_decrypt_cut_matches(plaintext: Seq<u8>, key: Seq<u8>, rounds: nat)
    ensures
        decrypt_split_index(encrypted(plaintext, key, rounds).len(), rounds) == run_rounds(
            split(plaintext, encrypt_split_index(plaintext.len()) as int),
            key,
            rounds,
            Direction::Forward,
            rounds,
        ).1.len(),
{
    let at = encrypt_split_index(plaintext.len()) as int;
    lemma_run_lengths(split(plaintext, at), key, rounds, Direction::Forward, rounds);
}

/// Decrypting a ciphertext under the key and round count that made it gives
/// the plaintext back, for every plaintext, key and round count.
pub proof fn lemma_round_trip(plaintext: Seq<u8>, key: Seq<u8>, rounds: nat)
    ensures
        decrypted(encrypted(plaintext, key, rounds), key, rounds) == plaintext,
{
    let at = encrypt_split_index(plaintext.len()) as int;
    lemma_decrypt_cut_matches(plaintext, key, rounds);
    lemma_run_undone(plaintext, at, key, rounds, Direction::Forward);
}

/// The other way round: encrypting what decryption returned gives the
/// ciphertext back. With `lemma_round_trip` this makes encryption, under a
/// fixed key and round count, a one-to-one map of the byte strings of each
/// length onto themselves, and decryption its inverse.
pub proof fn lemma_encrypt_undoes_decrypt(ciphertext: Seq<u8>, key: Seq<u8>, rounds: nat)
    ensures
        encrypted(decrypted(ciphertext, key, rounds), key, rounds) == ciphertext,
{
    let at = decrypt_split_index(ciphertext.len(), rounds) as int;
    lemma_run_lengths(split(ciphertext, at), key, rounds, Direction::Reverse, rounds);
    lemma_run_undone(ciphertext, at, key, rounds, Direction::Reverse);
}

/// With no rounds, encryption exchanges the two halves of its input and
/// does nothing else.
pub proof fn lemma_zero_rounds_exchange_halves(plaintext: Seq<u8>, key: Seq<u8>)
    ensures
        encrypted(plaintext, key, 0) == plaintext.subrange(
            plaintext.len() as int / 2,
            plaintext.len() as int,
        ) + plaintext.subrange(0, plaintext.len() as int / 2),
{
}

/// Results are functions of the inputs alone: equal plaintexts, keys and
/// round counts have equal ciphertexts, and likewise for decryption.
pub proof fn lemma_deterministic(
    data: Seq<u8>,
    key: Seq<u8>,
    rounds: nat,
    same_data: Seq<u8>,
    same_key: Seq<u8>,
    same_rounds: nat,
)
    requires
        data == same_data,
        key == same_key,
        rounds == same_rounds,
    ensures
        encrypted(data, key, rounds) == encrypted(same_data, same_key, same_rounds),
        decrypted(data, key, rounds) == decrypted(same_data, same_key, same_rounds),
{
}

} // verus!
