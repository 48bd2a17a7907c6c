//! The Feistel engine: splitting, the round loop, recombination.

use crate::inverse::lemma_length_preserved;
use crate::key_schedule::{subkey, subkey_at, Direction};
use crate::round_function::{round_fn, round_output};
use vstd::prelude::*;

verus! {

/// The two halves that a run carries from round to round: left, then right.
pub type Halves = (Seq<u8>, Seq<u8>);

/// `left` combined with the round function's output `pad`: byte-wise XOR as
/// far as both reach. Where `left` is the longer one, its last byte follows
/// unchanged.
pub open spec fn mix(left: Seq<u8>, pad: Seq<u8>) -> Seq<u8> {
    if left.len() <= pad.len() {
        Seq::new(left.len(), |i: int| left[i] ^ pad[i])
    } else {
        Seq::new(pad.len(), |i: int| left[i] ^ pad[i]).push(left.last())
    }
}

/// One round: the right half passes through to the left, and the left half,
/// mixed with the round function of the right half, becomes the right.
pub open spec fn round_step(halves: Halves, subkey: Seq<u8>) -> Halves {
    (halves.1, mix(halves.0, round_output(halves.1, subkey)))
}

/// The halves after the first `steps` steps of a run of `rounds` rounds that
/// starts from `start`.
pub open spec fn run_rounds(
    start: Halves,
    key: Seq<u8>,
    rounds: nat,
    direction: Direction,
    steps: nat,
) -> Halves
    decreases steps,
{
    if steps == 0 {
        start
    } else {
        round_step(
            run_rounds(start, key, rounds, direction, (steps - 1) as nat),
            subkey_at(key, (steps - 1) as nat, rounds, direction),
        )
    }
}

/// `data` cut in two at `at`.
pub open spec fn split(data: Seq<u8>, at: int) -> Halves {
    (data.subrange(0, at), data.subrange(at, data.len() as int))
}

/// The halves put back together, right half first.
pub open spec fn recombine(halves: Halves) -> Seq<u8> {
    halves.1 + halves.0
}

/// Where encryption cuts an input of `len` bytes: in the middle, the left
/// half being the shorter one for an odd length.
pub open spec fn encrypt_split_index(len: nat) -> nat {
    len / 2
}

/// Where decryption cuts an input of `len` bytes. After an even number of
/// rounds the longer half of an odd-length ciphertext comes first.
pub open spec fn decrypt_split_index(len: nat, rounds: nat) -> nat {
    if rounds % 2 == 0 && len % 2 == 1 {
        len / 2 + 1
    } else {
        len / 2
    }
}

/// The ciphertext of `plaintext` under `key` after `rounds` rounds.
pub open spec fn encrypted(plaintext: Seq<u8>, key: Seq<u8>, rounds: nat) -> Seq<u8> {
    recombine(
        run_rounds(
            split(plaintext, encrypt_split_index(plaintext.len()) as int),
            key,
            rounds,
            Direction::Forward,
            rounds,
        ),
    )
}

/// What decryption makes of `ciphertext` under `key` with `rounds` rounds.
pub open spec fn decrypted(ciphertext: Seq<u8>, key: Seq<u8>, rounds: nat) -> Seq<u8> {
    recombine(
        run_rounds(
            split(ciphertext, decrypt_split_index(ciphertext.len(), rounds) as int),
            key,
            rounds,
            Direction::Reverse,
            rounds,
        ),
    )
}

/// Mixes `left` with the round function's output `pad`.
pub fn mix_halves(left: &[u8], pad: &[u8]) -> (out: Vec<u8>)
    ensures
        out@ == mix(left@, pad@),
{
    let shared: usize = if left.len() <= pad.len() {
        left.len()
    } else {
        pad.len()
    };
    let mut out: Vec<u8> = Vec::with_capacity(left.len());
    let mut i: usize = 0;
    while i < shared
        invariant
            i <= shared,
            shared <= left.len(),
            shared <= pad.len(),
            out@.len() == i,
            forall|j: int| 0 <= j < i ==> out@[j] == left@[j] ^ pad@[j],
        decreases shared - i,
    {
        out.push(left[i] ^ pad[i]);
        i += 1;
    }
    if left.len() > pad.len() {
        out.push(left[left.len() - 1]);
    }
    out
}

/// Runs one round on `left` and `right` under `subkey`.
pub fn feistel_round(left: Vec<u8>, right: Vec<u8>, subkey: &[u8]) -> (out: (Vec<u8>, Vec<u8>))
    ensures
        (out.0@, out.1@) == round_step((left@, right@), subkey@),
{
    let pad = round_fn(right.as_slice(), subkey);
    let mixed = mix_halves(left.as_slice(), pad.as_slice());
    (right, mixed)
}

/// Runs all `rounds` rounds in the given direction on `data` cut at `at`, and
/// recombines the halves.
fn run(data: &[u8], at: usize, key: &[u8], rounds: u32, direction: Direction) -> (out: Vec<u8>)
    requires
        at <= data@.len(),
    ensures
        out@ == recombine(
            run_rounds(split(data@, at as int), key@, rounds as nat, direction, rounds as nat),
        ),
{
    let (l, r) = data.split_at(at);
    let mut left: Vec<u8> = Vec::new();
    left.extend_from_slice(l);
    let mut right: Vec<u8> = Vec::new();
    right.extend_from_slice(r);
    let mut i: u32 = 0;
    while i < rounds
        invariant
            i <= rounds,
            (left@, right@) == run_rounds(
                split(data@, at as int),
                key@,
                rounds as nat,
                direction,
                i as nat,
            ),
        decreases rounds - i,
    {
        let round_key = subkey(key, i, rounds, direction);
        let next = feistel_round(left, right, round_key.as_slice());
        left = next.0;
        right = next.1;
        i += 1;
    }
    right.append(&mut left);
    right
}

/// Encrypts `plaintext` under `key` with `rounds` Feistel rounds. With no
/// rounds the result is the input with its two halves exchanged.
pub fn feistel_encrypt(plaintext: &[u8], key: &[u8], rounds: u32) -> (ciphertext: Vec<u8>)
    ensures
        ciphertext@ == encrypted(plaintext@, key@, rounds as nat),
        ciphertext@.len() == plaintext@.len(),
{
    proof {
        lemma_length_preserved(plaintext@, key@, rounds as nat);
    }
    run(plaintext, plaintext.len() / 2, key, rounds, Direction::Forward)
}

/// Decrypts `ciphertext` under `key` with `rounds` Feistel rounds: the same
/// rounds with the key schedule walked backwards, from the cut that
/// encryption left behind.
pub fn feistel_decrypt(ciphertext: &[u8], key: &[u8], rounds: u32) -> (plaintext: Vec<u8>)
    ensures
        plaintext@ == decrypted(ciphertext@, key@, rounds as nat),
        plaintext@.len() == ciphertext@.len(),
{
    proof {
        lemma_length_preserved(ciphertext@, key@, rounds as nat);
    }
    let len: usize = ciphertext.len();
    let at: usize = if rounds % 2 == 0 && len % 2 == 1 {
        len / 2 + 1
    } else {
        len / 2
    };
    run(ciphertext, at, key, rounds, Direction::Reverse)
}

} // verus!
