//! The functional model of the cipher: the magic constants, the key-schedule
//! expansion and the round transforms, written as pure functions of the
//! construction parameters `(w, r, b)` and the key bytes. The executable
//! code is specified against these functions, so that two runs with the
//! same parameters and key are pinned to the same table and the same blocks.

use vstd::prelude::*;

verus! {

use vstd::arithmetic::power2::pow2;
use crate::word::{wadd, wmask, wsub, rotl, rotr, bucket_of};

/// The low 64 bits of the fractional binary expansion of e, the seed
/// constant of the subkey table.
pub const P64: u64 = 0xB7E1_5162_8AED_2A6B;

/// The low 64 bits of the fractional binary expansion of the golden ratio,
/// the step constant of the subkey table.
pub const Q64: u64 = 0x9E37_79B9_7F4A_7C15;

/// Forces the low bit set: the magic constants must be odd.
pub open spec fn make_odd(x: u64) -> u64 {
    if x % 2 == 1 {
        x
    } else {
        (x + 1) as u64
    }
}

/// The number of whole bytes that a `w`-bit word holds, at least one.
pub open spec fn bytes_per_word(w: nat) -> nat {
    if w / 8 >= 1 {
        w / 8
    } else {
        1
    }
}

/// The number of key words `c`: the key length in bytes (at least one, so
/// that an empty key still yields one zero word), divided by the bytes per
/// word, rounded up.
pub open spec fn key_words(w: nat, b: nat) -> nat {
    let bb: nat = if b == 0 {
        1
    } else {
        b
    };
    (bb + bytes_per_word(w) - 1) as nat / bytes_per_word(w)
}

/// The subkey table length `t = 2 * (r + 1)`.
pub open spec fn table_len(r: nat) -> nat {
    2 * (r + 1)
}

/// The first magic constant for width `w`: the top `w` bits of the 64-bit
/// expansion, forced odd.
pub open spec fn p_of(w: nat) -> u64
    recommends
        1 <= w <= 64,
{
    make_odd(((P64 as int) / (pow2((64 - w) as nat) as int)) as u64)
}

/// The second magic constant for width `w`.
pub open spec fn q_of(w: nat) -> u64
    recommends
        1 <= w <= 64,
{
    make_odd(((Q64 as int) / (pow2((64 - w) as nat) as int)) as u64)
}

/// The key words after folding in the last `j` key bytes, highest index
/// first: each target word is rotated left by eight bits and the byte is
/// added in at the storage width.
pub open spec fn folded_words(w: nat, b: nat, key: Seq<u8>, j: nat) -> Seq<u64>
    recommends
        1 <= w <= 64,
        j <= b,
        key.len() == b,
    decreases j,
{
    if j == 0 {
        Seq::new(key_words(w, b), |i: int| 0u64)
    } else {
        let prev = folded_words(w, b, key, (j - 1) as nat);
        let i = b - j;
        let li = i as int / (bytes_per_word(w) as int);
        prev.update(li, wadd(rotl(prev[li], 8, w), key[i as int] as u64, bucket_of(w)))
    }
}

/// Entry `i` of the freshly seeded subkey table: the first entry is `p`,
/// and each further entry adds `q` at the storage width and truncates to
/// `w` bits.
pub open spec fn seed_at(w: nat, i: nat) -> u64
    recommends
        1 <= w <= 64,
    decreases i,
{
    if i == 0 {
        p_of(w)
    } else {
        wmask(wadd(seed_at(w, (i - 1) as nat), q_of(w), bucket_of(w)), w)
    }
}

/// The seeded subkey table of length `t`.
pub open spec fn seeded_table(w: nat, r: nat) -> Seq<u64> {
    Seq::new(table_len(r), |i: int| seed_at(w, i as nat))
}

/// One mixing step on the state `(a, b, subkeys, keywords)`: the running
/// pair is stirred into the subkey table at index `i` and into the key
/// words at index `j`, with a data-dependent rotation for the second half.
pub open spec fn mix_step(
    w: nat,
    st: (u64, u64, Seq<u64>, Seq<u64>),
    i: int,
    j: int,
) -> (u64, u64, Seq<u64>, Seq<u64>) {
    let k = bucket_of(w);
    let a2 = rotl(wadd(st.2[i], wadd(st.0, st.1, k), k), 3, w);
    let ab = wadd(a2, st.1, k);
    let b2 = rotl(wadd(st.3[j], ab, k), ab, w);
    (a2, b2, st.2.update(i, a2), st.3.update(j, b2))
}

/// The mixing state after `n` iterations, starting from the seeded table,
/// the folded key words and a zero pair; the indices cycle through both
/// sequences.
pub open spec fn mixed(w: nat, r: nat, b: nat, key: Seq<u8>, n: nat) -> (
    u64,
    u64,
    Seq<u64>,
    Seq<u64>,
)
    recommends
        1 <= w <= 64,
        key.len() == b,
    decreases n,
{
    if n == 0 {
        (0u64, 0u64, seeded_table(w, r), folded_words(w, b, key, b))
    } else {
        let prev = mixed(w, r, b, key, (n - 1) as nat);
        mix_step(
            w,
            prev,
            ((n - 1) as int) % (table_len(r) as int),
            ((n - 1) as int) % (key_words(w, b) as int),
        )
    }
}

/// The number of mixing iterations: three passes over the longer of the
/// subkey table and the key words.
pub open spec fn mix_iters(w: nat, r: nat, b: nat) -> nat {
    3 * (if table_len(r) >= key_words(w, b) {
        table_len(r)
    } else {
        key_words(w, b)
    })
}

/// The subkey table produced by `setup`: a function of the construction
/// parameters and the key bytes alone, so the schedule is deterministic.
pub open spec fn key_schedule(w: nat, r: nat, b: nat, key: Seq<u8>) -> Seq<u64>
    recommends
        1 <= w <= 64,
        key.len() == b,
{
    mixed(w, r, b, key, mix_iters(w, r, b)).2
}

/// Round `i` of encryption: each half is XORed with the other, rotated by
/// a data-dependent count, added to a subkey at the storage width and
/// truncated to `w` bits; the second half sees the first one's new value.
pub open spec fn enc_round(ab: (u64, u64), s: Seq<u64>, w: nat, k: nat, i: nat) -> (u64, u64)
    recommends
        1 <= w <= k <= 64,
        s.len() >= 2 * i + 2,
{
    let a = wmask(wadd(rotl(ab.0 ^ ab.1, ab.1, w), s[2 * (i as int)], k), w);
    let bb = wmask(wadd(rotl(ab.1 ^ a, a, w), s[2 * (i as int) + 1], k), w);
    (a, bb)
}

/// The block state after the whitening step and the first `i` rounds of
/// encryption.
pub open spec fn enc_state(p0: u64, p1: u64, s: Seq<u64>, w: nat, k: nat, i: nat) -> (u64, u64)
    recommends
        1 <= w <= k <= 64,
        s.len() >= 2 * i + 2,
    decreases i,
{
    if i == 0 {
        (wadd(p0, s[0], k), wadd(p1, s[1], k))
    } else {
        enc_round(enc_state(p0, p1, s, w, k, (i - 1) as nat), s, w, k, i)
    }
}

/// What `encrypt` returns: the whitened block driven through all `r`
/// rounds.
pub open spec fn spec_encrypt(p0: u64, p1: u64, s: Seq<u64>, w: nat, k: nat, r: nat) -> (
    u64,
    u64,
) {
    enc_state(p0, p1, s, w, k, r)
}

/// Undoing round `i`: the mirror of an encryption round, subtracting the
/// subkeys at the storage width and rotating right.
pub open spec fn dec_round(c: (u64, u64), s: Seq<u64>, w: nat, k: nat, i: nat) -> (u64, u64) {
    let b2 = rotr(wmask(wsub(c.1, s[2 * (i as int) + 1], k), w), c.0, w) ^ c.0;
    let a2 = rotr(wmask(wsub(c.0, s[2 * (i as int)], k), w), b2, w) ^ b2;
    (a2, b2)
}

/// The block state after undoing rounds `i` down to `1`.
pub open spec fn dec_rounds(c: (u64, u64), s: Seq<u64>, w: nat, k: nat, i: nat) -> (u64, u64)
    decreases i,
{
    if i == 0 {
        c
    } else {
        dec_rounds(dec_round(c, s, w, k, i), s, w, k, (i - 1) as nat)
    }
}

/// What `decrypt` returns: all rounds undone from the top down, then the
/// whitening subtracted.
pub open spec fn spec_decrypt(c0: u64, c1: u64, s: Seq<u64>, w: nat, k: nat, r: nat) -> (
    u64,
    u64,
) {
    let ab = dec_rounds((c0, c1), s, w, k, r);
    (wsub(ab.0, s[0], k), wsub(ab.1, s[1], k))
}

} // verus!
