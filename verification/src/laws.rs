//! The laws of the cipher, proved once and for all over the functional
//! model: the key schedule is a well-formed deterministic table, rotation
//! right undoes rotation left, zero rounds degenerate to the whitening
//! step alone, and decryption inverts encryption.

use vstd::prelude::*;

verus! {

use vstd::arithmetic::power2::{
    pow2,
    lemma_pow2_unfold,
    lemma_pow2_strictly_increases,
    lemma2_to64,
};
use vstd::arithmetic::div_mod::{
    lemma_multiply_divide_lt,
    lemma_mod_bound,
    lemma_div_is_ordered,
    lemma_div_plus_one,
    lemma_div_pos_is_pos,
};
use crate::word::{
    wadd,
    wmask,
    rotl,
    bucket_of,
    lemma_pow2_le64,
    lemma_wadd,
    lemma_wmask,
    lemma_rotl_bound,
    lemma_xor_bound,
    lemma_xor_cancel,
    lemma_add_sub_cancel,
    lemma_round_add_inverse,
    lemma_rotation_involution,
};
use crate::model::{
    P64,
    make_odd,
    bytes_per_word,
    key_words,
    table_len,
    q_of,
    folded_words,
    seed_at,
    seeded_table,
    mixed,
    key_schedule,
    enc_round,
    enc_state,
    spec_encrypt,
    dec_round,
    dec_rounds,
    spec_decrypt,
};

/// A magic constant fits the word width: the top `w` bits of a 64-bit
/// constant, forced odd, stay below `2^w`.
proof fn lemma_constant_masked(c64: u64, w: nat)
    requires
        1 <= w <= 64,
    ensures
        make_odd(((c64 as int) / (pow2((64 - w) as nat) as int)) as u64) < pow2(w),
{
    let d = pow2((64 - w) as nat) as int;
    lemma_pow2_le64((64 - w) as nat);
    lemma_pow2_le64(w);
    assert(c64 < pow2((64 - w) as nat) * pow2(w)) by {
        vstd::arithmetic::power2::lemma_pow2_adds((64 - w) as nat, w);
        lemma2_to64();
    }
    lemma_multiply_divide_lt(c64 as int, d, pow2(w) as int);
    let x = ((c64 as int) / d) as u64;
    if x % 2 != 1 {
        // An even value below the odd 2^w - 1 leaves room for the forced bit.
        lemma_pow2_unfold(w);
        assert(pow2(w) % 2 == 0);
    }
}

/// The seeded table entries are `w`-bit words.
proof fn lemma_seed_masked(w: nat, i: nat)
    requires
        1 <= w <= 64,
    ensures
        seed_at(w, i) < pow2(w),
    decreases i,
{
    if i == 0 {
        lemma_constant_masked(P64, w);
    } else {
        lemma_seed_masked(w, (i - 1) as nat);
        lemma_wmask(wadd(seed_at(w, (i - 1) as nat), q_of(w), bucket_of(w)), w);
    }
}

/// There is at least one key word, also for an empty key.
proof fn lemma_key_words_pos(w: nat, b: nat)
    ensures
        key_words(w, b) >= 1,
{
    let u = bytes_per_word(w) as int;
    let bb: int = if b == 0 {
        1
    } else {
        b as int
    };
    lemma_div_plus_one(bb - 1, u);
    lemma_div_pos_is_pos(bb - 1, u);
}

/// Folding key bytes never changes the number of key words: every byte
/// lands inside the allocated words.
proof fn lemma_folded_len(w: nat, b: nat, key: Seq<u8>, j: nat)
    requires
        j <= b,
    ensures
        folded_words(w, b, key, j).len() == key_words(w, b),
    decreases j,
{
    if j != 0 {
        lemma_folded_len(w, b, key, (j - 1) as nat);
        let u = bytes_per_word(w) as int;
        let i = (b - j) as int;
        lemma_div_is_ordered(i, b as int - 1, u);
        lemma_div_plus_one(b as int - 1, u);
        lemma_div_pos_is_pos(i, u);
        assert(i / u < key_words(w, b));
    }
}

/// Through every mixing iteration the subkey table keeps its length and
/// holds `w`-bit words, and the key words keep their length.
proof fn lemma_mixed_wf(w: nat, r: nat, b: nat, key: Seq<u8>, n: nat)
    requires
        1 <= w <= 64,
    ensures
        mixed(w, r, b, key, n).2.len() == table_len(r),
        mixed(w, r, b, key, n).3.len() == key_words(w, b),
        forall|x: int|
            0 <= x < table_len(r) ==> #[trigger] mixed(w, r, b, key, n).2[x] < pow2(w),
    decreases n,
{
    if n == 0 {
        lemma_folded_len(w, b, key, b);
        assert forall|x: int| 0 <= x < table_len(r) implies #[trigger] seeded_table(w, r)[x]
            < pow2(w) by {
            lemma_seed_masked(w, x as nat);
        }
    } else {
        lemma_mixed_wf(w, r, b, key, (n - 1) as nat);
        lemma_key_words_pos(w, b);
        let prev = mixed(w, r, b, key, (n - 1) as nat);
        let k = bucket_of(w);
        let t = table_len(r) as int;
        let c = key_words(w, b) as int;
        let i = ((n - 1) as int) % t;
        let j = ((n - 1) as int) % c;
        lemma_mod_bound((n - 1) as int, t);
        lemma_mod_bound((n - 1) as int, c);
        let ab = wadd(prev.0, prev.1, k);
        let a2 = rotl(wadd(prev.2[i], ab, k), 3, w);
        lemma_rotl_bound(wadd(prev.2[i], ab, k), 3, w);
        let ab2 = wadd(a2, prev.1, k);
        lemma_rotl_bound(wadd(prev.3[j], ab2, k), ab2, w);
        assert(mixed(w, r, b, key, n).2 == prev.2.update(i, a2));
        assert forall|x: int| 0 <= x < table_len(r) implies #[trigger] mixed(w, r, b, key, n).2[x]
            < pow2(w) by {
            if x != i {
                assert(prev.2.update(i, a2)[x] == prev.2[x]);
            }
        }
    }
}

/// The key schedule produces a well-formed table: `2 * (r + 1)` entries,
/// each a `w`-bit word. Together with determinism this is what a completed
/// `setup` guarantees, for any key length including zero.
pub proof fn lemma_schedule_wf(w: nat, r: nat, b: nat, key: Seq<u8>)
    requires
        1 <= w <= 64,
    ensures
        key_schedule(w, r, b, key).len() == table_len(r),
        forall|x: int|
            0 <= x < table_len(r) ==> #[trigger] key_schedule(w, r, b, key)[x] < pow2(w),
{
    lemma_mixed_wf(w, r, b, key, crate::model::mix_iters(w, r, b));
}

/// The subkey table is a pure function of the parameters and the key
/// bytes: identical `(w, r, b, key)` always yield an identical table.
pub proof fn lemma_schedule_deterministic(w: nat, r: nat, b: nat, key1: Seq<u8>, key2: Seq<u8>)
    requires
        key1 == key2,
    ensures
        key_schedule(w, r, b, key1) == key_schedule(w, r, b, key2),
{
}

/// With zero rounds, encryption is the two additive whitening steps and
/// nothing else.
pub proof fn lemma_zero_round(p0: u64, p1: u64, s: Seq<u64>, w: nat, k: nat)
    ensures
        spec_encrypt(p0, p1, s, w, k, 0) == (wadd(p0, s[0], k), wadd(p1, s[1], k)),
{
}

/// After at least one round both halves of the block are `w`-bit words.
proof fn lemma_enc_state_masked(p0: u64, p1: u64, s: Seq<u64>, w: nat, k: nat, i: nat)
    requires
        1 <= w <= k <= 64,
        i >= 1,
    ensures
        enc_state(p0, p1, s, w, k, i).0 < pow2(w),
        enc_state(p0, p1, s, w, k, i).1 < pow2(w),
{
    let prev = enc_state(p0, p1, s, w, k, (i - 1) as nat);
    lemma_wmask(wadd(rotl(prev.0 ^ prev.1, prev.1, w), s[2 * (i as int)], k), w);
    let a = enc_state(p0, p1, s, w, k, i).0;
    lemma_wmask(wadd(rotl(prev.1 ^ a, a, w), s[2 * (i as int) + 1], k), w);
}

/// Undoing round `i` right after performing it returns the block it was
/// performed on, provided both halves were `w`-bit words.
proof fn lemma_dec_round_inverse(ab: (u64, u64), s: Seq<u64>, w: nat, k: nat, i: nat)
    requires
        1 <= w <= k <= 64,
        ab.0 < pow2(w),
        ab.1 < pow2(w),
    ensures
        dec_round(enc_round(ab, s, w, k, i), s, w, k, i) == ab,
{
    let a = ab.0;
    let b = ab.1;
    let s0 = s[2 * (i as int)];
    let s1 = s[2 * (i as int) + 1];
    let v1 = rotl(a ^ b, b, w);
    lemma_rotl_bound(a ^ b, b, w);
    let a2 = wmask(wadd(v1, s0, k), w);
    lemma_wmask(wadd(v1, s0, k), w);
    let v2 = rotl(b ^ a2, a2, w);
    lemma_rotl_bound(b ^ a2, a2, w);
    let b2 = wmask(wadd(v2, s1, k), w);
    assert(enc_round(ab, s, w, k, i) == (a2, b2));

    // Undo the second half: subtracting s1 and truncating recovers v2.
    lemma_round_add_inverse(v2, s1, w, k);
    lemma_rotation_involution(b ^ a2, a2, w);
    lemma_xor_bound(b, a2, w);
    lemma_wmask(b ^ a2, w);
    lemma_xor_cancel(b, a2);
    assert(dec_round((a2, b2), s, w, k, i).1 == b);

    // Undo the first half with the recovered b as the rotation count.
    lemma_round_add_inverse(v1, s0, w, k);
    lemma_rotation_involution(a ^ b, b, w);
    lemma_xor_bound(a, b, w);
    lemma_wmask(a ^ b, w);
    lemma_xor_cancel(a, b);
    assert(dec_round((a2, b2), s, w, k, i).0 == a);
}

/// Undoing rounds `i` down to `1` on the state after `i` rounds returns
/// the whitened block, as long as the whitened block itself held `w`-bit
/// words (with zero rounds there is nothing to undo).
proof fn lemma_dec_of_enc(p0: u64, p1: u64, s: Seq<u64>, w: nat, k: nat, i: nat)
    requires
        1 <= w <= k <= 64,
        i == 0 || (enc_state(p0, p1, s, w, k, 0).0 < pow2(w) && enc_state(p0, p1, s, w, k, 0).1
            < pow2(w)),
    ensures
        dec_rounds(enc_state(p0, p1, s, w, k, i), s, w, k, i) == enc_state(p0, p1, s, w, k, 0),
    decreases i,
{
    if i != 0 {
        let prev = enc_state(p0, p1, s, w, k, (i - 1) as nat);
        if i - 1 >= 1 {
            lemma_enc_state_masked(p0, p1, s, w, k, (i - 1) as nat);
        }
        lemma_dec_round_inverse(prev, s, w, k, i);
        lemma_dec_of_enc(p0, p1, s, w, k, (i - 1) as nat);
    }
}

/// Round trip: decrypting the encryption of a plaintext block returns the
/// block, for every context state produced by a completed `setup`. The
/// one condition beyond the cipher's own preconditions is that with at
/// least one round the whitened block must still fit the word width; at a
/// native word width (8, 16, 32 or 64 bits, where the width equals the
/// storage width) this always holds, see `lemma_round_trip_native`.
pub proof fn lemma_round_trip(p0: u64, p1: u64, s: Seq<u64>, w: nat, r: nat)
    requires
        1 <= w <= 64,
        p0 < pow2(w),
        p1 < pow2(w),
        r == 0 || (wadd(p0, s[0], bucket_of(w)) < pow2(w) && wadd(p1, s[1], bucket_of(w))
            < pow2(w)),
    ensures
        ({
            let k = bucket_of(w);
            let c = spec_encrypt(p0, p1, s, w, k, r);
            spec_decrypt(c.0, c.1, s, w, k, r) == (p0, p1)
        }),
{
    let k = bucket_of(w);
    lemma_dec_of_enc(p0, p1, s, w, k, r);
    assert(pow2(w) <= pow2(k)) by {
        if w < k {
            lemma_pow2_strictly_increases(w, k);
        }
    }
    lemma_wadd(p0, s[0], k);
    lemma_wadd(p1, s[1], k);
    lemma_add_sub_cancel(p0, s[0], k);
    lemma_add_sub_cancel(p1, s[1], k);
}

/// Round trip at a native word width: when `w` is itself one of the
/// storage widths 8, 16, 32 or 64, wrapping addition already truncates to
/// `w` bits, so decryption inverts encryption with no further condition.
pub proof fn lemma_round_trip_native(p0: u64, p1: u64, s: Seq<u64>, w: nat, r: nat)
    requires
        w == bucket_of(w),
        p0 < pow2(w),
        p1 < pow2(w),
    ensures
        ({
            let k = bucket_of(w);
            let c = spec_encrypt(p0, p1, s, w, k, r);
            spec_decrypt(c.0, c.1, s, w, k, r) == (p0, p1)
        }),
{
    lemma_wadd(p0, s[0], bucket_of(w));
    lemma_wadd(p1, s[1], bucket_of(w));
    lemma_round_trip(p0, p1, s, w, r);
}

} // verus!
