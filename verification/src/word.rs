//! The word-level model of the cipher: wrapping addition and subtraction at a
//! selectable storage width, and cyclic rotation of the low `w` bits of a
//! word. Words are stored in a `u64`; a `w`-bit quantity occupies the low `w`
//! bits and the storage ("bucket") width is the smallest of 8, 16, 32 or 64
//! bits that holds `w`.

use vstd::prelude::*;

verus! {

use vstd::arithmetic::power2::{
    pow2,
    lemma_pow2_pos,
    lemma_pow2_adds,
    lemma_pow2_strictly_increases,
    lemma2_to64,
};
use vstd::arithmetic::div_mod::{
    lemma_small_mod,
    lemma_mod_bound,
    lemma_sub_mod_noop,
    lemma_mod_mod,
    lemma_fundamental_div_mod,
    lemma_fundamental_div_mod_converse,
};
use vstd::arithmetic::mul::{
    lemma_mul_inequality,
    lemma_mul_is_distributive_sub_other_way,
};
use vstd::arithmetic::div_mod::{lemma_div_pos_is_pos, lemma_multiply_divide_lt};
use vstd::bits::{lemma_u64_pow2_no_overflow, lemma_u64_shl_is_mul};

/// The storage width, in bits, that holds a `w`-bit word: the smallest of the
/// native widths 8, 16, 32 and 64 that `w` fits in.
pub open spec fn bucket_of(w: nat) -> nat {
    if w <= 8 {
        8
    } else if w <= 16 {
        16
    } else if w <= 32 {
        32
    } else {
        64
    }
}

/// Wrapping addition at the low `k` bits: the arithmetic of a `k`-bit
/// storage register.
pub open spec fn wadd(a: u64, b: u64, k: nat) -> u64 {
    (((a + b) % (pow2(k) as int))) as u64
}

/// Wrapping subtraction at the low `k` bits.
pub open spec fn wsub(a: u64, b: u64, k: nat) -> u64 {
    (((a - b) % (pow2(k) as int))) as u64
}

/// Truncation of a value to its low `w` bits.
pub open spec fn wmask(v: u64, w: nat) -> u64 {
    (((v as int) % (pow2(w) as int))) as u64
}

/// The effective rotation count: counts are data-dependent and may exceed
/// the word width, so they are reduced modulo `w` before use.
pub open spec fn rot_count(n: u64, w: nat) -> nat
    recommends
        w >= 1,
{
    (n as nat) % w
}

/// Left cyclic rotation of the low `w` bits of `v` by `n mod w` positions.
/// The high `w - m` bits move down into the low positions and the low `m`
/// bits move up, which in arithmetic terms splits `v mod 2^w` at `2^(w-m)`.
pub open spec fn rotl(v: u64, n: u64, w: nat) -> u64
    recommends
        1 <= w <= 64,
{
    let m = rot_count(n, w);
    let x = wmask(v, w) as int;
    if m == 0 {
        wmask(v, w)
    } else {
        ((x % (pow2((w - m) as nat) as int)) * pow2(m) + x / (pow2((w - m) as nat) as int)) as u64
    }
}

/// Right cyclic rotation of the low `w` bits of `v` by `n mod w` positions.
pub open spec fn rotr(v: u64, n: u64, w: nat) -> u64
    recommends
        1 <= w <= 64,
{
    let m = rot_count(n, w);
    let x = wmask(v, w) as int;
    if m == 0 {
        wmask(v, w)
    } else {
        ((x % (pow2(m) as int)) * pow2((w - m) as nat) + x / (pow2(m) as int)) as u64
    }
}

/// `pow2(k)` is positive and, for `k <= 64`, fits the range of `u64`
/// arithmetic.
pub proof fn lemma_pow2_le64(k: nat)
    requires
        k <= 64,
    ensures
        0 < pow2(k) <= 0x1_0000_0000_0000_0000,
{
    lemma_pow2_pos(k);
    lemma2_to64();
    if k < 64 {
        lemma_pow2_strictly_increases(k, 64);
    }
}

/// What `wadd` is as an integer, and its range.
pub proof fn lemma_wadd(a: u64, b: u64, k: nat)
    requires
        1 <= k <= 64,
    ensures
        wadd(a, b, k) as int == (a + b) % (pow2(k) as int),
        wadd(a, b, k) < pow2(k),
{
    lemma_pow2_le64(k);
    lemma_mod_bound(a + b, pow2(k) as int);
}

/// What `wsub` is as an integer, and its range.
pub proof fn lemma_wsub(a: u64, b: u64, k: nat)
    requires
        1 <= k <= 64,
    ensures
        wsub(a, b, k) as int == (a - b) % (pow2(k) as int),
        wsub(a, b, k) < pow2(k),
{
    lemma_pow2_le64(k);
    lemma_mod_bound(a - b, pow2(k) as int);
}

/// What `wmask` is as an integer; masking a value already below `2^w`
/// returns it unchanged.
pub proof fn lemma_wmask(v: u64, w: nat)
    requires
        1 <= w <= 64,
    ensures
        wmask(v, w) as int == (v as int) % (pow2(w) as int),
        wmask(v, w) < pow2(w),
        v < pow2(w) ==> wmask(v, w) == v,
{
    lemma_pow2_le64(w);
    lemma_mod_bound(v as int, pow2(w) as int);
    if v < pow2(w) {
        lemma_small_mod(v as nat, pow2(w));
    }
}

/// A rotation result occupies only the low `w` bits.
pub proof fn lemma_rotl_bound(v: u64, n: u64, w: nat)
    requires
        1 <= w <= 64,
    ensures
        rotl(v, n, w) < pow2(w),
        rotl(v, n, w) as int == rotl_int(wmask(v, w) as int, rot_count(n, w), w),
{
    lemma_wmask(v, w);
    lemma_pow2_le64(w);
    let m = rot_count(n, w);
    if m == 0 {
    } else {
        lemma_rot_halves(wmask(v, w) as int, m, w);
    }
}

/// A rotation result occupies only the low `w` bits.
pub proof fn lemma_rotr_bound(v: u64, n: u64, w: nat)
    requires
        1 <= w <= 64,
    ensures
        rotr(v, n, w) < pow2(w),
        rotr(v, n, w) as int == rotr_int(wmask(v, w) as int, rot_count(n, w), w),
{
    lemma_wmask(v, w);
    lemma_pow2_le64(w);
    let m = rot_count(n, w);
    if m == 0 {
    } else {
        lemma_rot_halves_r(wmask(v, w) as int, m, w);
    }
}

/// Both halves of a split at a positive divisor `d` are bounded: the
/// quotient of `x < d * p` lies in `[0, p)`.
pub proof fn lemma_div_parts(x: int, d: int, p: int)
    requires
        0 < d,
        0 < p,
        0 <= x,
        x < d * p,
    ensures
        0 <= x / d < p,
{
    lemma_div_pos_is_pos(x, d);
    lemma_multiply_divide_lt(x, d, p);
}

/// The integer form of a left rotation of a masked word by an effective
/// count `m` in `1 .. w`.
pub open spec fn rotl_int(x: int, m: nat, w: nat) -> int
    recommends
        1 <= w <= 64,
        m < w,
{
    if m == 0 {
        x
    } else {
        (x % (pow2((w - m) as nat) as int)) * pow2(m) + x / (pow2((w - m) as nat) as int)
    }
}

/// The integer form of a right rotation of a masked word by an effective
/// count `m` in `1 .. w`.
pub open spec fn rotr_int(x: int, m: nat, w: nat) -> int
    recommends
        1 <= w <= 64,
        m < w,
{
    if m == 0 {
        x
    } else {
        (x % (pow2(m) as int)) * pow2((w - m) as nat) + x / (pow2(m) as int)
    }
}

/// A left rotation splits `x` at `2^(w-m)`: the result is in `[0, 2^w)` and
/// its two parts sit in disjoint bit ranges.
proof fn lemma_rot_halves(x: int, m: nat, w: nat)
    requires
        1 <= w <= 64,
        1 <= m < w,
        0 <= x < pow2(w),
    ensures
        0 <= rotl_int(x, m, w) < pow2(w),
{
    let d = pow2((w - m) as nat) as int;
    let p = pow2(m) as int;
    lemma_pow2_le64((w - m) as nat);
    lemma_pow2_le64(m);
    lemma_pow2_le64(w);
    lemma_pow2_adds((w - m) as nat, m);
    lemma_mod_bound(x, d);
    // low part: (x % d) * p <= (d - 1) * p == 2^w - p
    lemma_mul_inequality(x % d, d - 1, p);
    lemma_mul_is_distributive_sub_other_way(p, d, 1);
    // high part: x / d < p
    lemma_div_parts(x, d, p);
}

/// A right rotation splits `x` at `2^m`: the result is in `[0, 2^w)`.
proof fn lemma_rot_halves_r(x: int, m: nat, w: nat)
    requires
        1 <= w <= 64,
        1 <= m < w,
        0 <= x < pow2(w),
    ensures
        0 <= rotr_int(x, m, w) < pow2(w),
{
    let d = pow2(m) as int;
    let p = pow2((w - m) as nat) as int;
    lemma_pow2_le64((w - m) as nat);
    lemma_pow2_le64(m);
    lemma_pow2_le64(w);
    lemma_pow2_adds(m, (w - m) as nat);
    lemma_mod_bound(x, d);
    lemma_mul_inequality(x % d, d - 1, p);
    lemma_mul_is_distributive_sub_other_way(p, d, 1);
    assert(d * p == pow2(w)) by {
        lemma_pow2_adds(m, (w - m) as nat);
    }
    lemma_div_parts(x, d, p);
}

/// Rotating left and then right by the same count returns the word
/// truncated to its low `w` bits: `ror(rol(x, n), n) == x & mask`.
pub proof fn lemma_rotation_involution(v: u64, n: u64, w: nat)
    requires
        1 <= w <= 64,
    ensures
        rotr(rotl(v, n, w), n, w) == wmask(v, w),
{
    let m = rot_count(n, w);
    let x = wmask(v, w) as int;
    lemma_wmask(v, w);
    if m == 0 {
        lemma_wmask(wmask(v, w), w);
    } else {
        let d = pow2((w - m) as nat) as int;
        let p = pow2(m) as int;
        lemma_pow2_le64((w - m) as nat);
        lemma_pow2_le64(m);
        lemma_pow2_le64(w);
        lemma_pow2_adds((w - m) as nat, m);
        lemma_rot_halves(x, m, w);
        let y = rotl_int(x, m, w);
        assert(rotl(v, n, w) as int == y) by {
            lemma_rotl_bound(v, n, w);
        }
        // y == (x % d) * p + x / d, with 0 <= x / d < p.
        lemma_mod_bound(x, d);
        lemma_fundamental_div_mod(x, d);
        lemma_div_parts(x, d, p);
        // Splitting y at 2^m recovers the two halves of x.
        lemma_fundamental_div_mod_converse(y, p, x % d, x / d);
        assert(y % p == x / d);
        assert(y / p == x % d);
        // rotr of y by m puts them back.
        assert(rotr(rotl(v, n, w), n, w) as int == (y % p) * d + y / p) by {
            lemma_wmask(rotl(v, n, w), w);
            lemma_small_mod(y as nat, pow2(w));
        }
        assert((x / d) * d + x % d == x) by {
            lemma_fundamental_div_mod(x, d);
        }
        assert(rotr(rotl(v, n, w), n, w) as int == x);
    }
}

/// XOR of two values confined to the low `w` bits stays confined.
pub proof fn lemma_xor_bound(x: u64, y: u64, w: nat)
    requires
        1 <= w <= 64,
        x < pow2(w),
        y < pow2(w),
    ensures
        (x ^ y) < pow2(w),
{
    if w == 64 {
        lemma2_to64();
    } else {
        let s = w as u64;
        lemma_u64_pow2_no_overflow(w);
        lemma_u64_shl_is_mul(1u64, s);
        assert(x ^ y < (1u64 << s)) by (bit_vector)
            requires
                s < 64,
                x < (1u64 << s),
                y < (1u64 << s),
        ;
    }
}

/// XOR by the same value twice returns the original.
pub proof fn lemma_xor_cancel(x: u64, y: u64)
    ensures
        (x ^ y) ^ y == x,
{
    assert((x ^ y) ^ y == x) by (bit_vector);
}

/// The low `w` bits of a value reduced at a coarser width `k` agree with a
/// direct reduction at `w`: `2^w` divides `2^k`.
proof fn lemma_mod_pow2_pow2(x: int, w: nat, k: nat)
    requires
        1 <= w <= k <= 64,
    ensures
        ((x % (pow2(k) as int)) % (pow2(w) as int)) == x % (pow2(w) as int),
{
    lemma_pow2_le64(w);
    lemma_pow2_le64((k - w) as nat);
    lemma_pow2_adds(w, (k - w) as nat);
    lemma_mod_mod(x, pow2(w) as int, pow2((k - w) as nat) as int);
}

/// Wrapping subtraction undoes wrapping addition exactly, for a value that
/// fits the storage width.
pub proof fn lemma_add_sub_cancel(x: u64, s: u64, k: nat)
    requires
        1 <= k <= 64,
        x < pow2(k),
    ensures
        wsub(wadd(x, s, k), s, k) == x,
{
    let m = pow2(k) as int;
    lemma_pow2_le64(k);
    lemma_wadd(x, s, k);
    lemma_wsub(wadd(x, s, k), s, k);
    let a = (x + s) % m;
    lemma_small_mod(a as nat, pow2(k));
    lemma_sub_mod_noop(a, s as int, m);
    lemma_small_mod(s as nat % pow2(k), pow2(k));
    lemma_sub_mod_noop(x + s, s as int, m);
    assert((a - s) % m == ((x + s) - s) % m) by {
        assert((a % m - (s as int) % m) % m == (a - s) % m);
        assert(a % m == (x + s) % m);
        assert(((x + s) % m - (s as int) % m) % m == ((x + s) - s) % m);
    }
    lemma_small_mod(x as nat, pow2(k));
}

/// In a round, the subkey is added at the storage width `k` and the result
/// truncated to `w` bits; subtracting the subkey back at width `k` and
/// truncating again recovers the `w`-bit value that was added to.
pub proof fn lemma_round_add_inverse(v: u64, s: u64, w: nat, k: nat)
    requires
        1 <= w <= k <= 64,
        v < pow2(w),
    ensures
        wmask(wsub(wmask(wadd(v, s, k), w), s, k), w) == v,
{
    let mw = pow2(w) as int;
    let mk = pow2(k) as int;
    lemma_pow2_le64(w);
    lemma_pow2_le64(k);
    lemma_wadd(v, s, k);
    let a = (v + s) % mk;
    lemma_wmask(wadd(v, s, k), w);
    let b = a % mw;
    lemma_wsub(wmask(wadd(v, s, k), w), s, k);
    let c = (b - s) % mk;
    lemma_wmask(wsub(wmask(wadd(v, s, k), w), s, k), w);
    // c % mw == (b - s) % mw
    lemma_mod_pow2_pow2(b - s, w, k);
    // (b - s) % mw == (v + s - s) % mw == v
    lemma_sub_mod_noop(b, s as int, mw);
    lemma_small_mod(b as nat % pow2(w) as nat, pow2(w));
    lemma_mod_pow2_pow2(v + s, w, k);
    lemma_sub_mod_noop(v + s, s as int, mw);
    assert((b - s) % mw == (v as int) % mw) by {
        assert((b % mw - (s as int) % mw) % mw == (b - s) % mw);
        assert(b % mw == (v + s) % mw) by {
            lemma_small_mod(b as nat, pow2(w));
        }
        assert(((v + s) % mw - (s as int) % mw) % mw == ((v + s) - s) % mw);
    }
    lemma_small_mod(v as nat, pow2(w));
}

} // verus!
