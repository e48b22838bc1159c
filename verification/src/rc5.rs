//! The cipher context: the immutable construction parameters `(w, r, b)`,
//! the constants derived from them, and the subkey table, together with the
//! executable key schedule and the round transforms.

use vstd::prelude::*;

verus! {

use vstd::arithmetic::power2::{pow2, lemma_pow2_adds, lemma2_to64};
use vstd::arithmetic::div_mod::{
    lemma_small_mod,
    lemma_mod_bound,
    lemma_add_mod_noop,
    lemma_sub_mod_noop,
    lemma_mod_add_multiples_vanish,
    lemma_mod_sub_multiples_vanish,
    lemma_div_nonincreasing,
    lemma_div_is_ordered,
    lemma_div_plus_one,
    lemma_div_by_self,
    lemma_div_pos_is_pos,
};
use vstd::arithmetic::mul::{lemma_mul_inequality, lemma_mul_is_distributive_sub_other_way};
use vstd::bits::{lemma_u64_pow2_no_overflow, lemma_u64_shl_is_mul, lemma_u64_low_bits_mask_is_mod, low_bits_mask};
use crate::word::{
    wadd,
    wmask,
    bucket_of,
    lemma_pow2_le64,
    lemma_wmask,
    lemma_rotl_bound,
    lemma_rotr_bound,
    lemma_div_parts,
};
use crate::model::{
    P64,
    Q64,
    make_odd,
    bytes_per_word,
    key_words,
    table_len,
    p_of,
    q_of,
    folded_words,
    seed_at,
    seeded_table,
    mix_step,
    mixed,
    mix_iters,
    key_schedule,
    enc_state,
    dec_round,
    dec_rounds,
};
use crate::blockcipher::{BlockCipher, BitwiseOperator};

/// A cipher context. It is created once with immutable `(w, r, b)`;
/// `setup` is the only mutator and overwrites the full subkey table.
pub struct RC5 {
    /// Word width in bits, between 1 and 64.
    w: u64,
    /// Round count.
    r: u64,
    /// Key length in bytes.
    b: u64,
    /// Subkey table length, `2 * (r + 1)`.
    t: u64,
    /// Storage width in bits: 8, 16, 32 or 64.
    bits: u64,
    /// Width mask `2^w - 1`.
    mask: u64,
    /// Magic constant seeding the subkey table.
    p: u64,
    /// Magic constant stepping the subkey table.
    q: u64,
    /// Expanded key table.
    subkeys: Vec<u64>,
    /// Whether `setup` has completed on this context.
    keyed: Ghost<bool>,
}

/// A zero-filled vector of the given length.
fn zero_words(n: usize) -> (v: Vec<u64>)
    ensures
        v@.len() == n,
        forall|i: int| 0 <= i < n ==> v@[i] == 0u64,
{
    let mut v: Vec<u64> = Vec::new();
    let mut k: usize = 0;
    while k < n
        invariant
            k <= n,
            v@.len() == k,
            forall|i: int| 0 <= i < k ==> v@[i] == 0u64,
        decreases n - k,
    {
        v.push(0u64);
        k += 1;
    }
    v
}

/// `2^k` for an exponent below 64.
fn pow2_exec(k: u64) -> (r: u64)
    requires
        k < 64,
    ensures
        r as nat == pow2(k as nat),
        r >= 1,
{
    proof {
        lemma_u64_pow2_no_overflow(k as nat);
        lemma_u64_shl_is_mul(1u64, k);
    }
    1u64 << k
}

impl RC5 {
    /// The construction parameters and derived constants of two context
    /// states agree; only the subkey table may differ.
    pub closed spec fn same_params(self, other: RC5) -> bool {
        &&& self.w == other.w
        &&& self.r == other.r
        &&& self.b == other.b
        &&& self.t == other.t
        &&& self.bits == other.bits
        &&& self.mask == other.mask
        &&& self.p == other.p
        &&& self.q == other.q
    }

    /// The context invariant: the derived fields agree with the
    /// construction parameters.
    pub closed spec fn wf(&self) -> bool {
        &&& 1 <= self.w <= 64
        &&& self.r <= 0xFFFF
        &&& self.b <= 0xFFFF
        &&& self.t == table_len(self.r as nat)
        &&& self.bits == bucket_of(self.w as nat)
        &&& self.mask as int == pow2(self.w as nat) - 1
        &&& self.p == p_of(self.w as nat)
        &&& self.q == q_of(self.w as nat)
        &&& self.subkeys@.len() == self.t
    }

    /// Rounds a value up to the next odd number.
    fn odd(x: u64) -> (r: u64)
        requires
            x < u64::MAX,
        ensures
            r == make_odd(x),
    {
        if x % 2 == 1 {
            x
        } else {
            x + 1
        }
    }

    /// Builds a context from the word width in bits (1 to 64), the round
    /// count and the key length in bytes. The table size, the width mask,
    /// the storage width and the magic constants are derived here; the
    /// subkey table starts zeroed and is meaningful only after `setup`.
    pub fn new(wordsize: u64, rounds: u64, keybytes: u64) -> (c: RC5)
        requires
            1 <= wordsize <= 64,
            rounds <= 0xFFFF,
            keybytes <= 0xFFFF,
        ensures
            c.wf(),
            c.cipher_wf(),
            c.widths_wf(),
            c.w_param() == wordsize,
            c.r_param() == rounds,
            c.b_param() == keybytes,
            c.word_bits() == wordsize,
            c.storage_bits() == bucket_of(wordsize as nat),
            c.width_mask() as int == pow2(wordsize as nat) - 1,
            c.table().len() == table_len(rounds as nat),
            !c.is_keyed(),
    {
        let t: u64 = 2 * (rounds + 1);
        let bits: u64 = if wordsize <= 8 {
            8
        } else if wordsize <= 16 {
            16
        } else if wordsize <= 32 {
            32
        } else {
            64
        };
        let mask: u64 = if wordsize == 64 {
            proof {
                lemma2_to64();
            }
            u64::MAX
        } else {
            pow2_exec(wordsize) - 1
        };
        let div: u64 = pow2_exec(64 - wordsize);
        proof {
            lemma_div_nonincreasing(P64 as int, div as int);
            lemma_div_nonincreasing(Q64 as int, div as int);
        }
        let p: u64 = Self::odd(P64 / div);
        let q: u64 = Self::odd(Q64 / div);
        let subkeys: Vec<u64> = zero_words(t as usize);
        RC5 { w: wordsize, r: rounds, b: keybytes, t, bits, mask, p, q, subkeys, keyed: Ghost(false) }
    }

    /// Truncation of a value to the low `w` bits with the context's mask.
    fn mask_w(&self, v: u64) -> (r: u64)
        requires
            self.wf(),
        ensures
            r == wmask(v, self.word_bits()),
            r < pow2(self.word_bits()),
    {
        proof {
            lemma_width_mask(self, v);
            lemma_wmask(v, self.w as nat);
        }
        v & self.mask
    }

    /// A copy of the current subkey table.
    pub fn subkey_table(&self) -> (t: Vec<u64>)
        ensures
            t@ == self.table(),
    {
        let mut out: Vec<u64> = Vec::new();
        let mut k: usize = 0;
        let n: usize = self.subkeys.len();
        while k < n
            invariant
                k <= n,
                n == self.subkeys@.len(),
                out@.len() == k,
                forall|i: int| 0 <= i < k ==> out@[i] == self.subkeys@[i],
            decreases n - k,
        {
            out.push(self.subkeys[k]);
            k += 1;
        }
        proof {
            assert(out@ =~= self.subkeys@);
        }
        out
    }
}

impl BitwiseOperator for RC5 {
    closed spec fn word_bits(&self) -> nat {
        self.w as nat
    }

    closed spec fn storage_bits(&self) -> nat {
        self.bits as nat
    }

    closed spec fn width_mask(&self) -> u64 {
        self.mask
    }

    closed spec fn widths_wf(&self) -> bool {
        self.wf()
    }

    fn rol(&self, v: u64, n: u64) -> (r: u64) {
        let w = self.w;
        let ghost w_n = w as nat;
        let m: u64 = n % w;
        let x: u64 = self.mask_w(v);
        proof {
            lemma_rotl_bound(v, n, w_n);
        }
        if m == 0 {
            x
        } else {
            let d: u64 = pow2_exec(w - m);
            let p2m: u64 = pow2_exec(m);
            proof {
                lemma_pow2_le64(w_n);
                lemma_pow2_adds((w - m) as nat, m as nat);
                lemma_mod_bound(x as int, d as int);
                lemma_mul_inequality(x as int % (d as int), d as int - 1, p2m as int);
                lemma_mul_is_distributive_sub_other_way(p2m as int, d as int, 1);
                lemma_div_parts(x as int, d as int, p2m as int);
            }
            let lo: u64 = x % d;
            let hi: u64 = x / d;
            lo * p2m + hi
        }
    }

    fn ror(&self, v: u64, n: u64) -> (r: u64) {
        let w = self.w;
        let ghost w_n = w as nat;
        let m: u64 = n % w;
        let x: u64 = self.mask_w(v);
        proof {
            lemma_rotr_bound(v, n, w_n);
        }
        if m == 0 {
            x
        } else {
            let d: u64 = pow2_exec(m);
            let p2m: u64 = pow2_exec(w - m);
            proof {
                lemma_pow2_le64(w_n);
                lemma_pow2_adds(m as nat, (w - m) as nat);
                lemma_mod_bound(x as int, d as int);
                lemma_mul_inequality(x as int % (d as int), d as int - 1, p2m as int);
                lemma_mul_is_distributive_sub_other_way(p2m as int, d as int, 1);
                lemma_div_parts(x as int, d as int, p2m as int);
            }
            let lo: u64 = x % d;
            let hi: u64 = x / d;
            lo * p2m + hi
        }
    }

    fn modadd(&self, a: u64, b: u64) -> (r: u64) {
        let ghost k = self.bits as nat;
        if self.bits == 64 {
            proof {
                lemma2_to64();
            }
            if a <= u64::MAX - b {
                proof {
                    lemma_small_mod((a + b) as nat, pow2(64));
                }
                a + b
            } else {
                proof {
                    lemma_mod_sub_multiples_vanish(a + b, pow2(64) as int);
                    lemma_small_mod((a + b - pow2(64)) as nat, pow2(64));
                }
                a - (u64::MAX - b) - 1
            }
        } else {
            let m: u64 = pow2_exec(self.bits);
            proof {
                lemma2_to64();
                assert(m as int <= 0x1_0000_0000);
                lemma_add_mod_noop(a as int, b as int, m as int);
                lemma_mod_bound(a as int, m as int);
                lemma_mod_bound(b as int, m as int);
                lemma_mod_bound(a as int % (m as int) + b as int % (m as int), m as int);
            }
            ((a % m) + (b % m)) % m
        }
    }

    fn modsub(&self, a: u64, b: u64) -> (r: u64) {
        let ghost k = self.bits as nat;
        if self.bits == 64 {
            proof {
                lemma2_to64();
            }
            if a >= b {
                proof {
                    lemma_small_mod((a - b) as nat, pow2(64));
                }
                a - b
            } else {
                proof {
                    lemma_mod_add_multiples_vanish(a - b, pow2(64) as int);
                    lemma_small_mod((a - b + pow2(64)) as nat, pow2(64));
                }
                (u64::MAX - b) + a + 1
            }
        } else {
            let m: u64 = pow2_exec(self.bits);
            proof {
                lemma2_to64();
                assert(m as int <= 0x1_0000_0000);
                lemma_sub_mod_noop(a as int, b as int, m as int);
                lemma_mod_bound(a as int, m as int);
                lemma_mod_bound(b as int, m as int);
            }
            let am: u64 = a % m;
            let bm: u64 = b % m;
            if am >= bm {
                proof {
                    lemma_small_mod((am - bm) as nat, pow2(k));
                }
                am - bm
            } else {
                proof {
                    lemma_mod_add_multiples_vanish(am - bm, m as int);
                    lemma_small_mod((am - bm + m) as nat, pow2(k));
                }
                (am + m) - bm
            }
        }
    }
}

impl BlockCipher for RC5 {
    closed spec fn cipher_wf(&self) -> bool {
        self.wf()
    }

    closed spec fn w_param(&self) -> nat {
        self.w as nat
    }

    closed spec fn r_param(&self) -> nat {
        self.r as nat
    }

    closed spec fn b_param(&self) -> nat {
        self.b as nat
    }

    closed spec fn table(&self) -> Seq<u64> {
        self.subkeys@
    }

    closed spec fn is_keyed(&self) -> bool {
        self.keyed@
    }

    fn setup(&mut self, key: &Vec<u8>) {
        let ghost w_n = self.w as nat;
        let ghost r_n = self.r as nat;
        let ghost b_n = self.b as nat;
        let ghost k_n = self.bits as nat;

        // u: bytes per word, at least one.
        let u: usize = if self.w >= 8 {
            proof {
                lemma_div_is_ordered(8, self.w as int, 8);
                lemma_div_by_self(8);
            }
            (self.w / 8) as usize
        } else {
            1
        };
        assert(u == bytes_per_word(w_n));

        let bsz: usize = self.b as usize;
        let base: usize = if bsz == 0 {
            1
        } else {
            bsz
        };
        // c: number of key words, the key bytes divided by u, rounded up.
        let c: usize = (base + u - 1) / u;
        proof {
            lemma_div_plus_one((base - 1) as int, u as int);
            lemma_div_pos_is_pos((base - 1) as int, u as int);
        }
        assert(c == key_words(w_n, b_n));
        assert(c >= 1);
        let t: usize = self.t as usize;

        // Alignment: fold the key bytes into c words, last byte first.
        let mut l: Vec<u64> = zero_words(c);
        proof {
            assert(l@ =~= folded_words(w_n, b_n, key@, 0));
        }
        let mut idx: usize = 0;
        while idx < bsz
            invariant
                idx <= bsz,
                self.wf(),
                self.same_params(*old(self)),
                self.subkeys@ == old(self).subkeys@,
                self.keyed == old(self).keyed,
                w_n == self.w as nat,
                b_n == self.b as nat,
                bsz == self.b,
                key@.len() == bsz,
                u == bytes_per_word(w_n),
                c == key_words(w_n, b_n),
                l@.len() == c,
                l@ == folded_words(w_n, b_n, key@, idx as nat),
            decreases bsz - idx,
        {
            let i: usize = bsz - 1 - idx;
            let li: usize = i / u;
            proof {
                lemma_div_is_ordered(i as int, (bsz - 1) as int, u as int);
                lemma_div_plus_one((bsz - 1) as int, u as int);
            }
            let rolled: u64 = self.rol(l[li], 8);
            let folded: u64 = self.modadd(rolled, key[i] as u64);
            l[li] = folded;
            proof {
                assert(l@ == folded_words(w_n, b_n, key@, (idx + 1) as nat));
            }
            idx += 1;
        }
        assert(l@ == folded_words(w_n, b_n, key@, b_n));

        // Seed the subkey table from the magic constants.
        let p: u64 = self.p;
        self.subkeys[0] = p;
        let mut si: usize = 1;
        while si < t
            invariant
                1 <= si <= t,
                self.wf(),
                self.same_params(*old(self)),
                self.keyed == old(self).keyed,
                w_n == self.w as nat,
                r_n == self.r as nat,
                k_n == self.bits as nat,
                t == self.t,
                self.subkeys@.len() == t,
                forall|x: int| 0 <= x < si ==> self.subkeys@[x] == seed_at(w_n, x as nat),
            decreases t - si,
        {
            let prev: u64 = self.subkeys[si - 1];
            let stepped: u64 = self.modadd(prev, self.q);
            let masked: u64 = self.mask_w(stepped);
            self.subkeys[si] = masked;
            proof {
                assert(seed_at(w_n, si as nat) == wmask(
                    wadd(seed_at(w_n, (si - 1) as nat), q_of(w_n), k_n),
                    w_n,
                ));
            }
            si += 1;
        }
        proof {
            assert(self.subkeys@ =~= seeded_table(w_n, r_n));
        }

        // Mixing: three passes of the rolling pair over both sequences.
        let iters: usize = 3 * (if t >= c {
            t
        } else {
            c
        });
        assert(iters == mix_iters(w_n, r_n, b_n));
        let mut a: u64 = 0;
        let mut bb: u64 = 0;
        let mut ti: usize = 0;
        let mut kj: usize = 0;
        let mut n: usize = 0;
        while n < iters
            invariant
                n <= iters,
                self.wf(),
                self.same_params(*old(self)),
                self.keyed == old(self).keyed,
                w_n == self.w as nat,
                r_n == self.r as nat,
                b_n == self.b as nat,
                k_n == self.bits as nat,
                key@.len() == b_n,
                t == self.t,
                2 <= t,
                1 <= c,
                t == table_len(r_n),
                c == key_words(w_n, b_n),
                l@.len() == c,
                self.subkeys@.len() == t,
                ti == n % t,
                kj == n % c,
                a == mixed(w_n, r_n, b_n, key@, n as nat).0,
                bb == mixed(w_n, r_n, b_n, key@, n as nat).1,
                self.subkeys@ == mixed(w_n, r_n, b_n, key@, n as nat).2,
                l@ == mixed(w_n, r_n, b_n, key@, n as nat).3,
            decreases iters - n,
        {
            let ab: u64 = self.modadd(a, bb);
            let sum: u64 = self.modadd(self.subkeys[ti], ab);
            let a2: u64 = self.rol(sum, 3);
            self.subkeys[ti] = a2;
            a = a2;
            let ab2: u64 = self.modadd(a, bb);
            let lsum: u64 = self.modadd(l[kj], ab2);
            let b2: u64 = self.rol(lsum, ab2);
            l[kj] = b2;
            bb = b2;
            proof {
                assert(mixed(w_n, r_n, b_n, key@, (n + 1) as nat) == mix_step(
                    w_n,
                    mixed(w_n, r_n, b_n, key@, n as nat),
                    n as int % (t as int),
                    n as int % (c as int),
                ));
                lemma_add_mod_noop(n as int, 1, t as int);
                lemma_small_mod(1, t as nat);
                lemma_add_mod_noop(n as int, 1, c as int);
                if c == 1 {
                    lemma_mod_bound((n + 1) as int, 1);
                    lemma_mod_bound(1, 1);
                } else {
                    lemma_small_mod(1, c as nat);
                }
            }
            ti = (ti + 1) % t;
            kj = (kj + 1) % c;
            n += 1;
        }
        assert(self.subkeys@ == key_schedule(w_n, r_n, b_n, key@));
        proof {
            self.keyed@ = true;
        }
    }

    fn encrypt(&self, plaintext: &[u64; 2]) -> (c: [u64; 2]) {
        let ghost w_n = self.w as nat;
        let ghost k_n = self.bits as nat;
        let ghost s = self.subkeys@;
        let p0: u64 = plaintext[0];
        let p1: u64 = plaintext[1];
        let mut a: u64 = self.modadd(p0, self.subkeys[0]);
        let mut bb: u64 = self.modadd(p1, self.subkeys[1]);
        let rounds: usize = self.r as usize;
        let mut i: usize = 1;
        while i <= rounds
            invariant
                1 <= i <= rounds + 1,
                self.wf(),
                w_n == self.w as nat,
                k_n == self.bits as nat,
                rounds == self.r,
                s == self.subkeys@,
                s.len() == table_len(self.r as nat),
                a == enc_state(p0, p1, s, w_n, k_n, (i - 1) as nat).0,
                bb == enc_state(p0, p1, s, w_n, k_n, (i - 1) as nat).1,
            decreases rounds + 1 - i,
        {
            let rolled: u64 = self.rol(a ^ bb, bb);
            let added: u64 = self.modadd(rolled, self.subkeys[2 * i]);
            a = self.mask_w(added);
            let rolled2: u64 = self.rol(bb ^ a, a);
            let added2: u64 = self.modadd(rolled2, self.subkeys[2 * i + 1]);
            bb = self.mask_w(added2);
            proof {
                assert(enc_state(p0, p1, s, w_n, k_n, i as nat).0 == a);
                assert(enc_state(p0, p1, s, w_n, k_n, i as nat).1 == bb);
            }
            i += 1;
        }
        [a, bb]
    }

    fn decrypt(&self, ciphertext: &[u64; 2]) -> (p: [u64; 2]) {
        let ghost w_n = self.w as nat;
        let ghost k_n = self.bits as nat;
        let ghost r_n = self.r as nat;
        let ghost s = self.subkeys@;
        let c0: u64 = ciphertext[0];
        let c1: u64 = ciphertext[1];
        let mut a: u64 = c0;
        let mut bb: u64 = c1;
        let rounds: usize = self.r as usize;
        let mut idx: usize = 0;
        while idx < rounds
            invariant
                idx <= rounds,
                self.wf(),
                w_n == self.w as nat,
                k_n == self.bits as nat,
                r_n == self.r as nat,
                rounds == self.r,
                s == self.subkeys@,
                s.len() == table_len(self.r as nat),
                dec_rounds((a, bb), s, w_n, k_n, (rounds - idx) as nat) == dec_rounds(
                    (c0, c1),
                    s,
                    w_n,
                    k_n,
                    r_n,
                ),
            decreases rounds - idx,
        {
            let i: usize = rounds - idx;
            let ghost before = (a, bb);
            let sub1: u64 = self.modsub(bb, self.subkeys[2 * i + 1]);
            let rr1: u64 = self.ror(self.mask_w(sub1), a);
            bb = rr1 ^ a;
            let sub2: u64 = self.modsub(a, self.subkeys[2 * i]);
            let rr2: u64 = self.ror(self.mask_w(sub2), bb);
            a = rr2 ^ bb;
            proof {
                assert((a, bb) == dec_round(before, s, w_n, k_n, i as nat));
                assert(dec_rounds(before, s, w_n, k_n, i as nat) == dec_rounds(
                    (a, bb),
                    s,
                    w_n,
                    k_n,
                    (i - 1) as nat,
                ));
            }
            idx += 1;
        }
        let p0: u64 = self.modsub(a, self.subkeys[0]);
        let p1: u64 = self.modsub(bb, self.subkeys[1]);
        [p0, p1]
    }
}

/// The public face of the context invariant: well-formedness is one and the
/// same predicate behind both interfaces, so a context built by `new` or
/// re-keyed by `setup` satisfies every operation's precondition; and it
/// fixes the facts a caller needs to apply the laws — the range of the word
/// width, the storage width, the width mask and the table length.
pub proof fn lemma_context_facts(c: &RC5)
    ensures
        c.cipher_wf() == c.wf(),
        c.widths_wf() == c.wf(),
        c.wf() ==> c.word_bits() == c.w_param(),
        c.wf() ==> 1 <= c.w_param() <= 64,
        c.wf() ==> c.r_param() <= 0xFFFF,
        c.wf() ==> c.b_param() <= 0xFFFF,
        c.wf() ==> c.storage_bits() == bucket_of(c.w_param()),
        c.wf() ==> c.w_param() <= c.storage_bits() <= 64,
        c.wf() ==> c.width_mask() as int == pow2(c.w_param()) - 1,
        c.wf() ==> c.table().len() == table_len(c.r_param()),
{
}

/// The executable masking identity: AND with the context's width mask is
/// truncation to the low `w` bits, the `wmask` the contracts speak of.
pub proof fn lemma_width_mask(c: &RC5, v: u64)
    requires
        c.wf(),
    ensures
        v & c.width_mask() == wmask(v, c.w_param()),
{
    let w = c.w as nat;
    lemma_wmask(v, w);
    if c.w < 64 {
        lemma_u64_low_bits_mask_is_mod(v, w);
        lemma_u64_pow2_no_overflow(w);
        assert(c.mask == low_bits_mask(w) as u64);
        assert(v & c.mask == v % (pow2(w) as u64));
        assert((v % (pow2(w) as u64)) as int == (v as int) % (pow2(w) as int));
    } else {
        assert(v & 0xFFFF_FFFF_FFFF_FFFFu64 == v) by (bit_vector);
        lemma2_to64();
        lemma_small_mod(v as nat, pow2(64));
    }
}

} // verus!
