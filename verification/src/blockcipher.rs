//! The two interfaces of the cipher: word-level bit operations tied to a
//! context's word and storage widths, and the block-level contract of key
//! setup, encryption and decryption.

use vstd::prelude::*;

verus! {

use vstd::arithmetic::power2::pow2;
use crate::word::{wadd, wsub, rotl, rotr, bucket_of};
use crate::model::{key_schedule, spec_encrypt, spec_decrypt, table_len};

/// Word-level operations of a cipher context: wrapping addition and
/// subtraction at the storage width, and cyclic rotation of the low word
/// bits with a count reduced modulo the word width.
pub trait BitwiseOperator {
    /// The word width `w` in bits.
    spec fn word_bits(&self) -> nat;

    /// The storage width in bits: the smallest native width holding `w`.
    spec fn storage_bits(&self) -> nat;

    /// The width mask `2^w - 1` that truncates a value to a word.
    spec fn width_mask(&self) -> u64;

    /// The widths are admissible.
    spec fn widths_wf(&self) -> bool;

    /// Left cyclic rotation of the low `w` bits of `v` by `n mod w`.
    fn rol(&self, v: u64, n: u64) -> (r: u64)
        requires
            self.widths_wf(),
        ensures
            r == rotl(v, n, self.word_bits()),
            r < pow2(self.word_bits()),
    ;

    /// Right cyclic rotation of the low `w` bits of `v` by `n mod w`.
    fn ror(&self, v: u64, n: u64) -> (r: u64)
        requires
            self.widths_wf(),
        ensures
            r == rotr(v, n, self.word_bits()),
            r < pow2(self.word_bits()),
    ;

    /// Wrapping addition at the storage width.
    fn modadd(&self, a: u64, b: u64) -> (r: u64)
        requires
            self.widths_wf(),
        ensures
            r == wadd(a, b, self.storage_bits()),
    ;

    /// Wrapping subtraction at the storage width.
    fn modsub(&self, a: u64, b: u64) -> (r: u64)
        requires
            self.widths_wf(),
        ensures
            r == wsub(a, b, self.storage_bits()),
    ;
}

/// The block-level contract: `setup` derives the subkey table from the key
/// bytes, and `encrypt` / `decrypt` drive a two-word block through the
/// round transforms that consume the table.
pub trait BlockCipher {
    /// The context invariant over the construction parameters.
    spec fn cipher_wf(&self) -> bool;

    /// The word width `w` in bits.
    spec fn w_param(&self) -> nat;

    /// The round count `r`.
    spec fn r_param(&self) -> nat;

    /// The key length `b` in bytes.
    spec fn b_param(&self) -> nat;

    /// The current subkey table.
    spec fn table(&self) -> Seq<u64>;

    /// Whether `setup` has completed on this context.
    spec fn is_keyed(&self) -> bool;

    /// Expands `key` into the subkey table. The key length must equal the
    /// `b` the context was built with (zero admits the empty key). The
    /// resulting table is a function of the parameters and the key bytes
    /// alone, so identical `(w, r, b, key)` always yield identical tables.
    fn setup(&mut self, key: &Vec<u8>)
        requires
            old(self).cipher_wf(),
            key@.len() == old(self).b_param(),
        ensures
            final(self).cipher_wf(),
            final(self).w_param() == old(self).w_param(),
            final(self).r_param() == old(self).r_param(),
            final(self).b_param() == old(self).b_param(),
            final(self).is_keyed(),
            final(self).table() == key_schedule(
                old(self).w_param(),
                old(self).r_param(),
                old(self).b_param(),
                key@,
            ),
            final(self).table().len() == table_len(old(self).r_param()),
    ;

    /// Encrypts a two-word block whose words the caller has already
    /// reduced to `w` bits; the context must have been set up.
    fn encrypt(&self, plaintext: &[u64; 2]) -> (c: [u64; 2])
        requires
            self.cipher_wf(),
            self.is_keyed(),
            plaintext[0] < pow2(self.w_param()),
            plaintext[1] < pow2(self.w_param()),
        ensures
            (c[0], c[1]) == spec_encrypt(
                plaintext[0],
                plaintext[1],
                self.table(),
                self.w_param(),
                bucket_of(self.w_param()),
                self.r_param(),
            ),
    ;

    /// Decrypts a two-word block; the exact algebraic inverse of
    /// `encrypt`, iterating the rounds from `r` down to `1`.
    fn decrypt(&self, ciphertext: &[u64; 2]) -> (p: [u64; 2])
        requires
            self.cipher_wf(),
            self.is_keyed(),
        ensures
            (p[0], p[1]) == spec_decrypt(
                ciphertext[0],
                ciphertext[1],
                self.table(),
                self.w_param(),
                bucket_of(self.w_param()),
                self.r_param(),
            ),
    ;
}

} // verus!
