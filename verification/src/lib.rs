//! A parameterized symmetric block cipher: a key schedule expanding a
//! variable-length secret into a subkey table, and a pair of inverse round
//! transforms on two-word blocks. The word width `w`, the round count `r` and
//! the key length `b` are all configurable, including non-standard widths
//! such as 24-bit words and a zero-length key.

use vstd::prelude::*;

mod blockcipher;
mod laws;
mod model;
mod rc5;
mod word;

pub use blockcipher::{BitwiseOperator, BlockCipher};
pub use laws::{
    lemma_round_trip, lemma_round_trip_native, lemma_schedule_deterministic, lemma_schedule_wf,
    lemma_zero_round,
};
pub use model::{key_schedule, spec_decrypt, spec_encrypt, table_len};
pub use rc5::{lemma_context_facts, lemma_width_mask, RC5};
pub use word::{wadd, wsub, wmask, rotl, rotr, bucket_of, lemma_rotation_involution};

verus! {

/// Converts a two-element vector into a two-word block.
pub fn conv(v: Vec<u64>) -> (r: [u64; 2])
    requires
        v@.len() == 2,
    ensures
        r[0] == v@[0],
        r[1] == v@[1],
{
    [v[0], v[1]]
}

} // verus!
