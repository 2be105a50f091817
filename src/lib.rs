pub mod bits;
pub mod cypher;
pub mod rc5;
pub mod utils;
pub mod word;

pub use cypher::{Rc5, Rc5Error, Rc5Version};
pub use rc5::RC5;
pub use utils::{div_ceil, BigNum};
pub use word::{Word, WordBuilder, WordType};

use vstd::prelude::*;
use rc5::{
    decrypt_block_spec, decrypt_values, encrypt_block_spec, encrypt_values, expand_key_spec,
    expand_key_values, magic_p, magic_q,
};

verus! {

/// RC5-32/12/16 encryption of the eight-byte block `pt` under the sixteen-byte `key`.
pub fn encode(key: Vec<u8>, pt: Vec<u8>) -> (r: Vec<u8>)
    requires
        key@.len() == 16,
        pt@.len() == 8,
    ensures
        r@ == encrypt_block_spec(
            32,
            expand_key_spec(32, 12, magic_p(32), magic_q(32), key@),
            12,
            pt@,
        ),
{
    let s = expand_key_values(32, 12, 0xB7E15163, 0x9E3779B9, key.as_slice());
    encrypt_values(32, 12, &s, pt.as_slice())
}

/// RC5-32/12/16 decryption of the eight-byte block `ciphertext` under the
/// sixteen-byte `key`.
pub fn decode(key: Vec<u8>, ciphertext: Vec<u8>) -> (r: Vec<u8>)
    requires
        key@.len() == 16,
        ciphertext@.len() == 8,
    ensures
        r@ == decrypt_block_spec(
            32,
            expand_key_spec(32, 12, magic_p(32), magic_q(32), key@),
            12,
            ciphertext@,
        ),
{
    let s = expand_key_values(32, 12, 0xB7E15163, 0x9E3779B9, key.as_slice());
    decrypt_values(32, 12, &s, ciphertext.as_slice())
}

} // verus!
