use vstd::prelude::*;
use crate::rc5::{
    bytes_per_word, decrypt_block_spec, encrypt_block_spec, expand_key_spec, magic_p, magic_q,
    valid_table, RC5,
};

verus! {

/// What an encryption or decryption call can fail on.
#[derive(Debug, Clone, Copy, PartialEq, Eq, Structural)]
pub enum Rc5Error {
    /// The key is not of the configured length.
    InvalidKeyLen,
    /// The block is shorter than two words.
    BufferOutOfBounds,
}

/// The parameter sets on offer, written `RC5-w/r/b`: word bits, rounds and key bytes.
#[allow(non_camel_case_types)]
#[derive(Debug, Clone, Copy, PartialEq, Eq, Structural)]
pub enum Rc5Version {
    Rc5_32_12_16,
    Rc5_32_16_16,
}

/// The number of rounds of a parameter set.
pub open spec fn version_rounds(v: Rc5Version) -> nat {
    match v {
        Rc5Version::Rc5_32_12_16 => 12,
        Rc5Version::Rc5_32_16_16 => 16,
    }
}

/// An RC5 cipher on 32-bit words bound to one 16-byte key, whose round keys
/// are made once, when it is created.
pub struct Rc5 {
    cipher: RC5,
    secret_key_table: Vec<u128>,
}

impl Rc5 {
    pub closed spec fn rounds(self) -> nat {
        self.cipher.rounds()
    }

    /// The round keys made from the key.
    pub closed spec fn table(self) -> Seq<u128> {
        self.secret_key_table@
    }

    pub closed spec fn wf(self) -> bool {
        &&& self.cipher.wf()
        &&& self.cipher.width() == 32
        &&& valid_table(32, self.secret_key_table@, self.cipher.rounds())
    }

    /// A cipher of the given parameter set under `key`, which must be 16 bytes long.
    pub fn new(key: &[u8], version: Rc5Version) -> (r: Result<Self, Rc5Error>)
        ensures
            key@.len() != 16 ==> r == Err::<Self, Rc5Error>(Rc5Error::InvalidKeyLen),
            key@.len() == 16 ==> (r matches Ok(c) && c.wf() && c.rounds() == version_rounds(
                version,
            ) && c.table() == expand_key_spec(
                32,
                version_rounds(version),
                magic_p(32),
                magic_q(32),
                key@,
            )),
    {
        let num_rounds: u8 = match version {
            Rc5Version::Rc5_32_12_16 => 12,
            Rc5Version::Rc5_32_16_16 => 16,
        };
        let key_len: usize = 16;
        if key.len() != key_len {
            return Err(Rc5Error::InvalidKeyLen);
        }
        let cipher = RC5::new(32, num_rounds, 16);
        let secret_key_table = cipher.expand(key);
        Ok(Rc5 { cipher, secret_key_table })
    }

    /// Encrypts the block at the start of `plaintext`.
    pub fn encrypt(&self, plaintext: Vec<u8>) -> (r: Result<Vec<u8>, Rc5Error>)
        requires
            self.wf(),
        ensures
            plaintext@.len() < 8 ==> r == Err::<Vec<u8>, Rc5Error>(Rc5Error::BufferOutOfBounds),
            plaintext@.len() >= 8 ==> (r matches Ok(v) && v@ == encrypt_block_spec(
                32,
                self.table(),
                self.rounds(),
                plaintext@,
            )),
    {
        if plaintext.len() < 8 {
            return Err(Rc5Error::BufferOutOfBounds);
        }
        Ok(self.cipher.encrypt_with(&self.secret_key_table, plaintext.as_slice()))
    }

    /// Decrypts the block at the start of `ciphertext`.
    pub fn decrypt(&self, ciphertext: &[u8]) -> (r: Result<Vec<u8>, Rc5Error>)
        requires
            self.wf(),
        ensures
            ciphertext@.len() < 8 ==> r == Err::<Vec<u8>, Rc5Error>(Rc5Error::BufferOutOfBounds),
            ciphertext@.len() >= 8 ==> (r matches Ok(v) && v@ == decrypt_block_spec(
                32,
                self.table(),
                self.rounds(),
                ciphertext@,
            )),
    {
        if ciphertext.len() < 8 {
            return Err(Rc5Error::BufferOutOfBounds);
        }
        Ok(self.cipher.decrypt_with(&self.secret_key_table, ciphertext))
    }
}

} // verus!
