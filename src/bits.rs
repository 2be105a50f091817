use vstd::prelude::*;
use crate::word::{rotl_bits, rotr_bits, supported_width, word_mask};

verus! {

/// Rotating left and then right by the same amount, or right and then left,
/// gives back the word.
pub proof fn lemma_rotate_inverse(w: u128, x: u128, s: u128)
    requires
        supported_width(w),
        s < w,
        x <= word_mask(w),
    ensures
        rotr_bits(w, rotl_bits(w, x, s), s) == x,
        rotl_bits(w, rotr_bits(w, x, s), s) == x,
        rotl_bits(w, x, s) <= word_mask(w),
        rotr_bits(w, x, s) <= word_mask(w),
{
    if s != 0 {
        if w == 8 {
            lemma_rotate_inverse_8(x, s);
        } else if w == 16 {
            lemma_rotate_inverse_16(x, s);
        } else if w == 32 {
            lemma_rotate_inverse_32(x, s);
        } else if w == 64 {
            lemma_rotate_inverse_64(x, s);
        } else {
            lemma_rotate_inverse_128(x, s);
        }
    }
}

proof fn lemma_rotate_inverse_8(x: u128, s: u128)
    by (bit_vector)
    requires
        0 < s < 8,
        x <= 0xFF,
    ensures
        ((((x << s) | (x >> ((8u128 - s) as u128))) & 0xFF) >> s | (((x << s) | (x >> ((8u128
            - s) as u128))) & 0xFF) << ((8u128 - s) as u128)) & 0xFF == x,
        ((((x >> s) | (x << ((8u128 - s) as u128))) & 0xFF) << s | (((x >> s) | (x << ((8u128
            - s) as u128))) & 0xFF) >> ((8u128 - s) as u128)) & 0xFF == x,
        ((x << s) | (x >> ((8u128 - s) as u128))) & 0xFF <= 0xFF,
        ((x >> s) | (x << ((8u128 - s) as u128))) & 0xFF <= 0xFF,
{
}

proof fn lemma_rotate_inverse_16(x: u128, s: u128)
    by (bit_vector)
    requires
        0 < s < 16,
        x <= 0xFFFF,
    ensures
        ((((x << s) | (x >> ((16u128 - s) as u128))) & 0xFFFF) >> s | (((x << s) | (x >> ((16u128
            - s) as u128))) & 0xFFFF) << ((16u128 - s) as u128)) & 0xFFFF == x,
        ((((x >> s) | (x << ((16u128 - s) as u128))) & 0xFFFF) << s | (((x >> s) | (x << ((16u128
            - s) as u128))) & 0xFFFF) >> ((16u128 - s) as u128)) & 0xFFFF == x,
        ((x << s) | (x >> ((16u128 - s) as u128))) & 0xFFFF <= 0xFFFF,
        ((x >> s) | (x << ((16u128 - s) as u128))) & 0xFFFF <= 0xFFFF,
{
}

proof fn lemma_rotate_inverse_32(x: u128, s: u128)
    by (bit_vector)
    requires
        0 < s < 32,
        x <= 0xFFFF_FFFF,
    ensures
        ((((x << s) | (x >> ((32u128 - s) as u128))) & 0xFFFF_FFFF) >> s | (((x << s) | (x >> ((32u128
            - s) as u128))) & 0xFFFF_FFFF) << ((32u128 - s) as u128)) & 0xFFFF_FFFF == x,
        ((((x >> s) | (x << ((32u128 - s) as u128))) & 0xFFFF_FFFF) << s | (((x >> s) | (x << ((32u128
            - s) as u128))) & 0xFFFF_FFFF) >> ((32u128 - s) as u128)) & 0xFFFF_FFFF == x,
        ((x << s) | (x >> ((32u128 - s) as u128))) & 0xFFFF_FFFF <= 0xFFFF_FFFF,
        ((x >> s) | (x << ((32u128 - s) as u128))) & 0xFFFF_FFFF <= 0xFFFF_FFFF,
{
}

#[verifier::rlimit(100)]
proof fn lemma_rotate_inverse_64(x: u128, s: u128)
    by (bit_vector)
    requires
        0 < s < 64,
        x <= 0xFFFF_FFFF_FFFF_FFFF,
    ensures
        ((((x << s) | (x >> ((64u128 - s) as u128))) & 0xFFFF_FFFF_FFFF_FFFF) >> s | (((x << s) | (x >> ((64u128
            - s) as u128))) & 0xFFFF_FFFF_FFFF_FFFF) << ((64u128 - s) as u128)) & 0xFFFF_FFFF_FFFF_FFFF == x,
        ((((x >> s) | (x << ((64u128 - s) as u128))) & 0xFFFF_FFFF_FFFF_FFFF) << s | (((x >> s) | (x << ((64u128
            - s) as u128))) & 0xFFFF_FFFF_FFFF_FFFF) >> ((64u128 - s) as u128)) & 0xFFFF_FFFF_FFFF_FFFF == x,
        ((x << s) | (x >> ((64u128 - s) as u128))) & 0xFFFF_FFFF_FFFF_FFFF <= 0xFFFF_FFFF_FFFF_FFFF,
        ((x >> s) | (x << ((64u128 - s) as u128))) & 0xFFFF_FFFF_FFFF_FFFF <= 0xFFFF_FFFF_FFFF_FFFF,
{
}

#[verifier::rlimit(100)]
proof fn lemma_rotate_inverse_128(x: u128, s: u128)
    by (bit_vector)
    requires
        0 < s < 128,
        x <= 0xFFFF_FFFF_FFFF_FFFF_FFFF_FFFF_FFFF_FFFF,
    ensures
        ((((x << s) | (x >> ((128u128 - s) as u128))) & 0xFFFF_FFFF_FFFF_FFFF_FFFF_FFFF_FFFF_FFFF) >> s | (((x << s) | (x >> ((128u128
            - s) as u128))) & 0xFFFF_FFFF_FFFF_FFFF_FFFF_FFFF_FFFF_FFFF) << ((128u128 - s) as u128)) & 0xFFFF_FFFF_FFFF_FFFF_FFFF_FFFF_FFFF_FFFF == x,
        ((((x >> s) | (x << ((128u128 - s) as u128))) & 0xFFFF_FFFF_FFFF_FFFF_FFFF_FFFF_FFFF_FFFF) << s | (((x >> s) | (x << ((128u128
            - s) as u128))) & 0xFFFF_FFFF_FFFF_FFFF_FFFF_FFFF_FFFF_FFFF) >> ((128u128 - s) as u128)) & 0xFFFF_FFFF_FFFF_FFFF_FFFF_FFFF_FFFF_FFFF == x,
        ((x << s) | (x >> ((128u128 - s) as u128))) & 0xFFFF_FFFF_FFFF_FFFF_FFFF_FFFF_FFFF_FFFF <= 0xFFFF_FFFF_FFFF_FFFF_FFFF_FFFF_FFFF_FFFF,
        ((x >> s) | (x << ((128u128 - s) as u128))) & 0xFFFF_FFFF_FFFF_FFFF_FFFF_FFFF_FFFF_FFFF <= 0xFFFF_FFFF_FFFF_FFFF_FFFF_FFFF_FFFF_FFFF,
{
}

/// Exclusive or keeps a value within the width, and undoes itself.
pub proof fn lemma_xor_word(w: u128, x: u128, y: u128)
    requires
        supported_width(w),
        x <= word_mask(w),
        y <= word_mask(w),
    ensures
        x ^ y <= word_mask(w),
        (x ^ y) ^ y == x,
        (x ^ y) ^ x == y,
{
    let m = word_mask(w);
    assert(x ^ y <= m && (x ^ y) ^ y == x && (x ^ y) ^ x == y) by (bit_vector)
        requires
            m == 0xFF || m == 0xFFFF || m == 0xFFFF_FFFF || m == 0xFFFF_FFFF_FFFF_FFFF || m
                == 0xFFFF_FFFF_FFFF_FFFF_FFFF_FFFF_FFFF_FFFF,
            x <= m,
            y <= m,
    ;
}

} // verus!
