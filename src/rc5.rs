use vstd::prelude::*;
use crate::utils::{ceil_div, div_ceil, lemma_ceil_div_count};
use crate::bits::{lemma_rotate_inverse, lemma_xor_word};
use crate::cypher::Rc5Error;
use crate::word::{
    add_values, le_bytes, le_value, lemma_add_sub_inverse, lemma_bytes_of_le_value,
    lemma_le_value_bound, lemma_le_value_of_bytes, lemma_modulus_bytes, lemma_pow256_monotonic,
    modulus, pow256, rotate_left, rotate_right, rotl_values, rotr_values, sub_values,
    supported_width, value_le_bytes, word_mask, wrap_add, wrap_sub, Word, WordBuilder,
};

verus! {

/// Number of bytes in a word of width `w`.
pub open spec fn bytes_per_word(w: u128) -> nat {
    (w / 8) as nat
}

/// End of the `k`-th group of `u` bytes in a sequence of `n` bytes.
pub open spec fn group_end(k: int, u: nat, n: nat) -> int {
    if (k + 1) * u < n {
        (k + 1) * u
    } else {
        n as int
    }
}

/// The bytes read as words of width `w`: word `k` is the little-endian value of
/// bytes `k*u .. (k+1)*u` (`u` bytes per word); a last, shorter group makes a
/// last word of its own.
pub open spec fn parse_spec(w: u128, b: Seq<u8>) -> Seq<u128> {
    let u = bytes_per_word(w);
    Seq::new(
        ceil_div(b.len(), u),
        |k: int| le_value(b.subrange(k * u, group_end(k, u, b.len()))) as u128,
    )
}

/// The words of `b`, read as `w`-bit words.
pub fn parse_values(w: u128, input: &[u8]) -> (r: Vec<u128>)
    requires
        supported_width(w),
    ensures
        r@ == parse_spec(w, input@),
        forall|k: int| 0 <= k < r@.len() ==> #[trigger] r@[k] <= word_mask(w),
{
    proof {
        lemma_modulus_bytes(w);
    }
    let u: usize = (w / 8) as usize;
    let n: usize = input.len();
    let ghost b = input@;
    let mut out: Vec<u128> = Vec::new();
    let mut start: usize = 0;
    assert(out@.len() * u == 0) by (nonlinear_arith)
        requires
            out@.len() == 0,
    ;
    while start < n
        invariant
            u == bytes_per_word(w),
            1 <= u <= 16,
            modulus(w) == pow256(u as nat),
            n == b.len(),
            b == input@,
            start <= n,
            start < n ==> start == out@.len() * u,
            start == n ==> n <= out@.len() * u,
            out@.len() * u < n + u,
            forall|k: int|
                0 <= k < out@.len() ==> #[trigger] out@[k] == le_value(
                    b.subrange(k * u, group_end(k, u as nat, n as nat)),
                ) as u128,
            forall|k: int| 0 <= k < out@.len() ==> #[trigger] out@[k] <= word_mask(w),
        decreases n - start,
    {
        let end: usize = if n - start > u {
            start + u
        } else {
            n
        };
        let ghost k = out@.len() as int;
        assert(end == group_end(k, u as nat, n as nat)) by (nonlinear_arith)
            requires
                start == k * u,
                end == if n - start > u {
                    start + u
                } else {
                    n as int
                },
        ;
        let mut v: u128 = 0;
        let mut j: usize = end;
        proof {
            assert(b.subrange(j as int, end as int) =~= Seq::<u8>::empty());
        }
        while j > start
            invariant
                start <= j <= end <= n,
                end - start <= u,
                n == b.len(),
                b == input@,
                1 <= u <= 16,
                modulus(w) == pow256(u as nat),
                v == le_value(b.subrange(j as int, end as int)),
                v < pow256((end - j) as nat),
            decreases j,
        {
            j = j - 1;
            proof {
                let tail = b.subrange(j as int + 1, end as int);
                let s = b.subrange(j as int, end as int);
                assert(s.subrange(1, s.len() as int) =~= tail);
                assert(le_value(s) == s[0] + 256 * le_value(tail));
                lemma_pow256_monotonic((end - j) as nat, u as nat);
                assert(v * 256 + b[j as int] < 256 * pow256((end - j - 1) as nat)) by (
                nonlinear_arith)
                    requires
                        v + 1 <= pow256((end - j - 1) as nat),
                        b[j as int] < 256,
                ;
                assert(pow256((end - j) as nat) == 256 * pow256((end - j - 1) as nat));
            }
            v = v * 256 + input[j] as u128;
        }
        proof {
            lemma_le_value_bound(b.subrange(start as int, end as int));
            lemma_pow256_monotonic((end - start) as nat, u as nat);
        }
        out.push(v);
        start = end;
        proof {
            assert(out@.len() * u == k * u + u) by (nonlinear_arith)
                requires
                    out@.len() == k + 1,
            ;
        }
    }
    proof {
        lemma_ceil_div_count(n as nat, u as nat, out@.len());
        assert(out@ =~= parse_spec(w, b));
    }
    out
}

/// The round-key table before the key is mixed in: `S[i] = P + i*Q mod 2^w`.
pub open spec fn initial_table(w: u128, p: u128, q: u128, t: nat) -> Seq<u128> {
    Seq::new(t, |i: int| ((p + i * q) % (modulus(w) as int)) as u128)
}

/// State of the key-mixing pass: the table `S`, the key words `L`, the two
/// accumulators `A` and `B`, and the indices `i` into `S` and `j` into `L`.
pub type MixState = (Seq<u128>, Seq<u128>, u128, u128, int, int);

/// One step of the key-mixing pass.
pub open spec fn mix_step(w: u128, st: MixState) -> MixState {
    let (s, l, a, b, i, j) = st;
    let a2 = rotate_left(w, wrap_add(w, s[i], wrap_add(w, a, b)), 3);
    let ab = wrap_add(w, a2, b);
    let b2 = rotate_left(w, wrap_add(w, l[j], ab), ab);
    (
        s.update(i, a2),
        l.update(j, b2),
        a2,
        b2,
        (i + 1) % (s.len() as int),
        (j + 1) % (l.len() as int),
    )
}

/// `n` steps of the key-mixing pass.
pub open spec fn mix(w: u128, st: MixState, n: nat) -> MixState
    decreases n,
{
    if n == 0 {
        st
    } else {
        mix(w, mix_step(w, st), (n - 1) as nat)
    }
}

/// Number of round keys for `rounds` rounds: `2 * (rounds + 1)`.
pub open spec fn table_len(rounds: nat) -> nat {
    2 * (rounds + 1)
}

/// Number of mixing steps: three times the longer of the table and the key words.
pub open spec fn mix_len(t: nat, c: nat) -> nat {
    3 * if t > c {
        t
    } else {
        c
    }
}

/// The round-key table that the key schedule makes from `key`, for words of
/// width `w`, `rounds` rounds and magic constants `p` and `q`.
pub open spec fn expand_key_spec(w: u128, rounds: nat, p: u128, q: u128, key: Seq<u8>) -> Seq<
    u128,
> {
    let t = table_len(rounds);
    let l = parse_spec(w, key);
    mix(w, (initial_table(w, p, q, t), l, 0, 0, 0, 0), mix_len(t, l.len())).0
}

/// The key schedule on word values.
pub fn expand_key_values(w: u128, rounds: u8, p: u128, q: u128, key: &[u8]) -> (r: Vec<u128>)
    requires
        supported_width(w),
        p <= word_mask(w),
        q <= word_mask(w),
        key@.len() > 0,
    ensures
        r@ == expand_key_spec(w, rounds as nat, p, q, key@),
        r@.len() == table_len(rounds as nat),
        forall|k: int| 0 <= k < r@.len() ==> #[trigger] r@[k] <= word_mask(w),
{
    let mut l = parse_values(w, key);
    let c: usize = l.len();
    proof {
        lemma_modulus_bytes(w);
        assert(c >= 1) by (nonlinear_arith)
            requires
                c == (key@.len() + bytes_per_word(w) - 1) / (bytes_per_word(w) as int),
                key@.len() >= 1,
                bytes_per_word(w) >= 1,
        ;
    }
    let t: usize = 2 * (rounds as usize + 1);
    let ghost m = modulus(w) as int;
    let mut s: Vec<u128> = Vec::new();
    s.push(p);
    proof {
        vstd::arithmetic::div_mod::lemma_small_mod(p as nat, m as nat);
        assert(p + 0 * q == p);
        assert(s@[0] == ((p + 0 * q) % m) as u128);
    }
    let mut n: usize = 1;
    while n < t
        invariant
            1 <= n <= t,
            t == table_len(rounds as nat),
            supported_width(w),
            m == modulus(w),
            q <= word_mask(w),
            s@.len() == n,
            forall|k: int| 0 <= k < n ==> #[trigger] s@[k] == ((p + k * q) % m) as u128,
            forall|k: int| 0 <= k < n ==> #[trigger] s@[k] <= word_mask(w),
        decreases t - n,
    {
        let prev = s[n - 1];
        let next = add_values(w, prev, q);
        proof {
            let k = n - 1;
            assert(p + k * q + q == p + n * q) by (nonlinear_arith)
                requires
                    k == n - 1,
            ;
            vstd::arithmetic::div_mod::lemma_add_mod_noop(p + k * q, q as int, m);
            vstd::arithmetic::div_mod::lemma_small_mod(q as nat, m as nat);
        }
        s.push(next);
        n = n + 1;
    }
    let ghost init: MixState = (s@, l@, 0u128, 0u128, 0int, 0int);
    proof {
        assert(s@ =~= initial_table(w, p, q, t as nat));
    }
    let total: u128 = 3 * (if t > c {
        t
    } else {
        c
    }) as u128;
    let mut a: u128 = 0;
    let mut b: u128 = 0;
    let mut i: usize = 0;
    let mut j: usize = 0;
    let mut done: u128 = 0;
    while done < total
        invariant
            supported_width(w),
            total == mix_len(t as nat, c as nat),
            done <= total,
            s@.len() == t,
            l@.len() == c,
            t >= 2,
            c >= 1,
            i < t,
            j < c,
            a <= word_mask(w),
            b <= word_mask(w),
            forall|k: int| 0 <= k < s@.len() ==> #[trigger] s@[k] <= word_mask(w),
            forall|k: int| 0 <= k < l@.len() ==> #[trigger] l@[k] <= word_mask(w),
            mix(w, (s@, l@, a, b, i as int, j as int), (total - done) as nat) == mix(
                w,
                init,
                total as nat,
            ),
        decreases total - done,
    {
        let ghost before: MixState = (s@, l@, a, b, i as int, j as int);
        let sa = rotl_values(w, add_values(w, s[i], add_values(w, a, b)), 3);
        s.set(i, sa);
        a = sa;
        let ab = add_values(w, a, b);
        let lb = rotl_values(w, add_values(w, l[j], ab), ab);
        l.set(j, lb);
        b = lb;
        i = (i + 1) % t;
        j = (j + 1) % c;
        done = done + 1;
        proof {
            assert((s@, l@, a, b, i as int, j as int) == mix_step(w, before));
        }
    }
    proof {
        assert(init.1 == parse_spec(w, key@));
    }
    s
}

/// Round `i` of encryption on the pair `(a, b)`.
pub open spec fn enc_round(w: u128, s: Seq<u128>, a: u128, b: u128, i: int) -> (u128, u128) {
    let a2 = wrap_add(w, rotate_left(w, a ^ b, b), s[2 * i]);
    let b2 = wrap_add(w, rotate_left(w, b ^ a2, a2), s[2 * i + 1]);
    (a2, b2)
}

/// The pair after key whitening and rounds `1..=n` of encryption.
pub open spec fn enc_rounds(w: u128, s: Seq<u128>, a: u128, b: u128, n: nat) -> (u128, u128)
    decreases n,
{
    if n == 0 {
        (wrap_add(w, a, s[0]), wrap_add(w, b, s[1]))
    } else {
        let ab = enc_rounds(w, s, a, b, (n - 1) as nat);
        enc_round(w, s, ab.0, ab.1, n as int)
    }
}

/// Round `i` of decryption on the pair `(a, b)`: the inverse of `enc_round`.
pub open spec fn dec_round(w: u128, s: Seq<u128>, a: u128, b: u128, i: int) -> (u128, u128) {
    let b2 = rotate_right(w, wrap_sub(w, b, s[2 * i + 1]), a) ^ a;
    let a2 = rotate_right(w, wrap_sub(w, a, s[2 * i]), b2) ^ b2;
    (a2, b2)
}

/// The pair after rounds `n` down to `1` of decryption and the removal of the
/// whitening keys.
pub open spec fn dec_rounds(w: u128, s: Seq<u128>, a: u128, b: u128, n: nat) -> (u128, u128)
    decreases n,
{
    if n == 0 {
        (wrap_sub(w, a, s[0]), wrap_sub(w, b, s[1]))
    } else {
        let ab = dec_round(w, s, a, b, n as int);
        dec_rounds(w, s, ab.0, ab.1, (n - 1) as nat)
    }
}

/// The two words at the start of a block, each `u` little-endian bytes.
pub open spec fn block_words(w: u128, block: Seq<u8>) -> (u128, u128) {
    let u = bytes_per_word(w);
    (le_value(block.subrange(0, u as int)) as u128, le_value(block.subrange(u as int, 2 * u as int))
        as u128)
}

/// Two words written as `2 * u` little-endian bytes.
pub open spec fn pair_bytes(w: u128, ab: (u128, u128)) -> Seq<u8> {
    let u = bytes_per_word(w);
    le_bytes(ab.0 as nat, u) + le_bytes(ab.1 as nat, u)
}

/// Encryption of the block at the start of `block` under the round keys `s`.
pub open spec fn encrypt_block_spec(w: u128, s: Seq<u128>, rounds: nat, block: Seq<u8>) -> Seq<
    u8,
> {
    let ab = block_words(w, block);
    pair_bytes(w, enc_rounds(w, s, ab.0, ab.1, rounds))
}

/// Decryption of the block at the start of `block` under the round keys `s`.
pub open spec fn decrypt_block_spec(w: u128, s: Seq<u128>, rounds: nat, block: Seq<u8>) -> Seq<
    u8,
> {
    let ab = block_words(w, block);
    pair_bytes(w, dec_rounds(w, s, ab.0, ab.1, rounds))
}

/// A table of `w`-bit round keys long enough for `rounds` rounds.
pub open spec fn valid_table(w: u128, s: Seq<u128>, rounds: nat) -> bool {
    &&& s.len() >= table_len(rounds)
    &&& forall|k: int| 0 <= k < s.len() ==> #[trigger] s[k] <= word_mask(w)
}

proof fn lemma_round_inverse(w: u128, s: Seq<u128>, rounds: nat, a: u128, b: u128, i: int)
    requires
        supported_width(w),
        valid_table(w, s, rounds),
        1 <= i <= rounds,
        a <= word_mask(w),
        b <= word_mask(w),
    ensures
        dec_round(w, s, enc_round(w, s, a, b, i).0, enc_round(w, s, a, b, i).1, i) == (a, b),
        enc_round(w, s, a, b, i).0 <= word_mask(w),
        enc_round(w, s, a, b, i).1 <= word_mask(w),
{
    let k0 = s[2 * i];
    let k1 = s[2 * i + 1];
    lemma_xor_word(w, a, b);
    let x = a ^ b;
    lemma_rotate_inverse(w, x, b % w);
    let a2 = wrap_add(w, rotate_left(w, x, b), k0);
    lemma_add_sub_inverse(w, rotate_left(w, x, b), k0);
    lemma_xor_word(w, b, a2);
    let y = b ^ a2;
    lemma_rotate_inverse(w, y, a2 % w);
    let b2 = wrap_add(w, rotate_left(w, y, a2), k1);
    lemma_add_sub_inverse(w, rotate_left(w, y, a2), k1);
    assert(rotate_right(w, wrap_sub(w, b2, k1), a2) == y);
    assert(y ^ a2 == b);
    assert(rotate_right(w, wrap_sub(w, a2, k0), b) == x);
    assert(x ^ b == a);
}

proof fn lemma_rounds_inverse(w: u128, s: Seq<u128>, rounds: nat, a: u128, b: u128, n: nat)
    requires
        supported_width(w),
        valid_table(w, s, rounds),
        n <= rounds,
        a <= word_mask(w),
        b <= word_mask(w),
    ensures
        dec_rounds(w, s, enc_rounds(w, s, a, b, n).0, enc_rounds(w, s, a, b, n).1, n) == (a, b),
        enc_rounds(w, s, a, b, n).0 <= word_mask(w),
        enc_rounds(w, s, a, b, n).1 <= word_mask(w),
    decreases n,
{
    if n == 0 {
        lemma_add_sub_inverse(w, a, s[0]);
        lemma_add_sub_inverse(w, b, s[1]);
    } else {
        lemma_rounds_inverse(w, s, rounds, a, b, (n - 1) as nat);
        let prev = enc_rounds(w, s, a, b, (n - 1) as nat);
        lemma_round_inverse(w, s, rounds, prev.0, prev.1, n as int);
    }
}

/// The words of a block are words of the width.
proof fn lemma_block_words(w: u128, block: Seq<u8>)
    requires
        supported_width(w),
        block.len() >= 2 * bytes_per_word(w),
    ensures
        block_words(w, block).0 <= word_mask(w),
        block_words(w, block).1 <= word_mask(w),
{
    let u = bytes_per_word(w);
    lemma_modulus_bytes(w);
    lemma_le_value_bound(block.subrange(0, u as int));
    lemma_le_value_bound(block.subrange(u as int, 2 * u as int));
}

/// Two words written as bytes read back as the same two words.
proof fn lemma_pair_bytes_words(w: u128, ab: (u128, u128))
    requires
        supported_width(w),
        ab.0 <= word_mask(w),
        ab.1 <= word_mask(w),
    ensures
        block_words(w, pair_bytes(w, ab)) == ab,
        pair_bytes(w, ab).len() == 2 * bytes_per_word(w),
{
    let u = bytes_per_word(w);
    lemma_modulus_bytes(w);
    lemma_le_value_of_bytes(ab.0 as nat, u);
    lemma_le_value_of_bytes(ab.1 as nat, u);
    let out = pair_bytes(w, ab);
    assert(out.subrange(0, u as int) =~= le_bytes(ab.0 as nat, u));
    assert(out.subrange(u as int, 2 * u as int) =~= le_bytes(ab.1 as nat, u));
}

/// Decryption undoes encryption: for every table of round keys of the width,
/// every number of rounds and every block of two words, decrypting the
/// encrypted block gives the block back.
pub proof fn lemma_block_round_trip(w: u128, s: Seq<u128>, rounds: nat, block: Seq<u8>)
    requires
        supported_width(w),
        valid_table(w, s, rounds),
        block.len() == 2 * bytes_per_word(w),
    ensures
        decrypt_block_spec(w, s, rounds, encrypt_block_spec(w, s, rounds, block)) == block,
{
    let u = bytes_per_word(w);
    lemma_block_words(w, block);
    let ab = block_words(w, block);
    lemma_rounds_inverse(w, s, rounds, ab.0, ab.1, rounds);
    let ct = enc_rounds(w, s, ab.0, ab.1, rounds);
    lemma_pair_bytes_words(w, ct);
    let b0 = block.subrange(0, u as int);
    let b1 = block.subrange(u as int, 2 * u as int);
    lemma_bytes_of_le_value(b0);
    lemma_bytes_of_le_value(b1);
    lemma_modulus_bytes(w);
    lemma_le_value_bound(b0);
    lemma_le_value_bound(b1);
    assert(ab.0 as nat == le_value(b0));
    assert(ab.1 as nat == le_value(b1));
    assert(pair_bytes(w, ab) == b0 + b1);
    assert(b0 + b1 =~= block);
}

/// The first two words of a block of at least two words.
fn read_block(w: u128, input: &[u8]) -> (r: (u128, u128))
    requires
        supported_width(w),
        input@.len() >= 2 * bytes_per_word(w),
    ensures
        r == block_words(w, input@),
        r.0 <= word_mask(w),
        r.1 <= word_mask(w),
{
    let words = parse_values(w, input);
    proof {
        lemma_modulus_bytes(w);
        let u = bytes_per_word(w);
        let n = input@.len();
        assert((n + u - 1) / (u as int) >= 2) by (nonlinear_arith)
            requires
                n >= 2 * u,
                u >= 1,
        ;
        assert(group_end(0, u, n) == u);
        assert(group_end(1, u, n) == 2 * u);
        assert(1 * u == u);
    }
    (words[0], words[1])
}

/// Two words written as `2 * u` little-endian bytes.
fn write_block(w: u128, a: u128, b: u128) -> (r: Vec<u8>)
    requires
        supported_width(w),
    ensures
        r@ == pair_bytes(w, (a, b)),
{
    proof {
        lemma_modulus_bytes(w);
    }
    let mut out = value_le_bytes(a, w / 8);
    let mut tail = value_le_bytes(b, w / 8);
    out.append(&mut tail);
    out
}

/// Encryption of one block under the round keys `s`.
pub fn encrypt_values(w: u128, rounds: u8, s: &Vec<u128>, input: &[u8]) -> (r: Vec<u8>)
    requires
        supported_width(w),
        valid_table(w, s@, rounds as nat),
        input@.len() >= 2 * bytes_per_word(w),
    ensures
        r@ == encrypt_block_spec(w, s@, rounds as nat, input@),
{
    let (a0, b0) = read_block(w, input);
    let mut a = add_values(w, a0, s[0]);
    let mut b = add_values(w, b0, s[1]);
    let mut i: usize = 1;
    while i <= rounds as usize
        invariant
            supported_width(w),
            valid_table(w, s@, rounds as nat),
            1 <= i <= rounds + 1,
            (a, b) == enc_rounds(w, s@, a0, b0, (i - 1) as nat),
            a <= word_mask(w),
            b <= word_mask(w),
        decreases rounds + 1 - i,
    {
        proof {
            lemma_xor_word(w, a, b);
        }
        a = add_values(w, rotl_values(w, a ^ b, b), s[2 * i]);
        proof {
            lemma_xor_word(w, b, a);
        }
        b = add_values(w, rotl_values(w, b ^ a, a), s[2 * i + 1]);
        i = i + 1;
    }
    write_block(w, a, b)
}

/// Decryption of one block under the round keys `s`.
pub fn decrypt_values(w: u128, rounds: u8, s: &Vec<u128>, input: &[u8]) -> (r: Vec<u8>)
    requires
        supported_width(w),
        valid_table(w, s@, rounds as nat),
        input@.len() >= 2 * bytes_per_word(w),
    ensures
        r@ == decrypt_block_spec(w, s@, rounds as nat, input@),
{
    let (a0, b0) = read_block(w, input);
    let mut a = a0;
    let mut b = b0;
    let mut i: usize = rounds as usize;
    while i > 0
        invariant
            supported_width(w),
            valid_table(w, s@, rounds as nat),
            i <= rounds,
            dec_rounds(w, s@, a, b, i as nat) == dec_rounds(w, s@, a0, b0, rounds as nat),
            a <= word_mask(w),
            b <= word_mask(w),
        decreases i,
    {
        let rb = rotr_values(w, sub_values(w, b, s[2 * i + 1]), a);
        proof {
            lemma_xor_word(w, rb, a);
        }
        b = rb ^ a;
        let ra = rotr_values(w, sub_values(w, a, s[2 * i]), b);
        proof {
            lemma_xor_word(w, ra, b);
        }
        a = ra ^ b;
        i = i - 1;
    }
    a = sub_values(w, a, s[0]);
    b = sub_values(w, b, s[1]);
    write_block(w, a, b)
}

/// The magic constant `P` of width `w`: `(e - 2) * 2^w` cut to an integer
/// and made odd.
pub open spec fn magic_p(w: u128) -> u128 {
    if w == 8 {
        0xB7
    } else if w == 16 {
        0xB7E1
    } else if w == 32 {
        0xB7E15163
    } else if w == 64 {
        0xB7E151628AED2A6B
    } else {
        0xB7E151628AED2A6ABF7158809CF4F3C7
    }
}

/// The magic constant `Q` of width `w`: `(phi - 1) * 2^w` cut to an integer
/// and made odd.
pub open spec fn magic_q(w: u128) -> u128 {
    if w == 8 {
        0x9F
    } else if w == 16 {
        0x9E37
    } else if w == 32 {
        0x9E3779B9
    } else if w == 64 {
        0x9E3779B97F4A7C15
    } else {
        0x9E3779B97F4A7C15F39CC0605CEDC835
    }
}

/// The bytes of a sequence of words, each written little-endian in its own width.
pub open spec fn words_bytes(ws: Seq<Word>) -> Seq<u8>
    decreases ws.len(),
{
    if ws.len() == 0 {
        Seq::empty()
    } else {
        words_bytes(ws.drop_last()) + le_bytes(
            ws.last().value() as nat,
            (ws.last().width() / 8) as nat,
        )
    }
}

/// An RC5 cipher with a word width, a number of rounds and a key length.
/// The round keys are made from the key on every call.
pub struct RC5 {
    word_size: usize,
    num_rounds: u8,
    key_size: u8,
    word_builder: WordBuilder,
    magic_constant_p: Word,
    magic_constant_q: Word,
}

impl RC5 {
    pub closed spec fn width(self) -> u128 {
        self.word_size as u128
    }

    pub closed spec fn rounds(self) -> nat {
        self.num_rounds as nat
    }

    pub closed spec fn key_len(self) -> nat {
        self.key_size as nat
    }

    pub closed spec fn p(self) -> u128 {
        self.magic_constant_p.value()
    }

    pub closed spec fn q(self) -> u128 {
        self.magic_constant_q.value()
    }

    pub closed spec fn wf(self) -> bool {
        &&& supported_width(self.word_size as u128)
        &&& self.word_builder.width() == self.word_size
        &&& self.magic_constant_p.width() == self.word_size
        &&& self.magic_constant_q.width() == self.word_size
        &&& self.key_size > 0
    }

    /// The round keys that this cipher makes from `key`.
    pub open spec fn table(self, key: Seq<u8>) -> Seq<u128> {
        expand_key_spec(self.width(), self.rounds(), self.p(), self.q(), key)
    }

    /// A cipher on words of `word_size` bits, with `num_rounds` rounds and keys
    /// of `key_size` bytes.
    pub fn new(word_size: usize, num_rounds: u8, key_size: u8) -> (r: Self)
        requires
            supported_width(word_size as u128),
            num_rounds > 0,
            key_size > 0,
        ensures
            r.wf(),
            r.width() == word_size,
            r.rounds() == num_rounds,
            r.key_len() == key_size,
            r.p() == magic_p(word_size as u128),
            r.q() == magic_q(word_size as u128),
    {
        let word_builder = WordBuilder::new(word_size as u128);
        let (p, q) = RC5::get_magic_constants(&word_builder, word_size);
        Self {
            word_size: word_size,
            num_rounds: num_rounds,
            key_size: key_size,
            word_builder: word_builder,
            magic_constant_p: p,
            magic_constant_q: q,
        }
    }

    /// The magic constants of a width, from the table of known values.
    fn get_magic_constants(word_builder: &WordBuilder, word_size_in_bits: usize) -> (r: (
        Word,
        Word,
    ))
        requires
            supported_width(word_size_in_bits as u128),
            word_builder.width() == word_size_in_bits,
        ensures
            r.0.width() == word_size_in_bits,
            r.1.width() == word_size_in_bits,
            r.0.value() == magic_p(word_size_in_bits as u128),
            r.1.value() == magic_q(word_size_in_bits as u128),
    {
        if word_size_in_bits == 8 {
            (word_builder.build_word(0xB7), word_builder.build_word(0x9F))
        } else if word_size_in_bits == 16 {
            (word_builder.build_word(0xB7E1), word_builder.build_word(0x9E37))
        } else if word_size_in_bits == 32 {
            (word_builder.build_word(0xB7E15163), word_builder.build_word(0x9E3779B9))
        } else if word_size_in_bits == 64 {
            (
                word_builder.build_word(0xB7E151628AED2A6B),
                word_builder.build_word(0x9E3779B97F4A7C15),
            )
        } else {
            (
                word_builder.build_word(0xB7E151628AED2A6ABF7158809CF4F3C7),
                word_builder.build_word(0x9E3779B97F4A7C15F39CC0605CEDC835),
            )
        }
    }

    /// Reads bytes as words of the cipher's width, little-endian; a last,
    /// shorter group of bytes makes a last word of its own.
    pub fn parse(&self, input: &[u8]) -> (r: Vec<Word>)
        requires
            self.wf(),
        ensures
            r@.len() == parse_spec(self.width(), input@).len(),
            forall|k: int|
                0 <= k < r@.len() ==> #[trigger] r@[k] == Word::of(
                    self.width(),
                    parse_spec(self.width(), input@)[k],
                ),
    {
        let values = parse_values(self.word_size as u128, input);
        self.to_words(&values)
    }

    fn to_words(&self, values: &Vec<u128>) -> (r: Vec<Word>)
        requires
            self.wf(),
        ensures
            r@.len() == values@.len(),
            forall|k: int|
                0 <= k < r@.len() ==> #[trigger] r@[k] == Word::of(self.width(), values@[k]),
    {
        let mut out: Vec<Word> = Vec::new();
        let mut k: usize = 0;
        while k < values.len()
            invariant
                self.wf(),
                k <= values@.len(),
                out@.len() == k,
                forall|i: int|
                    0 <= i < k ==> #[trigger] out@[i] == Word::of(self.width(), values@[i]),
            decreases values@.len() - k,
        {
            out.push(self.word_builder.build_word(values[k]));
            k = k + 1;
        }
        out
    }

    /// Writes words as bytes, each word little-endian in its own width.
    pub fn serialize(&self, output: &Vec<Word>) -> (r: Vec<u8>)
        ensures
            r@ == words_bytes(output@),
    {
        let mut ret: Vec<u8> = Vec::new();
        let mut k: usize = 0;
        while k < output.len()
            invariant
                k <= output@.len(),
                ret@ == words_bytes(output@.subrange(0, k as int)),
            decreases output@.len() - k,
        {
            let mut bytes = output[k].to_le_bytes();
            ret.append(&mut bytes);
            proof {
                let next = output@.subrange(0, k + 1);
                assert(next.drop_last() =~= output@.subrange(0, k as int));
            }
            k = k + 1;
        }
        proof {
            assert(output@.subrange(0, k as int) =~= output@);
        }
        ret
    }

    pub(crate) fn expand(&self, key: &[u8]) -> (r: Vec<u128>)
        requires
            self.wf(),
            key@.len() > 0,
        ensures
            r@ == self.table(key@),
            r@.len() == table_len(self.rounds()),
            valid_table(self.width(), r@, self.rounds()),
    {
        expand_key_values(
            self.word_size as u128,
            self.num_rounds,
            self.magic_constant_p.data.extract().1,
            self.magic_constant_q.data.extract().1,
            key,
        )
    }

    /// Encryption of one block under round keys made beforehand.
    pub(crate) fn encrypt_with(&self, s: &Vec<u128>, input: &[u8]) -> (r: Vec<u8>)
        requires
            self.wf(),
            valid_table(self.width(), s@, self.rounds()),
            input@.len() >= 2 * bytes_per_word(self.width()),
        ensures
            r@ == encrypt_block_spec(self.width(), s@, self.rounds(), input@),
    {
        encrypt_values(self.word_size as u128, self.num_rounds, s, input)
    }

    /// Decryption of one block under round keys made beforehand.
    pub(crate) fn decrypt_with(&self, s: &Vec<u128>, input: &[u8]) -> (r: Vec<u8>)
        requires
            self.wf(),
            valid_table(self.width(), s@, self.rounds()),
            input@.len() >= 2 * bytes_per_word(self.width()),
        ensures
            r@ == decrypt_block_spec(self.width(), s@, self.rounds(), input@),
    {
        decrypt_values(self.word_size as u128, self.num_rounds, s, input)
    }

    /// The round-key table made from `key`: `2 * (rounds + 1)` words.
    pub fn key_expansion(&self, key: &[u8]) -> (r: Vec<Word>)
        requires
            self.wf(),
            key@.len() > 0,
        ensures
            r@.len() == table_len(self.rounds()),
            forall|k: int|
                0 <= k < r@.len() ==> #[trigger] r@[k] == Word::of(
                    self.width(),
                    self.table(key@)[k],
                ),
    {
        let s = self.expand(key);
        self.to_words(&s)
    }

    /// Encrypts the block at the start of `input_u8` under `key`.
    pub fn encrypt(&self, key: &[u8], input_u8: &[u8]) -> (r: Result<Vec<u8>, Rc5Error>)
        requires
            self.wf(),
        ensures
            key@.len() != self.key_len() ==> r == Err::<Vec<u8>, Rc5Error>(
                Rc5Error::InvalidKeyLen,
            ),
            key@.len() == self.key_len() && input_u8@.len() < 2 * bytes_per_word(self.width())
                ==> r == Err::<Vec<u8>, Rc5Error>(Rc5Error::BufferOutOfBounds),
            key@.len() == self.key_len() && input_u8@.len() >= 2 * bytes_per_word(self.width())
                ==> (r matches Ok(v) && v@ == encrypt_block_spec(
                self.width(),
                self.table(key@),
                self.rounds(),
                input_u8@,
            )),
    {
        if key.len() != self.key_size as usize {
            return Err(Rc5Error::InvalidKeyLen);
        }
        if input_u8.len() < 2 * (self.word_size / 8) {
            return Err(Rc5Error::BufferOutOfBounds);
        }
        let s = self.expand(key);
        Ok(self.encrypt_with(&s, input_u8))
    }

    /// Decrypts the block at the start of `input_u8` under `key`.
    pub fn decrypt(&self, key: &[u8], input_u8: &[u8]) -> (r: Result<Vec<u8>, Rc5Error>)
        requires
            self.wf(),
        ensures
            key@.len() != self.key_len() ==> r == Err::<Vec<u8>, Rc5Error>(
                Rc5Error::InvalidKeyLen,
            ),
            key@.len() == self.key_len() && input_u8@.len() < 2 * bytes_per_word(self.width())
                ==> r == Err::<Vec<u8>, Rc5Error>(Rc5Error::BufferOutOfBounds),
            key@.len() == self.key_len() && input_u8@.len() >= 2 * bytes_per_word(self.width())
                ==> (r matches Ok(v) && v@ == decrypt_block_spec(
                self.width(),
                self.table(key@),
                self.rounds(),
                input_u8@,
            )),
    {
        if key.len() != self.key_size as usize {
            return Err(Rc5Error::InvalidKeyLen);
        }
        if input_u8.len() < 2 * (self.word_size / 8) {
            return Err(Rc5Error::BufferOutOfBounds);
        }
        let s = self.expand(key);
        Ok(self.decrypt_with(&s, input_u8))
    }
}

proof fn lemma_mix_table(w: u128, st: MixState, n: nat)
    requires
        supported_width(w),
        st.0.len() >= 1,
        0 <= st.4 < st.0.len(),
        forall|k: int| 0 <= k < st.0.len() ==> #[trigger] st.0[k] <= word_mask(w),
    ensures
        mix(w, st, n).0.len() == st.0.len(),
        forall|k: int|
            0 <= k < mix(w, st, n).0.len() ==> #[trigger] mix(w, st, n).0[k] <= word_mask(w),
    decreases n,
{
    if n > 0 {
        let (s, l, a, b, i, j) = st;
        let x = wrap_add(w, s[i], wrap_add(w, a, b));
        lemma_rotate_inverse(w, x, (3u128 % w) as u128);
        let next = mix_step(w, st);
        assert(next.4 == (i + 1) % (s.len() as int));
        lemma_mix_table(w, next, (n - 1) as nat);
    }
}

/// The key schedule makes a table of round keys of the width, of the length
/// that the rounds need.
pub proof fn lemma_expand_key_valid(w: u128, rounds: nat, p: u128, q: u128, key: Seq<u8>)
    requires
        supported_width(w),
    ensures
        valid_table(w, expand_key_spec(w, rounds, p, q, key), rounds),
        expand_key_spec(w, rounds, p, q, key).len() == table_len(rounds),
{
    let t = table_len(rounds);
    let init = initial_table(w, p, q, t);
    let m = modulus(w) as int;
    assert forall|k: int| 0 <= k < init.len() implies #[trigger] init[k] <= word_mask(w) by {
        vstd::arithmetic::div_mod::lemma_mod_pos_bound(p + k * q, m);
    }
    let l = parse_spec(w, key);
    lemma_mix_table(w, (init, l, 0, 0, 0, 0), mix_len(t, l.len()));
}

/// Decryption undoes encryption: under every key of the configured length,
/// decrypting the encryption of a two-word block gives the block back.
pub proof fn lemma_round_trip(c: RC5, key: Seq<u8>, block: Seq<u8>)
    requires
        c.wf(),
        key.len() == c.key_len(),
        block.len() == 2 * bytes_per_word(c.width()),
    ensures
        decrypt_block_spec(
            c.width(),
            c.table(key),
            c.rounds(),
            encrypt_block_spec(c.width(), c.table(key), c.rounds(), block),
        ) == block,
{
    lemma_expand_key_valid(c.width(), c.rounds(), c.p(), c.q(), key);
    lemma_block_round_trip(c.width(), c.table(key), c.rounds(), block);
}

/// Key expansion and encryption depend on nothing but the configuration, the
/// key and the block: two ciphers configured alike give the same round keys
/// and the same ciphertext.
pub proof fn lemma_deterministic(c1: RC5, c2: RC5, key: Seq<u8>, block: Seq<u8>)
    requires
        c1.width() == c2.width(),
        c1.rounds() == c2.rounds(),
        c1.p() == c2.p(),
        c1.q() == c2.q(),
    ensures
        c1.table(key) == c2.table(key),
        encrypt_block_spec(c1.width(), c1.table(key), c1.rounds(), block) == encrypt_block_spec(
            c2.width(),
            c2.table(key),
            c2.rounds(),
            block,
        ),
{
}

} // verus!
