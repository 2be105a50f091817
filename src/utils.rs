use vstd::prelude::*;
use vstd::arithmetic::power2::pow2;

verus! {

/// `ceil(n / d)` for a positive `d`.
pub open spec fn ceil_div(n: nat, d: nat) -> nat {
    ((n + d - 1) / (d as int)) as nat
}

/// `ceil(numerator / divisor)`, computed without overflow.
pub fn div_ceil(numerator: usize, divisor: usize) -> (r: usize)
    requires
        divisor > 0,
    ensures
        r == ceil_div(numerator as nat, divisor as nat),
{
    let q = numerator / divisor;
    let extra: usize = if numerator % divisor != 0 {
        1
    } else {
        0
    };
    proof {
        lemma_ceil_div_parts(numerator as nat, divisor as nat);
    }
    q + extra
}

proof fn lemma_ceil_div_parts(n: nat, d: nat)
    requires
        d > 0,
    ensures
        ceil_div(n, d) == n / d + if n % d != 0 {
            1nat
        } else {
            0nat
        },
        n % d != 0 ==> n / d < n,
{
    let q = n / d;
    let m = n % d;
    vstd::arithmetic::div_mod::lemma_fundamental_div_mod(n as int, d as int);
    assert(n == q * d + m);
    assert((q + 1) * d == q * d + d) by (nonlinear_arith);
    assert(q <= q * d) by (nonlinear_arith)
        requires
            d >= 1,
    ;
    if m == 0 {
        vstd::arithmetic::div_mod::lemma_fundamental_div_mod_converse(
            (n + d - 1) as int,
            d as int,
            q as int,
            (d - 1) as int,
        );
    } else {
        vstd::arithmetic::div_mod::lemma_fundamental_div_mod_converse(
            (n + d - 1) as int,
            d as int,
            (q + 1) as int,
            (m - 1) as int,
        );
    }
}

/// The number of `u`-sized pieces that `n` items fill: `k` pieces when the
/// last one starts below `n` and ends at or beyond it.
pub proof fn lemma_ceil_div_count(n: nat, u: nat, k: nat)
    requires
        u > 0,
        k * u < n + u,
        n <= k * u,
    ensures
        ceil_div(n, u) == k,
{
    vstd::arithmetic::div_mod::lemma_fundamental_div_mod_converse(
        (n + u - 1) as int,
        u as int,
        k as int,
        (n + u - 1 - k * u) as int,
    );
}

// Decimal and binary numerals.

pub open spec fn is_digit(c: char) -> bool {
    '0' <= c && c <= '9'
}

pub open spec fn digit_val(c: char) -> nat {
    (c as int - '0' as int) as nat
}

/// The character of the decimal digit `d < 10`.
pub open spec fn digit_char(d: nat) -> char {
    (d + '0' as int) as char
}

/// `10^n`.
pub open spec fn pow10(n: nat) -> nat
    decreases n,
{
    if n == 0 {
        1
    } else {
        10 * pow10((n - 1) as nat)
    }
}

/// Number of characters before the first point; the length if there is none.
pub open spec fn leading(s: Seq<char>) -> nat
    decreases s.len(),
{
    if s.len() == 0 || s[0] == '.' {
        0
    } else {
        1 + leading(s.subrange(1, s.len() as int))
    }
}

/// Number of characters after the last point; the length if there is none.
pub open spec fn trailing(s: Seq<char>) -> nat
    decreases s.len(),
{
    if s.len() == 0 || s.last() == '.' {
        0
    } else {
        1 + trailing(s.drop_last())
    }
}

/// Decimal digits with at most one point among them: every character but
/// the first point is a digit.
pub open spec fn is_decimal(s: Seq<char>) -> bool {
    forall|i: int| 0 <= i < s.len() && i != leading(s) ==> is_digit(#[trigger] s[i])
}

/// Decimal digits only.
pub open spec fn is_digits(s: Seq<char>) -> bool {
    forall|i: int| 0 <= i < s.len() ==> is_digit(#[trigger] s[i])
}

/// The integer that the digits of `s` spell, the point left out.
pub open spec fn dec_value(s: Seq<char>) -> nat
    decreases s.len(),
{
    if s.len() == 0 {
        0
    } else if s.last() == '.' {
        dec_value(s.drop_last())
    } else {
        dec_value(s.drop_last()) * 10 + digit_val(s.last())
    }
}

/// Number of digits after the point; zero without a point.
pub open spec fn frac_len(s: Seq<char>) -> nat {
    if trailing(s) < s.len() {
        trailing(s)
    } else {
        0
    }
}

/// The characters before the point: the integer part.
pub open spec fn int_part(s: Seq<char>) -> Seq<char> {
    s.subrange(0, leading(s) as int)
}

/// The digits of `n` with no leading zero; empty for zero.
pub open spec fn dec_str(n: nat) -> Seq<char>
    decreases n,
{
    if n == 0 {
        Seq::empty()
    } else {
        dec_str(n / 10).push(digit_char(n % 10))
    }
}

/// The last `f` digits of `n`, leading zeros kept.
pub open spec fn pad_digits(n: nat, f: nat) -> Seq<char>
    decreases f,
{
    if f == 0 {
        Seq::empty()
    } else {
        pad_digits(n / 10, (f - 1) as nat).push(digit_char(n % 10))
    }
}

/// The numeral of `n / 10^f` with `f` digits after the point: the integer
/// part has no leading zero (it is empty when zero), and without a point
/// zero is written `0`.
pub open spec fn render(n: nat, f: nat) -> Seq<char> {
    if f == 0 {
        if n == 0 {
            seq!['0']
        } else {
            dec_str(n)
        }
    } else {
        dec_str(n / pow10(f)) + seq!['.'] + pad_digits(n % pow10(f), f)
    }
}

pub open spec fn bit_char(b: nat) -> char {
    if b == 0 {
        '0'
    } else {
        '1'
    }
}

/// The binary digits of `n` with no leading zero; `0` for zero.
pub open spec fn bin_str(n: nat) -> Seq<char>
    decreases n,
{
    if n <= 1 {
        seq![bit_char(n)]
    } else {
        bin_str(n / 2).push(bit_char(n % 2))
    }
}

pub open spec fn is_binary(s: Seq<char>) -> bool {
    forall|i: int| 0 <= i < s.len() ==> #[trigger] s[i] == '0' || s[i] == '1'
}

pub open spec fn bit_val(c: char) -> nat {
    if c == '1' {
        1
    } else {
        0
    }
}

/// The upper-case hexadecimal digit of `v < 16`.
pub open spec fn hex_char(v: nat) -> char {
    if v < 10 {
        digit_char(v)
    } else {
        (v - 10 + 'A' as int) as char
    }
}

/// The value of the four binary digits of `s` from `i` on.
pub open spec fn nibble(s: Seq<char>, i: int) -> nat {
    8 * bit_val(s[i]) + 4 * bit_val(s[i + 1]) + 2 * bit_val(s[i + 2]) + bit_val(s[i + 3])
}

/// Each group of four binary digits of `s` as one hexadecimal digit.
pub open spec fn hex_of(s: Seq<char>) -> Seq<char> {
    Seq::new(s.len() / 4, |i: int| hex_char(nibble(s, 4 * i)))
}

/// `s` with its last digit set to one.
pub open spec fn force_odd(s: Seq<char>) -> Seq<char> {
    if s.len() == 0 {
        s
    } else {
        s.update(s.len() - 1, '1')
    }
}

/// Relies on `str::chars`: the characters of the string, in order.
#[verifier::external_body]
fn chars_of(s: &str) -> (r: Vec<char>)
    ensures
        r@ == s@,
{
    s.chars().collect()
}

/// Relies on `String`'s `FromIterator<char>`: the string of the characters, in order.
#[verifier::external_body]
fn string_of(cs: &Vec<char>) -> (r: String)
    ensures
        r@ == cs@,
{
    cs.iter().collect()
}

fn digit_of(c: char) -> (r: u8)
    requires
        is_digit(c),
    ensures
        r == digit_val(c),
        r < 10,
{
    (c as u32 - '0' as u32) as u8
}

fn char_of_digit(d: u8) -> (r: char)
    requires
        d < 10,
    ensures
        r == digit_char(d as nat),
        is_digit(r),
{
    (d + 48) as char
}

fn bit_of(c: char) -> (r: u8)
    ensures
        r == bit_val(c),
        r <= 1,
{
    if c == '1' {
        1
    } else {
        0
    }
}

fn hex_digit(v: u8) -> (r: char)
    requires
        v < 16,
    ensures
        r == hex_char(v as nat),
{
    if v < 10 {
        (v + 48) as char
    } else {
        (v - 10 + 65) as char
    }
}

/// The number whose decimal digits, most significant first, are `d`.
pub open spec fn be_value(d: Seq<u8>) -> nat
    decreases d.len(),
{
    if d.len() == 0 {
        0
    } else {
        (be_value(d.drop_last()) * 10 + d.last()) as nat
    }
}

pub open spec fn all_digits(d: Seq<u8>) -> bool {
    forall|i: int| 0 <= i < d.len() ==> #[trigger] d[i] < 10
}

/// The digit values of a string of decimal digits, most significant first.
fn digits_of(cs: &Vec<char>) -> (r: Vec<u8>)
    requires
        is_digits(cs@),
    ensures
        be_value(r@) == dec_value(cs@),
        all_digits(r@),
        r@.len() == cs@.len(),
{
    let mut d: Vec<u8> = Vec::new();
    let mut i: usize = 0;
    while i < cs.len()
        invariant
            i <= cs@.len(),
            is_digits(cs@),
            d@.len() == i,
            all_digits(d@),
            be_value(d@) == dec_value(cs@.subrange(0, i as int)),
        decreases cs@.len() - i,
    {
        let ghost before = d@;
        d.push(digit_of(cs[i]));
        proof {
            let p = cs@.subrange(0, i + 1);
            assert(p.drop_last() =~= cs@.subrange(0, i as int));
            assert(d@.drop_last() =~= before);
        }
        i = i + 1;
    }
    proof {
        assert(cs@.subrange(0, i as int) =~= cs@);
    }
    d
}

/// Whether the digits spell zero.
fn is_zero(d: &Vec<u8>) -> (r: bool)
    ensures
        r == (be_value(d@) == 0),
{
    let mut i: usize = 0;
    while i < d.len()
        invariant
            i <= d@.len(),
            be_value(d@.subrange(0, i as int)) == 0,
        decreases d@.len() - i,
    {
        proof {
            assert(d@.subrange(0, i + 1).drop_last() =~= d@.subrange(0, i as int));
        }
        if d[i] != 0 {
            proof {
                lemma_be_value_prefix(d@, i + 1);
            }
            return false;
        }
        i = i + 1;
    }
    proof {
        assert(d@.subrange(0, i as int) =~= d@);
    }
    true
}

/// A number is at least the number of its leading digits.
proof fn lemma_be_value_prefix(d: Seq<u8>, k: int)
    requires
        0 <= k <= d.len(),
    ensures
        be_value(d) >= be_value(d.subrange(0, k)),
    decreases d.len(),
{
    if k < d.len() {
        assert(d.drop_last().subrange(0, k) =~= d.subrange(0, k));
        lemma_be_value_prefix(d.drop_last(), k);
    } else {
        assert(d.subrange(0, k) =~= d);
    }
}

/// Halves a decimal numeral digit by digit, carrying the remainder of each
/// digit into the next: returns the quotient's digits and the remainder.
fn halve(d: &Vec<u8>) -> (r: (Vec<u8>, u8))
    requires
        all_digits(d@),
    ensures
        be_value(d@) == 2 * be_value(r.0@) + r.1,
        r.1 < 2,
        all_digits(r.0@),
        r.0@.len() == d@.len(),
{
    let mut q: Vec<u8> = Vec::new();
    let mut rem: u8 = 0;
    let mut i: usize = 0;
    while i < d.len()
        invariant
            i <= d@.len(),
            all_digits(d@),
            all_digits(q@),
            q@.len() == i,
            rem < 2,
            be_value(d@.subrange(0, i as int)) == 2 * be_value(q@) + rem,
        decreases d@.len() - i,
    {
        let x: u8 = 10 * rem + d[i];
        let ghost before = q@;
        q.push(x / 2);
        proof {
            assert(d@.subrange(0, i + 1).drop_last() =~= d@.subrange(0, i as int));
            assert(q@.drop_last() =~= before);
        }
        rem = x % 2;
        i = i + 1;
    }
    proof {
        assert(d@.subrange(0, i as int) =~= d@);
    }
    (q, rem)
}

/// The number whose decimal digits, least significant first, are `d`.
pub open spec fn lsv(d: Seq<u8>) -> nat
    decreases d.len(),
{
    if d.len() == 0 {
        0
    } else {
        (d[0] + 10 * lsv(d.subrange(1, d.len() as int))) as nat
    }
}

/// The characters of digits given least significant first, written most
/// significant first.
pub open spec fn be_chars(d: Seq<u8>) -> Seq<char>
    decreases d.len(),
{
    if d.len() == 0 {
        Seq::empty()
    } else {
        be_chars(d.subrange(1, d.len() as int)).push(digit_char(d[0] as nat))
    }
}

proof fn lemma_lsv_push(d: Seq<u8>, x: u8)
    ensures
        lsv(d.push(x)) == lsv(d) + x * pow10(d.len()),
    decreases d.len(),
{
    let e = d.push(x);
    if d.len() == 0 {
        assert(e.subrange(1, e.len() as int) =~= Seq::<u8>::empty());
        assert(lsv(e.subrange(1, e.len() as int)) == 0);
        assert(lsv(e) == x);
        assert(pow10(0) == 1);
        assert(lsv(d) == 0);
    } else {
        let rest = d.subrange(1, d.len() as int);
        assert(e.subrange(1, e.len() as int) =~= rest.push(x));
        lemma_lsv_push(rest, x);
        assert(e[0] == d[0]);
        assert(lsv(e) == e[0] + 10 * lsv(e.subrange(1, e.len() as int)));
        assert(lsv(e) == lsv(d) + x * pow10(d.len())) by (nonlinear_arith)
            requires
                lsv(e) == d[0] + 10 * lsv(rest.push(x)),
                lsv(rest.push(x)) == lsv(rest) + x * pow10(rest.len()),
                lsv(d) == d[0] + 10 * lsv(rest),
                pow10(d.len()) == 10 * pow10(rest.len()),
        ;
    }
}

proof fn lemma_lsv_bound(d: Seq<u8>)
    requires
        all_digits(d),
    ensures
        lsv(d) < pow10(d.len()),
    decreases d.len(),
{
    if d.len() > 0 {
        let rest = d.subrange(1, d.len() as int);
        lemma_lsv_bound(rest);
        assert(lsv(d) < pow10(d.len())) by (nonlinear_arith)
            requires
                lsv(d) == d[0] + 10 * lsv(rest),
                lsv(rest) + 1 <= pow10(rest.len()),
                pow10(d.len()) == 10 * pow10(rest.len()),
                d[0] < 10,
        ;
    }
}

/// Splitting the digits at `f`: the low `f` digits and the rest.
proof fn lemma_lsv_split(d: Seq<u8>, f: nat)
    requires
        f <= d.len(),
    ensures
        lsv(d) == lsv(d.subrange(0, f as int)) + pow10(f) * lsv(d.subrange(f as int, d.len() as int)),
    decreases f,
{
    if f == 0 {
        assert(d.subrange(0, 0) =~= Seq::<u8>::empty());
        assert(d.subrange(0, d.len() as int) =~= d);
        assert(lsv(d.subrange(0, 0)) == 0);
        assert(pow10(0) == 1);
    } else {
        let rest = d.subrange(1, d.len() as int);
        lemma_lsv_split(rest, (f - 1) as nat);
        let lo = d.subrange(0, f as int);
        assert(lo[0] == d[0]);
        assert(lsv(lo) == lo[0] + 10 * lsv(lo.subrange(1, lo.len() as int)));
        assert(lo.subrange(1, lo.len() as int) =~= rest.subrange(0, f - 1));
        assert(rest.subrange(f - 1, rest.len() as int) =~= d.subrange(f as int, d.len() as int));
        let hi = lsv(d.subrange(f as int, d.len() as int));
        assert(lsv(d) == lsv(lo) + pow10(f) * hi) by (nonlinear_arith)
            requires
                lsv(d) == d[0] + 10 * lsv(rest),
                lsv(rest) == lsv(rest.subrange(0, f - 1)) + pow10((f - 1) as nat) * hi,
                lsv(lo) == d[0] + 10 * lsv(rest.subrange(0, f - 1)),
                pow10(f) == 10 * pow10((f - 1) as nat),
        ;
    }
}

proof fn lemma_lsv_first(d: Seq<u8>)
    requires
        d.len() > 0,
        all_digits(d),
    ensures
        lsv(d) % 10 == d[0],
        lsv(d) / 10 == lsv(d.subrange(1, d.len() as int)),
{
    vstd::arithmetic::div_mod::lemma_fundamental_div_mod_converse(
        lsv(d) as int,
        10,
        lsv(d.subrange(1, d.len() as int)) as int,
        d[0] as int,
    );
}

/// Digits whose most significant one is not zero spell their number with no
/// leading zero.
proof fn lemma_be_chars_dec_str(d: Seq<u8>)
    requires
        d.len() > 0,
        d.last() != 0,
        all_digits(d),
    ensures
        lsv(d) > 0,
        dec_str(lsv(d)) == be_chars(d),
    decreases d.len(),
{
    let rest = d.subrange(1, d.len() as int);
    lemma_lsv_first(d);
    let n = lsv(d);
    if rest.len() == 0 {
        assert(lsv(rest) == 0);
        assert(d[0] == d.last());
        assert(n == d[0]);
        assert(dec_str(0) == Seq::<char>::empty());
        assert(be_chars(rest) == Seq::<char>::empty());
    } else {
        assert(rest.last() == d.last());
        lemma_be_chars_dec_str(rest);
        assert(n > 0);
    }
    assert(dec_str(n) == dec_str(n / 10).push(digit_char(n % 10)));
}

/// `f` digits spell their number padded to `f` places.
proof fn lemma_be_chars_pad(d: Seq<u8>)
    requires
        all_digits(d),
    ensures
        pad_digits(lsv(d), d.len()) == be_chars(d),
    decreases d.len(),
{
    if d.len() > 0 {
        let rest = d.subrange(1, d.len() as int);
        lemma_lsv_first(d);
        lemma_be_chars_pad(rest);
    }
}

proof fn lemma_pow10_pos(n: nat)
    ensures
        pow10(n) > 0,
    decreases n,
{
    if n > 0 {
        lemma_pow10_pos((n - 1) as nat);
    }
}

/// The digits of `s` least significant first, the point left out, and the
/// number of digits after the point.
fn split_decimal(cs: &Vec<char>) -> (r: (Vec<u8>, usize))
    requires
        is_decimal(cs@),
    ensures
        lsv(r.0@) == dec_value(cs@),
        r.1 == frac_len(cs@),
        r.1 <= r.0@.len(),
        all_digits(r.0@),
{
    proof {
        lemma_leading_point(cs@);
    }
    let n = cs.len();
    let mut digs: Vec<u8> = Vec::new();
    let mut f: usize = 0;
    let mut seen = false;
    let mut i: usize = n;
    proof {
        assert(cs@.subrange(0, n as int) =~= cs@);
        assert(pow10(0) == 1);
        assert(lsv(digs@) == 0);
        assert(dec_value(cs@) * 1 == dec_value(cs@));
    }
    while i > 0
        invariant
            i <= n,
            n == cs@.len(),
            forall|k: int| 0 <= k < n ==> is_digit(#[trigger] cs@[k]) || cs@[k] == '.',
            all_digits(digs@),
            f <= digs@.len(),
            dec_value(cs@) == dec_value(cs@.subrange(0, i as int)) * pow10(digs@.len()) + lsv(
                digs@,
            ),
            !seen ==> trailing(cs@) == (n - i) + trailing(cs@.subrange(0, i as int)),
            !seen ==> f == 0,
            !seen ==> digs@.len() == n - i,
            seen ==> f == frac_len(cs@),
        decreases i,
    {
        let c = cs[i - 1];
        let ghost pre = cs@.subrange(0, i as int);
        let ghost shorter = cs@.subrange(0, i - 1);
        proof {
            assert(pre.drop_last() =~= shorter);
        }
        if c == '.' {
            if !seen {
                seen = true;
                f = n - i;
                proof {
                    assert(trailing(pre) == 0);
                }
            }
        } else {
            let d = digit_of(c);
            let ghost before = digs@;
            digs.push(d);
            proof {
                lemma_lsv_push(before, d);
                let x = dec_value(shorter);
                assert(dec_value(cs@) == x * pow10(digs@.len()) + lsv(digs@)) by (nonlinear_arith)
                    requires
                        dec_value(cs@) == dec_value(pre) * pow10(before.len()) + lsv(before),
                        dec_value(pre) == x * 10 + d,
                        lsv(digs@) == lsv(before) + d * pow10(before.len()),
                        pow10(digs@.len()) == 10 * pow10(before.len()),
                ;
            }
        }
        i = i - 1;
    }
    proof {
        assert(cs@.subrange(0, 0) =~= Seq::<char>::empty());
        assert(dec_value(cs@.subrange(0, 0)) == 0);
        assert(0 * pow10(digs@.len()) == 0);
        if !seen {
            assert(trailing(cs@.subrange(0, 0)) == 0);
        }
    }
    (digs, f)
}

/// The first point, if any, stands at `leading(s)`.
proof fn lemma_leading_point(s: Seq<char>)
    requires
        is_decimal(s),
    ensures
        forall|k: int| 0 <= k < s.len() ==> is_digit(#[trigger] s[k]) || s[k] == '.',
{
    lemma_leading_at(s);
}

proof fn lemma_leading_at(s: Seq<char>)
    ensures
        leading(s) <= s.len(),
        leading(s) < s.len() ==> s[leading(s) as int] == '.',
    decreases s.len(),
{
    if s.len() > 0 && s[0] != '.' {
        let rest = s.subrange(1, s.len() as int);
        lemma_leading_at(rest);
    }
}

/// The digits `d` times `k`, least significant first.
fn mul_digits(d: &Vec<u8>, k: u128) -> (r: Vec<u8>)
    requires
        all_digits(d@),
    ensures
        lsv(r@) == lsv(d@) * k,
        r@.len() >= d@.len(),
        all_digits(r@),
{
    let kq = k / 10;
    let kr = k % 10;
    let mut p: Vec<u8> = Vec::new();
    let mut carry: u128 = 0;
    let mut i: usize = 0;
    proof {
        assert(d@.subrange(0, 0) =~= Seq::<u8>::empty());
        assert(lsv(d@.subrange(0, 0)) == 0);
        assert(lsv(p@) == 0);
        assert(0 * k == 0);
    }
    while i < d.len()
        invariant
            i <= d@.len(),
            all_digits(d@),
            all_digits(p@),
            p@.len() == i,
            carry <= k,
            kq == k / 10,
            kr == k % 10,
            lsv(p@) + carry * pow10(i as nat) == lsv(d@.subrange(0, i as int)) * k,
        decreases d@.len() - i,
    {
        let di = d[i] as u128;
        let cq = carry / 10;
        let cr = carry % 10;
        proof {
            assert(di * kr <= 81) by (nonlinear_arith)
                requires
                    di <= 9,
                    kr <= 9,
            ;
        }
        let lo = di * kr + cr;
        proof {
            assert(di * kq + cq + lo / 10 <= k) by (nonlinear_arith)
                requires
                    k == 10 * kq + kr,
                    carry == 10 * cq + cr,
                    lo == di * kr + cr,
                    carry <= k,
                    di <= 9,
                    lo / 10 * 10 <= lo,
            ;
        }
        let next = di * kq + cq + lo / 10;
        let ghost before = p@;
        p.push((lo % 10) as u8);
        proof {
            let t = di * k + carry;
            lemma_lsv_push(before, (lo % 10) as u8);
            assert(d@.subrange(0, i + 1) =~= d@.subrange(0, i as int).push(d@[i as int]));
            lemma_lsv_push(d@.subrange(0, i as int), d@[i as int]);
            assert(lsv(p@) + next * pow10((i + 1) as nat) == lsv(d@.subrange(0, i + 1)) * k)
                by (nonlinear_arith)
                requires
                    k == 10 * kq + kr,
                    carry == 10 * cq + cr,
                    lo == di * kr + cr,
                    lo == (lo / 10) * 10 + lo % 10,
                    next == di * kq + cq + lo / 10,
                    lsv(p@) == lsv(before) + (lo % 10) * pow10(i as nat),
                    lsv(before) + carry * pow10(i as nat) == lsv(d@.subrange(0, i as int)) * k,
                    lsv(d@.subrange(0, i + 1)) == lsv(d@.subrange(0, i as int)) + di * pow10(
                        i as nat,
                    ),
                    pow10((i + 1) as nat) == 10 * pow10(i as nat),
            ;
        }
        carry = next;
        i = i + 1;
    }
    proof {
        assert(d@.subrange(0, i as int) =~= d@);
    }
    while carry > 0
        invariant
            all_digits(p@),
            p@.len() >= d@.len(),
            lsv(p@) + carry * pow10(p@.len()) == lsv(d@) * k,
        decreases carry,
    {
        let ghost before = p@;
        p.push((carry % 10) as u8);
        proof {
            lemma_lsv_push(before, (carry % 10) as u8);
            assert(lsv(p@) + (carry / 10) * pow10(p@.len()) == lsv(d@) * k) by (nonlinear_arith)
                requires
                    lsv(p@) == lsv(before) + (carry % 10) * pow10(before.len()),
                    lsv(before) + carry * pow10(before.len()) == lsv(d@) * k,
                    pow10(p@.len()) == 10 * pow10(before.len()),
                    carry == (carry / 10) * 10 + carry % 10,
            ;
        }
        carry = carry / 10;
    }
    p
}

/// The numeral of `lsv(p) / 10^f` with `f` digits after the point, as `render` writes it.
fn render_digits(p: &Vec<u8>, f: usize) -> (r: Vec<char>)
    requires
        all_digits(p@),
        f <= p@.len(),
    ensures
        r@ == render(lsv(p@), f as nat),
{
    let len = p.len();
    let mut m: usize = len;
    proof {
        lemma_lsv_split(p@, f as nat);
    }
    while m > f && p[m - 1] == 0
        invariant
            f <= m <= len,
            len == p@.len(),
            all_digits(p@),
            lsv(p@.subrange(f as int, m as int)) == lsv(p@.subrange(f as int, len as int)),
        decreases m,
    {
        proof {
            let shorter = p@.subrange(f as int, m - 1);
            assert(p@.subrange(f as int, m as int) =~= shorter.push(0u8));
            lemma_lsv_push(shorter, 0u8);
        }
        m = m - 1;
    }
    let ghost hi = p@.subrange(f as int, m as int);
    let ghost lo = p@.subrange(0, f as int);
    let mut out: Vec<char> = Vec::new();
    let mut idx: usize = m;
    proof {
        assert(p@.subrange(m as int, m as int) =~= Seq::<u8>::empty());
    }
    while idx > f
        invariant
            f <= idx <= m <= len,
            len == p@.len(),
            all_digits(p@),
            out@ == be_chars(p@.subrange(idx as int, m as int)),
        decreases idx,
    {
        proof {
            let d = p@.subrange(idx - 1, m as int);
            assert(d.subrange(1, d.len() as int) =~= p@.subrange(idx as int, m as int));
        }
        out.push(char_of_digit(p[idx - 1]));
        idx = idx - 1;
    }
    let ghost int_chars = out@;
    proof {
        assert(all_digits(hi));
        if m > f {
            assert(hi.last() == p@[m - 1]);
            lemma_be_chars_dec_str(hi);
        } else {
            assert(hi =~= Seq::<u8>::empty());
        }
        assert(int_chars == dec_str(lsv(hi)));
    }
    if f == 0 {
        if m == 0 {
            out.push('0');
        }
        proof {
            assert(lo =~= Seq::<u8>::empty());
            assert(p@.subrange(0, len as int) =~= p@);
        }
        return out;
    }
    out.push('.');
    let mut idx: usize = f;
    proof {
        assert(p@.subrange(f as int, f as int) =~= Seq::<u8>::empty());
        assert(out@ =~= int_chars + seq!['.'] + be_chars(p@.subrange(f as int, f as int)));
    }
    while idx > 0
        invariant
            idx <= f <= len,
            len == p@.len(),
            all_digits(p@),
            out@ == int_chars + seq!['.'] + be_chars(p@.subrange(idx as int, f as int)),
        decreases idx,
    {
        proof {
            let d = p@.subrange(idx - 1, f as int);
            assert(d.subrange(1, d.len() as int) =~= p@.subrange(idx as int, f as int));
        }
        out.push(char_of_digit(p[idx - 1]));
        proof {
            let d = p@.subrange(idx - 1, f as int);
            assert(out@ =~= int_chars + seq!['.'] + be_chars(d));
        }
        idx = idx - 1;
    }
    proof {
        assert(p@.subrange(0, f as int) =~= lo);
        assert(all_digits(lo));
        lemma_be_chars_pad(lo);
        lemma_lsv_bound(lo);
        let n = lsv(p@);
        lemma_pow10_pos(f as nat);
        assert(n == lsv(hi) * pow10(f as nat) + lsv(lo)) by (nonlinear_arith)
            requires
                n == lsv(lo) + pow10(f as nat) * lsv(p@.subrange(f as int, len as int)),
                lsv(hi) == lsv(p@.subrange(f as int, len as int)),
        ;
        vstd::arithmetic::div_mod::lemma_fundamental_div_mod_converse(
            n as int,
            pow10(f as nat) as int,
            lsv(hi) as int,
            lsv(lo) as int,
        );
    }
    out
}

proof fn lemma_digit_char(d: nat)
    requires
        d < 10,
    ensures
        is_digit(digit_char(d)),
        digit_val(digit_char(d)) == d,
{
}

/// A string of digits has no point: both ends of it reach across it.
proof fn lemma_digits_no_point(s: Seq<char>)
    requires
        is_digits(s),
    ensures
        leading(s) == s.len(),
        trailing(s) == s.len(),
    decreases s.len(),
{
    if s.len() > 0 {
        let rest = s.subrange(1, s.len() as int);
        assert(is_digits(rest)) by {
            assert forall|i: int| 0 <= i < rest.len() implies is_digit(#[trigger] rest[i]) by {
                assert(rest[i] == s[i + 1]);
            }
        }
        lemma_digits_no_point(rest);
        let init = s.drop_last();
        assert(is_digits(init)) by {
            assert forall|i: int| 0 <= i < init.len() implies is_digit(#[trigger] init[i]) by {
                assert(init[i] == s[i]);
            }
        }
        lemma_digits_no_point(init);
    }
}

/// Digits appended to a numeral shift its value by a power of ten.
proof fn lemma_dec_value_concat(x: Seq<char>, y: Seq<char>)
    requires
        is_digits(y),
    ensures
        dec_value(x + y) == dec_value(x) * pow10(y.len()) + dec_value(y),
    decreases y.len(),
{
    if y.len() == 0 {
        assert(x + y =~= x);
        assert(dec_value(x) * 1 == dec_value(x));
    } else {
        let yi = y.drop_last();
        assert(is_digits(yi)) by {
            assert forall|i: int| 0 <= i < yi.len() implies is_digit(#[trigger] yi[i]) by {
                assert(yi[i] == y[i]);
            }
        }
        lemma_dec_value_concat(x, yi);
        assert((x + y).drop_last() =~= x + yi);
        assert((x + y).last() == y.last());
        assert(is_digit(y.last()));
        assert(y.last() != '.');
        assert(dec_value(x + y) == dec_value(x) * pow10(y.len()) + dec_value(y)) by (
        nonlinear_arith)
            requires
                dec_value(x + y) == dec_value(x + yi) * 10 + digit_val(y.last()),
                dec_value(x + yi) == dec_value(x) * pow10(yi.len()) + dec_value(yi),
                dec_value(y) == dec_value(yi) * 10 + digit_val(y.last()),
                pow10(y.len()) == 10 * pow10(yi.len()),
        ;
    }
}

/// A string of `n` digits spells a number below `10^n`.
proof fn lemma_dec_value_bound(s: Seq<char>)
    requires
        is_digits(s),
    ensures
        dec_value(s) < pow10(s.len()),
    decreases s.len(),
{
    if s.len() > 0 {
        let init = s.drop_last();
        assert(is_digits(init)) by {
            assert forall|i: int| 0 <= i < init.len() implies is_digit(#[trigger] init[i]) by {
                assert(init[i] == s[i]);
            }
        }
        lemma_dec_value_bound(init);
        assert(is_digit(s.last()));
        assert(dec_value(s) < pow10(s.len())) by (nonlinear_arith)
            requires
                dec_value(s) == dec_value(init) * 10 + digit_val(s.last()),
                dec_value(init) + 1 <= pow10(init.len()),
                digit_val(s.last()) < 10,
                pow10(s.len()) == 10 * pow10(init.len()),
        ;
    }
}

/// The shape of a numeral with a point: digits, the point, digits.
proof fn lemma_point_parts(a: Seq<char>, b: Seq<char>)
    requires
        is_digits(a),
        is_digits(b),
    ensures
        leading(a + seq!['.'] + b) == a.len(),
        trailing(a + seq!['.'] + b) == b.len(),
        is_decimal(a + seq!['.'] + b),
        frac_len(a + seq!['.'] + b) == b.len(),
        int_part(a + seq!['.'] + b) == a,
        dec_value(a + seq!['.'] + b) == dec_value(a) * pow10(b.len()) + dec_value(b),
    decreases a.len() + b.len(),
{
    let s = a + seq!['.'] + b;
    if a.len() > 0 {
        let rest = a.subrange(1, a.len() as int);
        assert(is_digits(rest)) by {
            assert forall|i: int| 0 <= i < rest.len() implies is_digit(#[trigger] rest[i]) by {
                assert(rest[i] == a[i + 1]);
            }
        }
        lemma_point_parts(rest, b);
        assert(s.subrange(1, s.len() as int) =~= rest + seq!['.'] + b);
        assert(is_digit(s[0]));
    } else {
        assert(s[0] == '.');
    }
    if b.len() > 0 {
        let bi = b.drop_last();
        assert(is_digits(bi)) by {
            assert forall|i: int| 0 <= i < bi.len() implies is_digit(#[trigger] bi[i]) by {
                assert(bi[i] == b[i]);
            }
        }
        lemma_point_parts(a, bi);
        assert(s.drop_last() =~= a + seq!['.'] + bi);
        assert(s.last() == b.last());
        assert(is_digit(b.last()));
    } else {
        assert(s.last() == '.');
    }
    assert forall|i: int| 0 <= i < s.len() && i != leading(s) implies is_digit(#[trigger] s[i]) by {
        if i < a.len() {
            assert(s[i] == a[i]);
        } else {
            assert(s[i] == b[i - a.len() - 1]);
        }
    }
    assert(s.subrange(0, a.len() as int) =~= a);
    lemma_dec_value_concat(a + seq!['.'], b);
    assert((a + seq!['.']).drop_last() =~= a);
}

/// A numeral of digits alone.
proof fn lemma_digits_parts(s: Seq<char>)
    requires
        is_digits(s),
    ensures
        is_decimal(s),
        frac_len(s) == 0,
        int_part(s) == s,
{
    lemma_digits_no_point(s);
    assert(s.subrange(0, s.len() as int) =~= s);
}

/// The integer part of a numeral is its number divided by ten to the number
/// of digits after the point.
pub proof fn lemma_int_part_value(s: Seq<char>)
    requires
        is_decimal(s),
    ensures
        is_digits(int_part(s)),
        dec_value(int_part(s)) == dec_value(s) / pow10(frac_len(s)),
{
    lemma_leading_at(s);
    let l = leading(s);
    if l == s.len() {
        assert(is_digits(s));
        lemma_digits_parts(s);
        assert(dec_value(s) / 1 == dec_value(s));
    } else {
        let a = s.subrange(0, l as int);
        let b = s.subrange(l + 1 as int, s.len() as int);
        assert(is_digits(a)) by {
            assert forall|i: int| 0 <= i < a.len() implies is_digit(#[trigger] a[i]) by {
                assert(a[i] == s[i]);
            }
        }
        assert(is_digits(b)) by {
            assert forall|i: int| 0 <= i < b.len() implies is_digit(#[trigger] b[i]) by {
                assert(b[i] == s[l + 1 + i]);
            }
        }
        assert(s =~= a + seq!['.'] + b);
        lemma_point_parts(a, b);
        lemma_dec_value_bound(b);
        lemma_pow10_pos(b.len());
        vstd::arithmetic::div_mod::lemma_fundamental_div_mod_converse(
            dec_value(s) as int,
            pow10(b.len()) as int,
            dec_value(a) as int,
            dec_value(b) as int,
        );
    }
}

proof fn lemma_dec_str(n: nat)
    ensures
        is_digits(dec_str(n)),
        dec_value(dec_str(n)) == n,
    decreases n,
{
    if n > 0 {
        lemma_dec_str(n / 10);
        lemma_digit_char(n % 10);
        let s = dec_str(n);
        assert(s.drop_last() =~= dec_str(n / 10));
        assert(is_digits(s)) by {
            assert forall|i: int| 0 <= i < s.len() implies is_digit(#[trigger] s[i]) by {
                if i < s.len() - 1 {
                    assert(s[i] == dec_str(n / 10)[i]);
                }
            }
        }
    }
}

proof fn lemma_pad_digits(n: nat, f: nat)
    requires
        n < pow10(f),
    ensures
        is_digits(pad_digits(n, f)),
        dec_value(pad_digits(n, f)) == n,
        pad_digits(n, f).len() == f,
    decreases f,
{
    if f > 0 {
        assert(n / 10 < pow10((f - 1) as nat)) by (nonlinear_arith)
            requires
                n < 10 * pow10((f - 1) as nat),
        ;
        lemma_pad_digits(n / 10, (f - 1) as nat);
        lemma_digit_char(n % 10);
        let s = pad_digits(n, f);
        assert(s.drop_last() =~= pad_digits(n / 10, (f - 1) as nat));
        assert(is_digits(s)) by {
            assert forall|i: int| 0 <= i < s.len() implies is_digit(#[trigger] s[i]) by {
                if i < s.len() - 1 {
                    assert(s[i] == pad_digits(n / 10, (f - 1) as nat)[i]);
                }
            }
        }
    } else {
        assert(n == 0);
    }
}

/// What `render` writes is a numeral of `n` with `f` digits after the point.
pub proof fn lemma_render(n: nat, f: nat)
    ensures
        is_decimal(render(n, f)),
        dec_value(render(n, f)) == n,
        frac_len(render(n, f)) == f,
{
    if f == 0 {
        if n == 0 {
            let s = seq!['0'];
            assert(is_digits(s));
            lemma_digits_parts(s);
            assert(s.drop_last() =~= Seq::<char>::empty());
            assert(dec_value(s.drop_last()) == 0);
            assert(s.last() == '0');
            assert(dec_value(s) == 0);
        } else {
            lemma_dec_str(n);
            lemma_digits_parts(dec_str(n));
        }
    } else {
        lemma_pow10_pos(f);
        let q = n / pow10(f);
        let r = n % pow10(f);
        lemma_dec_str(q);
        lemma_pad_digits(r, f);
        lemma_point_parts(dec_str(q), pad_digits(r, f));
        vstd::arithmetic::div_mod::lemma_fundamental_div_mod(n as int, pow10(f) as int);
        assert(q * pow10(f) + r == n) by (nonlinear_arith)
            requires
                n == pow10(f) * q + r,
        ;
        assert(dec_value(render(n, f)) == dec_value(dec_str(q)) * pow10(f) + dec_value(
            pad_digits(r, f),
        ));
    }
}

proof fn lemma_bin_str(n: nat)
    ensures
        is_binary(bin_str(n)),
        bin_str(n).len() >= 1,
    decreases n,
{
    if n > 1 {
        lemma_bin_str(n / 2);
        let s = bin_str(n);
        assert forall|i: int| 0 <= i < s.len() implies #[trigger] s[i] == '0' || s[i] == '1' by {
            if i < s.len() - 1 {
                assert(s[i] == bin_str(n / 2)[i]);
            }
        }
    }
}

/// `s` with zeros put in front, up to a whole number of groups of four.
pub open spec fn pad4(s: Seq<char>) -> Seq<char> {
    Seq::new(((4 - s.len() % 4) % 4) as nat, |i: int| '0') + s
}

/// The hexadecimal numeral of the magic constant of width `w` from `seed`:
/// the integer part of `seed * 2^w`, made odd.
pub open spec fn magic_hex(seed: Seq<char>, w: nat) -> Seq<char> {
    hex_of(
        pad4(
            force_odd(bin_str(dec_value(seed) * pow2(w) / pow10(frac_len(seed)))),
        ),
    )
}

/// `s` with zeros put in front, up to a whole number of groups of four.
fn pad_nibbles(s: &String) -> (r: String)
    ensures
        r@ == pad4(s@),
{
    let cs = chars_of(s.as_str());
    let count: usize = (4 - cs.len() % 4) % 4;
    let mut out: Vec<char> = Vec::new();
    let mut i: usize = 0;
    while i < count
        invariant
            i <= count,
            out@ == Seq::new(i as nat, |k: int| '0'),
        decreases count - i,
    {
        out.push('0');
        i = i + 1;
        proof {
            assert(out@ =~= Seq::new(i as nat, |k: int| '0'));
        }
    }
    let mut k: usize = 0;
    let ghost zeros = out@;
    while k < cs.len()
        invariant
            k <= cs@.len(),
            out@ == zeros + cs@.subrange(0, k as int),
        decreases cs@.len() - k,
    {
        out.push(cs[k]);
        k = k + 1;
        proof {
            assert(out@ =~= zeros + cs@.subrange(0, k as int));
        }
    }
    proof {
        assert(cs@.subrange(0, k as int) =~= cs@);
    }
    string_of(&out)
}

/// The digits of `e - 2`, the seed of the magic constant `P`.
pub const E_FRACTION: &'static str = "0.7182818284590452353602874713526624977572470936999595749669676277240766303535475945713821785251664274274663919320030599218174135966290435729003342952605956307381323286279434907632338298807531952510190115738341879307021540891499348841675092447614606680822648001684774118537423454424371075390777449920695517027618386062613313845830007520449338265602976067371132007093287091274437470472306969772093101416928368190255151086574637721112523897844250569536967707854499699679468644549059879316368892300987931277361782154249992295763514822082698951936680331825288693984964651058209392398294887933203625094431173012381970684161403970198376793206832823764648042953118023287825098194558153017567173613320698112509961818815930416903515988885193458072738667385894228792284998920868058257492796104841984443634632449684875602336248270419786232090021609";

/// The digits of `phi - 1`, the seed of the magic constant `Q`.
pub const PHI_FRACTION: &'static str = "0.6180339887498948482045868343656381177203091798057628621354486227052604628189024497072072041893911374847540880753868917521266338622235369317931800607667263544333890865959395829056383226613199282902678806752087668925017116962070322210432162695486262963136144381497587012203408058879544547492461856953648644492410443207713449470495658467885098743394422125448770664780915884607499887124007652170575179788341662562494075890697040002812104276217711177780531531714101170466659914669798731761356006708748071013179523689427521948435305678300228785699782977834784587822891109762500302696156170025046433824377648610283831268330372429267526311653392473167111211588186385133162038400522216579128667529465490681131715993432359734949850904094762132229810172610705961164562990981629055520852479035240602017279974717534277759277862561943208275051312181562";

proof fn lemma_seeds()
    ensures
        is_decimal(E_FRACTION@),
        is_decimal(PHI_FRACTION@),
{
    reveal_strlit("0.7182818284590452353602874713526624977572470936999595749669676277240766303535475945713821785251664274274663919320030599218174135966290435729003342952605956307381323286279434907632338298807531952510190115738341879307021540891499348841675092447614606680822648001684774118537423454424371075390777449920695517027618386062613313845830007520449338265602976067371132007093287091274437470472306969772093101416928368190255151086574637721112523897844250569536967707854499699679468644549059879316368892300987931277361782154249992295763514822082698951936680331825288693984964651058209392398294887933203625094431173012381970684161403970198376793206832823764648042953118023287825098194558153017567173613320698112509961818815930416903515988885193458072738667385894228792284998920868058257492796104841984443634632449684875602336248270419786232090021609");
    reveal_strlit("0.6180339887498948482045868343656381177203091798057628621354486227052604628189024497072072041893911374847540880753868917521266338622235369317931800607667263544333890865959395829056383226613199282902678806752087668925017116962070322210432162695486262963136144381497587012203408058879544547492461856953648644492410443207713449470495658467885098743394422125448770664780915884607499887124007652170575179788341662562494075890697040002812104276217711177780531531714101170466659914669798731761356006708748071013179523689427521948435305678300228785699782977834784587822891109762500302696156170025046433824377648610283831268330372429267526311653392473167111211588186385133162038400522216579128667529465490681131715993432359734949850904094762132229810172610705961164562990981629055520852479035240602017279974717534277759277862561943208275051312181562");
    lemma_seed(E_FRACTION@);
    lemma_seed(PHI_FRACTION@);
}

proof fn lemma_seed(s: Seq<char>)
    requires
        s.len() >= 2,
        s[0] == '0',
        s[1] == '.',
        forall|i: int| 2 <= i < s.len() ==> is_digit(#[trigger] s[i]),
    ensures
        is_decimal(s),
{
    let rest = s.subrange(1, s.len() as int);
    assert(rest[0] == '.');
    assert(leading(rest) == 0);
    assert(leading(s) == 1);
}

/// A decimal number written as digits with at most one point, such as
/// `0.71828`; a scratch value for deriving the magic constants.
pub struct BigNum(String);

impl View for BigNum {
    type V = Seq<char>;

    closed spec fn view(&self) -> Seq<char> {
        self.0@
    }
}

impl BigNum {
    pub fn new(num: &str) -> (r: Self)
        requires
            is_decimal(num@),
        ensures
            r@ == num@,
    {
        BigNum(num.to_owned())
    }

    pub fn to_string(&self) -> (r: String)
        ensures
            r@ == self@,
    {
        self.0.clone()
    }

    /// The integer part: the characters before the point.
    pub fn truncate(&self) -> (r: String)
        ensures
            r@ == int_part(self@),
    {
        let cs = chars_of(self.0.as_str());
        let n = cs.len();
        let mut out: Vec<char> = Vec::new();
        let mut i: usize = 0;
        proof {
            assert(cs@.subrange(0, n as int) =~= cs@);
        }
        while i < n && cs[i] != '.'
            invariant
                i <= n,
                n == cs@.len(),
                cs@ == self@,
                out@ == cs@.subrange(0, i as int),
                leading(cs@) == i + leading(cs@.subrange(i as int, n as int)),
            decreases n - i,
        {
            proof {
                let rest = cs@.subrange(i as int, n as int);
                assert(rest.subrange(1, rest.len() as int) =~= cs@.subrange(i + 1, n as int));
            }
            out.push(cs[i]);
            i = i + 1;
            proof {
                assert(out@ =~= cs@.subrange(0, i as int));
            }
        }
        proof {
            assert(leading(cs@.subrange(i as int, n as int)) == 0);
        }
        string_of(&out)
    }

    /// Each group of four binary digits as one upper-case hexadecimal digit.
    pub fn convert_binary_to_hex(binary: &String) -> (r: String)
        requires
            binary@.len() % 4 == 0,
            is_binary(binary@),
        ensures
            r@ == hex_of(binary@),
    {
        let cs = chars_of(binary.as_str());
        let mut out: Vec<char> = Vec::new();
        let mut w: usize = 0;
        while w < cs.len()
            invariant
                cs@ == binary@,
                cs@.len() % 4 == 0,
                w % 4 == 0,
                w <= cs@.len(),
                is_binary(cs@),
                out@.len() == w / 4,
                forall|i: int|
                    0 <= i < out@.len() ==> #[trigger] out@[i] == hex_char(nibble(cs@, 4 * i)),
            decreases cs@.len() - w,
        {
            let v: u8 = 8 * bit_of(cs[w]) + 4 * bit_of(cs[w + 1]) + 2 * bit_of(cs[w + 2]) + bit_of(
                cs[w + 3],
            );
            proof {
                assert(4 * (w / 4) as int == w);
            }
            let ghost before = out@;
            out.push(hex_digit(v));
            proof {
                assert forall|i: int| 0 <= i < out@.len() implies #[trigger] out@[i] == hex_char(
                    nibble(cs@, 4 * i),
                ) by {
                    if i < before.len() {
                        assert(out@[i] == before[i]);
                    }
                }
            }
            w = w + 4;
        }
        proof {
            assert(out@ =~= hex_of(binary@));
        }
        string_of(&out)
    }

    /// Multiplies the number in place by `num2`, keeping the number of digits
    /// after the point.
    pub fn multiply(&mut self, num2: u128)
        requires
            is_decimal(old(self)@),
        ensures
            final(self)@ == render((dec_value(old(self)@) * num2) as nat, frac_len(old(self)@)),
    {
        let cs = chars_of(self.0.as_str());
        let (digs, f) = split_decimal(&cs);
        let prod = mul_digits(&digs, num2);
        let out = render_digits(&prod, f);
        self.0 = string_of(&out);
    }

    /// The binary digits of a decimal integer, with no leading zero; `0` for zero.
    pub fn convert_to_binary(decimal: &String) -> (r: String)
        requires
            is_digits(decimal@),
        ensures
            r@ == bin_str(dec_value(decimal@)),
    {
        let cs = chars_of(decimal.as_str());
        let mut d = digits_of(&cs);
        let ghost v = be_value(d@);
        let mut acc: Vec<char> = Vec::new();
        if is_zero(&d) {
            acc.push('0');
            return string_of(&acc);
        }
        while !is_zero(&d)
            invariant
                v > 0,
                all_digits(d@),
                be_value(d@) > 0 ==> bin_str(v) == bin_str(be_value(d@)) + acc@,
                be_value(d@) == 0 ==> bin_str(v) == acc@,
            decreases be_value(d@),
        {
            let (q, rem) = halve(&d);
            let ghost cur = be_value(d@);
            let ghost before = acc@;
            acc.insert(0, if rem == 1 {
                '1'
            } else {
                '0'
            });
            proof {
                assert(acc@ =~= seq![bit_char(rem as nat)] + before);
                if cur >= 2 {
                    assert(bin_str(cur) == bin_str(cur / 2).push(bit_char(cur % 2)));
                    assert(bin_str(cur) + before =~= bin_str(cur / 2) + acc@);
                } else {
                    assert(bin_str(1) == seq!['1']);
                }
            }
            d = q;
        }
        string_of(&acc)
    }

    /// The hexadecimal numeral of the magic constant of width `w` made from
    /// the fraction `seed`: `seed` is doubled `w` times, its integer part is
    /// written in binary, made odd, and read four binary digits at a time.
    pub fn magic_constant(seed: &BigNum, w: u32) -> (r: String)
        requires
            is_decimal(seed@),
        ensures
            r@ == magic_hex(seed@, w as nat),
    {
        let mut num = BigNum(seed.0.clone());
        let ghost v = dec_value(seed@);
        let ghost f = frac_len(seed@);
        let mut i: u32 = 0;
        proof {
            vstd::arithmetic::power2::lemma2_to64();
        }
        while i < w
            invariant
                i <= w,
                is_decimal(num@),
                dec_value(num@) == v * pow2(i as nat),
                frac_len(num@) == f,
            decreases w - i,
        {
            let ghost before = num@;
            num.multiply(2);
            proof {
                lemma_render((dec_value(before) * 2) as nat, f);
                vstd::arithmetic::power2::lemma_pow2_unfold((i + 1) as nat);
                assert(v * pow2(i as nat) * 2 == v * pow2((i + 1) as nat)) by (nonlinear_arith)
                    requires
                        pow2((i + 1) as nat) == 2 * pow2(i as nat),
                ;
            }
            i = i + 1;
        }
        let int_digits = num.truncate();
        proof {
            lemma_int_part_value(num@);
        }
        let mut bits = BigNum::convert_to_binary(&int_digits);
        proof {
            lemma_bin_str(bits@.len() as nat);
            lemma_bin_str(dec_value(int_digits@));
        }
        BigNum::binary_odd(&mut bits);
        let padded = pad_nibbles(&bits);
        proof {
            let p = padded@;
            let o = bits@;
            assert(is_binary(o)) by {
                assert forall|k: int| 0 <= k < o.len() implies #[trigger] o[k] == '0' || o[k]
                    == '1' by {
                    if k < o.len() - 1 {
                        assert(o[k] == bin_str(dec_value(int_digits@))[k]);
                    }
                }
            }
            assert(is_binary(p)) by {
                let z = ((4 - o.len() % 4) % 4) as int;
                assert forall|k: int| 0 <= k < p.len() implies #[trigger] p[k] == '0' || p[k]
                    == '1' by {
                    if k >= z {
                        assert(p[k] == o[k - z]);
                    }
                }
            }
            assert(p.len() % 4 == 0);
        }
        BigNum::convert_binary_to_hex(&padded)
    }

    /// The hexadecimal numerals of the magic constants `P` and `Q` of width `w`.
    pub fn magic_constants(w: u32) -> (r: (String, String))
        ensures
            r.0@ == magic_hex(E_FRACTION@, w as nat),
            r.1@ == magic_hex(PHI_FRACTION@, w as nat),
    {
        proof {
            lemma_seeds();
        }
        let e = BigNum::new(E_FRACTION);
        let phi = BigNum::new(PHI_FRACTION);
        (BigNum::magic_constant(&e, w), BigNum::magic_constant(&phi, w))
    }

    /// Sets the last binary digit to one, making the number odd.
    pub fn binary_odd(binary: &mut String)
        ensures
            final(binary)@ == force_odd(old(binary)@),
    {
        let mut cs = chars_of(binary.as_str());
        let len = cs.len();
        if len > 0 {
            cs.set(len - 1, '1');
        }
        *binary = string_of(&cs);
    }
}

} // verus!
