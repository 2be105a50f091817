use vstd::prelude::*;
use crate::bits::lemma_rotate_inverse;

verus! {

/// The word widths, in bits, that the cipher supports.
pub open spec fn supported_width(w: u128) -> bool {
    w == 8 || w == 16 || w == 32 || w == 64 || w == 128
}

/// `2^w` for a supported width `w`.
pub open spec fn modulus(w: u128) -> nat {
    if w == 8 {
        0x100
    } else if w == 16 {
        0x1_0000
    } else if w == 32 {
        0x1_0000_0000
    } else if w == 64 {
        0x1_0000_0000_0000_0000
    } else {
        0x1_0000_0000_0000_0000_0000_0000_0000_0000nat
    }
}

/// `2^w - 1`: the largest value of a word of width `w`, all bits set.
pub open spec fn word_mask(w: u128) -> u128 {
    if w == 8 {
        0xFF
    } else if w == 16 {
        0xFFFF
    } else if w == 32 {
        0xFFFF_FFFF
    } else if w == 64 {
        0xFFFF_FFFF_FFFF_FFFF
    } else {
        0xFFFF_FFFF_FFFF_FFFF_FFFF_FFFF_FFFF_FFFF
    }
}

/// A value of one of the supported widths, held in the native type of that width.
#[derive(Clone, Copy, PartialEq, Eq, Structural)]
pub enum WordType {
    U8(u8),
    U16(u16),
    U32(u32),
    U64(u64),
    U128(u128),
}

impl WordType {
    pub open spec fn width(self) -> u128 {
        match self {
            WordType::U8(_) => 8,
            WordType::U16(_) => 16,
            WordType::U32(_) => 32,
            WordType::U64(_) => 64,
            WordType::U128(_) => 128,
        }
    }

    pub open spec fn value(self) -> u128 {
        match self {
            WordType::U8(v) => v as u128,
            WordType::U16(v) => v as u128,
            WordType::U32(v) => v as u128,
            WordType::U64(v) => v as u128,
            WordType::U128(v) => v,
        }
    }
}

/// A fixed-width unsigned word. Its width is one of 8, 16, 32, 64 and 128 bits
/// and never changes; all arithmetic on it wraps modulo `2^width`.
#[derive(Clone, Copy, PartialEq, Eq, Structural)]
pub struct Word {
    pub data: WordType,
}

impl Word {
    pub open spec fn width(self) -> u128 {
        self.data.width()
    }

    pub open spec fn value(self) -> u128 {
        self.data.value()
    }
}

/// `(x + y) mod 2^w`.
pub open spec fn wrap_add(w: u128, x: u128, y: u128) -> u128 {
    ((x + y) % (modulus(w) as int)) as u128
}

/// `(x - y) mod 2^w`.
pub open spec fn wrap_sub(w: u128, x: u128, y: u128) -> u128 {
    ((x - y) % (modulus(w) as int)) as u128
}

/// Rotation of the low `w` bits of `x` to the left by `s` places, `s < w`.
pub open spec fn rotl_bits(w: u128, x: u128, s: u128) -> u128 {
    if s == 0 {
        x
    } else {
        ((x << s) | (x >> ((w - s) as u128))) & word_mask(w)
    }
}

/// Rotation of the low `w` bits of `x` to the right by `s` places, `s < w`.
pub open spec fn rotr_bits(w: u128, x: u128, s: u128) -> u128 {
    if s == 0 {
        x
    } else {
        ((x >> s) | (x << ((w - s) as u128))) & word_mask(w)
    }
}

/// Left rotation of a `w`-bit word by `amount`, reduced modulo `w`.
pub open spec fn rotate_left(w: u128, x: u128, amount: u128) -> u128 {
    rotl_bits(w, x, amount % w)
}

/// Right rotation of a `w`-bit word by `amount`, reduced modulo `w`.
pub open spec fn rotate_right(w: u128, x: u128, amount: u128) -> u128 {
    rotr_bits(w, x, amount % w)
}

/// The `n` bytes of `v` in little-endian order: byte `i` is `(v / 256^i) mod 256`.
pub open spec fn le_bytes(v: nat, n: nat) -> Seq<u8>
    decreases n,
{
    if n == 0 {
        Seq::empty()
    } else {
        seq![(v % 256) as u8] + le_bytes(v / 256, (n - 1) as nat)
    }
}

/// The number whose little-endian bytes are `b`.
pub open spec fn le_value(b: Seq<u8>) -> nat
    decreases b.len(),
{
    if b.len() == 0 {
        0
    } else {
        (b[0] + 256 * le_value(b.subrange(1, b.len() as int))) as nat
    }
}

/// The mask `2^w - 1` of a supported width.
fn width_mask(w: u128) -> (r: u128)
    requires
        supported_width(w),
    ensures
        r == word_mask(w),
{
    if w == 8 {
        0xFF
    } else if w == 16 {
        0xFFFF
    } else if w == 32 {
        0xFFFF_FFFF
    } else if w == 64 {
        0xFFFF_FFFF_FFFF_FFFF
    } else {
        0xFFFF_FFFF_FFFF_FFFF_FFFF_FFFF_FFFF_FFFF
    }
}

/// `(x + y) mod 2^w` on values of width `w`, without overflow.
pub fn add_values(w: u128, x: u128, y: u128) -> (r: u128)
    requires
        supported_width(w),
        x <= word_mask(w),
        y <= word_mask(w),
    ensures
        r == wrap_add(w, x, y),
        r <= word_mask(w),
{
    let m = width_mask(w);
    if x <= m - y {
        x + y
    } else {
        x - (m - y) - 1
    }
}

/// `(x - y) mod 2^w` on values of width `w`, without overflow.
pub fn sub_values(w: u128, x: u128, y: u128) -> (r: u128)
    requires
        supported_width(w),
        x <= word_mask(w),
        y <= word_mask(w),
    ensures
        r == wrap_sub(w, x, y),
        r <= word_mask(w),
{
    let m = width_mask(w);
    if x >= y {
        x - y
    } else {
        (m - y) + x + 1
    }
}

/// Left rotation of a `w`-bit value; the amount is reduced modulo `w` first,
/// so no shift ever reaches the full width.
pub fn rotl_values(w: u128, x: u128, amount: u128) -> (r: u128)
    requires
        supported_width(w),
        x <= word_mask(w),
    ensures
        r == rotate_left(w, x, amount),
        r <= word_mask(w),
{
    let s = amount % w;
    proof {
        lemma_rotate_inverse(w, x, s);
    }
    if s == 0 {
        x
    } else {
        ((x << s) | (x >> (w - s))) & width_mask(w)
    }
}

/// Right rotation of a `w`-bit value; the amount is reduced modulo `w` first.
pub fn rotr_values(w: u128, x: u128, amount: u128) -> (r: u128)
    requires
        supported_width(w),
        x <= word_mask(w),
    ensures
        r == rotate_right(w, x, amount),
        r <= word_mask(w),
{
    let s = amount % w;
    proof {
        lemma_rotate_inverse(w, x, s);
    }
    if s == 0 {
        x
    } else {
        ((x >> s) | (x << (w - s))) & width_mask(w)
    }
}

/// The `n` little-endian bytes of `v`.
pub fn value_le_bytes(v: u128, n: u128) -> (r: Vec<u8>)
    requires
        n <= 16,
    ensures
        r@ == le_bytes(v as nat, n as nat),
{
    let mut out: Vec<u8> = Vec::new();
    let mut x: u128 = v;
    let mut i: u128 = 0;
    while i < n
        invariant
            i <= n,
            out@ + le_bytes(x as nat, (n - i) as nat) == le_bytes(v as nat, n as nat),
        decreases n - i,
    {
        let ghost before = out@;
        out.push((x % 256) as u8);
        proof {
            assert(le_bytes(x as nat, (n - i) as nat) == seq![(x % 256) as u8] + le_bytes(
                (x / 256) as nat,
                (n - i - 1) as nat,
            ));
            assert(out@ == before + seq![(x % 256) as u8]);
            assert(before + le_bytes(x as nat, (n - i) as nat) =~= out@ + le_bytes(
                (x / 256) as nat,
                (n - i - 1) as nat,
            ));
        }
        x = x / 256;
        i = i + 1;
    }
    proof {
        assert(out@ =~= out@ + le_bytes(x as nat, 0));
    }
    out
}

impl WordType {
    /// The word of width `w` whose value is `v mod 2^w`.
    pub open spec fn of(w: u128, v: u128) -> WordType {
        if w == 8 {
            WordType::U8((v % 0x100) as u8)
        } else if w == 16 {
            WordType::U16((v % 0x1_0000) as u16)
        } else if w == 32 {
            WordType::U32((v % 0x1_0000_0000) as u32)
        } else if w == 64 {
            WordType::U64((v % 0x1_0000_0000_0000_0000) as u64)
        } else {
            WordType::U128(v)
        }
    }

    fn new(word_size: u128, value: u128) -> (r: WordType)
        requires
            supported_width(word_size),
        ensures
            r == WordType::of(word_size, value),
            r.width() == word_size,
            r.value() == value as nat % modulus(word_size),
    {
        if word_size == 8 {
            WordType::U8((value % 0x100) as u8)
        } else if word_size == 16 {
            WordType::U16((value % 0x1_0000) as u16)
        } else if word_size == 32 {
            WordType::U32((value % 0x1_0000_0000) as u32)
        } else if word_size == 64 {
            WordType::U64((value % 0x1_0000_0000_0000_0000) as u64)
        } else {
            WordType::U128(value)
        }
    }

    /// Extracts the pair (number of bits of the word, value).
    pub fn extract(&self) -> (r: (u128, u128))
        ensures
            r.0 == self.width(),
            r.1 == self.value(),
            supported_width(r.0),
            r.1 <= word_mask(r.0),
    {
        match *self {
            WordType::U8(value) => (8, value as u128),
            WordType::U16(value) => (16, value as u128),
            WordType::U32(value) => (32, value as u128),
            WordType::U64(value) => (64, value as u128),
            WordType::U128(value) => (128, value),
        }
    }

    /// The value's bytes, least significant first, one per eight bits of width.
    pub fn to_le_bytes(&self) -> (r: Vec<u8>)
        ensures
            r@ == le_bytes(self.value() as nat, (self.width() / 8) as nat),
            r@.len() == self.width() / 8,
    {
        let (w, v) = self.extract();
        let r = value_le_bytes(v, w / 8);
        proof {
            lemma_le_bytes_len(v as nat, (w / 8) as nat);
        }
        r
    }
}

pub proof fn lemma_le_bytes_len(v: nat, n: nat)
    ensures
        le_bytes(v, n).len() == n,
    decreases n,
{
    if n > 0 {
        lemma_le_bytes_len(v / 256, (n - 1) as nat);
    }
}

impl Word {
    /// The word of width `w` whose value is `v mod 2^w`.
    pub open spec fn of(w: u128, v: u128) -> Word {
        Word { data: WordType::of(w, v) }
    }

    fn new(word_size: u128, value: u128) -> (r: Word)
        requires
            supported_width(word_size),
        ensures
            r == Word::of(word_size, value),
            r.width() == word_size,
            r.value() == value as nat % modulus(word_size),
    {
        Word { data: WordType::new(word_size, value) }
    }

    /// The word's bytes, least significant first.
    pub fn to_le_bytes(&self) -> (r: Vec<u8>)
        ensures
            r@ == le_bytes(self.value() as nat, (self.width() / 8) as nat),
            r@.len() == self.width() / 8,
    {
        self.data.to_le_bytes()
    }
}

/// Makes words of one fixed width.
pub struct WordBuilder {
    word_size: u128,
}

impl WordBuilder {
    pub closed spec fn width(self) -> u128 {
        self.word_size
    }

    pub fn new(word_size: u128) -> (r: Self)
        requires
            supported_width(word_size),
        ensures
            r.width() == word_size,
    {
        Self { word_size }
    }

    /// The word of the builder's width holding `value mod 2^width`.
    pub fn build_word(&self, value: u128) -> (r: Word)
        requires
            supported_width(self.width()),
        ensures
            r == Word::of(self.width(), value),
            r.width() == self.width(),
            r.value() == value as nat % modulus(self.width()),
    {
        Word::new(self.word_size, value)
    }

    /// `num_words` zero words of the builder's width.
    pub fn new_word_vec(&self, num_words: usize) -> (r: Vec<Word>)
        requires
            supported_width(self.width()),
        ensures
            r@.len() == num_words,
            forall|k: int|
                0 <= k < num_words ==> #[trigger] r@[k] == Word::of(self.width(), 0),
    {
        let zero = self.build_word(0);
        let mut out: Vec<Word> = Vec::new();
        let mut i: usize = 0;
        while i < num_words
            invariant
                i <= num_words,
                zero == Word::of(self.width(), 0),
                out@.len() == i,
                forall|k: int| 0 <= k < i ==> #[trigger] out@[k] == zero,
            decreases num_words - i,
        {
            out.push(zero);
            i = i + 1;
        }
        out
    }
}

/// Wrapping addition of two words of one width.
impl core::ops::Add<Word> for Word {
    type Output = Word;

    fn add(self, rhs: Word) -> (r: Word) {
        let (w, x) = self.data.extract();
        let (_, y) = rhs.data.extract();
        Word::new(w, add_values(w, x, y))
    }
}

impl vstd::std_specs::ops::AddSpecImpl<Word> for Word {
    open spec fn obeys_add_spec() -> bool {
        true
    }

    open spec fn add_req(self, rhs: Word) -> bool {
        self.width() == rhs.width()
    }

    open spec fn add_spec(self, rhs: Word) -> Word {
        Word::of(self.width(), wrap_add(self.width(), self.value(), rhs.value()))
    }
}

/// Wrapping addition of a byte.
impl core::ops::Add<u8> for Word {
    type Output = Word;

    fn add(self, rhs: u8) -> (r: Word) {
        let (w, x) = self.data.extract();
        Word::new(w, add_values(w, x, rhs as u128))
    }
}

impl vstd::std_specs::ops::AddSpecImpl<u8> for Word {
    open spec fn obeys_add_spec() -> bool {
        true
    }

    open spec fn add_req(self, rhs: u8) -> bool {
        true
    }

    open spec fn add_spec(self, rhs: u8) -> Word {
        Word::of(self.width(), wrap_add(self.width(), self.value(), rhs as u128))
    }
}

/// Wrapping subtraction of two words of one width.
impl core::ops::Sub<Word> for Word {
    type Output = Word;

    fn sub(self, rhs: Word) -> (r: Word) {
        let (w, x) = self.data.extract();
        let (_, y) = rhs.data.extract();
        Word::new(w, sub_values(w, x, y))
    }
}

impl vstd::std_specs::ops::SubSpecImpl<Word> for Word {
    open spec fn obeys_sub_spec() -> bool {
        true
    }

    open spec fn sub_req(self, rhs: Word) -> bool {
        self.width() == rhs.width()
    }

    open spec fn sub_spec(self, rhs: Word) -> Word {
        Word::of(self.width(), wrap_sub(self.width(), self.value(), rhs.value()))
    }
}

/// Bitwise and of two words of one width.
impl core::ops::BitAnd<Word> for Word {
    type Output = Word;

    fn bitand(self, rhs: Word) -> (r: Word) {
        let (w, x) = self.data.extract();
        let (_, y) = rhs.data.extract();
        Word::new(w, x & y)
    }
}

impl vstd::std_specs::ops::BitAndSpecImpl<Word> for Word {
    open spec fn obeys_bitand_spec() -> bool {
        true
    }

    open spec fn bitand_req(self, rhs: Word) -> bool {
        self.width() == rhs.width()
    }

    open spec fn bitand_spec(self, rhs: Word) -> Word {
        Word::of(self.width(), self.value() & rhs.value())
    }
}

/// Bitwise or of two words of one width.
impl core::ops::BitOr<Word> for Word {
    type Output = Word;

    fn bitor(self, rhs: Word) -> (r: Word) {
        let (w, x) = self.data.extract();
        let (_, y) = rhs.data.extract();
        Word::new(w, x | y)
    }
}

impl vstd::std_specs::ops::BitOrSpecImpl<Word> for Word {
    open spec fn obeys_bitor_spec() -> bool {
        true
    }

    open spec fn bitor_req(self, rhs: Word) -> bool {
        self.width() == rhs.width()
    }

    open spec fn bitor_spec(self, rhs: Word) -> Word {
        Word::of(self.width(), self.value() | rhs.value())
    }
}

/// Bitwise exclusive or of two words of one width.
impl core::ops::BitXor<Word> for Word {
    type Output = Word;

    fn bitxor(self, rhs: Word) -> (r: Word) {
        let (w, x) = self.data.extract();
        let (_, y) = rhs.data.extract();
        Word::new(w, x ^ y)
    }
}

impl vstd::std_specs::ops::BitXorSpecImpl<Word> for Word {
    open spec fn obeys_bitxor_spec() -> bool {
        true
    }

    open spec fn bitxor_req(self, rhs: Word) -> bool {
        self.width() == rhs.width()
    }

    open spec fn bitxor_spec(self, rhs: Word) -> Word {
        Word::of(self.width(), self.value() ^ rhs.value())
    }
}

/// Left rotation by the value of a word of the same width, taken modulo the width.
impl core::ops::Shl<Word> for Word {
    type Output = Word;

    fn shl(self, rhs: Word) -> (r: Word) {
        let (w, x) = self.data.extract();
        let (_, y) = rhs.data.extract();
        Word::new(w, rotl_values(w, x, y))
    }
}

impl vstd::std_specs::ops::ShlSpecImpl<Word> for Word {
    open spec fn obeys_shl_spec() -> bool {
        true
    }

    open spec fn shl_req(self, rhs: Word) -> bool {
        self.width() == rhs.width()
    }

    open spec fn shl_spec(self, rhs: Word) -> Word {
        Word::of(self.width(), rotate_left(self.width(), self.value(), rhs.value()))
    }
}

/// Left rotation by a byte, taken modulo the width.
impl core::ops::Shl<u8> for Word {
    type Output = Word;

    fn shl(self, rhs: u8) -> (r: Word) {
        let (w, x) = self.data.extract();
        Word::new(w, rotl_values(w, x, rhs as u128))
    }
}

impl vstd::std_specs::ops::ShlSpecImpl<u8> for Word {
    open spec fn obeys_shl_spec() -> bool {
        true
    }

    open spec fn shl_req(self, rhs: u8) -> bool {
        true
    }

    open spec fn shl_spec(self, rhs: u8) -> Word {
        Word::of(self.width(), rotate_left(self.width(), self.value(), rhs as u128))
    }
}

/// Right rotation by the value of a word of the same width, taken modulo the width.
impl core::ops::Shr<Word> for Word {
    type Output = Word;

    fn shr(self, rhs: Word) -> (r: Word) {
        let (w, x) = self.data.extract();
        let (_, y) = rhs.data.extract();
        Word::new(w, rotr_values(w, x, y))
    }
}

impl vstd::std_specs::ops::ShrSpecImpl<Word> for Word {
    open spec fn obeys_shr_spec() -> bool {
        true
    }

    open spec fn shr_req(self, rhs: Word) -> bool {
        self.width() == rhs.width()
    }

    open spec fn shr_spec(self, rhs: Word) -> Word {
        Word::of(self.width(), rotate_right(self.width(), self.value(), rhs.value()))
    }
}

/// A rotation by the full width leaves a word unchanged, and a right rotation
/// is undone by a left rotation by the same amount, whatever that amount is.
pub proof fn lemma_rotate_identity(w: u128, x: u128, y: u128)
    requires
        supported_width(w),
        x <= word_mask(w),
    ensures
        rotate_left(w, x, w) == x,
        rotate_left(w, rotate_right(w, x, y), y) == x,
        rotate_right(w, rotate_left(w, x, y), y) == x,
{
    lemma_rotate_inverse(w, x, y % w);
}

/// Wrapping addition and subtraction stay within the width: neither result
/// exceeds `2^w - 1`.
pub proof fn lemma_wraparound(w: u128, x: u128, y: u128)
    requires
        supported_width(w),
    ensures
        wrap_add(w, x, y) <= word_mask(w),
        wrap_sub(w, x, y) <= word_mask(w),
{
}

/// `256^n`.
pub open spec fn pow256(n: nat) -> nat
    decreases n,
{
    if n == 0 {
        1
    } else {
        256 * pow256((n - 1) as nat)
    }
}

/// A supported width holds exactly `w / 8` bytes.
pub proof fn lemma_modulus_bytes(w: u128)
    requires
        supported_width(w),
    ensures
        modulus(w) == pow256((w / 8) as nat),
        w / 8 <= 16,
        w % 8 == 0,
{
    assert(pow256(0) == 1);
    assert(pow256(1) == 0x100);
    assert(pow256(2) == 0x1_0000);
    assert(pow256(3) == 0x100_0000);
    assert(pow256(4) == 0x1_0000_0000);
    assert(pow256(5) == 0x100_0000_0000);
    assert(pow256(6) == 0x1_0000_0000_0000);
    assert(pow256(7) == 0x100_0000_0000_0000);
    assert(pow256(8) == 0x1_0000_0000_0000_0000);
    assert(pow256(9) == 0x100_0000_0000_0000_0000);
    assert(pow256(10) == 0x1_0000_0000_0000_0000_0000);
    assert(pow256(11) == 0x100_0000_0000_0000_0000_0000);
    assert(pow256(12) == 0x1_0000_0000_0000_0000_0000_0000);
    assert(pow256(13) == 0x100_0000_0000_0000_0000_0000_0000);
    assert(pow256(14) == 0x1_0000_0000_0000_0000_0000_0000_0000);
    assert(pow256(15) == 0x100_0000_0000_0000_0000_0000_0000_0000);
    assert(pow256(16) == 0x1_0000_0000_0000_0000_0000_0000_0000_0000nat);
}

pub proof fn lemma_pow256_monotonic(m: nat, n: nat)
    requires
        m <= n,
    ensures
        pow256(m) <= pow256(n),
        pow256(m) >= 1,
    decreases n,
{
    if m < n {
        lemma_pow256_monotonic(m, (n - 1) as nat);
    } else if n > 0 {
        lemma_pow256_monotonic(0, (n - 1) as nat);
    }
}

/// The value of `n` little-endian bytes is below `256^n`.
pub proof fn lemma_le_value_bound(b: Seq<u8>)
    ensures
        le_value(b) < pow256(b.len()),
    decreases b.len(),
{
    if b.len() > 0 {
        let rest = b.subrange(1, b.len() as int);
        lemma_le_value_bound(rest);
        assert(le_value(b) < pow256(b.len())) by (nonlinear_arith)
            requires
                le_value(b) == b[0] + 256 * le_value(rest),
                le_value(rest) + 1 <= pow256(rest.len()),
                pow256(b.len()) == 256 * pow256(rest.len()),
                b[0] < 256,
        ;
    }
}

/// Writing a value below `256^n` as `n` little-endian bytes and reading them
/// back gives the value.
pub proof fn lemma_le_value_of_bytes(v: nat, n: nat)
    requires
        v < pow256(n),
    ensures
        le_value(le_bytes(v, n)) == v,
        le_bytes(v, n).len() == n,
    decreases n,
{
    lemma_le_bytes_len(v, n);
    if n > 0 {
        assert(v / 256 < pow256((n - 1) as nat)) by (nonlinear_arith)
            requires
                v < 256 * pow256((n - 1) as nat),
        ;
        lemma_le_value_of_bytes(v / 256, (n - 1) as nat);
        let b = le_bytes(v, n);
        assert(b.subrange(1, b.len() as int) =~= le_bytes(v / 256, (n - 1) as nat));
    }
}

/// Reading little-endian bytes and writing the value back gives the bytes.
pub proof fn lemma_bytes_of_le_value(b: Seq<u8>)
    ensures
        le_bytes(le_value(b), b.len()) == b,
    decreases b.len(),
{
    if b.len() > 0 {
        let rest = b.subrange(1, b.len() as int);
        lemma_bytes_of_le_value(rest);
        let v = le_value(b);
        assert(v % 256 == b[0] && v / 256 == le_value(rest)) by (nonlinear_arith)
            requires
                v == b[0] + 256 * le_value(rest),
                b[0] < 256,
        ;
        assert(le_bytes(v, b.len()) =~= b);
    }
}

/// Subtracting what was added gives back a word, and the other way round.
pub proof fn lemma_add_sub_inverse(w: u128, x: u128, k: u128)
    requires
        supported_width(w),
        x <= word_mask(w),
        k <= word_mask(w),
    ensures
        wrap_sub(w, wrap_add(w, x, k), k) == x,
        wrap_add(w, wrap_sub(w, x, k), k) == x,
{
    let m = modulus(w) as int;
    assert(word_mask(w) + 1 == m);
    if x + k < m {
        vstd::arithmetic::div_mod::lemma_small_mod((x + k) as nat, m as nat);
    } else {
        vstd::arithmetic::div_mod::lemma_fundamental_div_mod_converse(x + k, m, 1, x + k - m);
    }
    vstd::arithmetic::div_mod::lemma_small_mod(x as nat, m as nat);
    if x >= k {
        vstd::arithmetic::div_mod::lemma_small_mod((x - k) as nat, m as nat);
    } else {
        vstd::arithmetic::div_mod::lemma_fundamental_div_mod_converse(x - k, m, -1, x - k + m);
    }
    let s = wrap_add(w, x, k) as int;
    if s >= k {
        vstd::arithmetic::div_mod::lemma_small_mod((s - k) as nat, m as nat);
    } else {
        vstd::arithmetic::div_mod::lemma_fundamental_div_mod_converse(s - k, m, -1, s - k + m);
    }
    let d = wrap_sub(w, x, k) as int;
    if d + k < m {
        vstd::arithmetic::div_mod::lemma_small_mod((d + k) as nat, m as nat);
    } else {
        vstd::arithmetic::div_mod::lemma_fundamental_div_mod_converse(d + k, m, 1, d + k - m);
    }
}

} // verus!
