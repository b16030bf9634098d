//! Bit packing between bytes and fixed-width word indices.
//!
//! A byte string is read as one little-endian number; word indices are its
//! digits in base `2^bits`, least significant first, and turning indices back
//! into bytes takes the digits of their value in base 256. At 11 bits per word
//! the index stream is not byte-aligned, so unpacking may yield trailing zero
//! bytes after the original data.
use vstd::prelude::*;
use vstd::arithmetic::power2::{pow2, lemma_pow2_adds, lemma_pow2_pos, lemma_pow2_strictly_increases};
use vstd::arithmetic::div_mod::{lemma_basic_div, lemma_fundamental_div_mod, lemma_fundamental_div_mod_converse_div, lemma_div_denominator, lemma_mod_multiples_vanish, lemma_small_mod, lemma_div_pos_is_pos};
use vstd::arithmetic::mul::{lemma_mul_is_distributive_add, lemma_mul_is_associative, lemma_mul_is_commutative, lemma_mul_inequality, lemma_mul_strictly_positive};
use vstd::bits::{lemma_u64_shl_is_mul, lemma_u64_shr_is_div, lemma_u64_low_bits_mask_is_mod, lemma_u64_pow2_no_overflow, lemma_u16_shl_is_mul, lemma_u16_pow2_no_overflow, low_bits_mask};
use crate::error::{TransportError, TransportErrorView, tview};

verus! {

/// `2^e` as an integer.
pub open spec fn p2(e: nat) -> int {
    pow2(e) as int
}

/// Digit `j` of `x` in base `2^w`.
pub open spec fn digit(x: int, w: nat, j: nat) -> int {
    (x / p2(w * j)) % p2(w)
}

/// The bytes read as a little-endian number.
pub open spec fn le_value(d: Seq<u8>) -> int
    decreases d.len(),
{
    if d.len() == 0 {
        0
    } else {
        le_value(d.drop_last()) + (d.last() as int) * p2(8 * (d.len() - 1) as nat)
    }
}

/// The word indices read as a number in base `2^w`, least significant first.
pub open spec fn words_value(s: Seq<u16>, w: nat) -> int
    decreases s.len(),
{
    if s.len() == 0 {
        0
    } else {
        words_value(s.drop_last(), w) + (s.last() as int) * p2(w * (s.len() - 1) as nat)
    }
}

/// Number of `w`-bit words needed for `n` bytes.
pub open spec fn word_count(n: nat, w: nat) -> nat {
    ((8 * n + w - 1) / (w as int)) as nat
}

/// Number of whole bytes in `m` words of `w` bits.
pub open spec fn byte_count(m: nat, w: nat) -> nat {
    ((w * m) / 8) as nat
}

/// Number of bytes unpacked from the words `s` of `w` bits: the whole
/// bytes, and the partial last byte where it holds a set bit (a partial
/// byte of zero bits is only padding and is left out).
pub open spec fn unpacked_len(s: Seq<u16>, w: nat) -> nat {
    let k = byte_count(s.len(), w);
    if digit(words_value(s, w), 8, k) != 0 { k + 1 } else { k }
}

/// The word indices of `data` at `w` bits per word.
pub open spec fn spec_pack(data: Seq<u8>, w: nat) -> Seq<u16> {
    Seq::new(word_count(data.len(), w), |j: int| digit(le_value(data), w, j as nat) as u16)
}

/// The first index in `s[i..]` that is not below `size`, if any.
pub open spec fn first_invalid(s: Seq<u16>, size: nat, i: int) -> Option<u16>
    decreases s.len() - i,
{
    if i < 0 || i >= s.len() {
        None
    } else if s[i] >= size {
        Some(s[i])
    } else {
        first_invalid(s, size, i + 1)
    }
}

/// What unpacking `w`-bit indices of a dictionary of `size` words yields.
pub open spec fn spec_unpack(s: Seq<u16>, w: nat, size: nat) -> Result<Seq<u8>, TransportErrorView> {
    match first_invalid(s, size, 0) {
        Some(i) => Err(TransportErrorView::InvalidIndex(i)),
        None => Ok(
            Seq::new(unpacked_len(s, w), |j: int| digit(words_value(s, w), 8, j as nat) as u8),
        ),
    }
}

// ---------------------------------------------------------------------------
// Arithmetic lemmas
// ---------------------------------------------------------------------------

proof fn lemma_p2_facts(a: nat, b: nat)
    ensures
        p2(a) > 0,
        p2(a + b) == p2(a) * p2(b),
        p2(0) == 1,
        p2(8) == 256,
{
    lemma_pow2_pos(a);
    lemma_pow2_adds(a, b);
    vstd::arithmetic::power2::lemma2_to64();
}

/// Adding a multiple of `2^e` above a number below `2^e`, then shifting
/// down by `s <= e` bits.
proof fn lemma_absorb(p: int, y: int, s: nat, e: nat)
    requires
        s <= e,
        0 <= p < p2(e),
    ensures
        (p + y * p2(e)) / p2(s) == p / p2(s) + y * p2((e - s) as nat),
{
    let d = p2(s);
    let f = p2((e - s) as nat);
    lemma_p2_facts(s, (e - s) as nat);
    assert(p2(e) == d * f);
    let q = p / d;
    let r = p % d;
    lemma_fundamental_div_mod(p, d);
    assert(p + y * p2(e) == (q + y * f) * d + r) by (nonlinear_arith)
        requires p == d * q + r, p2(e) == d * f;
    lemma_fundamental_div_mod_converse_div(p + y * p2(e), d, q + y * f, r);
}

/// Digits below position `e` do not see what is added above it.
proof fn lemma_digit_stable(p: int, y: int, e: nat, w: nat, j: nat)
    requires
        w * (j + 1) <= e,
        0 <= p < p2(e),
        w > 0,
    ensures
        digit(p + y * p2(e), w, j) == digit(p, w, j),
{
    let s = w * j;
    assert(w * (j + 1) == w * j + w) by (nonlinear_arith);
    let k = (e - s - w) as nat;
    lemma_p2_facts(w, k);
    lemma_absorb(p, y, s, e);
    let t = y * p2(k);
    assert(p2((e - s) as nat) == p2(w) * p2(k));
    assert(y * p2((e - s) as nat) == p2(w) * t) by (nonlinear_arith)
        requires p2((e - s) as nat) == p2(w) * p2(k), t == y * p2(k);
    lemma_mod_multiples_vanish(t, p / p2(s), p2(w));
}

/// Shifting down twice.
proof fn lemma_div_twice(x: int, a: nat, b: nat)
    requires
        x >= 0,
    ensures
        x / p2(a) / p2(b) == x / p2(a + b),
{
    lemma_p2_facts(a, b);
    lemma_p2_facts(b, a);
    lemma_div_denominator(x, p2(a), p2(b));
}

/// A little-endian number of `n` bytes is below `2^(8n)`.
proof fn lemma_le_value_bound(d: Seq<u8>)
    ensures
        0 <= le_value(d) < p2(8 * d.len()),
    decreases d.len(),
{
    if d.len() == 0 {
        lemma_p2_facts(0, 0);
    } else {
        let n = d.len();
        lemma_le_value_bound(d.drop_last());
        let p = p2(8 * (n - 1) as nat);
        lemma_p2_facts(8 * (n - 1) as nat, 8);
        assert(8 * (n - 1) as nat + 8 == 8 * n);
        assert(0 <= le_value(d) < p2(8 * n)) by (nonlinear_arith)
            requires le_value(d) == le_value(d.drop_last()) + (d.last() as int) * p,
                0 <= le_value(d.drop_last()) < p, 0 <= d.last() < 256, p2(8 * n) == p * 256;
    }
}

/// A number of `n` words of `w` bits, each below `2^w`, is below `2^(wn)`.
proof fn lemma_words_value_bound(s: Seq<u16>, w: nat)
    requires
        forall|k: int| 0 <= k < s.len() ==> (#[trigger] s[k] as int) < p2(w),
    ensures
        0 <= words_value(s, w) < p2(w * s.len()),
    decreases s.len(),
{
    if s.len() == 0 {
        lemma_p2_facts(0, 0);
        assert(w * 0 == 0);
    } else {
        let n = s.len();
        lemma_words_value_bound(s.drop_last(), w);
        let p = p2(w * (n - 1) as nat);
        lemma_p2_facts(w * (n - 1) as nat, w);
        assert(w * (n - 1) as nat + w == w * n) by (nonlinear_arith)
            requires n >= 1;
        assert(s.last() < p2(w));
        assert(0 <= words_value(s, w) < p2(w * n)) by (nonlinear_arith)
            requires words_value(s, w) == words_value(s.drop_last(), w) + (s.last() as int) * p,
                0 <= words_value(s.drop_last(), w) < p, 0 <= s.last(), s.last() + 1 <= p2(w),
                p2(w * n) == p * p2(w), p > 0;
    }
}

/// Digit `j` of a number below `2^(w j)` is zero.
proof fn lemma_digit_zero(x: int, w: nat, j: nat)
    requires
        0 <= x < p2(w * j),
    ensures
        digit(x, w, j) == 0,
{
    lemma_p2_facts(w * j, 0);
    lemma_p2_facts(w, 0);
    lemma_basic_div(x, p2(w * j));
    assert(x / p2(w * j) == 0);
    assert(0int % p2(w) == 0);
}

/// Reading `m` digits of `x` back as a number gives `x` below `2^(wm)`.
proof fn lemma_digits_value(x: int, w: nat, m: nat)
    requires
        0 <= x < p2(w * m),
        w > 0,
        w < 16,
    ensures
        words_value(Seq::new(m, |j: int| digit(x, w, j as nat) as u16), w) == x,
    decreases m,
{
    let s = Seq::new(m, |j: int| digit(x, w, j as nat) as u16);
    if m == 0 {
        lemma_p2_facts(0, 0);
        assert(w * 0 == 0);
    } else {
        let k = (m - 1) as nat;
        let lo = x % p2(w * k);
        let hi = x / p2(w * k);
        lemma_p2_facts(w * k, w);
        lemma_fundamental_div_mod(x, p2(w * k));
        assert(w * k + w == w * m) by (nonlinear_arith)
            requires k + 1 == m;
        assert(0 <= hi < p2(w)) by (nonlinear_arith)
            requires x < p2(w * k) * p2(w), x == p2(w * k) * hi + lo, 0 <= lo < p2(w * k), p2(w * k) > 0, x >= 0;
        lemma_small_mod(hi as nat, p2(w) as nat);
        assert(digit(x, w, k) == hi);
        vstd::bits::lemma_u16_pow2_no_overflow(w);
        lemma_digits_value(lo, w, k);
        let t = Seq::new(k, |j: int| digit(lo, w, j as nat) as u16);
        assert forall|j: int| 0 <= j < k implies #[trigger] s[j] == t[j] by {
            let jj = j as nat;
            assert(w * (jj + 1) <= w * k) by (nonlinear_arith)
                requires jj + 1 <= k, w > 0;
            lemma_digit_stable(lo, hi, w * k, w, jj);
            assert(lo + hi * p2(w * k) == x) by (nonlinear_arith)
                requires x == p2(w * k) * hi + lo;
        }
        assert(s.drop_last() =~= t);
        assert(s.last() as int == hi);
    }
}

/// Reading the digits of a little-endian number in base 256 gives its bytes.
proof fn lemma_le_digits(d: Seq<u8>, j: nat)
    requires
        j < d.len(),
    ensures
        digit(le_value(d), 8, j) == d[j as int],
    decreases d.len(),
{
    let n = d.len();
    let dl = d.drop_last();
    lemma_le_value_bound(dl);
    lemma_p2_facts(8 * j, 0);
    if j + 1 < n {
        lemma_le_digits(dl, j);
        assert(8 * (j + 1) <= 8 * (n - 1));
        lemma_digit_stable(le_value(dl), d.last() as int, 8 * (n - 1) as nat, 8, j);
        assert(dl[j as int] == d[j as int]);
    } else {
        assert(8 * j == 8 * (n - 1) as nat);
        lemma_absorb(le_value(dl), d.last() as int, 8 * j, 8 * j);
        lemma_basic_div(le_value(dl), p2(8 * j));
        assert(le_value(d) / p2(8 * j) == d.last());
        lemma_small_mod(d.last() as nat, 256);
    }
}

proof fn lemma_p2_mono(a: nat, c: nat)
    requires
        a <= c,
    ensures
        p2(a) <= p2(c),
        p2(15) == 32768,
{
    if a < c {
        lemma_pow2_strictly_increases(a, c);
    }
    vstd::arithmetic::power2::lemma2_to64();
}

/// A number below `2^(a + c)` shifted down by `a` bits is below `2^c`.
proof fn lemma_div_bound(x: int, a: nat, c: nat)
    requires
        0 <= x < p2(a + c),
    ensures
        0 <= x / p2(a) < p2(c),
{
    lemma_p2_facts(a, c);
    lemma_fundamental_div_mod(x, p2(a));
    assert(0 <= x / p2(a) < p2(c)) by (nonlinear_arith)
        requires x == p2(a) * (x / p2(a)) + x % p2(a), 0 <= x % p2(a) < p2(a), x < p2(a) * p2(c), x >= 0,
            p2(a) > 0;
}

/// `a | (b << c)` adds when the low `c` bits of `a` are all it has.
proof fn lemma_or_shifted(a: u64, b: u64, c: u64)
    by (bit_vector)
    requires
        c < 64,
        a < (1u64 << c),
    ensures
        a | (b << c) == a + (b << c),
{
}

proof fn lemma_shift_one(c: u64)
    requires
        c < 64,
    ensures
        (1u64 << c) == p2(c as nat),
{
    lemma_u64_pow2_no_overflow(c as nat);
    lemma_u64_shl_is_mul(1, c);
}

/// The number of words left over after `8n = w k + c` bits, `c < w`.
proof fn lemma_word_count(n: nat, w: nat, k: nat, c: nat)
    requires
        w > 0,
        8 * n == w * k + c,
        c < w,
    ensures
        word_count(n, w) == if c > 0 { k + 1 } else { k },
{
    let extra: int = if c > 0 { 1 } else { 0 };
    let r: int = if c > 0 { c - 1 } else { w - 1 };
    assert(8 * n + w - 1 == (k + extra) * w + r) by (nonlinear_arith)
        requires 8 * n == w * k + c, extra == (if c > 0 { 1int } else { 0 }), r == (if c > 0 { c - 1 } else { w - 1 });
    lemma_fundamental_div_mod_converse_div((8 * n + w - 1) as int, w as int, k + extra, r);
}

/// The number of whole bytes in `w m = 8k + c` bits, `c < 8`.
proof fn lemma_byte_count(m: nat, w: nat, k: nat, c: nat)
    requires
        w * m == 8 * k + c,
        c < 8,
    ensures
        byte_count(m, w) == k,
{
    lemma_fundamental_div_mod_converse_div((w * m) as int, 8, k as int, c as int);
}

/// Packs bytes into `bits`-bit word indices: the bytes are read as one
/// little-endian number whose base-`2^bits` digits are the indices, least
/// significant first, the last one padded with zero bits.
pub fn pack_bits(data: &[u8], bits: u8) -> (r: Vec<u16>)
    requires
        1 <= bits <= 15,
    ensures
        r@ == spec_pack(data@, bits as nat),
{
    let ghost b = bits as nat;
    proof {
        lemma_u16_pow2_no_overflow(b);
        lemma_u16_shl_is_mul(1, bits as u16);
        lemma_u64_pow2_no_overflow(b);
    }
    let top: u16 = 1u16 << (bits as u16);
    let mask: u16 = top - 1;
    assert(mask == low_bits_mask(b));
    let mut indices: Vec<u16> = Vec::new();
    let mut bit_buffer: u64 = 0;
    let mut bit_count: u8 = 0;
    let mut i: usize = 0;
    proof {
        lemma_p2_facts(0, 0);
        assert(data@.subrange(0, 0) =~= Seq::<u8>::empty());
        assert(b * 0 == 0);
        assert(indices@ =~= Seq::new(0, |j: int| digit(0, b, j as nat) as u16));
    }
    while i < data.len()
        invariant
            b == bits as nat,
            1 <= b <= 15,
            mask == low_bits_mask(b),
            0 <= i <= data@.len(),
            bit_count < bits,
            8 * i == b * indices@.len() + bit_count,
            bit_buffer as int == le_value(data@.subrange(0, i as int)) / p2(b * indices@.len()),
            indices@ == Seq::new(
                indices@.len(),
                |j: int| digit(le_value(data@.subrange(0, i as int)), b, j as nat) as u16,
            ),
        decreases data@.len() - i,
    {
        let ghost p = le_value(data@.subrange(0, i as int));
        let ghost k = indices@.len();
        let ghost old_indices = indices@;
        let y = data[i];
        proof {
            lemma_le_value_bound(data@.subrange(0, i as int));
            let pre = data@.subrange(0, i + 1);
            assert(pre.drop_last() =~= data@.subrange(0, i as int));
            assert(le_value(pre) == p + (y as int) * p2(8 * i as nat));
            lemma_absorb(p, y as int, b * k, 8 * i as nat);
            assert(8 * i - b * k == bit_count);
            lemma_div_bound(p, b * k, bit_count as nat);
            lemma_shift_one(bit_count as u64);
            lemma_u64_pow2_no_overflow(bit_count as nat);
            lemma_p2_facts(bit_count as nat, 8);
            lemma_p2_mono(bit_count as nat, 15);
            assert((y as u64) * p2(bit_count as nat) <= u64::MAX) by (nonlinear_arith)
                requires y < 256, p2(bit_count as nat) <= 32768;
            lemma_u64_shl_is_mul(y as u64, bit_count as u64);
            lemma_or_shifted(bit_buffer, y as u64, bit_count as u64);
            assert forall|j: int| 0 <= j < k implies #[trigger] old_indices[j] == digit(le_value(pre), b, j as nat) as u16 by {
                let jj = j as nat;
                assert(b * (jj + 1) <= b * k) by (nonlinear_arith)
                    requires jj + 1 <= k, b > 0;
                lemma_digit_stable(p, y as int, 8 * i as nat, b, jj);
            }
        }
        bit_buffer = bit_buffer | ((y as u64) << (bit_count as u64));
        bit_count = bit_count + 8;
        i = i + 1;
        proof {
            assert(bit_buffer as int == le_value(data@.subrange(0, i as int)) / p2(b * indices@.len()));
            assert(indices@ =~= Seq::new(
                indices@.len(),
                |j: int| digit(le_value(data@.subrange(0, i as int)), b, j as nat) as u16,
            ));
        }
        while bit_count >= bits
            invariant
                b == bits as nat,
                1 <= b <= 15,
                mask == low_bits_mask(b),
                0 < i <= data@.len(),
                bit_count < bits + 8,
                8 * i == b * indices@.len() + bit_count,
                bit_buffer as int == le_value(data@.subrange(0, i as int)) / p2(b * indices@.len()),
                indices@ == Seq::new(
                    indices@.len(),
                    |j: int| digit(le_value(data@.subrange(0, i as int)), b, j as nat) as u16,
                ),
            decreases bit_count,
        {
            let ghost q = le_value(data@.subrange(0, i as int));
            let ghost kk = indices@.len();
            proof {
                lemma_u64_low_bits_mask_is_mod(bit_buffer, b);
                lemma_u64_shr_is_div(bit_buffer, bits as u64);
                lemma_le_value_bound(data@.subrange(0, i as int));
                lemma_p2_facts(b * kk, b);
                lemma_div_twice(q, b * kk, b);
                assert(b * kk + b == b * (kk + 1)) by (nonlinear_arith);
                assert(digit(q, b, kk) == (q / p2(b * kk)) % p2(b));
            }
            let word = (bit_buffer & (mask as u64)) as u16;
            indices.push(word);
            bit_buffer = bit_buffer >> (bits as u64);
            bit_count = bit_count - bits;
            proof {
                assert(indices@ =~= Seq::new(
                    indices@.len(),
                    |j: int| digit(q, b, j as nat) as u16,
                ));
            }
        }
    }
    let ghost n = le_value(data@);
    proof {
        assert(data@.subrange(0, data@.len() as int) =~= data@);
        lemma_word_count(data@.len(), b, indices@.len(), bit_count as nat);
    }
    if bit_count > 0 {
        proof {
            lemma_u64_low_bits_mask_is_mod(bit_buffer, b);
            assert(digit(n, b, indices@.len()) == (n / p2(b * indices@.len())) % p2(b));
        }
        let word = (bit_buffer & (mask as u64)) as u16;
        indices.push(word);
    }
    proof {
        assert(indices@ =~= spec_pack(data@, b));
    }
    indices
}

/// Unpacks `bits`-bit word indices into bytes: the indices are read as one
/// number in base `2^bits` whose base-256 digits are the bytes; the bits
/// left over after the last whole byte make one more byte unless they are
/// all zero (then they are only padding). An index not below `size` is an
/// error.
pub fn unpack_bits(indices: &[u16], bits: u8, size: u16) -> (r: Result<Vec<u8>, TransportError>)
    requires
        1 <= bits <= 15,
        size <= p2(bits as nat),
    ensures
        tview(r) == spec_unpack(indices@, bits as nat, size as nat),
{
    let ghost b = bits as nat;
    let ghost s = indices@;
    let mut bytes: Vec<u8> = Vec::new();
    let mut bit_buffer: u64 = 0;
    let mut bit_count: u8 = 0;
    let mut i: usize = 0;
    proof {
        lemma_p2_facts(0, 0);
        assert(s.subrange(0, 0) =~= Seq::<u16>::empty());
        assert(bytes@ =~= Seq::new(0, |j: int| digit(0, 8, j as nat) as u8));
        lemma_u64_pow2_no_overflow(b);
    }
    while i < indices.len()
        invariant
            b == bits as nat,
            s == indices@,
            1 <= b <= 15,
            size <= p2(b),
            0 <= i <= s.len(),
            bit_count < 8,
            b * i == 8 * bytes@.len() + bit_count,
            forall|k: int| 0 <= k < i ==> #[trigger] s[k] < size,
            first_invalid(s, size as nat, 0) == first_invalid(s, size as nat, i as int),
            bit_buffer as int == words_value(s.subrange(0, i as int), b) / p2(8 * bytes@.len()),
            bytes@ == Seq::new(
                bytes@.len(),
                |j: int| digit(words_value(s.subrange(0, i as int), b), 8, j as nat) as u8,
            ),
        decreases s.len() - i,
    {
        let idx = indices[i];
        if idx >= size {
            return Err(TransportError::InvalidIndex(idx));
        }
        let ghost p = words_value(s.subrange(0, i as int), b);
        let ghost k = bytes@.len();
        let ghost old_bytes = bytes@;
        proof {
            let pre = s.subrange(0, i as int);
            assert forall|kk: int| 0 <= kk < pre.len() implies (#[trigger] pre[kk] as int) < p2(b) by {
                assert(pre[kk] == s[kk]);
            }
            lemma_words_value_bound(pre, b);
            let pre1 = s.subrange(0, i + 1);
            assert(pre1.drop_last() =~= pre);
            assert(words_value(pre1, b) == p + (idx as int) * p2(b * i as nat));
            lemma_absorb(p, idx as int, 8 * k, b * i as nat);
            assert(b * i - 8 * k == bit_count);
            lemma_div_bound(p, 8 * k, bit_count as nat);
            lemma_shift_one(bit_count as u64);
            lemma_p2_facts(bit_count as nat, 15);
            lemma_p2_facts(7, 8);
            lemma_p2_mono(bit_count as nat, 8);
            lemma_p2_mono(b, 15);
            lemma_p2_facts(15, 0);
            vstd::arithmetic::power2::lemma2_to64();
            assert((idx as u64) * p2(bit_count as nat) <= u64::MAX) by (nonlinear_arith)
                requires idx < 32768, p2(bit_count as nat) <= 256;
            lemma_u64_shl_is_mul(idx as u64, bit_count as u64);
            lemma_or_shifted(bit_buffer, idx as u64, bit_count as u64);
            assert forall|j: int| 0 <= j < k implies #[trigger] old_bytes[j] == digit(words_value(pre1, b), 8, j as nat) as u8 by {
                let jj = j as nat;
                assert(8 * (jj + 1) <= 8 * k);
                lemma_digit_stable(p, idx as int, b * i as nat, 8, jj);
            }
            assert(first_invalid(s, size as nat, i as int) == first_invalid(s, size as nat, i + 1));
        }
        bit_buffer = bit_buffer | ((idx as u64) << (bit_count as u64));
        bit_count = bit_count + bits;
        i = i + 1;
        proof {
            assert(b * i == b * (i - 1) + b) by (nonlinear_arith);
            assert(bytes@ =~= Seq::new(
                bytes@.len(),
                |j: int| digit(words_value(s.subrange(0, i as int), b), 8, j as nat) as u8,
            ));
        }
        while bit_count >= 8
            invariant
                b == bits as nat,
                s == indices@,
                1 <= b <= 15,
                0 < i <= s.len(),
                bit_count < bits + 8,
                b * i == 8 * bytes@.len() + bit_count,
                forall|k: int| 0 <= k < i ==> #[trigger] s[k] < size,
                size <= p2(b),
                bit_buffer as int == words_value(s.subrange(0, i as int), b) / p2(8 * bytes@.len()),
                bytes@ == Seq::new(
                    bytes@.len(),
                    |j: int| digit(words_value(s.subrange(0, i as int), b), 8, j as nat) as u8,
                ),
            decreases bit_count,
        {
            let ghost q = words_value(s.subrange(0, i as int), b);
            let ghost kk = bytes@.len();
            proof {
                assert(bit_buffer & 0xff == bit_buffer % 256) by (bit_vector);
                lemma_u64_shr_is_div(bit_buffer, 8);
                let pre = s.subrange(0, i as int);
                assert forall|m: int| 0 <= m < pre.len() implies (#[trigger] pre[m] as int) < p2(b) by {
                    assert(pre[m] == s[m]);
                }
                lemma_words_value_bound(pre, b);
                lemma_p2_facts(8 * kk, 8);
                lemma_div_twice(q, 8 * kk, 8);
                assert(8 * kk + 8 == 8 * (kk + 1));
                assert(digit(q, 8, kk) == (q / p2(8 * kk)) % p2(8));
            }
            let byte = (bit_buffer & 0xff) as u8;
            bytes.push(byte);
            bit_buffer = bit_buffer >> 8u64;
            bit_count = bit_count - 8;
            proof {
                assert(bytes@ =~= Seq::new(
                    bytes@.len(),
                    |j: int| digit(q, 8, j as nat) as u8,
                ));
            }
        }
    }
    let ghost n = words_value(s, b);
    proof {
        assert(s.subrange(0, s.len() as int) =~= s);
        lemma_byte_count(s.len(), b, bytes@.len(), bit_count as nat);
        assert(first_invalid(s, size as nat, s.len() as int) is None);
    }
    proof {
        assert(bit_buffer & 0xff == bit_buffer % 256) by (bit_vector);
        lemma_p2_facts(8, 0);
        assert(digit(n, 8, bytes@.len()) == (n / p2(8 * bytes@.len())) % p2(8));
    }
    let last = (bit_buffer & 0xff) as u8;
    if last != 0 {
        bytes.push(last);
    }
    proof {
        assert(bytes@ =~= Seq::new(unpacked_len(s, b), |j: int| digit(n, 8, j as nat) as u8));
    }
    Ok(bytes)
}

/// Every packed index is below `2^w`.
pub proof fn lemma_pack_below(data: Seq<u8>, w: nat, k: int)
    requires
        1 <= w <= 15,
        0 <= k < spec_pack(data, w).len(),
    ensures
        spec_pack(data, w)[k] < p2(w),
{
    lemma_p2_facts(w, 0);
    vstd::bits::lemma_u16_pow2_no_overflow(w);
    lemma_le_value_bound(data);
    lemma_fundamental_div_mod(le_value(data) / p2(w * k as nat), p2(w));
}

proof fn lemma_all_valid(s: Seq<u16>, size: nat, i: int)
    requires
        0 <= i <= s.len(),
        forall|k: int| 0 <= k < s.len() ==> #[trigger] s[k] < size,
    ensures
        first_invalid(s, size, i) is None,
    decreases s.len() - i,
{
    if i < s.len() {
        lemma_all_valid(s, size, i + 1);
    }
}

/// Unpacking the indices that packing yields gives the bytes back, followed
/// by at most one zero byte of padding.
pub proof fn lemma_pack_then_unpack(data: Seq<u8>, w: nat)
    requires
        1 <= w <= 15,
    ensures
        spec_unpack(spec_pack(data, w), w, p2(w) as nat) matches Ok(u) && u.len() >= data.len() && u.len()
            <= data.len() + 1 && u.subrange(0, data.len() as int) == data && forall|j: int|
            data.len() <= j < u.len() ==> #[trigger] u[j] == 0,
{
    let n = data.len();
    let s = spec_pack(data, w);
    let m = word_count(n, w);
    let x = le_value(data);
    lemma_le_value_bound(data);
    lemma_p2_facts(w, 0);
    vstd::bits::lemma_u16_pow2_no_overflow(w);
    assert(8 * n <= w * m) by (nonlinear_arith)
        requires m == (8 * n + w - 1) / (w as int), w >= 1;
    assert(w * m < 8 * n + w) by (nonlinear_arith)
        requires m == (8 * n + w - 1) / (w as int), w >= 1;
    lemma_p2_mono(8 * n, w * m);
    assert forall|k: int| 0 <= k < s.len() implies #[trigger] s[k] < p2(w) as nat by {
        lemma_fundamental_div_mod(x / p2(w * k as nat), p2(w));
    }
    lemma_all_valid(s, p2(w) as nat, 0);
    lemma_digits_value(x, w, m);
    assert(words_value(s, w) == x);
    let nb = byte_count(m, w);
    assert(nb >= n) by (nonlinear_arith)
        requires nb == (w * m) / 8, 8 * n <= w * m;
    lemma_p2_mono(8 * n, 8 * nb);
    lemma_digit_zero(x, 8, nb);
    assert(unpacked_len(s, w) == nb);
    let u = Seq::new(nb, |j: int| digit(words_value(s, w), 8, j as nat) as u8);
    assert(spec_unpack(s, w, p2(w) as nat) == Ok::<Seq<u8>, TransportErrorView>(u));
    assert(nb <= n + 1) by (nonlinear_arith)
        requires nb == (w * m) / 8, w * m < 8 * n + w, w <= 15;
    assert forall|j: int| 0 <= j < n implies #[trigger] u.subrange(0, n as int)[j] == data[j] by {
        lemma_le_digits(data, j as nat);
    }
    assert(u.subrange(0, n as int) =~= data);
    assert forall|j: int| n <= j < u.len() implies #[trigger] u[j] == 0 by {
        lemma_p2_mono(8 * n, 8 * j as nat);
        lemma_digit_zero(x, 8, j as nat);
    }
}

} // verus!
