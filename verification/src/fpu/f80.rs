use vstd::prelude::*;

verus! {

pub const FPU_80_BITS_MAX: u128 = 0xffff_ffff_ffff_ffff_ffff;
pub const REAL_INDEFINITE: u128 = 0xffff_c000_0000_0000_0000;
pub const QNAN: u128 = 0x7fff_c000_0000_0000_0000;
pub const F80_PI: u128 = 0x4000_c90f_daa2_2168_c234;
pub const SIGN_MASK: u128 = 0x8000_0000_0000_0000_0000;
pub const EXP_MASK: u128 = 0x7fff;
pub const EXP_MASK2: u128 = 0x7fff_0000_0000_0000_0000;
pub const MANTISSA_MASK: u128 = 0xffff_ffff_ffff_ffff;
pub const MANTISSA_MASK_NOINT: u128 = 0x7fff_ffff_ffff_ffff;
pub const INT_BIT_MASK: u128 = 0x8000_0000_0000_0000;
pub const INT_BIT_MASK64: u64 = 0x8000_0000_0000_0000;
pub const BCD_SIGN_POSITIVE: u8 = 0x0a;
pub const BCD_SIGN_NEGATIVE: u8 = 0x0b;
pub const F64_EXP_BIAS: i32 = 1023;
pub const F80_EXP_BIAS: i32 = 16383;
pub const MANTISSA_BITS: u32 = 64;
pub const SIGN_SHIFT: u32 = 79;
pub const EXP_SHIFT: u32 = 64;
pub const INT_BIT_SHIFT: u32 = 63;

// ---------------------------------------------------------------------------
// The fields of the 80 bit extended precision format: bit 79 the sign, bits
// 64 to 78 the biased exponent, bit 63 the explicit integer bit, bits 0 to 62
// the fraction.
// ---------------------------------------------------------------------------

/// The sign bit (bit 79).
pub open spec fn sign_field(st: u128) -> bool {
    (st >> 79u32) & 1 != 0
}

/// The biased exponent (bits 64 to 78).
pub open spec fn exp_field(st: u128) -> u16 {
    ((st >> 64u32) & 0x7fff) as u16
}

/// The explicit integer bit (bit 63).
pub open spec fn int_bit_field(st: u128) -> u64 {
    ((st >> 63u32) & 1) as u64
}

/// The fraction (bits 0 to 62).
pub open spec fn fraction_field(st: u128) -> u64 {
    (st & 0x7fff_ffff_ffff_ffff) as u64
}

/// The significand: integer bit and fraction (bits 0 to 63).
pub open spec fn mantissa_field(st: u128) -> u64 {
    (st & 0xffff_ffff_ffff_ffff) as u64
}

proof fn lemma_mantissa_parts(st: u128)
    by (bit_vector)
    ensures
        (((st >> 63u32) & 1) as u64) << 63u64 | ((st & 0x7fff_ffff_ffff_ffff) as u64) == (st
            & 0xffff_ffff_ffff_ffff) as u64,
        (st & 0x8000_0000_0000_0000) & 1 == 0,
{
}


/// 256 to the power `j`.
pub open spec fn pow256(j: nat) -> nat
    decreases j,
{
    if j == 0 {
        1
    } else {
        256 * pow256((j - 1) as nat)
    }
}

/// Byte `j` of the little endian representation of `v`.
pub open spec fn byte_of(v: nat, j: nat) -> u8 {
    ((v / pow256(j)) % 256) as u8
}

/// The number that a little endian byte sequence represents.
pub open spec fn le_value(s: Seq<u8>) -> nat
    decreases s.len(),
{
    if s.len() == 0 {
        0
    } else {
        s[0] as nat + 256 * le_value(s.drop_first())
    }
}

proof fn lemma_pow256_positive(j: nat)
    ensures
        pow256(j) > 0,
    decreases j,
{
    if j > 0 {
        lemma_pow256_positive((j - 1) as nat);
    }
}

proof fn lemma_byte_of_next(v: nat, j: nat)
    ensures
        byte_of(v, j + 1) == byte_of(v / 256, j),
        v / pow256(j + 1) == (v / pow256(j)) / 256,
{
    lemma_pow256_positive(j);
    vstd::arithmetic::div_mod::lemma_div_denominator(v as int, 256, pow256(j) as int);
    vstd::arithmetic::div_mod::lemma_div_denominator(v as int, pow256(j) as int, 256);
    assert(pow256(j + 1) == 256 * pow256(j));
}

/// Byte `j + 1` of `v` is byte `j` of `v / 256`, and the quotients agree.
pub proof fn lemma_byte_of_next_pub(v: nat, j: nat)
    ensures
        byte_of(v, j + 1) == byte_of(v / 256, j),
        v / pow256(j + 1) == (v / pow256(j)) / 256,
{
    lemma_byte_of_next(v, j);
}

proof fn lemma_le_value_bound(s: Seq<u8>)
    ensures
        le_value(s) < pow256(s.len()),
    decreases s.len(),
{
    if s.len() > 0 {
        lemma_le_value_bound(s.drop_first());
        assert(pow256(s.len()) == 256 * pow256((s.len() - 1) as nat));
    }
}

/// Reading back the bytes of a number gives the number modulo 256 to the
/// power of the byte count.
pub proof fn lemma_le_value_of_bytes(v: nat, n: nat)
    ensures
        le_value(Seq::new(n, |j: int| byte_of(v, j as nat))) == v % pow256(n),
    decreases n,
{
    let s = Seq::new(n, |j: int| byte_of(v, j as nat));
    if n == 0 {
    } else {
        let t = Seq::new((n - 1) as nat, |j: int| byte_of(v / 256, j as nat));
        assert forall|j: int| 0 <= j < n - 1 implies s.drop_first()[j] == t[j] by {
            lemma_byte_of_next(v, j as nat);
        }
        assert(s.drop_first() =~= t);
        lemma_le_value_of_bytes(v / 256, (n - 1) as nat);
        lemma_pow256_positive((n - 1) as nat);
        vstd::arithmetic::div_mod::lemma_mod_breakdown(v as int, 256, pow256((n - 1) as nat) as int);
        assert(pow256(0) == 1);
        assert(byte_of(v, 0) == (v % 256) as u8);
    }
}

/// The bytes of the number that a byte sequence represents are that sequence.
pub proof fn lemma_bytes_of_le_value(s: Seq<u8>, j: nat)
    requires
        j < s.len(),
    ensures
        byte_of(le_value(s), j) == s[j as int],
    decreases j,
{
    let v = le_value(s);
    let rest = le_value(s.drop_first());
    assert(v == s[0] as nat + 256 * rest);
    vstd::arithmetic::div_mod::lemma_fundamental_div_mod_converse(v as int, 256, rest as int, s[0] as int);
    if j == 0 {
        assert(pow256(0) == 1);
        assert(v / 1 == v);
        assert(byte_of(v, 0) == (v % 256) as u8);
    } else {
        let k = (j - 1) as nat;
        lemma_byte_of_next(v, k);
        assert(k + 1 == j);
        assert(v / 256 == rest);
        lemma_bytes_of_le_value(s.drop_first(), k);
        assert(byte_of(rest, k) == s.drop_first()[k as int]);
    }
}


/// The significand shifted left until its top bit is set; zero stays zero.
pub open spec fn top_aligned(man: u64) -> u64
    decreases 0x1_0000_0000_0000_0000 - man,
{
    if man == 0 || man >= 0x8000_0000_0000_0000 {
        man
    } else {
        top_aligned((man * 2) as u64)
    }
}

/// How many left shifts take the significand to its top bit.
pub open spec fn top_shifts(man: u64) -> nat
    decreases 0x1_0000_0000_0000_0000 - man,
{
    if man == 0 || man >= 0x8000_0000_0000_0000 {
        0
    } else {
        1 + top_shifts((man * 2) as u64)
    }
}

proof fn lemma_top_aligned(man: u64)
    ensures
        man != 0 ==> top_aligned(man) >= 0x8000_0000_0000_0000,
        man == 0 ==> top_aligned(man) == 0 && top_shifts(man) == 0,
    decreases 0x1_0000_0000_0000_0000 - man,
{
    if man != 0 && man < 0x8000_0000_0000_0000 {
        lemma_top_aligned((man * 2) as u64);
    }
}

/// The value with the given sign, exponent and significand written over
/// the fields of `st`, in that order.
pub open spec fn with_fields(st: u128, sign: bool, exp: u16, man: u64) -> u128 {
    let s1 = (st & !SIGN_MASK) | (if sign { SIGN_MASK } else { 0 });
    let s2 = (s1 & !EXP_MASK2) | ((exp as u128) << 64u32);
    (s2 & !MANTISSA_MASK) | (man as u128)
}

/// The significands of two values brought to the larger exponent, by
/// shifting the other one right, with that exponent.
pub open spec fn aligned_parts(a: u128, b: u128) -> (u128, u128, u16) {
    let ae = exp_field(a);
    let be = exp_field(b);
    let am = mantissa_field(a) as u128;
    let bm = mantissa_field(b) as u128;
    if ae > be {
        (am, bm >> (ae - be) as u32, ae)
    } else if be > ae {
        (am >> (be - ae) as u32, bm, be)
    } else {
        (am, bm, ae)
    }
}

/// The exponents are less than 128 apart.
pub open spec fn exps_close(a: u128, b: u128) -> bool {
    -128 < exp_field(a) - exp_field(b) < 128
}

/// Magnitude addition (equal signs) or subtraction (different signs) of two
/// values with `b` taken with the sign `sb`, truncating: the significand of
/// a sum that carries out is shifted right with the exponent raised by one,
/// a difference is shifted left to its top bit with the exponent lowered by
/// as much, and a zero difference gives positive zero.
pub open spec fn signed_sum(a: u128, b: u128, sb: bool) -> u128 {
    let (am, bm, e) = aligned_parts(a, b);
    let sa = sign_field(a);
    if sa == sb {
        let s = am + bm;
        if s >= 0x1_0000_0000_0000_0000 {
            with_fields(a, sa, (e + 1) as u16, (s / 2) as u64)
        } else {
            with_fields(a, sa, e, s as u64)
        }
    } else {
        let d = if am >= bm { am - bm } else { bm - am };
        let sign = if am >= bm { sa } else { sb };
        if d == 0 {
            with_fields(a, false, 0, 0)
        } else {
            with_fields(a, sign, (e - top_shifts(d as u64)) as u16, top_aligned(d as u64))
        }
    }
}

/// The exponent of the aligned values is large enough for their difference
/// to be shifted to its top bit.
pub open spec fn diff_normalizable(a: u128, b: u128) -> bool {
    let (am, bm, e) = aligned_parts(a, b);
    let d = if am >= bm { am - bm } else { bm - am };
    d == 0 || e >= top_shifts(d as u64)
}


/// The position of the highest set bit of a positive number.
pub open spec fn msb_index(v: nat) -> nat
    decreases v,
{
    if v <= 1 {
        0
    } else {
        1 + msb_index(v / 2)
    }
}

/// The integer part of the value, for a finite value of at least one:
/// the significand scaled by 2 to the power of the unbiased exponent minus
/// 63, truncated (bits shifted out of the 128 are lost); zero for zero,
/// denormal, infinite and not-a-number values and for values below one.
pub open spec fn integer_value(st: u128) -> u128 {
    let exp = exp_field(st);
    let m = mantissa_field(st) as u128;
    if exp == 0 || exp == 0x7fff || exp < 16383 {
        0
    } else if exp - 16383 > 63 {
        m << (exp - 16383 - 63) as u32
    } else {
        m >> (63 - (exp - 16383)) as u32
    }
}

/// `to_integer_u128` shifts by less than 128.
pub open spec fn integer_value_defined(st: u128) -> bool {
    let exp = exp_field(st);
    exp == 0 || exp == 0x7fff || exp < 16383 || exp - 16383 - 63 < 128
}

/// The significand that an integer is encoded with: the integer shifted so
/// that its highest set bit lands on bit 63.
pub open spec fn encoded_significand(value: nat) -> nat {
    let msb = msb_index(value);
    if msb > 63 {
        value / vstd::arithmetic::power2::pow2((msb - 63) as nat)
    } else {
        value * vstd::arithmetic::power2::pow2((63 - msb) as nat)
    }
}

/// The 80 bit encoding of an integer: zero with the sign alone, otherwise
/// the exponent 16383 plus the position of the highest set bit and the
/// low 64 bits of the encoded significand.
pub open spec fn encoded_integer(value: u128, is_negative: bool) -> u128 {
    let sign: nat = if is_negative { 0x8000_0000_0000_0000_0000 } else { 0 };
    if value == 0 {
        sign as u128
    } else {
        (sign + (16383 + msb_index(value as nat)) * 0x1_0000_0000_0000_0000 + encoded_significand(
            value as nat,
        ) % 0x1_0000_0000_0000_0000) as u128
    }
}

/// 10 to the power `k`.
pub open spec fn pow10(k: nat) -> nat
    decreases k,
{
    if k == 0 {
        1
    } else {
        10 * pow10((k - 1) as nat)
    }
}

/// Decimal digit `k` of `v`.
pub open spec fn digit(v: nat, k: nat) -> nat {
    (v / pow10(k)) % 10
}

/// The value of packed decimal bytes: each byte holds two digits, the high
/// nibble the tens, and the bytes run from least to most significant.
pub open spec fn bcd_digits_value(s: Seq<u8>) -> nat
    decreases s.len(),
{
    if s.len() == 0 {
        0
    } else {
        ((s[0] / 16) * 10 + s[0] % 16) as nat + 100 * bcd_digits_value(s.drop_first())
    }
}

/// Packed decimal bytes: nine bytes of two decimal digits, then a sign byte
/// whose low nibble is 0xA (positive) or 0xB (negative).
pub open spec fn valid_bcd(bcd: Seq<u8>) -> bool {
    &&& bcd.len() == 10
    &&& forall|i: int| 0 <= i < 9 ==> #[trigger] (bcd[i] / 16) <= 9 && bcd[i] % 16 <= 9
    &&& (bcd[9] % 16 == BCD_SIGN_POSITIVE || bcd[9] % 16 == BCD_SIGN_NEGATIVE)
}

/// The 80 bit value of a double given by its bits: zeros and denormals
/// become signed zeros, infinities and not-a-numbers keep their fraction in
/// the top of the significand (not-a-numbers made quiet), normal numbers
/// are rebiased with the integer bit made explicit.
pub open spec fn f64_bits_to_f80(bits: u64) -> u128 {
    let sign = ((bits >> 63u64) & 1) as u128;
    let exp = ((bits >> 52u64) & 0x7ff) as u16;
    let mantissa = bits & 0xf_ffff_ffff_ffff;
    let st = if exp == 0 {
        sign << 79u32
    } else if exp == 0x7ff {
        (sign << 79u32) | (0x7fffu128 << 64u32) | ((mantissa as u128) << 11u32) | (if mantissa != 0 {
            0x4000_0000_0000_0000u128
        } else {
            0
        })
    } else {
        (sign << 79u32) | (((exp - 1023 + 16383) as u128) << 64u32) | ((((1u64 << 52u64) | mantissa)
            as u128) << 11u32)
    };
    st & FPU_80_BITS_MAX
}

/// The bits of the double nearest below a value: zeros and denormals
/// become signed zeros, infinities and not-a-numbers keep the top of the
/// significand (not-a-numbers made quiet), exponents out of the double's
/// range give zero or infinity, the significand is truncated.
pub open spec fn f80_to_f64_bits(st: u128) -> u64 {
    let value = st & FPU_80_BITS_MAX;
    let sign = ((value >> 79u32) & 1) as u64;
    let exp = ((value >> 64u32) & 0x7fff) as u16;
    let mantissa = value & 0xffff_ffff_ffff_ffff;
    if exp == 0 {
        sign << 63u64
    } else if exp == 0x7fff {
        let m = (mantissa >> 11u32) as u64;
        (sign << 63u64) | (0x7ffu64 << 52u64) | m | (if m != 0 { 0x8_0000_0000_0000u64 } else { 0 })
    } else {
        let f64_exp = exp - 16383 + 1023;
        if f64_exp <= 0 {
            sign << 63u64
        } else if f64_exp >= 0x7ff {
            (sign << 63u64) | (0x7ffu64 << 52u64)
        } else {
            (sign << 63u64) | ((f64_exp as u64) << 52u64) | (((mantissa >> 11u32)
                & 0xf_ffff_ffff_ffff) as u64)
        }
    }
}

/// An 80 bit x87 register value, held in the low 80 bits of `st`.
#[derive(Copy, Clone, Debug)]
pub struct F80 {
    pub st: u128,
}

impl F80 {
    pub fn new() -> (r: Self)
        ensures
            r.st == 0,
    {
        F80 { st: 0 }
    }

    /// The constant pi.
    #[allow(non_snake_case)]
    pub fn PI() -> (r: Self)
        ensures
            r.st == F80_PI,
    {
        F80 { st: F80_PI }
    }

    /// The default quiet not-a-number.
    #[allow(non_snake_case)]
    pub fn QNaN() -> (r: Self)
        ensures
            r.st == QNAN,
    {
        F80 { st: QNAN }
    }

    #[allow(non_snake_case)]
    pub fn set_PI(&mut self)
        ensures
            final(self).st == F80_PI,
    {
        self.st = F80_PI;
    }

    #[allow(non_snake_case)]
    pub fn set_QNaN(&mut self)
        ensures
            final(self).st == QNAN,
    {
        self.st = QNAN;
    }

    /// The value that invalid operations produce.
    pub fn set_real_indefinite(&mut self)
        ensures
            final(self).st == REAL_INDEFINITE,
    {
        self.st = REAL_INDEFINITE;
    }

    /// All exponent bits set and a nonzero fraction.
    pub fn is_invalid(&self) -> (r: bool)
        ensures
            r == (exp_field(self.st) == 0x7fff && fraction_field(self.st) != 0),
    {
        let exp = self.get_exponent();
        let frac = self.get_fraction();
        exp == 0x7fff && frac != 0
    }

    /// Zero and invalid at once, which no value is.
    pub fn is_empty(&self) -> (r: bool)
        ensures
            r == ((exp_field(self.st) == 0 && mantissa_field(self.st) == 0) && (exp_field(self.st)
                == 0x7fff && fraction_field(self.st) != 0)),
            !r,
    {
        self.is_zero() && self.is_invalid()
    }

    /// The low 80 bits.
    pub fn get(&self) -> (r: u128)
        ensures
            r == self.st & FPU_80_BITS_MAX,
    {
        self.st & FPU_80_BITS_MAX
    }

    /// Stores the low 80 bits of `value`.
    pub fn set(&mut self, value: u128)
        ensures
            final(self).st == value & FPU_80_BITS_MAX,
    {
        self.st = value & FPU_80_BITS_MAX;
    }

    /// Clears the bits above the 80 of the format.
    pub fn fix(&mut self)
        ensures
            final(self).st == old(self).st & FPU_80_BITS_MAX,
    {
        self.st = self.st & FPU_80_BITS_MAX;
    }

    pub fn is_negative(&self) -> (r: bool)
        ensures
            r == sign_field(self.st),
    {
        proof {
            lemma_sign_bit(self.st);
        }
        self.st & SIGN_MASK != 0
    }

    pub fn get_sign(&self) -> (r: bool)
        ensures
            r == sign_field(self.st),
    {
        (self.st >> SIGN_SHIFT) & 1 != 0
    }

    /// Flips the sign bit.
    pub fn neg(&mut self)
        ensures
            final(self).st == old(self).st ^ SIGN_MASK,
    {
        self.st = self.st ^ SIGN_MASK;
    }

    /// Replaces the sign bit.
    pub fn set_sign(&mut self, sign: bool)
        ensures
            final(self).st == (old(self).st & !SIGN_MASK) | (if sign { SIGN_MASK } else { 0 }),
    {
        self.st = (self.st & !SIGN_MASK) | (if sign { SIGN_MASK } else { 0 });
    }

    /// Zero exponent and zero significand.
    pub fn is_zero(&self) -> (r: bool)
        ensures
            r == (exp_field(self.st) == 0 && mantissa_field(self.st) == 0),
    {
        proof {
            lemma_mantissa_cast(self.st);
        }
        let exponent = (self.st >> 64u32) & 0x7fff;
        let mantissa = self.st & 0xffff_ffff_ffff_ffff;
        exponent == 0 && mantissa == 0
    }

    pub fn get_integer_bit(&self) -> (r: u64)
        ensures
            r == int_bit_field(self.st),
            r <= 1,
    {
        proof {
            lemma_mantissa_cast(self.st);
        }
        ((self.st >> INT_BIT_SHIFT) & 1) as u64
    }

    pub fn get_fraction(&self) -> (r: u64)
        ensures
            r == fraction_field(self.st),
    {
        proof {
            lemma_mantissa_cast(self.st);
        }
        (self.st & 0x7fff_ffff_ffff_ffff) as u64
    }

    pub fn get_exponent(&self) -> (r: u16)
        ensures
            r == exp_field(self.st),
            r < 0x8000,
    {
        proof {
            lemma_mantissa_cast(self.st);
        }
        ((self.st >> EXP_SHIFT) & 0x7fff) as u16
    }

    /// Replaces bits 64 to 78 by the exponent; a sixteenth exponent bit is
    /// or-ed into the sign bit.
    pub fn set_exponent(&mut self, exponent: u16)
        ensures
            final(self).st == (old(self).st & !EXP_MASK2) | ((exponent as u128) << 64u32),
    {
        self.st = (self.st & !EXP_MASK2) | ((exponent as u128) << 64u32);
    }

    /// Integer bit and fraction: bits 0 to 63.
    pub fn get_mantissa(&self) -> (r: u64)
        ensures
            r == mantissa_field(self.st),
    {
        proof {
            lemma_mantissa_parts(self.st);
        }
        (self.get_integer_bit() << 63u64) | self.get_fraction()
    }

    /// Replaces bits 0 to 63 by the significand.
    pub fn set_mantissa(&mut self, mantissa: u64)
        ensures
            final(self).st == (old(self).st & !MANTISSA_MASK) | (mantissa as u128),
    {
        self.st = (self.st & !MANTISSA_MASK) | (mantissa as u128);
    }

    fn get_mantissa_with_integer_bit(&self) -> (r: u64)
        ensures
            r == mantissa_field(self.st),
    {
        proof {
            lemma_mantissa_cast(self.st);
        }
        (self.st & MANTISSA_MASK) as u64
    }

    /// A zero significand.
    pub fn is_integer(&self) -> (r: bool)
        ensures
            r == (mantissa_field(self.st) == 0),
    {
        self.get_mantissa() == 0
    }

    /// Exponent neither zero nor all ones.
    pub fn is_normal(&self) -> (r: bool)
        ensures
            r == (exp_field(self.st) != 0 && exp_field(self.st) != 0x7fff),
    {
        proof {
            lemma_mantissa_cast(self.st);
        }
        let exponent = (self.st >> 64u32) & 0x7fff;
        exponent != 0 && exponent != 0x7fff
    }

    /// Tests bit 0 of the integer bit mask applied to the value, which is
    /// never set.
    pub fn bit_integer(&self) -> (r: bool)
        ensures
            !r,
    {
        proof {
            lemma_mantissa_parts(self.st);
        }
        (self.st & INT_BIT_MASK) & 1 == 1
    }

    /// A zero exponent.
    pub fn is_denormal(&self) -> (r: bool)
        ensures
            r == (exp_field(self.st) == 0),
    {
        proof {
            lemma_mantissa_cast(self.st);
        }
        let exponent = (self.st >> 64u32) & 0x7fff;
        exponent == 0
    }

    /// All exponent bits set and a zero significand.
    pub fn is_infinite(&self) -> (r: bool)
        ensures
            r == (exp_field(self.st) == 0x7fff && mantissa_field(self.st) == 0),
    {
        proof {
            lemma_mantissa_cast(self.st);
        }
        let exponent = (self.st >> 64u32) & 0x7fff;
        let mantissa = self.st & 0xffff_ffff_ffff_ffff;
        exponent == 0x7fff && mantissa == 0
    }

    /// All exponent bits set and a nonzero significand.
    pub fn is_nan(&self) -> (r: bool)
        ensures
            r == (exp_field(self.st) == 0x7fff && mantissa_field(self.st) != 0),
    {
        proof {
            lemma_mantissa_cast(self.st);
        }
        let exponent = (self.st >> 64u32) & 0x7fff;
        let mantissa = self.st & MANTISSA_MASK;
        exponent == 0x7fff && mantissa != 0
    }
}

impl F80 {
    /// Sets the value from its 10 little endian bytes.
    pub fn set_bytes(&mut self, bytes: &[u8; 10])
        ensures
            final(self).st == le_value(bytes@),
    {
        let mut val: u128 = 0;
        let mut i: usize = 10;
        while i > 0
            invariant
                i <= 10,
                val == le_value(bytes@.subrange(i as int, 10)),
                val < pow256((10 - i) as nat),
            decreases i,
        {
            i = i - 1;
            proof {
                let s = bytes@.subrange(i as int, 10);
                assert(s.drop_first() =~= bytes@.subrange(i + 1, 10));
                assert(pow256((10 - i) as nat) == 256 * pow256((10 - (i + 1)) as nat));
                lemma_pow256_ten();
                assert(pow256((10 - i) as nat) <= pow256(10)) by {
                    lemma_pow256_monotone((10 - i) as nat, 10);
                }
            }
            val = val * 256 + bytes[i] as u128;
        }
        assert(bytes@.subrange(0, 10) =~= bytes@);
        self.st = val;
    }

    /// The 10 little endian bytes of the value.
    pub fn get_bytes(&self) -> (bytes: [u8; 10])
        ensures
            forall|j: int| 0 <= j < 10 ==> #[trigger] bytes[j] == byte_of(self.st as nat, j as nat),
    {
        let mut bytes = [0u8; 10];
        let mut v: u128 = self.st;
        let mut i: usize = 0;
        assert(pow256(0) == 1);
        while i < 10
            invariant
                i <= 10,
                v == self.st as nat / pow256(i as nat),
                forall|j: int| 0 <= j < i ==> #[trigger] bytes[j] == byte_of(self.st as nat, j as nat),
            decreases 10 - i,
        {
            proof {
                lemma_byte_of_next(self.st as nat, i as nat);
            }
            bytes[i] = (v % 256) as u8;
            v = v / 256;
            i = i + 1;
        }
        bytes
    }
}

proof fn lemma_pow256_ten()
    ensures
        pow256(10) == 0x1_0000_0000_0000_0000_0000,
{
    reveal_with_fuel(pow256, 11);
}

proof fn lemma_pow256_monotone(a: nat, b: nat)
    requires
        a <= b,
    ensures
        pow256(a) <= pow256(b),
    decreases b,
{
    if a < b {
        lemma_pow256_monotone(a, (b - 1) as nat);
        lemma_pow256_positive((b - 1) as nat);
    }
}

proof fn lemma_mask80(x: u128)
    by (bit_vector)
    ensures
        x & 0xffff_ffff_ffff_ffff_ffff == x % 0x1_0000_0000_0000_0000_0000,
{
}

/// Cutting to 80 bits twice is cutting once, and zero stays zero.
pub proof fn lemma_mask80_idempotent(x: u128)
    by (bit_vector)
    ensures
        (x & 0xffff_ffff_ffff_ffff_ffff) & 0xffff_ffff_ffff_ffff_ffff == x & 0xffff_ffff_ffff_ffff_ffff,
        0u128 & 0xffff_ffff_ffff_ffff_ffff == 0,
{
}

/// Setting the bytes that `get_bytes` returns keeps the 80 bit value.
pub proof fn lemma_set_bytes_of_get_bytes(x: F80, bytes: [u8; 10])
    requires
        forall|j: int| 0 <= j < 10 ==> #[trigger] bytes[j] == byte_of(x.st as nat, j as nat),
    ensures
        le_value(bytes@) == x.st & FPU_80_BITS_MAX,
{
    assert(bytes@ =~= Seq::new(10, |j: int| byte_of(x.st as nat, j as nat)));
    lemma_le_value_of_bytes(x.st as nat, 10);
    lemma_pow256_ten();
    lemma_mask80(x.st);
}

/// Getting the bytes after setting them gives back the same bytes.
pub proof fn lemma_get_bytes_of_set_bytes(bytes: [u8; 10], j: nat)
    requires
        j < 10,
    ensures
        byte_of(le_value(bytes@), j) == bytes[j as int],
{
    lemma_bytes_of_le_value(bytes@, j);
}

impl F80 {
    fn normalize_add(&self, mantissa: u64, exponent: u16) -> (r: (u64, u16))
        requires
            mantissa == 0 || exponent >= top_shifts(mantissa),
        ensures
            r == if mantissa == 0 {
                (0u64, 0u16)
            } else {
                (top_aligned(mantissa), (exponent - top_shifts(mantissa)) as u16)
            },
    {
        let mut man = mantissa;
        let mut exp = exponent;
        if man == 0 {
            return (0, 0);
        }
        while man < INT_BIT_MASK64
            invariant
                man != 0,
                top_aligned(man) == top_aligned(mantissa),
                exp - top_shifts(man) == exponent - top_shifts(mantissa),
                exp >= top_shifts(man),
            decreases 0x1_0000_0000_0000_0000 - man,
        {
            man = man * 2;
            exp = exp - 1;
        }
        (man, exp)
    }

    fn normalize_sub(&self, mant: u64, exp: u16) -> (r: (u64, u16))
        requires
            exp >= top_shifts(mant),
        ensures
            r == (top_aligned(mant), (exp - top_shifts(mant)) as u16),
    {
        let mut m = mant;
        let mut e = exp;
        while m != 0 && m < INT_BIT_MASK64
            invariant
                top_aligned(m) == top_aligned(mant),
                e - top_shifts(m) == exp - top_shifts(mant),
                e >= top_shifts(m),
            decreases 0x1_0000_0000_0000_0000 - m,
        {
            m = m * 2;
            e = e - 1;
        }
        (m, e)
    }

    /// Adds `b`: the significands are aligned to the larger exponent, then
    /// added when the signs agree and subtracted otherwise.
    pub fn add(&mut self, b: F80)
        requires
            exps_close(old(self).st, b.st),
            sign_field(old(self).st) != sign_field(b.st) ==> diff_normalizable(old(self).st, b.st),
        ensures
            final(self).st == signed_sum(old(self).st, b.st, sign_field(b.st)),
    {
        let a_sign = self.get_sign();
        let b_sign = b.get_sign();
        let mut a_exp = self.get_exponent();
        let b_exp = b.get_exponent();
        let mut a_man = self.get_mantissa() as u128;
        let mut b_man = b.get_mantissa() as u128;
        if a_exp > b_exp {
            let shift = (a_exp - b_exp) as u32;
            proof {
                lemma_shr_le(b_man, shift);
            }
            b_man = b_man >> shift;
        } else if b_exp > a_exp {
            let shift = (b_exp - a_exp) as u32;
            proof {
                lemma_shr_le(a_man, shift);
            }
            a_man = a_man >> shift;
            a_exp = b_exp;
        }
        let mut result_sign;
        let mut result_exp = a_exp;
        let mut result_man: u128;
        if a_sign == b_sign {
            result_man = a_man + b_man;
            if result_man >= 0x1_0000_0000_0000_0000 {
                result_man = result_man / 2;
                result_exp = result_exp + 1;
            }
            result_sign = a_sign;
        } else {
            if a_man >= b_man {
                result_man = a_man - b_man;
                result_sign = a_sign;
            } else {
                result_man = b_man - a_man;
                result_sign = b_sign;
            }
            proof {
                lemma_top_aligned(result_man as u64);
            }
            let (norm_man, norm_exp) = self.normalize_add(result_man as u64, result_exp);
            result_man = norm_man as u128;
            result_exp = norm_exp;
            if result_man == 0 {
                result_sign = false;
                result_exp = 0;
            }
        }
        self.set_sign(result_sign);
        self.set_exponent(result_exp);
        self.set_mantissa(result_man as u64);
    }

    /// Subtracts `b`: the significands are aligned to the larger exponent,
    /// then subtracted when the signs agree and added otherwise.
    pub fn sub(&mut self, b: F80)
        requires
            exps_close(old(self).st, b.st),
            sign_field(old(self).st) == sign_field(b.st) ==> diff_normalizable(old(self).st, b.st),
        ensures
            final(self).st == signed_sum(old(self).st, b.st, !sign_field(b.st)),
    {
        let a_sign = self.get_sign();
        let b_sign = b.get_sign();
        let mut a_exp = self.get_exponent();
        let b_exp = b.get_exponent();
        let mut a_man = self.get_mantissa() as u128;
        let mut b_man = b.get_mantissa() as u128;
        if a_exp > b_exp {
            let shift = (a_exp - b_exp) as u32;
            proof {
                lemma_shr_le(b_man, shift);
            }
            b_man = b_man >> shift;
        } else if b_exp > a_exp {
            let shift = (b_exp - a_exp) as u32;
            proof {
                lemma_shr_le(a_man, shift);
            }
            a_man = a_man >> shift;
            a_exp = b_exp;
        }
        let mut result_sign;
        let mut result_exp = a_exp;
        let mut result_man: u128;
        if a_sign != b_sign {
            result_man = a_man + b_man;
            if result_man >= 0x1_0000_0000_0000_0000 {
                result_man = result_man / 2;
                result_exp = result_exp + 1;
            }
            result_sign = a_sign;
        } else {
            if a_man >= b_man {
                result_man = a_man - b_man;
                result_sign = a_sign;
            } else {
                result_man = b_man - a_man;
                result_sign = !a_sign;
            }
            proof {
                lemma_top_aligned(result_man as u64);
            }
            let (norm_man, norm_exp) = self.normalize_sub(result_man as u64, result_exp);
            result_man = norm_man as u128;
            result_exp = norm_exp;
            if result_man == 0 {
                result_sign = false;
                result_exp = 0;
            }
        }
        self.set_sign(result_sign);
        self.set_exponent(result_exp);
        self.set_mantissa(result_man as u64);
    }
}

proof fn lemma_shr_le(x: u128, s: u32)
    by (bit_vector)
    requires
        s < 128,
    ensures
        x >> s <= x,
{
}

/// Subtracting a value is adding it with its sign flipped.
pub proof fn lemma_sub_is_add_of_negation(a: u128, b: u128)
    ensures
        signed_sum(a, b, !sign_field(b)) == signed_sum(a, b ^ SIGN_MASK, sign_field(b ^ SIGN_MASK)),
{
    lemma_sign_flip_fields(b);
}

proof fn lemma_sign_flip_fields(b: u128)
    by (bit_vector)
    ensures
        ((b ^ 0x8000_0000_0000_0000_0000) >> 79u32) & 1 != 0 <==> !((b >> 79u32) & 1 != 0),
        ((b ^ 0x8000_0000_0000_0000_0000) >> 64u32) & 0x7fff == (b >> 64u32) & 0x7fff,
        (b ^ 0x8000_0000_0000_0000_0000) & 0xffff_ffff_ffff_ffff == b & 0xffff_ffff_ffff_ffff,
{
}

/// The position of the highest set bit of a positive number.
fn highest_bit(value: u128) -> (r: u32)
    requires
        value > 0,
    ensures
        r == msb_index(value as nat),
        r < 128,
{
    let mut x = value;
    let mut r: u32 = 0;
    proof {
        lemma_msb_bound(value as nat);
        lemma_pow2_128();
        if msb_index(value as nat) > 128 {
            vstd::arithmetic::power2::lemma_pow2_strictly_increases(128, msb_index(value as nat));
        }
    }
    while x > 1
        invariant
            x > 0,
            msb_index(x as nat) + r == msb_index(value as nat),
            r + msb_index(x as nat) < 128,
        decreases x,
    {
        x = x / 2;
        r = r + 1;
    }
    r
}

/// 2 to the power `k`.
fn pow2_u128(k: u32) -> (r: u128)
    requires
        k < 128,
    ensures
        r == vstd::arithmetic::power2::pow2(k as nat),
{
    let mut r: u128 = 1;
    let mut i: u32 = 0;
    proof {
        vstd::arithmetic::power2::lemma2_to64();
    }
    while i < k
        invariant
            i <= k < 128,
            r == vstd::arithmetic::power2::pow2(i as nat),
        decreases k - i,
    {
        proof {
            vstd::arithmetic::power2::lemma_pow2_unfold((i + 1) as nat);
            vstd::arithmetic::power2::lemma_pow2_strictly_increases((i + 1) as nat, 128);
            lemma_pow2_128();
        }
        r = r * 2;
        i = i + 1;
    }
    r
}

proof fn lemma_pow2_128()
    ensures
        vstd::arithmetic::power2::pow2(128) == 0x1_0000_0000_0000_0000_0000_0000_0000_0000,
{
    vstd::arithmetic::power2::lemma2_to64();
    vstd::arithmetic::power2::lemma2_to64_rest();
    vstd::arithmetic::power2::lemma_pow2_adds(64, 64);
}

impl F80 {
    /// The integer part of the value (see `integer_value`).
    pub fn to_integer_u128(&self) -> (r: u128)
        requires
            integer_value_defined(self.st),
        ensures
            r == integer_value(self.st),
    {
        let exp = self.get_exponent();
        if exp == 0 || exp == 0x7fff {
            return 0;
        }
        let bias: i32 = 16383;
        let actual_exp: i32 = exp as i32 - bias;
        if actual_exp < 0 {
            return 0;
        }
        let mantissa = self.get_mantissa_with_integer_bit() as u128;
        if actual_exp > 63 {
            mantissa << (actual_exp as u32 - 63)
        } else {
            mantissa >> (63 - actual_exp) as u32
        }
    }

    /// The 80 bit encoding of an integer with the given sign.
    pub fn encode_from_u128(value: u128, is_negative: bool) -> (r: u128)
        ensures
            r == encoded_integer(value, is_negative),
    {
        let sign_bit: u128 = if is_negative { 0x8000_0000_0000_0000_0000 } else { 0 };
        if value == 0 {
            return sign_bit;
        }
        let msb = highest_bit(value);
        let exponent: u128 = 16383 + msb as u128;
        let mantissa: u128 = if msb > 63 {
            let d = pow2_u128(msb - 63);
            proof {
                vstd::arithmetic::power2::lemma_pow2_pos((msb - 63) as nat);
            }
            value / d
        } else {
            let m = pow2_u128(63 - msb);
            proof {
                lemma_msb_bound(value as nat);
                vstd::arithmetic::power2::lemma_pow2_adds(msb as nat, (63 - msb) as nat);
                vstd::arithmetic::power2::lemma2_to64();
                vstd::arithmetic::power2::lemma_pow2_pos((63 - msb) as nat);
                assert(value * m < vstd::arithmetic::power2::pow2((msb + 1) as nat) * m) by (nonlinear_arith)
                    requires value < vstd::arithmetic::power2::pow2((msb + 1) as nat), m > 0;
                vstd::arithmetic::power2::lemma_pow2_adds((msb + 1) as nat, (63 - msb) as nat);
                vstd::arithmetic::power2::lemma2_to64_rest();
            }
            value * m
        };
        sign_bit + exponent * 0x1_0000_0000_0000_0000 + mantissa % 0x1_0000_0000_0000_0000
    }

    /// The integer part as packed decimal: nine bytes of two digits from
    /// the least significant, then the sign byte.
    pub fn to_bcd_packed(&self) -> (bcd: [u8; 10])
        requires
            integer_value_defined(self.st),
        ensures
            forall|i: int|
                0 <= i < 9 ==> #[trigger] bcd[i] == (digit(integer_value(self.st) as nat, (2 * i + 1) as nat) * 16
                    + digit(integer_value(self.st) as nat, (2 * i) as nat)),
            bcd[9] == if sign_field(self.st) { BCD_SIGN_NEGATIVE } else { BCD_SIGN_POSITIVE },
    {
        let v = self.to_integer_u128();
        let mut val = v;
        let mut bcd = [0u8; 10];
        let mut i: usize = 0;
        assert(pow10(0) == 1);
        assert(v as nat / 1 == v as nat);
        while i < 9
            invariant
                i <= 9,
                val == v as nat / pow10((2 * i) as nat),
                v == integer_value(self.st),
                forall|j: int|
                    0 <= j < i ==> #[trigger] bcd[j] == (digit(v as nat, (2 * j + 1) as nat) * 16 + digit(
                        v as nat,
                        (2 * j) as nat,
                    )),
            decreases 9 - i,
        {
            proof {
                lemma_pow10_next(v as nat, (2 * i) as nat);
                lemma_pow10_next(v as nat, (2 * i + 1) as nat);
            }
            let lo = (val % 10) as u8;
            val = val / 10;
            let hi = (val % 10) as u8;
            val = val / 10;
            bcd[i] = hi * 16 + lo;
            i = i + 1;
        }
        bcd[9] = if self.is_negative() { BCD_SIGN_NEGATIVE } else { BCD_SIGN_POSITIVE };
        bcd
    }

    /// Sets the value to the integer that packed decimal bytes hold.
    pub fn from_bcd_packed(&mut self, bcd: &[u8; 10])
        requires
            valid_bcd(bcd@),
        ensures
            final(self).st == encoded_integer(
                bcd_digits_value(bcd@.subrange(0, 9)) as u128,
                bcd[9] % 16 == BCD_SIGN_NEGATIVE,
            ),
    {
        let mut value: u128 = 0;
        let mut i: usize = 9;
        while i > 0
            invariant
                i <= 9,
                valid_bcd(bcd@),
                value == bcd_digits_value(bcd@.subrange(i as int, 9)),
                value < pow100((9 - i) as nat),
            decreases i,
        {
            i = i - 1;
            let byte = bcd[i];
            let hi = byte / 16;
            let lo = byte % 16;
            proof {
                assert(bcd@.subrange(i as int, 9).drop_first() =~= bcd@.subrange(i + 1, 9));
                assert(pow100((9 - i) as nat) == 100 * pow100((9 - (i + 1)) as nat));
                lemma_pow100_nine((9 - i) as nat);
            }
            value = value * 100 + (hi as u128) * 10 + (lo as u128);
        }
        let is_negative = bcd[9] % 16 == BCD_SIGN_NEGATIVE;
        self.st = F80::encode_from_u128(value, is_negative);
    }

    /// Sets the value from the bits of a double (see `f64_bits_to_f80`).
    pub fn set_f64_bits(&mut self, bits: u64)
        ensures
            final(self).st == f64_bits_to_f80(bits),
    {
        proof {
            lemma_f64_fields(bits);
        }
        let sign = ((bits >> 63u64) & 1) as u128;
        let exp = ((bits >> 52u64) & 0x7ff) as u16;
        let mantissa = bits & 0xf_ffff_ffff_ffff;
        let st = if exp == 0 {
            sign << 79u32
        } else if exp == 0x7ff {
            (sign << 79u32) | (0x7fffu128 << 64u32) | ((mantissa as u128) << 11u32) | (if mantissa
                != 0 {
                0x4000_0000_0000_0000u128
            } else {
                0
            })
        } else {
            (sign << 79u32) | (((exp as i32 - 1023 + 16383) as u128) << 64u32) | ((((1u64
                << 52u64) | mantissa) as u128) << 11u32)
        };
        self.set(st);
    }

    /// The bits of the double that the value reads as (see `f80_to_f64_bits`).
    pub fn get_f64_bits(&self) -> (r: u64)
        ensures
            r == f80_to_f64_bits(self.st),
    {
        let value = self.get();
        proof {
            lemma_f80_fields(value);
        }
        let sign = ((value >> 79u32) & 1) as u64;
        let exp = ((value >> 64u32) & 0x7fff) as u16;
        let mantissa = value & 0xffff_ffff_ffff_ffff;
        if exp == 0 {
            sign << 63u64
        } else if exp == 0x7fff {
            let m = (mantissa >> 11u32) as u64;
            (sign << 63u64) | (0x7ffu64 << 52u64) | m | (if m != 0 { 0x8_0000_0000_0000u64 } else { 0 })
        } else {
            let f64_exp: i32 = exp as i32 - 16383 + 1023;
            if f64_exp <= 0 {
                sign << 63u64
            } else if f64_exp >= 0x7ff {
                (sign << 63u64) | (0x7ffu64 << 52u64)
            } else {
                (sign << 63u64) | ((f64_exp as u64) << 52u64) | (((mantissa >> 11u32)
                    & 0xf_ffff_ffff_ffff) as u64)
            }
        }
    }
}

/// A double that is normal, zero or infinite comes back bit for bit from
/// the 80 bit value it is widened to (see `f64_bits_to_f80` and
/// `f80_to_f64_bits`).
pub proof fn lemma_f64_bits_roundtrip(bits: u64)
    requires
        ((bits >> 52u64) & 0x7ff) != 0 && ((bits >> 52u64) & 0x7ff) != 0x7ff || (bits & 0x7fff_ffff_ffff_ffff)
            == 0 || (bits & 0x7fff_ffff_ffff_ffff) == 0x7ff0_0000_0000_0000,
    ensures
        f80_to_f64_bits(f64_bits_to_f80(bits)) == bits,
{
    lemma_f64_fields(bits);
    let sign = ((bits >> 63u64) & 1) as u128;
    let exp = ((bits >> 52u64) & 0x7ff) as u16;
    let mantissa = bits & 0xf_ffff_ffff_ffff;
    let st = f64_bits_to_f80(bits);
    assert((bits >> 52u64) & 0x7ff == 0 ==> (bits & 0x7fff_ffff_ffff_ffff) != 0x7ff0_0000_0000_0000) by (bit_vector);
    assert((bits >> 52u64) & 0x7ff == 0x7ff ==> (bits & 0x7fff_ffff_ffff_ffff) != 0) by (bit_vector);
    if exp == 0 {
        assert(f80_to_f64_bits(st) == bits) by (bit_vector)
            requires
                (bits & 0x7fff_ffff_ffff_ffff) == 0,
                st == (((bits >> 63u64) & 1) as u128) << 79u32 & 0xffff_ffff_ffff_ffff_ffff,
                ;
    } else if exp == 0x7ff {
        assert(f80_to_f64_bits(st) == bits) by (bit_vector)
            requires
                (bits & 0x7fff_ffff_ffff_ffff) == 0x7ff0_0000_0000_0000,
                st == ((((bits >> 63u64) & 1) as u128) << 79u32 | (0x7fffu128 << 64u32) | (((bits
                    & 0xf_ffff_ffff_ffff) as u128) << 11u32) | (if bits & 0xf_ffff_ffff_ffff != 0 {
                    0x4000_0000_0000_0000u128
                } else {
                    0
                })) & 0xffff_ffff_ffff_ffff_ffff,
                ;
    } else {
        let e: u128 = (exp - 1023 + 16383) as u128;
        assert(st == ((sign << 79u32) | (e << 64u32) | ((((1u64 << 52u64) | mantissa) as u128) << 11u32))
            & FPU_80_BITS_MAX);
        assert(f80_to_f64_bits(st) == bits) by (bit_vector)
            requires
                1 <= (bits >> 52u64) & 0x7ff < 0x7ff,
                e == ((bits >> 52u64) & 0x7ff) + 15360,
                st == ((((bits >> 63u64) & 1) as u128) << 79u32 | (e << 64u32) | ((((1u64 << 52u64) | (bits
                    & 0xf_ffff_ffff_ffff)) as u128) << 11u32)) & 0xffff_ffff_ffff_ffff_ffff,
                ;
    }
}

/// The size that an encoding stands for, up to a constant factor: the
/// significand times two to the biased exponent.
pub open spec fn magnitude(st: u128) -> nat {
    mantissa_field(st) as nat * vstd::arithmetic::power2::pow2(exp_field(st) as nat)
}

/// Setting sign, exponent and significand gives back the sign and the
/// significand.
proof fn lemma_with_fields_parts(st: u128, s: bool, e: u16, m: u64)
    requires
        e < 0x8000,
    ensures
        sign_field(with_fields(st, s, e, m)) == s,
        mantissa_field(with_fields(st, s, e, m)) == m,
        exp_field(with_fields(st, s, e, m)) == e,
{
    lemma_sign_fields(st, s);
    let s1 = (st & !SIGN_MASK) | (if s { SIGN_MASK } else { 0 });
    lemma_set_exponent_fields(s1, e);
    let s2 = (s1 & !EXP_MASK2) | ((e as u128) << 64u32);
    lemma_set_mantissa_fields(s2, m);
}

/// `x` scaled up by `q` against `y`: the order carries over to `x` against
/// `y / q`.
proof fn lemma_scaled_against_quotient(x: nat, y: nat, q: nat)
    requires
        q > 0,
    ensures
        x * q >= y ==> y / q <= x,
        x * q < y ==> x <= y / q,
        x >= y * q ==> x / q >= y,
        x < y * q ==> x / q < y,
{
    vstd::arithmetic::div_mod::lemma_fundamental_div_mod(y as int, q as int);
    vstd::arithmetic::div_mod::lemma_fundamental_div_mod(x as int, q as int);
    let qy = y / q;
    let ry = y % q;
    let qx = x / q;
    let rx = x % q;
    assert(x * q >= y ==> qy <= x) by (nonlinear_arith)
        requires
            y == q * qy + ry,
            0 <= ry < q,
            q > 0,
            qy >= 0,
    ;
    assert(x * q < y ==> x <= qy) by (nonlinear_arith)
        requires
            y == q * qy + ry,
            0 <= ry < q,
            q > 0,
    ;
    assert(x >= y * q ==> qx >= y) by (nonlinear_arith)
        requires
            x == q * qx + rx,
            0 <= rx < q,
            q > 0,
    ;
    assert(x < y * q ==> qx < y) by (nonlinear_arith)
        requires
            x == q * qx + rx,
            0 <= rx < q,
            q > 0,
            qx >= 0,
    ;
}

/// Brought to the larger exponent, the significand of the value of larger
/// magnitude is at least the other's (or, for the smaller, at most).
proof fn lemma_aligned_order(a: u128, b: u128)
    requires
        exps_close(a, b),
    ensures
        magnitude(a) >= magnitude(b) ==> aligned_parts(a, b).0 >= aligned_parts(a, b).1,
        magnitude(a) < magnitude(b) ==> aligned_parts(a, b).0 <= aligned_parts(a, b).1,
{
    let ae = exp_field(a) as nat;
    let be = exp_field(b) as nat;
    let ma = mantissa_field(a) as nat;
    let mb = mantissa_field(b) as nat;
    if ae > be {
        let d = (ae - be) as nat;
        let q = vstd::arithmetic::power2::pow2(d);
        let p = vstd::arithmetic::power2::pow2(be);
        vstd::arithmetic::power2::lemma_pow2_pos(d);
        vstd::arithmetic::power2::lemma_pow2_pos(be);
        vstd::arithmetic::power2::lemma_pow2_adds(be, d);
        lemma_shr_amount_width(mb as u128, d as u32);
        vstd::bits::lemma_u128_shr_is_div(mb as u128, d as u128);
        assert(aligned_parts(a, b).1 == mb / q);
        assert(magnitude(a) == ma * (p * q));
        assert(magnitude(b) == mb * p);
        assert(ma * (p * q) >= mb * p ==> ma * q >= mb) by (nonlinear_arith)
            requires
                p > 0,
        ;
        assert(ma * (p * q) < mb * p ==> ma * q < mb) by (nonlinear_arith)
            requires
                p > 0,
        ;
        lemma_scaled_against_quotient(ma, mb, q);
    } else if be > ae {
        let d = (be - ae) as nat;
        let q = vstd::arithmetic::power2::pow2(d);
        let p = vstd::arithmetic::power2::pow2(ae);
        vstd::arithmetic::power2::lemma_pow2_pos(d);
        vstd::arithmetic::power2::lemma_pow2_pos(ae);
        vstd::arithmetic::power2::lemma_pow2_adds(ae, d);
        lemma_shr_amount_width(ma as u128, d as u32);
        vstd::bits::lemma_u128_shr_is_div(ma as u128, d as u128);
        assert(aligned_parts(a, b).0 == ma / q);
        assert(magnitude(b) == mb * (p * q));
        assert(magnitude(a) == ma * p);
        assert(ma * p >= mb * (p * q) ==> ma >= mb * q) by (nonlinear_arith)
            requires
                p > 0,
        ;
        assert(ma * p < mb * (p * q) ==> ma < mb * q) by (nonlinear_arith)
            requires
                p > 0,
        ;
        lemma_scaled_against_quotient(ma, mb, q);
    } else {
        let p = vstd::arithmetic::power2::pow2(ae);
        vstd::arithmetic::power2::lemma_pow2_pos(ae);
        assert(ma * p >= mb * p ==> ma >= mb) by (nonlinear_arith)
            requires
                p > 0,
        ;
        assert(ma * p < mb * p ==> ma <= mb) by (nonlinear_arith)
            requires
                p > 0,
        ;
    }
}

/// The sign of a sum of two finite values (`F80::add`, with `sb` the sign
/// of `b`; `F80::sub`, with `sb` the flipped sign of `b`): with equal signs
/// that sign; with different signs, unless the result is zero, the sign of
/// the operand of the larger magnitude (that of `a` when the magnitudes are
/// equal).
pub proof fn lemma_sum_sign(a: u128, b: u128, sb: bool)
    requires
        exps_close(a, b),
        exp_field(a) < 0x7fff,
        exp_field(b) < 0x7fff,
        sign_field(a) != sb ==> diff_normalizable(a, b),
    ensures
        sign_field(a) == sb ==> sign_field(signed_sum(a, b, sb)) == sb,
        sign_field(a) != sb && magnitude(a) >= magnitude(b) ==> mantissa_field(signed_sum(a, b, sb)) == 0
            || sign_field(signed_sum(a, b, sb)) == sign_field(a),
        sign_field(a) != sb && magnitude(a) < magnitude(b) ==> mantissa_field(signed_sum(a, b, sb)) == 0
            || sign_field(signed_sum(a, b, sb)) == sb,
{
    let (am, bm, e) = aligned_parts(a, b);
    lemma_aligned_order(a, b);
    assert(e < 0x7fff);
    if sign_field(a) == sb {
        let sm = am + bm;
        if sm >= 0x1_0000_0000_0000_0000 {
            lemma_with_fields_parts(a, sb, (e + 1) as u16, (sm / 2) as u64);
        } else {
            lemma_with_fields_parts(a, sb, e, sm as u64);
        }
    } else {
        let d = if am >= bm { am - bm } else { bm - am };
        let sign = if am >= bm { sign_field(a) } else { sb };
        if d == 0 {
            lemma_with_fields_parts(a, false, 0, 0);
        } else {
            lemma_with_fields_parts(a, sign, (e - top_shifts(d as u64)) as u16, top_aligned(d as u64));
        }
    }
}

/// The number that an encoding stands for, up to the same constant factor
/// as `magnitude`: the magnitude, negated when the sign is set.
pub open spec fn signed_magnitude(st: u128) -> int {
    if sign_field(st) {
        -(magnitude(st) as int)
    } else {
        magnitude(st) as int
    }
}

/// The significand shifted to its top bit is the significand times two to
/// the number of shifts.
proof fn lemma_top_aligned_value(d: u64)
    ensures
        top_aligned(d) as nat == d as nat * vstd::arithmetic::power2::pow2(top_shifts(d)),
    decreases 0x1_0000_0000_0000_0000 - d,
{
    vstd::arithmetic::power2::lemma2_to64();
    if d != 0 && d < 0x8000_0000_0000_0000 {
        let d2 = (d * 2) as u64;
        assert(d2 == d * 2);
        lemma_top_aligned_value(d2);
        let t = top_shifts(d2);
        assert(top_shifts(d) == t + 1);
        assert(top_aligned(d) == top_aligned(d2));
        vstd::arithmetic::power2::lemma_pow2_unfold(t + 1);
        let q = vstd::arithmetic::power2::pow2(t);
        assert(vstd::arithmetic::power2::pow2(t + 1) == 2 * q);
        assert(d2 as nat * q == d as nat * (2 * q)) by (nonlinear_arith)
            requires
                d2 == d * 2,
        ;
        let pd = vstd::arithmetic::power2::pow2(top_shifts(d));
        assert(pd == 2 * q);
        assert(d as nat * pd == d as nat * (2 * q)) by (nonlinear_arith)
            requires
                pd == 2 * q,
        ;
    } else {
        let pd = vstd::arithmetic::power2::pow2(top_shifts(d));
        assert(pd == 1);
        assert(d as nat * pd == d as nat) by (nonlinear_arith)
            requires
                pd == 1,
        ;
    }
}

/// The sum of two finite values of the same exponent (`F80::add`, with `sb`
/// the sign of `b`; `F80::sub`, with `sb` the flipped sign of `b`) is the
/// exact signed sum of the two, `b` taken with the sign `sb`, except where
/// two magnitudes of the same sign carry out of the significand: then the
/// sum keeps that sign and its magnitude is the true one truncated, less
/// than one unit of the raised exponent below it.
pub proof fn lemma_sum_value_same_exponent(a: u128, b: u128, sb: bool)
    requires
        exp_field(a) == exp_field(b),
        exp_field(a) < 0x7fff,
        sign_field(a) != sb ==> diff_normalizable(a, b),
    ensures
        ({
            let r = signed_sum(a, b, sb);
            let vb = if sb {
                -(magnitude(b) as int)
            } else {
                magnitude(b) as int
            };
            &&& (sign_field(a) != sb || mantissa_field(a) + mantissa_field(b) < 0x1_0000_0000_0000_0000)
                ==> signed_magnitude(r) == signed_magnitude(a) + vb
            &&& (sign_field(a) == sb && mantissa_field(a) + mantissa_field(b) >= 0x1_0000_0000_0000_0000)
                ==> sign_field(r) == sb && magnitude(r) <= magnitude(a) + magnitude(b) < magnitude(r)
                + vstd::arithmetic::power2::pow2(exp_field(a) as nat + 1)
        }),
{
    let e = exp_field(a);
    let ma = mantissa_field(a) as nat;
    let mb = mantissa_field(b) as nat;
    let p = vstd::arithmetic::power2::pow2(e as nat);
    let sa = sign_field(a);
    vstd::arithmetic::power2::lemma_pow2_pos(e as nat);
    assert(aligned_parts(a, b) == (ma as u128, mb as u128, e));
    assert(magnitude(a) == ma * p);
    assert(magnitude(b) == mb * p);
    let r = signed_sum(a, b, sb);
    if sa == sb {
        let s = ma + mb;
        assert(s * p == ma * p + mb * p) by (nonlinear_arith)
            requires
                s == ma + mb,
        ;
        if s >= 0x1_0000_0000_0000_0000 {
            lemma_with_fields_parts(a, sb, (e + 1) as u16, (s / 2) as u64);
            vstd::arithmetic::power2::lemma_pow2_unfold(e as nat + 1);
            assert(magnitude(r) == (s / 2) * (2 * p));
            assert((s / 2) * (2 * p) <= s * p < (s / 2) * (2 * p) + 2 * p) by (nonlinear_arith)
                requires
                    p > 0,
            ;
        } else {
            lemma_with_fields_parts(a, sb, e, s as u64);
            assert(magnitude(r) == s * p);
        }
    } else {
        let d: nat = if ma >= mb { (ma - mb) as nat } else { (mb - ma) as nat };
        assert(d * p == if ma >= mb { ma * p - mb * p } else { mb * p - ma * p }) by (nonlinear_arith)
            requires
                d == if ma >= mb { ma - mb } else { mb - ma },
        ;
        if d == 0 {
            lemma_with_fields_parts(a, false, 0, 0);
            assert(magnitude(r) == 0);
        } else {
            let sign = if ma >= mb { sa } else { sb };
            let t = top_shifts(d as u64);
            lemma_with_fields_parts(a, sign, (e - t) as u16, top_aligned(d as u64));
            lemma_top_aligned_value(d as u64);
            let q = vstd::arithmetic::power2::pow2(t);
            let pr = vstd::arithmetic::power2::pow2((e - t) as nat);
            vstd::arithmetic::power2::lemma_pow2_adds((e - t) as nat, t);
            assert(magnitude(r) == (d * q) * pr);
            assert((d * q) * pr == d * (pr * q)) by (nonlinear_arith);
            assert(magnitude(r) == d * p);
        }
    }
}

proof fn lemma_f64_fields(bits: u64)
    by (bit_vector)
    ensures
        ((bits >> 52u64) & 0x7ff) < 0x800,
        ((bits >> 63u64) & 1) <= 1,
{
}

proof fn lemma_f80_fields(value: u128)
    by (bit_vector)
    ensures
        ((value >> 64u32) & 0x7fff) < 0x8000,
        ((value >> 79u32) & 1) <= 1,
        ((value & 0xffff_ffff_ffff_ffff) >> 11u32) < 0x1_0000_0000_0000_0000,
        (((value & 0xffff_ffff_ffff_ffff) >> 11u32) & 0xf_ffff_ffff_ffff) < 0x1_0000_0000_0000_0000,
{
}

proof fn lemma_msb_bound(v: nat)
    requires
        v > 0,
    ensures
        vstd::arithmetic::power2::pow2(msb_index(v)) <= v < vstd::arithmetic::power2::pow2(msb_index(v) + 1),
    decreases v,
{
    vstd::arithmetic::power2::lemma_pow2_unfold(msb_index(v) + 1);
    if v > 1 {
        lemma_msb_bound(v / 2);
        vstd::arithmetic::power2::lemma_pow2_unfold(msb_index(v));
    } else {
        vstd::arithmetic::power2::lemma2_to64();
    }
}

proof fn lemma_pow10_next(v: nat, k: nat)
    ensures
        v / pow10(k + 1) == (v / pow10(k)) / 10,
        pow10(k) > 0,
{
    lemma_pow10_positive(k);
    vstd::arithmetic::div_mod::lemma_div_denominator(v as int, pow10(k) as int, 10);
    assert(pow10(k + 1) == 10 * pow10(k));
}

proof fn lemma_pow10_positive(k: nat)
    ensures
        pow10(k) > 0,
    decreases k,
{
    if k > 0 {
        lemma_pow10_positive((k - 1) as nat);
    }
}

/// 100 to the power `k`.
pub open spec fn pow100(k: nat) -> nat
    decreases k,
{
    if k == 0 {
        1
    } else {
        100 * pow100((k - 1) as nat)
    }
}

proof fn lemma_pow100_nine(k: nat)
    requires
        k <= 9,
    ensures
        pow100(k) <= 1_000_000_000_000_000_000,
    decreases 9 - k,
{
    if k < 9 {
        lemma_pow100_nine(k + 1);
        assert(pow100(k + 1) == 100 * pow100(k));
    } else {
        reveal_with_fuel(pow100, 10);
    }
}

/// Setting the exponent to a 15 bit value makes it the exponent and keeps
/// the sign and the significand.
pub proof fn lemma_set_exponent_fields(st: u128, e: u16)
    by (bit_vector)
    requires
        e < 0x8000,
    ensures
        exp_field((st & !EXP_MASK2) | ((e as u128) << 64u32)) == e,
        sign_field((st & !EXP_MASK2) | ((e as u128) << 64u32)) == sign_field(st),
        mantissa_field((st & !EXP_MASK2) | ((e as u128) << 64u32)) == mantissa_field(st),
{
}

/// Setting the significand makes it the significand and keeps the sign and
/// the exponent.
pub proof fn lemma_set_mantissa_fields(st: u128, m: u64)
    by (bit_vector)
    ensures
        mantissa_field((st & !MANTISSA_MASK) | (m as u128)) == m,
        sign_field((st & !MANTISSA_MASK) | (m as u128)) == sign_field(st),
        exp_field((st & !MANTISSA_MASK) | (m as u128)) == exp_field(st),
{
}

/// Setting the sign makes it the sign and keeps the exponent and the
/// significand; negating twice gives back the value.
pub proof fn lemma_sign_fields(st: u128, s: bool)
    by (bit_vector)
    ensures
        sign_field((st & !SIGN_MASK) | (if s { SIGN_MASK } else { 0 })) == s,
        exp_field((st & !SIGN_MASK) | (if s { SIGN_MASK } else { 0 })) == exp_field(st),
        mantissa_field((st & !SIGN_MASK) | (if s { SIGN_MASK } else { 0 })) == mantissa_field(st),
        sign_field(st ^ SIGN_MASK) == !sign_field(st),
        exp_field(st ^ SIGN_MASK) == exp_field(st),
        mantissa_field(st ^ SIGN_MASK) == mantissa_field(st),
        (st ^ SIGN_MASK) ^ SIGN_MASK == st,
{
}

proof fn lemma_assemble(s: u128, e: u128, m: u128)
    by (bit_vector)
    requires
        s == 0 || s == 0x8000_0000_0000_0000_0000,
        e < 0x8000,
        m < 0x1_0000_0000_0000_0000,
    ensures
        (((((s + e * 0x1_0000_0000_0000_0000 + m) as u128) >> 64u32) & 0x7fff) as u16) == e as u16,
        ((((s + e * 0x1_0000_0000_0000_0000 + m) as u128) & 0xffff_ffff_ffff_ffff) as u64) == m as u64,
        ((((s + e * 0x1_0000_0000_0000_0000 + m) as u128) >> 79u32) & 1 != 0) == (s != 0),
        ((((s >> 64u32) & 0x7fff) as u16) == 0),
        ((s >> 79u32) & 1 != 0) == (s != 0),
{
}

proof fn lemma_shr_amount_width(x: u128, s: u32)
    by (bit_vector)
    requires
        s < 128,
    ensures
        x >> s == x >> (s as u128),
{
}

/// An integer below 2 to the 64 comes back from its encoding, with its sign.
pub proof fn lemma_integer_of_encoding(v: u128, is_negative: bool)
    requires
        v < 0x1_0000_0000_0000_0000,
    ensures
        integer_value_defined(encoded_integer(v, is_negative)),
        integer_value(encoded_integer(v, is_negative)) == v,
        sign_field(encoded_integer(v, is_negative)) == is_negative,
{
    let s: u128 = if is_negative { 0x8000_0000_0000_0000_0000 } else { 0 };
    let st = encoded_integer(v, is_negative);
    if v == 0 {
        lemma_assemble(s, 0, 0);
    } else {
        let msb = msb_index(v as nat);
        lemma_msb_bound(v as nat);
        vstd::arithmetic::power2::lemma2_to64();
        if msb >= 64 {
            if msb > 64 {
                vstd::arithmetic::power2::lemma_pow2_strictly_increases(64, msb);
            }
            assert(false);
        }
        let k = (63 - msb) as nat;
        let p = vstd::arithmetic::power2::pow2(k);
        vstd::arithmetic::power2::lemma_pow2_pos(k);
        vstd::arithmetic::power2::lemma_pow2_adds((msb + 1) as nat, k);
        vstd::arithmetic::power2::lemma2_to64_rest();
        assert(v * p < vstd::arithmetic::power2::pow2((msb + 1) as nat) * p) by (nonlinear_arith)
            requires
                v < vstd::arithmetic::power2::pow2((msb + 1) as nat),
                p > 0,
        ;
        let sig = v * p;
        assert(encoded_significand(v as nat) == sig);
        assert(sig % 0x1_0000_0000_0000_0000 == sig);
        lemma_assemble(s, (16383 + msb) as u128, sig as u128);
        assert(st == s + (16383 + msb) * 0x1_0000_0000_0000_0000 + sig);
        assert(exp_field(st) == 16383 + msb);
        assert(mantissa_field(st) == sig);
        let sh = (63 - msb) as u32;
        lemma_shr_amount_width(sig as u128, sh);
        vstd::bits::lemma_u128_shr_is_div(sig as u128, sh as u128);
        vstd::arithmetic::div_mod::lemma_div_multiples_vanish(v as int, p as int);
        assert(p * v == v * p) by (nonlinear_arith);
    }
}

/// The packed decimal byte of digits `2 i + 1` and `2 i` of `v`.
pub open spec fn bcd_pair(v: nat, i: nat) -> u8 {
    (digit(v, 2 * i + 1) * 16 + digit(v, 2 * i)) as u8
}

proof fn lemma_digit_shift(v: nat, k: nat)
    ensures
        digit(v, k + 2) == digit(v / 100, k),
{
    lemma_pow10_positive(k);
    vstd::arithmetic::div_mod::lemma_div_denominator(v as int, 100, pow10(k) as int);
    assert(pow10(k + 2) == 100 * pow10(k)) by {
        assert(pow10(k + 2) == 10 * pow10(k + 1));
        assert(pow10(k + 1) == 10 * pow10(k));
    }
}

proof fn lemma_bcd_digits_of_pairs(v: nat, n: nat)
    ensures
        bcd_digits_value(Seq::new(n, |i: int| bcd_pair(v, i as nat))) == v % pow100(n),
    decreases n,
{
    let s = Seq::new(n, |i: int| bcd_pair(v, i as nat));
    if n > 0 {
        let t = Seq::new((n - 1) as nat, |i: int| bcd_pair(v / 100, i as nat));
        assert forall|i: int| 0 <= i < n - 1 implies s.drop_first()[i] == t[i] by {
            lemma_digit_shift(v, (2 * i) as nat);
            lemma_digit_shift(v, (2 * i + 1) as nat);
            assert((2 * (i + 1)) as nat == (2 * i) as nat + 2);
            assert((2 * (i + 1) + 1) as nat == (2 * i + 1) as nat + 2);
        }
        assert(s.drop_first() =~= t);
        lemma_bcd_digits_of_pairs(v / 100, (n - 1) as nat);
        let d1 = digit(v, 1);
        let d0 = digit(v, 0);
        assert(pow10(0) == 1);
        assert(pow10(1) == 10);
        assert(v / 1 == v);
        assert(d0 == v % 10);
        assert(d1 == (v / 10) % 10);
        assert((d1 * 16 + d0) / 16 == d1 && (d1 * 16 + d0) % 16 == d0);
        vstd::arithmetic::div_mod::lemma_mod_breakdown(v as int, 10, 10);
        vstd::arithmetic::div_mod::lemma_div_denominator(v as int, 10, 10);
        lemma_pow100_positive((n - 1) as nat);
        vstd::arithmetic::div_mod::lemma_mod_breakdown(v as int, 100, pow100((n - 1) as nat) as int);
    }
}

proof fn lemma_pow100_positive(k: nat)
    ensures
        pow100(k) > 0,
    decreases k,
{
    if k > 0 {
        lemma_pow100_positive((k - 1) as nat);
    }
}

/// Packing the integer part of a value as decimal and reading it back gives
/// a value whose integer part is defined, with the same integer part and
/// sign, for integer parts below 10 to the 18: packing it again gives the
/// same digits.
pub proof fn lemma_bcd_roundtrip(x: F80, bcd: [u8; 10])
    requires
        integer_value_defined(x.st),
        integer_value(x.st) < 1_000_000_000_000_000_000,
        forall|i: int|
            0 <= i < 9 ==> #[trigger] bcd[i] == (digit(integer_value(x.st) as nat, (2 * i + 1) as nat) * 16
                + digit(integer_value(x.st) as nat, (2 * i) as nat)),
        bcd[9] == if sign_field(x.st) { BCD_SIGN_NEGATIVE } else { BCD_SIGN_POSITIVE },
    ensures
        valid_bcd(bcd@),
        integer_value_defined(
            encoded_integer(bcd_digits_value(bcd@.subrange(0, 9)) as u128, bcd[9] % 16 == BCD_SIGN_NEGATIVE),
        ),
        integer_value(
            encoded_integer(
                bcd_digits_value(bcd@.subrange(0, 9)) as u128,
                bcd[9] % 16 == BCD_SIGN_NEGATIVE,
            ),
        ) == integer_value(x.st),
        sign_field(
            encoded_integer(
                bcd_digits_value(bcd@.subrange(0, 9)) as u128,
                bcd[9] % 16 == BCD_SIGN_NEGATIVE,
            ),
        ) == sign_field(x.st),
{
    let v = integer_value(x.st) as nat;
    assert forall|i: int| 0 <= i < 9 implies #[trigger] (bcd@[i] / 16) <= 9 && bcd@[i] % 16 <= 9 by {
        assert(digit(v, (2 * i + 1) as nat) < 10);
        assert(digit(v, (2 * i) as nat) < 10);
    }
    assert(bcd@.subrange(0, 9) =~= Seq::new(9, |i: int| bcd_pair(v, i as nat)));
    lemma_bcd_digits_of_pairs(v, 9);
    lemma_pow100_nine(9);
    assert(pow100(9) == 1_000_000_000_000_000_000) by {
        reveal_with_fuel(pow100, 10);
    }
    vstd::arithmetic::div_mod::lemma_small_mod(v, pow100(9));
    lemma_integer_of_encoding(v as u128, bcd[9] % 16 == BCD_SIGN_NEGATIVE);
}

proof fn lemma_sign_bit(st: u128)
    by (bit_vector)
    ensures
        (st & 0x8000_0000_0000_0000_0000 != 0) == ((st >> 79u32) & 1 != 0),
{
}

proof fn lemma_mantissa_cast(st: u128)
    by (bit_vector)
    ensures
        (st & 0xffff_ffff_ffff_ffff) < 0x1_0000_0000_0000_0000,
        (st & 0x7fff_ffff_ffff_ffff) < 0x8000_0000_0000_0000,
        ((st >> 64u32) & 0x7fff) < 0x8000,
        ((st >> 63u32) & 1) <= 1,
        ((st & 0xffff_ffff_ffff_ffff) as u64 == 0) == ((st & 0xffff_ffff_ffff_ffff) == 0),
        (((st >> 64u32) & 0x7fff) as u16 == 0) == (((st >> 64u32) & 0x7fff) == 0),
        (((st >> 64u32) & 0x7fff) as u16) < 0x8000u16,
        (((st >> 64u32) & 0x7fff) as u16 == 0x7fff) == (((st >> 64u32) & 0x7fff) == 0x7fff),
{
}

} // verus!
