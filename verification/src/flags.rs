use vstd::prelude::*;
use vstd::string::StringExecFns;

verus! {

pub const MIN_I8: i8 = -128;
pub const MAX_I8: i8 = 0x7f;
pub const MIN_U8: u8 = 0;
pub const MAX_U8: u8 = 0xff;

pub const MIN_I16: i16 = -32768;
pub const MAX_I16: i16 = 0x7fff;
pub const MIN_U16: u16 = 0;
pub const MAX_U16: u16 = 0xffff;

pub const MIN_I32: i32 = -2147483648;
pub const MAX_I32: i32 = 0x7fffffff;
pub const MIN_U32: u32 = 0;
pub const MAX_U32: u32 = 0xffffffff;

pub const MIN_I64: i64 = -9223372036854775808;
pub const MAX_I64: i64 = 0x7fffffffffffffff;
pub const MIN_U64: u64 = 0;
pub const MAX_U64: u64 = 0xffffffffffffffff;

/// The parity flag of every byte value, as `build_parity_table` computes it.
pub const PARITY_LOOKUP_TABLE: [bool; 256] = [
    true, false, false, true, false, true, true, false,
    false, true, true, false, true, false, false, true,
    false, true, true, false, true, false, false, true,
    true, false, false, true, false, true, true, false,
    false, true, true, false, true, false, false, true,
    true, false, false, true, false, true, true, false,
    true, false, false, true, false, true, true, false,
    false, true, true, false, true, false, false, true,
    false, true, true, false, true, false, false, true,
    true, false, false, true, false, true, true, false,
    true, false, false, true, false, true, true, false,
    false, true, true, false, true, false, false, true,
    true, false, false, true, false, true, true, false,
    false, true, true, false, true, false, false, true,
    false, true, true, false, true, false, false, true,
    true, false, false, true, false, true, true, false,
    false, true, true, false, true, false, false, true,
    true, false, false, true, false, true, true, false,
    true, false, false, true, false, true, true, false,
    false, true, true, false, true, false, false, true,
    true, false, false, true, false, true, true, false,
    false, true, true, false, true, false, false, true,
    false, true, true, false, true, false, false, true,
    true, false, false, true, false, true, true, false,
    true, false, false, true, false, true, true, false,
    false, true, true, false, true, false, false, true,
    false, true, true, false, true, false, false, true,
    true, false, false, true, false, true, true, false,
    false, true, true, false, true, false, false, true,
    true, false, false, true, false, true, true, false,
    true, false, false, true, false, true, true, false,
    false, true, true, false, true, false, false, true,
];

// ---------------------------------------------------------------------------
// Mathematical model of operand widths, two's complement and parity.
// ---------------------------------------------------------------------------

/// The operand widths of the integer instructions.
pub open spec fn width_ok(bits: u32) -> bool {
    bits == 8 || bits == 16 || bits == 32 || bits == 64
}

/// 2 to the power of the operand width.
pub open spec fn modulus(bits: u32) -> int {
    if bits == 8 {
        0x100
    } else if bits == 16 {
        0x1_0000
    } else if bits == 32 {
        0x1_0000_0000
    } else {
        0x1_0000_0000_0000_0000
    }
}

/// Half the modulus: the weight of the sign bit.
pub open spec fn sign_weight(bits: u32) -> int {
    modulus(bits) / 2
}

/// The value reduced to the operand width.
#[verifier::opaque]
pub open spec fn low(v: int, bits: u32) -> int {
    v % modulus(bits)
}

/// The sign bit of the value taken at the operand width.
pub open spec fn sign_set(v: int, bits: u32) -> bool {
    low(v, bits) >= sign_weight(bits)
}

/// The two's complement reading of the value taken at the operand width.
pub open spec fn signed(v: int, bits: u32) -> int {
    if sign_set(v, bits) {
        low(v, bits) - modulus(bits)
    } else {
        low(v, bits)
    }
}

/// Whether a signed integer is representable at the operand width.
pub open spec fn fits_signed(x: int, bits: u32) -> bool {
    -sign_weight(bits) <= x < sign_weight(bits)
}

/// Number of one bits of a byte.
#[verifier::opaque]
pub open spec fn bit_count8(b: u8) -> int {
    (b % 2) as int + ((b / 2) % 2) as int + ((b / 4) % 2) as int + ((b / 8) % 2) as int + ((b / 16)
        % 2) as int + ((b / 32) % 2) as int + ((b / 64) % 2) as int + ((b / 128) % 2) as int
}

/// The parity flag rule: the low byte of the value has an even number of one bits.
pub open spec fn even_parity(v: int) -> bool {
    bit_count8((v % 256) as u8) % 2 == 0
}

/// The adjust flag rule: a carry or borrow crossed from bit 3 to bit 4.
pub open spec fn aux_carry(a: u64, b: u64, r: u64) -> bool {
    (a ^ b ^ r) & 0x10 != 0
}

/// The carry into an addition.
pub open spec fn carry_in(cf: bool, include_carry: bool) -> int {
    if include_carry && cf {
        1
    } else {
        0
    }
}

/// Result of an addition at the operand width.
pub open spec fn add_result(a: int, b: int, c: int, bits: u32) -> int {
    low(a + b + c, bits)
}

/// Result of a subtraction of the low parts of the operands, at the operand width.
pub open spec fn sub_result(a: int, b: int, bits: u32) -> int {
    low(low(a, bits) - low(b, bits) + modulus(bits), bits)
}

proof fn lemma_parity_fold(v: u8)
    by (bit_vector)
    ensures
        ((((v ^ (v >> 4u8)) ^ ((v ^ (v >> 4u8)) >> 2u8)) ^ (((v ^ (v >> 4u8)) ^ ((v ^ (v >> 4u8))
            >> 2u8)) >> 1u8)) & 1u8 == 0u8) == (((v % 2) as int + ((v / 2) % 2) as int + ((v / 4)
            % 2) as int + ((v / 8) % 2) as int + ((v / 16) % 2) as int + ((v / 32) % 2) as int + ((v
            / 64) % 2) as int + ((v / 128) % 2) as int) % 2 == 0),
{
}

/// Whether the byte has an even number of one bits.
fn parity_of(v: u8) -> (r: bool)
    ensures
        r == even_parity(v as int),
{
    let x: u8 = v ^ (v >> 4u8);
    let y: u8 = x ^ (x >> 2u8);
    let z: u8 = y ^ (y >> 1u8);
    proof {
        reveal(bit_count8);
        lemma_parity_fold(v);
        assert(v as int % 256 == v as int);
    }
    (z & 1u8) == 0u8
}

/// The parity flag of every byte value: `true` where the byte has an even
/// number of one bits.
pub fn build_parity_table() -> (table: [bool; 256])
    ensures
        forall|i: int| 0 <= i < 256 ==> #[trigger] table[i] == even_parity(i),
{
    let mut table = [false; 256];
    let mut i: usize = 0;
    while i < 256
        invariant
            i <= 256,
            forall|j: int| 0 <= j < i ==> #[trigger] table[j] == even_parity(j),
        decreases 256 - i,
    {
        let p = parity_of(i as u8);
        table[i] = p;
        i = i + 1;
    }
    table
}

/// The EFLAGS register of the emulated processor, one field per flag.
#[derive(Clone, Copy, Debug)]
pub struct Flags {
    pub f_cf: bool,
    pub f_pf: bool,
    pub f_af: bool,
    pub f_zf: bool,
    pub f_sf: bool,
    pub f_tf: bool,
    pub f_if: bool,
    pub f_df: bool,
    pub f_of: bool,
    pub f_iopl1: bool,
    pub f_iopl2: bool,
    pub f_nt: bool,
    pub f_rf: bool,
    pub f_vm: bool,
    pub f_ac: bool,
    pub f_vif: bool,
    pub f_vip: bool,
    pub f_id: bool,
}


/// The modulus of an operand width, as an executable value.
fn width_modulus(bits: u32) -> (m: u128)
    requires
        width_ok(bits),
    ensures
        m == modulus(bits),
{
    if bits == 8 {
        0x100
    } else if bits == 16 {
        0x1_0000
    } else if bits == 32 {
        0x1_0000_0000
    } else {
        0x1_0000_0000_0000_0000
    }
}

proof fn lemma_low_small(x: int, bits: u32)
    requires
        width_ok(bits),
        0 <= x < 2 * modulus(bits),
    ensures
        low(x, bits) == if x >= modulus(bits) { x - modulus(bits) } else { x },
{
    reveal(low);
    if bits == 8 {
    } else if bits == 16 {
    } else if bits == 32 {
    } else {
    }
}

proof fn lemma_low_signed_range(x: int, bits: u32)
    requires
        width_ok(bits),
        -modulus(bits) <= x < modulus(bits),
    ensures
        low(x, bits) == if x < 0 { x + modulus(bits) } else { x },
{
    reveal(low);
    if bits == 8 {
    } else if bits == 16 {
    } else if bits == 32 {
    } else {
    }
}

proof fn lemma_add_overflow(a: int, b: int, c: int, bits: u32)
    requires
        width_ok(bits),
        0 <= a < modulus(bits),
        0 <= b < modulus(bits),
        0 <= c <= 1,
    ensures
        !fits_signed(signed(a, bits) + signed(b, bits) + c, bits) == ((a >= sign_weight(bits)) == (
        b >= sign_weight(bits)) && (a >= sign_weight(bits)) != (add_result(a, b, c, bits)
            >= sign_weight(bits))),
{
    reveal(low);
    if bits == 8 {
    } else if bits == 16 {
    } else if bits == 32 {
    } else {
    }
}

proof fn lemma_parity_low_byte(x: int)
    requires
        x >= 0,
    ensures
        even_parity(((x % 256) as u8) as int) == even_parity(x),
{
    assert(((x % 256) as u8) as int == x % 256);
    assert((x % 256) % 256 == x % 256);
}

proof fn lemma_sub_facts(v1: int, v2: int, bits: u32)
    requires
        width_ok(bits),
        v1 >= 0,
        v2 >= 0,
    ensures
        ({
            let m = modulus(bits);
            let h = sign_weight(bits);
            let a = v1 % m;
            let b = v2 % m;
            let r = if a >= b { a - b } else { a + m - b };
            &&& low(v1, bits) == a
            &&& low(v2, bits) == b
            &&& 0 <= a < m
            &&& 0 <= b < m
            &&& sub_result(v1, v2, bits) == r
            &&& sign_set(r, bits) == (r >= h)
            &&& !fits_signed(signed(v1, bits) - signed(v2, bits), bits) == ((a >= h) != (b >= h)
                && (r >= h) != (a >= h))
        }),
{
    reveal(low);
    if bits == 8 {
    } else if bits == 16 {
    } else if bits == 32 {
    } else {
    }
}

proof fn lemma_low_def(x: int, bits: u32)
    ensures
        low(x, bits) == x % modulus(bits),
{
    reveal(low);
}

proof fn lemma_low_negative(p: int, bits: u32)
    requires
        width_ok(bits),
        p < 0,
    ensures
        low(p, bits) == if (-p) % modulus(bits) == 0 { 0 } else { modulus(bits) - (-p) % modulus(
            bits,
        ) },
{
    reveal(low);
    let m = modulus(bits);
    let q = -p;
    vstd::arithmetic::div_mod::lemma_fundamental_div_mod(q, m);
    let k = q / m;
    let rr = q % m;
    if rr == 0 {
        vstd::arithmetic::div_mod::lemma_fundamental_div_mod_converse(p, m, -k, 0);
    } else {
        vstd::arithmetic::div_mod::lemma_fundamental_div_mod_converse(p, m, -k - 1, m - rr);
    }
}

proof fn lemma_one_shl(s: u32)
    by (bit_vector)
    requires
        s < 64,
    ensures
        1u64 << s >= 1,
{
}

/// Two's complement reading of the low part of a value.
fn signed_low(v: u64, bits: u32) -> (r: i128)
    requires
        width_ok(bits),
    ensures
        r == signed(v as int, bits),
        -sign_weight(bits) <= r < sign_weight(bits),
{
    reveal(low);
    let m = width_modulus(bits);
    let lo: u128 = v as u128 % m;
    if lo >= m / 2 {
        lo as i128 - m as i128
    } else {
        lo as i128
    }
}

/// Wraps a signed difference back into the operand width.
fn wrap_signed(d: i128, bits: u32) -> (r: i128)
    requires
        width_ok(bits),
        -modulus(bits) <= d < modulus(bits),
    ensures
        r == signed(d as int, bits),
        -sign_weight(bits) <= r < sign_weight(bits),
{
    let m = width_modulus(bits);
    let h: i128 = (m / 2) as i128;
    proof {
        lemma_low_signed_range(d as int, bits);
    }
    if d >= h {
        d - m as i128
    } else if d < -h {
        d + m as i128
    } else {
        d
    }
}


/// Bit `k` of a quad word.
pub open spec fn bit_at(v: u64, k: u64) -> bool {
    (v >> k) & 1 == 1
}

/// Arithmetic right shift of a quad word.
pub open spec fn sar64(v: u64, c: u64) -> u64 {
    ((v as i64) >> c) as u64
}

/// Arithmetic right shift of the low double word.
pub open spec fn sar32(v: u64, c: u64) -> u64 {
    (((v as u32) as i32) >> c) as u32 as u64
}

/// Arithmetic right shift of the low word.
pub open spec fn sar16(v: u64, c: u64) -> u64 {
    (((v as u16) as i16) >> c) as u16 as u64
}

/// Arithmetic right shift of the low byte.
pub open spec fn sar8(v: u64, c: u64) -> u64 {
    (((v as u8) as i8) >> c) as u8 as u64
}

/// The overflow rule of the logical right shifts: bit `bits - 1` of
/// `(r << 1) ^ r`.
pub open spec fn shr_overflow(r: u64, bits: u64) -> bool {
    ((((r << 1u64) ^ r) >> (bits - 1)) & 1) == 1
}

proof fn lemma_count_masks(x: u64)
    by (bit_vector)
    ensures
        x & 0x3f < 64,
        x & 0x1f < 32,
        x & 0x3f == 0 ==> x == 0 || x >= 64,
{
}


/// A flag as a one bit number.
pub open spec fn bit(b: bool) -> u64 {
    if b {
        1
    } else {
        0
    }
}

/// The count mask of the rotations: six bits for quad words, five otherwise.
pub open spec fn rot_count(value1: u64, sz: u32) -> u64 {
    if sz == 64 {
        value1 & 0x3f
    } else {
        value1 & 0x1f
    }
}

/// The mask of the low `sz` bits, all ones for 64 bits.
pub open spec fn low_mask(sz: u32) -> u64 {
    if sz == 64 {
        0xffff_ffff_ffff_ffff
    } else {
        ((1u64 << sz) - 1) as u64
    }
}

/// The result mask of the plain rotations: the width's mask for 64, 32 and
/// 16 bits, the byte mask for any other width.
pub open spec fn rot_mask(sz: u32) -> u64 {
    if sz == 64 {
        0xffff_ffff_ffff_ffff
    } else if sz == 32 {
        0xffff_ffff
    } else if sz == 16 {
        0xffff
    } else {
        0xff
    }
}

/// Rotation through carry to the right, before masking: the value shifted
/// right, the carry entering at bit `sz - count`, the low bits wrapping round.
pub open spec fn rcr_bits(value0: u64, cf: bool, count: u64, sz: u32) -> u64 {
    if count == 1 {
        (value0 >> 1u64) | (bit(cf) << (sz - 1) as u64)
    } else {
        (value0 >> count) | (bit(cf) << (sz - count) as u64) | (value0 << (sz + 1 - count) as u64)
    }
}

/// Rotation through carry to the left of a quad word, as the 65 bit value
/// of carry and operand: the rotated 65 bits.
pub open spec fn rcl65(value0: u64, cf: bool, count: u64) -> u128 {
    let extended: u128 = ((value0 as u128) << 1u128) | (bit(cf) as u128);
    ((extended << count as u128) | (extended >> (65 - count) as u128)) & 0x1_ffff_ffff_ffff_ffffu128
}

/// Rotation through carry to the left of a narrower operand, as the
/// `sz + 1` bit value of carry and operand: the rotated bits.
pub open spec fn rcl_narrow(value0: u64, cf: bool, count: u64, sz: u32) -> u64 {
    let extended: u64 = ((value0 & low_mask(sz)) << 1u64) | bit(cf);
    ((extended << count) | (extended >> (sz as u64 + 1 - count))) & (((1u64 << (sz + 1) as u64)
        - 1) as u64)
}

/// The signed product of the low parts of two values.
pub open spec fn imul_product(a: u64, b: u64, bits: u32) -> int {
    signed(a as int, bits) * signed(b as int, bits)
}

impl Flags {
    /// Carry and overflow set, then sign, parity and zero taken from the result.
    pub open spec fn after_shift(self, cf: bool, of: bool, r: u64, bits: u32) -> Flags {
        Flags { f_cf: cf, f_of: of, ..self }.with_result(r as int, bits)
    }
}

impl Flags {
    /// Sign, parity and zero flags taken from a result, trap flag cleared.
    pub open spec fn with_result(self, r: int, bits: u32) -> Flags {
        Flags { f_sf: sign_set(r, bits), f_pf: even_parity(r), f_zf: r == 0, f_tf: false, ..self }
    }

    /// The flags after an addition of `a`, `b` and the carry `c`.
    pub open spec fn after_add(self, a: int, b: int, c: int, bits: u32) -> Flags {
        let r = add_result(a, b, c, bits);
        Flags {
            f_cf: a + b + c >= modulus(bits),
            f_sf: sign_set(r, bits),
            f_zf: r == 0,
            f_pf: even_parity(r),
            f_of: !fits_signed(signed(a, bits) + signed(b, bits) + c, bits),
            f_af: aux_carry(a as u64, b as u64, r as u64),
            ..self
        }
    }

    /// The flags after subtracting the low part of `v2` from that of `v1`.
    pub open spec fn after_sub(self, v1: u64, v2: u64, bits: u32) -> Flags {
        let r = sub_result(v1 as int, v2 as int, bits);
        Flags {
            f_cf: low(v2 as int, bits) > low(v1 as int, bits),
            f_of: !fits_signed(signed(v1 as int, bits) - signed(v2 as int, bits), bits),
            f_zf: v1 == v2,
            f_sf: sign_set(r, bits),
            f_pf: even_parity(r),
            f_af: aux_carry(v1, v2, r as u64),
            ..self
        }
    }

    /// The flags after an increment; the carry flag is kept.
    pub open spec fn after_inc(self, v: int, bits: u32) -> Flags {
        if v == modulus(bits) - 1 {
            Flags { f_zf: true, f_pf: true, f_af: true, f_sf: false, f_of: false, ..self }
        } else {
            Flags {
                f_of: v == sign_weight(bits) - 1,
                f_sf: v + 1 >= sign_weight(bits),
                f_pf: even_parity(v + 1),
                f_zf: false,
                ..self
            }
        }
    }

    /// The flags after a decrement; the carry flag is kept.
    pub open spec fn after_dec(self, v: int, bits: u32) -> Flags {
        if v == 0 {
            Flags { f_zf: false, f_pf: true, f_af: true, f_sf: true, f_of: false, ..self }
        } else {
            Flags {
                f_of: v == sign_weight(bits),
                f_pf: even_parity(v - 1),
                f_af: false,
                f_sf: sign_set(v - 1, bits),
                f_zf: v == 1,
                ..self
            }
        }
    }

    /// The flags after a two's complement negation.
    pub open spec fn after_neg(self, v: int, bits: u32) -> Flags {
        Flags { f_of: v == sign_weight(bits), f_cf: true, ..self }.with_result(
            neg_result(v, bits),
            bits,
        )
    }
}

/// Result of an increment at the operand width, wrapping at the top.
pub open spec fn inc_result(v: int, bits: u32) -> int {
    if v == modulus(bits) - 1 {
        0
    } else {
        v + 1
    }
}

/// Result of a decrement, wrapping at zero.
pub open spec fn dec_result(v: int, bits: u32) -> int {
    if v == 0 {
        modulus(bits) - 1
    } else {
        v - 1
    }
}

/// Two's complement negation of the low part of the value.
pub open spec fn neg_result(v: int, bits: u32) -> int {
    low(modulus(bits) - low(v, bits), bits)
}

impl Flags {
    /// Every flag clear.
    pub open spec fn cleared() -> Flags {
        Flags {
            f_cf: false,
            f_pf: false,
            f_af: false,
            f_zf: false,
            f_sf: false,
            f_tf: false,
            f_if: false,
            f_df: false,
            f_of: false,
            f_iopl1: false,
            f_iopl2: false,
            f_nt: false,
            f_rf: false,
            f_vm: false,
            f_ac: false,
            f_vif: false,
            f_vip: false,
            f_id: false,
        }
    }

    /// The EFLAGS word: each flag at its architectural bit, bit 1 always set,
    /// reserved bits 3, 5 and 15 clear.
    #[verifier::opaque]
    pub open spec fn eflags_word(self) -> u32 {
        (if self.f_cf { 0x1u32 } else { 0u32 }) | 0x2u32 | (if self.f_pf { 0x4u32 } else { 0u32 })
            | (if self.f_af { 0x10u32 } else { 0u32 }) | (if self.f_zf { 0x40u32 } else { 0u32 })
            | (if self.f_sf { 0x80u32 } else { 0u32 }) | (if self.f_tf { 0x100u32 } else { 0u32 })
            | (if self.f_if { 0x200u32 } else { 0u32 }) | (if self.f_df { 0x400u32 } else { 0u32 })
            | (if self.f_of { 0x800u32 } else { 0u32 }) | (if self.f_iopl1 { 0x1000u32 } else {
            0u32
        }) | (if self.f_iopl2 { 0x2000u32 } else { 0u32 }) | (if self.f_nt { 0x4000u32 } else {
            0u32
        }) | (if self.f_rf { 0x1_0000u32 } else { 0u32 }) | (if self.f_vm { 0x2_0000u32 } else {
            0u32
        }) | (if self.f_ac { 0x4_0000u32 } else { 0u32 }) | (if self.f_vif { 0x8_0000u32 } else {
            0u32
        }) | (if self.f_vip { 0x10_0000u32 } else { 0u32 }) | (if self.f_id { 0x20_0000u32 } else {
            0u32
        })
    }

    /// The flags that an EFLAGS word holds.
    pub open spec fn from_eflags_word(w: u32) -> Flags {
        Flags {
            f_cf: w & 0x1 != 0,
            f_pf: w & 0x4 != 0,
            f_af: w & 0x10 != 0,
            f_zf: w & 0x40 != 0,
            f_sf: w & 0x80 != 0,
            f_tf: w & 0x100 != 0,
            f_if: w & 0x200 != 0,
            f_df: w & 0x400 != 0,
            f_of: w & 0x800 != 0,
            f_iopl1: w & 0x1000 != 0,
            f_iopl2: w & 0x2000 != 0,
            f_nt: w & 0x4000 != 0,
            f_rf: w & 0x1_0000 != 0,
            f_vm: w & 0x2_0000 != 0,
            f_ac: w & 0x4_0000 != 0,
            f_vif: w & 0x8_0000 != 0,
            f_vip: w & 0x10_0000 != 0,
            f_id: w & 0x20_0000 != 0,
        }
    }

    pub fn new() -> (f: Flags)
        ensures
            f == Flags::cleared(),
    {
        Flags {
            f_cf: false,
            f_pf: false,
            f_af: false,
            f_zf: false,
            f_sf: false,
            f_tf: false,
            f_if: false,
            f_df: false,
            f_of: false,
            f_iopl1: false,
            f_iopl2: false,
            f_nt: false,
            f_rf: false,
            f_vm: false,
            f_ac: false,
            f_vif: false,
            f_vip: false,
            f_id: false,
        }
    }

    pub fn clear(&mut self)
        ensures
            *final(self) == Flags::cleared(),
    {
        self.f_cf = false;
        self.f_pf = false;
        self.f_af = false;
        self.f_zf = false;
        self.f_sf = false;
        self.f_tf = false;
        self.f_if = false;
        self.f_df = false;
        self.f_of = false;
        self.f_iopl1 = false;
        self.f_iopl2 = false;
        self.f_nt = false;
        self.f_rf = false;
        self.f_vm = false;
        self.f_ac = false;
        self.f_vif = false;
        self.f_vip = false;
        self.f_id = false;
    }

    /// Packs the flags into the EFLAGS word.
    pub fn dump(&self) -> (w: u32)
        ensures
            w == self.eflags_word(),
            (w & 0x1u32 != 0) == self.f_cf,
            (w & 0x4u32 != 0) == self.f_pf,
            (w & 0x10u32 != 0) == self.f_af,
            (w & 0x40u32 != 0) == self.f_zf,
            (w & 0x80u32 != 0) == self.f_sf,
            (w & 0x100u32 != 0) == self.f_tf,
            (w & 0x200u32 != 0) == self.f_if,
            (w & 0x400u32 != 0) == self.f_df,
            (w & 0x800u32 != 0) == self.f_of,
            (w & 0x1000u32 != 0) == self.f_iopl1,
            (w & 0x2000u32 != 0) == self.f_iopl2,
            (w & 0x4000u32 != 0) == self.f_nt,
            (w & 0x10000u32 != 0) == self.f_rf,
            (w & 0x20000u32 != 0) == self.f_vm,
            (w & 0x40000u32 != 0) == self.f_ac,
            (w & 0x80000u32 != 0) == self.f_vif,
            (w & 0x100000u32 != 0) == self.f_vip,
            (w & 0x200000u32 != 0) == self.f_id,
            w & 0x2u32 != 0,
    {
        proof {
            lemma_eflags_bit_positions(*self, 0u32);
        }
        reveal(Flags::eflags_word);
        (if self.f_cf { 0x1u32 } else { 0u32 }) | 0x2u32 | (if self.f_pf { 0x4u32 } else { 0u32 })
            | (if self.f_af { 0x10u32 } else { 0u32 }) | (if self.f_zf { 0x40u32 } else { 0u32 })
            | (if self.f_sf { 0x80u32 } else { 0u32 }) | (if self.f_tf { 0x100u32 } else { 0u32 })
            | (if self.f_if { 0x200u32 } else { 0u32 }) | (if self.f_df { 0x400u32 } else { 0u32 })
            | (if self.f_of { 0x800u32 } else { 0u32 }) | (if self.f_iopl1 { 0x1000u32 } else {
            0u32
        }) | (if self.f_iopl2 { 0x2000u32 } else { 0u32 }) | (if self.f_nt { 0x4000u32 } else {
            0u32
        }) | (if self.f_rf { 0x1_0000u32 } else { 0u32 }) | (if self.f_vm { 0x2_0000u32 } else {
            0u32
        }) | (if self.f_ac { 0x4_0000u32 } else { 0u32 }) | (if self.f_vif { 0x8_0000u32 } else {
            0u32
        }) | (if self.f_vip { 0x10_0000u32 } else { 0u32 }) | (if self.f_id { 0x20_0000u32 } else {
            0u32
        })
    }

    /// Sets every flag from its bit of an EFLAGS word.
    pub fn load(&mut self, flags: u32)
        ensures
            *final(self) == Flags::from_eflags_word(flags),
    {
        *self = Flags {
            f_cf: flags & 0x1 != 0,
            f_pf: flags & 0x4 != 0,
            f_af: flags & 0x10 != 0,
            f_zf: flags & 0x40 != 0,
            f_sf: flags & 0x80 != 0,
            f_tf: flags & 0x100 != 0,
            f_if: flags & 0x200 != 0,
            f_df: flags & 0x400 != 0,
            f_of: flags & 0x800 != 0,
            f_iopl1: flags & 0x1000 != 0,
            f_iopl2: flags & 0x2000 != 0,
            f_nt: flags & 0x4000 != 0,
            f_rf: flags & 0x1_0000 != 0,
            f_vm: flags & 0x2_0000 != 0,
            f_ac: flags & 0x4_0000 != 0,
            f_vif: flags & 0x8_0000 != 0,
            f_vip: flags & 0x10_0000 != 0,
            f_id: flags & 0x20_0000 != 0,
        };
    }
}



impl Flags {
    /// Carry of a byte subtraction `a - b`.
    pub fn check_carry_sub_byte(&mut self, a: u64, b: u64)
        ensures
            *final(self) == (Flags { f_cf: low(b as int, 8) > low(a as int, 8), ..*old(self) }),
    {
        reveal(low);
        self.f_cf = (b % 0x100) > (a % 0x100);
    }

    /// Overflow of a signed byte subtraction `a - b`; returns the wrapped difference.
    pub fn check_overflow_sub_byte(&mut self, a: u64, b: u64) -> (r: i8)
        ensures
            *final(self) == (Flags {
                f_of: !fits_signed(signed(a as int, 8) - signed(b as int, 8), 8),
                ..*old(self)
            }),
            r == signed(signed(a as int, 8) - signed(b as int, 8), 8),
    {
        let rs: i128 = signed_low(a, 8) - signed_low(b, 8);
        self.f_of = rs < MIN_I8 as i128 || rs > MAX_I8 as i128;
        wrap_signed(rs, 8) as i8
    }

    /// Carry of a word subtraction `a - b`.
    pub fn check_carry_sub_word(&mut self, a: u64, b: u64)
        ensures
            *final(self) == (Flags { f_cf: low(b as int, 16) > low(a as int, 16), ..*old(self) }),
    {
        reveal(low);
        self.f_cf = (b % 0x1_0000) > (a % 0x1_0000);
    }

    /// Overflow of a signed word subtraction `a - b`; returns the wrapped difference.
    pub fn check_overflow_sub_word(&mut self, a: u64, b: u64) -> (r: i16)
        ensures
            *final(self) == (Flags {
                f_of: !fits_signed(signed(a as int, 16) - signed(b as int, 16), 16),
                ..*old(self)
            }),
            r == signed(signed(a as int, 16) - signed(b as int, 16), 16),
    {
        let rs: i128 = signed_low(a, 16) - signed_low(b, 16);
        self.f_of = rs < MIN_I16 as i128 || rs > MAX_I16 as i128;
        wrap_signed(rs, 16) as i16
    }

    /// Carry of a quad word subtraction `a - b`.
    pub fn check_carry_sub_qword(&mut self, a: u64, b: u64)
        ensures
            *final(self) == (Flags { f_cf: b > a, ..*old(self) }),
    {
        self.f_cf = b > a;
    }

    /// Carry of a double word subtraction `a - b`.
    pub fn check_carry_sub_dword(&mut self, a: u64, b: u64)
        ensures
            *final(self) == (Flags { f_cf: low(b as int, 32) > low(a as int, 32), ..*old(self) }),
    {
        reveal(low);
        self.f_cf = (b % 0x1_0000_0000) > (a % 0x1_0000_0000);
    }

    /// Overflow of a signed quad word subtraction `a - b`; returns the wrapped difference.
    pub fn check_overflow_sub_qword(&mut self, a: u64, b: u64) -> (r: i64)
        ensures
            *final(self) == (Flags {
                f_of: !fits_signed(signed(a as int, 64) - signed(b as int, 64), 64),
                ..*old(self)
            }),
            r == signed(signed(a as int, 64) - signed(b as int, 64), 64),
    {
        let rs: i128 = signed_low(a, 64) - signed_low(b, 64);
        self.f_of = rs < MIN_I64 as i128 || rs > MAX_I64 as i128;
        wrap_signed(rs, 64) as i64
    }

    /// Overflow of a signed double word subtraction `a - b`; returns the wrapped difference.
    pub fn check_overflow_sub_dword(&mut self, a: u64, b: u64) -> (r: i32)
        ensures
            *final(self) == (Flags {
                f_of: !fits_signed(signed(a as int, 32) - signed(b as int, 32), 32),
                ..*old(self)
            }),
            r == signed(signed(a as int, 32) - signed(b as int, 32), 32),
    {
        let rs: i128 = signed_low(a, 32) - signed_low(b, 32);
        self.f_of = rs < MIN_I32 as i128 || rs > MAX_I32 as i128;
        wrap_signed(rs, 32) as i32
    }

    /// Sets the sign, parity and zero flags from a result and clears the trap flag.
    pub fn calc_flags(&mut self, final_value: u64, bits: u32)
        requires
            width_ok(bits),
        ensures
            *final(self) == old(self).with_result(final_value as int, bits),
    {
        let m = width_modulus(bits);
        assert(low(final_value as int, bits) == final_value as int % modulus(bits)) by {
            reveal(low);
        }
        self.f_sf = (final_value as u128 % m) >= m / 2;
        self.calc_pf((final_value % 256) as u8);
        proof {
            lemma_parity_low_byte(final_value as int);
        }
        self.f_zf = final_value == 0;
        self.f_tf = false;
    }

    /// Sets the parity flag from the low byte of a result.
    pub fn calc_pf(&mut self, final_value: u8)
        ensures
            *final(self) == (Flags { f_pf: even_parity(final_value as int), ..*old(self) }),
    {
        self.f_pf = parity_of(final_value);
    }

    /// Sets the adjust flag: bit 4 of `value1 ^ value2 ^ result`.
    pub fn calc_af(&mut self, value1: u64, value2: u64, result: u64, bits: u64)
        ensures
            *final(self) == (Flags { f_af: aux_carry(value1, value2, result), ..*old(self) }),
    {
        self.f_af = ((value1 ^ value2 ^ result) & 0x10) != 0;
    }

    /// Addition of operands below the modulus of the width, with all six
    /// arithmetic flags.
    #[verifier::spinoff_prover]
    fn add_flags(&mut self, v1: u64, v2: u64, c: u64, bits: u32) -> (r: u64)
        requires
            width_ok(bits),
            v1 < modulus(bits),
            v2 < modulus(bits),
            c <= 1,
        ensures
            r == add_result(v1 as int, v2 as int, c as int, bits),
            *final(self) == old(self).after_add(v1 as int, v2 as int, c as int, bits),
    {
        let m = width_modulus(bits);
        let sum: u128 = v1 as u128 + v2 as u128 + c as u128;
        proof {
            lemma_low_small(sum as int, bits);
            lemma_add_overflow(v1 as int, v2 as int, c as int, bits);
        }
        let r: u64 = if sum >= m {
            (sum - m) as u64
        } else {
            sum as u64
        };
        let h: u64 = (m / 2) as u64;
        proof {
            lemma_parity_low_byte(r as int);
            lemma_low_small(r as int, bits);
        }
        *self = Flags {
            f_cf: sum >= m,
            f_sf: r >= h,
            f_zf: r == 0,
            f_pf: parity_of((r % 256) as u8),
            f_of: (v1 >= h) == (v2 >= h) && (v1 >= h) != (r >= h),
            f_af: ((v1 ^ v2 ^ r) & 0x10) != 0,
            ..*self
        };
        r
    }

    /// 64 bit addition, with the carry flag added in when `include_carry`.
    pub fn add64(&mut self, value1: u64, value2: u64, cf: bool, include_carry: bool) -> (r: u64)
        ensures
            r == add_result(value1 as int, value2 as int, carry_in(cf, include_carry), 64),
            *final(self) == old(self).after_add(
                value1 as int,
                value2 as int,
                carry_in(cf, include_carry),
                64,
            ),
    {
        let c: u64 = if include_carry && cf { 1 } else { 0 };
        self.add_flags(value1, value2, c, 64)
    }

    /// 32 bit addition, with the carry flag added in when `include_carry`.
    pub fn add32(&mut self, value1: u32, value2: u32, cf: bool, include_carry: bool) -> (r: u64)
        ensures
            r == add_result(value1 as int, value2 as int, carry_in(cf, include_carry), 32),
            *final(self) == old(self).after_add(
                value1 as int,
                value2 as int,
                carry_in(cf, include_carry),
                32,
            ),
    {
        let c: u64 = if include_carry && cf { 1 } else { 0 };
        self.add_flags(value1 as u64, value2 as u64, c, 32)
    }

    /// 16 bit addition, with the carry flag added in when `include_carry`.
    pub fn add16(&mut self, value1: u16, value2: u16, cf: bool, include_carry: bool) -> (r: u64)
        ensures
            r == add_result(value1 as int, value2 as int, carry_in(cf, include_carry), 16),
            *final(self) == old(self).after_add(
                value1 as int,
                value2 as int,
                carry_in(cf, include_carry),
                16,
            ),
    {
        let c: u64 = if include_carry && cf { 1 } else { 0 };
        self.add_flags(value1 as u64, value2 as u64, c, 16)
    }

    /// 8 bit addition, with the carry flag added in when `include_carry`.
    pub fn add8(&mut self, value1: u8, value2: u8, cf: bool, include_carry: bool) -> (r: u64)
        ensures
            r == add_result(value1 as int, value2 as int, carry_in(cf, include_carry), 8),
            *final(self) == old(self).after_add(
                value1 as int,
                value2 as int,
                carry_in(cf, include_carry),
                8,
            ),
    {
        let c: u64 = if include_carry && cf { 1 } else { 0 };
        self.add_flags(value1 as u64, value2 as u64, c, 8)
    }

    /// Subtraction of the low parts of the operands, with all six arithmetic flags.
    #[verifier::spinoff_prover]
    fn sub_flags(&mut self, value1: u64, value2: u64, bits: u32) -> (r: u64)
        requires
            width_ok(bits),
        ensures
            r == sub_result(value1 as int, value2 as int, bits),
            *final(self) == old(self).after_sub(value1, value2, bits),
    {
        let m = width_modulus(bits);
        let a: u128 = value1 as u128 % m;
        let b: u128 = value2 as u128 % m;
        let r: u64 = if a >= b {
            (a - b) as u64
        } else {
            (a + m - b) as u64
        };
        let h: u64 = (m / 2) as u64;
        proof {
            lemma_sub_facts(value1 as int, value2 as int, bits);
            lemma_parity_low_byte(r as int);
        }
        *self = Flags {
            f_cf: b > a,
            f_of: (a >= h as u128) != (b >= h as u128) && (r >= h) != (a >= h as u128),
            f_zf: value1 == value2,
            f_sf: r >= h,
            f_pf: parity_of((r % 256) as u8),
            f_af: ((value1 ^ value2 ^ r) & 0x10) != 0,
            ..*self
        };
        r
    }

    /// 64 bit subtraction `value1 - value2`.
    pub fn sub64(&mut self, value1: u64, value2: u64) -> (r: u64)
        ensures
            r == sub_result(value1 as int, value2 as int, 64),
            *final(self) == old(self).after_sub(value1, value2, 64),
    {
        self.sub_flags(value1, value2, 64)
    }

    /// 32 bit subtraction of the low double words.
    pub fn sub32(&mut self, value1: u64, value2: u64) -> (r: u64)
        ensures
            r == sub_result(value1 as int, value2 as int, 32),
            *final(self) == old(self).after_sub(value1, value2, 32),
    {
        self.sub_flags(value1, value2, 32)
    }

    /// 16 bit subtraction of the low words.
    pub fn sub16(&mut self, value1: u64, value2: u64) -> (r: u64)
        ensures
            r == sub_result(value1 as int, value2 as int, 16),
            *final(self) == old(self).after_sub(value1, value2, 16),
    {
        self.sub_flags(value1, value2, 16)
    }

    /// 8 bit subtraction of the low bytes.
    pub fn sub8(&mut self, value1: u64, value2: u64) -> (r: u64)
        ensures
            r == sub_result(value1 as int, value2 as int, 8),
            *final(self) == old(self).after_sub(value1, value2, 8),
    {
        self.sub_flags(value1, value2, 8)
    }

    /// Increment of a value of the given width.
    fn inc_flags(&mut self, value: u64, bits: u32) -> (r: u64)
        requires
            width_ok(bits),
            bits == 64 || value < u64::MAX,
        ensures
            r == inc_result(value as int, bits),
            *final(self) == old(self).after_inc(value as int, bits),
    {
        let m = width_modulus(bits);
        if value as u128 == m - 1 {
            *self = Flags { f_zf: true, f_pf: true, f_af: true, f_sf: false, f_of: false, ..*self };
            return 0;
        }
        let h: u64 = (m / 2) as u64;
        proof {
            lemma_parity_low_byte(value + 1);
        }
        *self = Flags {
            f_of: value == h - 1,
            f_sf: value + 1 > h - 1,
            f_pf: parity_of(((value + 1) % 256) as u8),
            f_zf: false,
            ..*self
        };
        value + 1
    }

    /// 64 bit increment; the carry flag is kept.
    pub fn inc64(&mut self, value: u64) -> (r: u64)
        ensures
            r == inc_result(value as int, 64),
            *final(self) == old(self).after_inc(value as int, 64),
    {
        self.inc_flags(value, 64)
    }

    /// 32 bit increment; the carry flag is kept.
    pub fn inc32(&mut self, value: u64) -> (r: u64)
        requires
            value < u64::MAX,
        ensures
            r == inc_result(value as int, 32),
            *final(self) == old(self).after_inc(value as int, 32),
    {
        self.inc_flags(value, 32)
    }

    /// 16 bit increment; the carry flag is kept.
    pub fn inc16(&mut self, value: u64) -> (r: u64)
        requires
            value < u64::MAX,
        ensures
            r == inc_result(value as int, 16),
            *final(self) == old(self).after_inc(value as int, 16),
    {
        self.inc_flags(value, 16)
    }

    /// 8 bit increment; the carry flag is kept.
    pub fn inc8(&mut self, value: u64) -> (r: u64)
        requires
            value < u64::MAX,
        ensures
            r == inc_result(value as int, 8),
            *final(self) == old(self).after_inc(value as int, 8),
    {
        self.inc_flags(value, 8)
    }

    /// Decrement of a value of the given width.
    fn dec_flags(&mut self, value: u64, bits: u32) -> (r: u64)
        requires
            width_ok(bits),
        ensures
            r == dec_result(value as int, bits),
            *final(self) == old(self).after_dec(value as int, bits),
    {
        let m = width_modulus(bits);
        if value == 0 {
            *self = Flags { f_zf: false, f_pf: true, f_af: true, f_sf: true, f_of: false, ..*self };
            return (m - 1) as u64;
        }
        let h: u128 = m / 2;
        proof {
            lemma_parity_low_byte(value - 1);
            lemma_low_def(value - 1, bits);
        }
        *self = Flags {
            f_of: value as u128 == h,
            f_pf: parity_of(((value - 1) % 256) as u8),
            f_af: false,
            f_sf: ((value - 1) as u128 % m) >= h,
            f_zf: value == 1,
            ..*self
        };
        value - 1
    }

    /// 64 bit decrement; the carry flag is kept.
    pub fn dec64(&mut self, value: u64) -> (r: u64)
        ensures
            r == dec_result(value as int, 64),
            *final(self) == old(self).after_dec(value as int, 64),
    {
        self.dec_flags(value, 64)
    }

    /// 32 bit decrement; the carry flag is kept.
    pub fn dec32(&mut self, value: u64) -> (r: u64)
        ensures
            r == dec_result(value as int, 32),
            *final(self) == old(self).after_dec(value as int, 32),
    {
        self.dec_flags(value, 32)
    }

    /// 16 bit decrement; the carry flag is kept.
    pub fn dec16(&mut self, value: u64) -> (r: u64)
        ensures
            r == dec_result(value as int, 16),
            *final(self) == old(self).after_dec(value as int, 16),
    {
        self.dec_flags(value, 16)
    }

    /// 8 bit decrement; the carry flag is kept.
    pub fn dec8(&mut self, value: u64) -> (r: u64)
        ensures
            r == dec_result(value as int, 8),
            *final(self) == old(self).after_dec(value as int, 8),
    {
        self.dec_flags(value, 8)
    }

    /// Two's complement negation of the low part of a value.
    fn neg_flags(&mut self, value: u64, bits: u32) -> (r: u64)
        requires
            width_ok(bits),
        ensures
            r == neg_result(value as int, bits),
            *final(self) == old(self).after_neg(value as int, bits),
    {
        let m = width_modulus(bits);
        let lo: u128 = value as u128 % m;
        let res: u64 = ((m - lo) % m) as u64;
        proof {
            lemma_low_def(value as int, bits);
            lemma_low_def(m - lo, bits);
        }
        *self = Flags { f_of: value as u128 == m / 2, f_cf: true, ..*self };
        self.calc_flags(res, bits);
        res
    }

    /// 64 bit negation: the carry flag is set, the overflow flag marks the
    /// most negative value.
    pub fn neg64(&mut self, value: u64) -> (r: u64)
        ensures
            r == neg_result(value as int, 64),
            *final(self) == old(self).after_neg(value as int, 64),
    {
        self.neg_flags(value, 64)
    }

    /// 32 bit negation of the low double word.
    pub fn neg32(&mut self, value: u64) -> (r: u64)
        ensures
            r == neg_result(value as int, 32),
            *final(self) == old(self).after_neg(value as int, 32),
    {
        self.neg_flags(value, 32)
    }

    /// 16 bit negation of the low word.
    pub fn neg16(&mut self, value: u64) -> (r: u64)
        ensures
            r == neg_result(value as int, 16),
            *final(self) == old(self).after_neg(value as int, 16),
    {
        self.neg_flags(value, 16)
    }

    /// 8 bit negation of the low byte.
    pub fn neg8(&mut self, value: u64) -> (r: u64)
        ensures
            r == neg_result(value as int, 8),
            *final(self) == old(self).after_neg(value as int, 8),
    {
        self.neg_flags(value, 8)
    }
}

impl Flags {
    /// Arithmetic left shift: the same as the logical left shift.
    pub fn sal2p64(&mut self, value0: u64, value1: u64) -> (r: u64)
        requires
            value1 == 0 || value1 & 0x3f != 0,
        ensures
            value1 == 0 ==> r == value0 && *final(self) == *old(self),
            value1 != 0 ==> r == value0 << (value1 & 0x3f) && *final(self) == old(self).after_shift(
                bit_at(value0, (64 - (value1 & 0x3f)) as u64),
                bit_at(value0, (64 - (value1 & 0x3f)) as u64) != bit_at(r, 63),
                r,
                64,
            ),
    {
        self.shl2p64(value0, value1)
    }

    /// Arithmetic left shift of the low double word.
    pub fn sal2p32(&mut self, value0: u64, value1: u64) -> (r: u64)
        ensures
            value1 == 0 ==> r == value0 && *final(self) == *old(self),
            value1 != 0 ==> r == (value0 << (value1 & 0x1f)) & 0xffff_ffff && *final(self) == old(
                self,
            ).after_shift(
                bit_at(value0, (32 - (value1 & 0x1f)) as u64),
                bit_at(value0, (32 - (value1 & 0x1f)) as u64) != bit_at(r, 31),
                r,
                32,
            ),
    {
        self.shl2p32(value0, value1)
    }

    /// Arithmetic left shift of the low word.
    pub fn sal2p16(&mut self, value0: u64, value1: u64) -> (r: u64)
        requires
            value1 & 0x1f <= 16,
        ensures
            value1 == 0 ==> r == value0 && *final(self) == *old(self),
            value1 != 0 ==> r == (value0 << (value1 & 0x1f)) & 0xffff && *final(self) == old(
                self,
            ).after_shift(
                bit_at(value0, (16 - (value1 & 0x1f)) as u64),
                bit_at(value0, (16 - (value1 & 0x1f)) as u64) != bit_at(r, 15),
                r,
                16,
            ),
    {
        self.shl2p16(value0, value1)
    }

    /// Arithmetic left shift of the low byte.
    pub fn sal2p8(&mut self, value0: u64, value1: u64) -> (r: u64)
        requires
            value1 & 0x1f <= 8,
        ensures
            value1 == 0 ==> r == value0 && *final(self) == *old(self),
            value1 != 0 ==> r == (value0 << (value1 & 0x1f)) & 0xff && *final(self) == old(
                self,
            ).after_shift(
                bit_at(value0, (8 - (value1 & 0x1f)) as u64),
                bit_at(value0, (8 - (value1 & 0x1f)) as u64) != bit_at(r, 7),
                r,
                8,
            ),
    {
        self.shl2p8(value0, value1)
    }

    /// Arithmetic left shift by one.
    pub fn sal1p64(&mut self, value: u64) -> (r: u64)
        ensures
            r == value << 1u64,
            *final(self) == old(self).after_shift(bit_at(value, 63), bit_at(value, 63) != bit_at(r, 63), r, 64),
    {
        self.shl1p64(value)
    }

    /// Arithmetic left shift of the low double word by one.
    pub fn sal1p32(&mut self, value: u64) -> (r: u64)
        ensures
            r == (value << 1u64) & 0xffff_ffff,
            *final(self) == old(self).after_shift(bit_at(value, 31), bit_at(value, 31) != bit_at(r, 31), r, 32),
    {
        self.shl1p32(value)
    }

    /// Arithmetic left shift of the low word by one.
    pub fn sal1p16(&mut self, value: u64) -> (r: u64)
        ensures
            r == (value << 1u64) & 0xffff,
            *final(self) == old(self).after_shift(bit_at(value, 15), bit_at(value, 15) != bit_at(r, 15), r, 16),
    {
        self.shl1p16(value)
    }

    /// Arithmetic left shift of the low byte by one.
    pub fn sal1p8(&mut self, value: u64) -> (r: u64)
        ensures
            r == (value << 1u64) & 0xff,
            *final(self) == old(self).after_shift(bit_at(value, 7), bit_at(value, 7) != bit_at(r, 7), r, 8),
    {
        self.shl1p8(value)
    }

    /// Arithmetic right shift of the quad word by the masked count; a zero
    /// count changes nothing.
    pub fn sar2p64(&mut self, value0: u64, value1: u64) -> (r: u64)
        requires
            value1 == 0 || value1 & 0x3f != 0,
        ensures
            value1 == 0 ==> r == value0 && *final(self) == *old(self),
            value1 != 0 ==> r == sar64(value0, value1 & 0x3f) && *final(self) == old(
                self,
            ).after_shift(bit_at(value0, ((value1 & 0x3f) - 1) as u64), false, r, 64),
    {
        if value1 == 0 {
            return value0;
        }
        proof {
            lemma_count_masks(value1);
        }
        let count = value1 & 0x3f;
        let s = value0 as i64;
        let result = (s >> count) as u64;
        let cf = ((value0 >> (count - 1)) & 0x1) == 0x1;
        *self = Flags { f_cf: cf, f_of: false, ..*self };
        self.calc_flags(result, 64);
        result
    }

    /// Arithmetic right shift of the low double word by the masked count; a zero
    /// count changes nothing.
    pub fn sar2p32(&mut self, value0: u64, value1: u64) -> (r: u64)
        requires
            value1 == 0 || value1 & 0x1f != 0,
        ensures
            value1 == 0 ==> r == value0 && *final(self) == *old(self),
            value1 != 0 ==> r == sar32(value0, value1 & 0x1f) && *final(self) == old(
                self,
            ).after_shift(bit_at(value0, ((value1 & 0x1f) - 1) as u64), false, r, 32),
    {
        if value1 == 0 {
            return value0;
        }
        proof {
            lemma_count_masks(value1);
        }
        let count = value1 & 0x1f;
        let s = (value0 as u32) as i32;
        let result = (s >> count) as u32 as u64;
        let cf = ((value0 >> (count - 1)) & 0x1) == 0x1;
        *self = Flags { f_cf: cf, f_of: false, ..*self };
        self.calc_flags(result, 32);
        result
    }

    /// Arithmetic right shift of the low word by the masked count; a zero
    /// count changes nothing.
    pub fn sar2p16(&mut self, value0: u64, value1: u64) -> (r: u64)
        requires
            value1 == 0 || (value1 & 0x1f != 0 && value1 & 0x1f < 16),
        ensures
            value1 == 0 ==> r == value0 && *final(self) == *old(self),
            value1 != 0 ==> r == sar16(value0, value1 & 0x1f) && *final(self) == old(
                self,
            ).after_shift(bit_at(value0, ((value1 & 0x1f) - 1) as u64), false, r, 16),
    {
        if value1 == 0 {
            return value0;
        }
        proof {
            lemma_count_masks(value1);
        }
        let count = value1 & 0x1f;
        let s = (value0 as u16) as i16;
        let result = (s >> count) as u16 as u64;
        let cf = ((value0 >> (count - 1)) & 0x1) == 0x1;
        *self = Flags { f_cf: cf, f_of: false, ..*self };
        self.calc_flags(result, 16);
        result
    }

    /// Arithmetic right shift of the low byte by the masked count; a zero
    /// count changes nothing.
    pub fn sar2p8(&mut self, value0: u64, value1: u64) -> (r: u64)
        requires
            value1 == 0 || (value1 & 0x1f != 0 && value1 & 0x1f < 8),
        ensures
            value1 == 0 ==> r == value0 && *final(self) == *old(self),
            value1 != 0 ==> r == sar8(value0, value1 & 0x1f) && *final(self) == old(
                self,
            ).after_shift(bit_at(value0, ((value1 & 0x1f) - 1) as u64), false, r, 8),
    {
        if value1 == 0 {
            return value0;
        }
        proof {
            lemma_count_masks(value1);
        }
        let count = value1 & 0x1f;
        let s = (value0 as u8) as i8;
        let result = (s >> count) as u8 as u64;
        let cf = ((value0 >> (count - 1)) & 0x1) == 0x1;
        *self = Flags { f_cf: cf, f_of: false, ..*self };
        self.calc_flags(result, 8);
        result
    }

    /// Arithmetic right shift of a quad word by one.
    pub fn sar1p64(&mut self, value: u64) -> (r: u64)
        ensures
            r == sar64(value, 1),
            *final(self) == old(self).after_shift(value % 2 == 1, false, r, 64),
    {
        let result = ((value as i64) >> 1u64) as u64;
        *self = Flags { f_cf: value % 2 == 1, f_of: false, ..*self };
        self.calc_flags(result, 64);
        result
    }

    /// Arithmetic right shift of the low double word by one.
    pub fn sar1p32(&mut self, value: u64) -> (r: u64)
        ensures
            r == sar32(value, 1),
            *final(self) == old(self).after_shift(value % 2 == 1, false, r, 32),
    {
        let result = (((value as u32) as i32) >> 1u64) as u32 as u64;
        *self = Flags { f_cf: value % 2 == 1, f_of: false, ..*self };
        self.calc_flags(result, 32);
        result
    }

    /// Arithmetic right shift of the low word by one.
    pub fn sar1p16(&mut self, value: u64) -> (r: u64)
        ensures
            r == sar16(value, 1),
            *final(self) == old(self).after_shift(value % 2 == 1, false, r, 16),
    {
        let result = (((value as u16) as i16) >> 1u64) as u16 as u64;
        *self = Flags { f_cf: value % 2 == 1, f_of: false, ..*self };
        self.calc_flags(result, 16);
        result
    }

    /// Right shift of the low byte by one; the byte is read without its
    /// sign, so the top bit comes in as zero.
    pub fn sar1p8(&mut self, value: u64) -> (r: u64)
        ensures
            r == (value % 0x100) / 2,
            *final(self) == old(self).after_shift(value % 2 == 1, false, r, 8),
    {
        let result = (value % 0x100) / 2;
        *self = Flags { f_cf: value % 2 == 1, f_of: false, ..*self };
        self.calc_flags(result, 8);
        result
    }

    /// Logical left shift of a quad word by the masked count; a zero count
    /// changes nothing.
    pub fn shl2p64(&mut self, value0: u64, value1: u64) -> (r: u64)
        requires
            value1 == 0 || value1 & 0x3f != 0,
        ensures
            value1 == 0 ==> r == value0 && *final(self) == *old(self),
            value1 != 0 ==> r == value0 << (value1 & 0x3f) && *final(self) == old(self).after_shift(
                bit_at(value0, (64 - (value1 & 0x3f)) as u64),
                bit_at(value0, (64 - (value1 & 0x3f)) as u64) != bit_at(r, 63),
                r,
                64,
            ),
    {
        if value1 == 0 {
            return value0;
        }
        proof {
            lemma_count_masks(value1);
        }
        let count = value1 & 0x3f;
        let result = value0 << count;
        let cf = ((value0 >> (64 - count)) & 0x1) == 0x1;
        let of = cf != (((result >> 63u64) & 0x1) == 0x1);
        *self = Flags { f_cf: cf, f_of: of, ..*self };
        self.calc_flags(result, 64);
        result
    }

    /// Logical left shift of the low double word by the masked count.
    pub fn shl2p32(&mut self, value0: u64, value1: u64) -> (r: u64)
        ensures
            value1 == 0 ==> r == value0 && *final(self) == *old(self),
            value1 != 0 ==> r == (value0 << (value1 & 0x1f)) & 0xffff_ffff && *final(self) == old(
                self,
            ).after_shift(
                bit_at(value0, (32 - (value1 & 0x1f)) as u64),
                bit_at(value0, (32 - (value1 & 0x1f)) as u64) != bit_at(r, 31),
                r,
                32,
            ),
    {
        if value1 == 0 {
            return value0;
        }
        proof {
            lemma_count_masks(value1);
        }
        let count = value1 & 0x1f;
        let result = (value0 << count) & 0xffff_ffff;
        let cf = ((value0 >> (32 - count)) & 0x1) == 0x1;
        let of = cf != (((result >> 31u64) & 0x1) == 0x1);
        *self = Flags { f_cf: cf, f_of: of, ..*self };
        self.calc_flags(result, 32);
        result
    }

    /// Logical left shift of the low word by the masked count.
    pub fn shl2p16(&mut self, value0: u64, value1: u64) -> (r: u64)
        requires
            value1 & 0x1f <= 16,
        ensures
            value1 == 0 ==> r == value0 && *final(self) == *old(self),
            value1 != 0 ==> r == (value0 << (value1 & 0x1f)) & 0xffff && *final(self) == old(
                self,
            ).after_shift(
                bit_at(value0, (16 - (value1 & 0x1f)) as u64),
                bit_at(value0, (16 - (value1 & 0x1f)) as u64) != bit_at(r, 15),
                r,
                16,
            ),
    {
        if value1 == 0 {
            return value0;
        }
        proof {
            lemma_count_masks(value1);
        }
        let count = value1 & 0x1f;
        let result = (value0 << count) & 0xffff;
        let cf = ((value0 >> (16 - count)) & 0x1) == 0x1;
        let of = cf != (((result >> 15u64) & 0x1) == 0x1);
        *self = Flags { f_cf: cf, f_of: of, ..*self };
        self.calc_flags(result, 16);
        result
    }

    /// Logical left shift of the low byte by the masked count.
    pub fn shl2p8(&mut self, value0: u64, value1: u64) -> (r: u64)
        requires
            value1 & 0x1f <= 8,
        ensures
            value1 == 0 ==> r == value0 && *final(self) == *old(self),
            value1 != 0 ==> r == (value0 << (value1 & 0x1f)) & 0xff && *final(self) == old(
                self,
            ).after_shift(
                bit_at(value0, (8 - (value1 & 0x1f)) as u64),
                bit_at(value0, (8 - (value1 & 0x1f)) as u64) != bit_at(r, 7),
                r,
                8,
            ),
    {
        if value1 == 0 {
            return value0;
        }
        proof {
            lemma_count_masks(value1);
        }
        let count = value1 & 0x1f;
        let result = (value0 << count) & 0xff;
        let cf = ((value0 >> (8 - count)) & 0x1) == 0x1;
        let of = cf != (((result >> 7u64) & 0x1) == 0x1);
        *self = Flags { f_cf: cf, f_of: of, ..*self };
        self.calc_flags(result, 8);
        result
    }

    /// Logical left shift of a quad word by one.
    pub fn shl1p64(&mut self, value: u64) -> (r: u64)
        ensures
            r == value << 1u64,
            *final(self) == old(self).after_shift(bit_at(value, 63), bit_at(value, 63) != bit_at(r, 63), r, 64),
    {
        let result = value << 1u64;
        let cf = ((value >> 63u64) & 0x1) == 0x1;
        let of = cf != (((result >> 63u64) & 0x1) == 0x1);
        *self = Flags { f_cf: cf, f_of: of, ..*self };
        self.calc_flags(result, 64);
        result
    }

    /// Logical left shift of the low double word by one: the carry flag takes the
    /// bit shifted out, the overflow flag whether it differs from the new top
    /// bit.
    pub fn shl1p32(&mut self, value: u64) -> (r: u64)
        ensures
            r == (value << 1u64) & 0xffff_ffff,
            *final(self) == old(self).after_shift(bit_at(value, 31), bit_at(value, 31) != bit_at(r, 31), r, 32),
    {
        let result = (value << 1u64) & 0xffff_ffff;
        let cf = ((value >> 31u64) & 0x1) == 0x1;
        let of = cf != (((result >> 31u64) & 0x1) == 0x1);
        *self = Flags { f_cf: cf, f_of: of, ..*self };
        self.calc_flags(result, 32);
        result
    }

    /// Logical left shift of the low word by one: the carry flag takes the
    /// bit shifted out, the overflow flag whether it differs from the new top
    /// bit.
    pub fn shl1p16(&mut self, value: u64) -> (r: u64)
        ensures
            r == (value << 1u64) & 0xffff,
            *final(self) == old(self).after_shift(bit_at(value, 15), bit_at(value, 15) != bit_at(r, 15), r, 16),
    {
        let result = (value << 1u64) & 0xffff;
        let cf = ((value >> 15u64) & 0x1) == 0x1;
        let of = cf != (((result >> 15u64) & 0x1) == 0x1);
        *self = Flags { f_cf: cf, f_of: of, ..*self };
        self.calc_flags(result, 16);
        result
    }

    /// Logical left shift of the low byte by one: the carry flag takes the
    /// bit shifted out, the overflow flag whether it differs from the new top
    /// bit.
    pub fn shl1p8(&mut self, value: u64) -> (r: u64)
        ensures
            r == (value << 1u64) & 0xff,
            *final(self) == old(self).after_shift(bit_at(value, 7), bit_at(value, 7) != bit_at(r, 7), r, 8),
    {
        let result = (value << 1u64) & 0xff;
        let cf = ((value >> 7u64) & 0x1) == 0x1;
        let of = cf != (((result >> 7u64) & 0x1) == 0x1);
        *self = Flags { f_cf: cf, f_of: of, ..*self };
        self.calc_flags(result, 8);
        result
    }

    /// Logical right shift of the quad word by the masked count; a zero count
    /// changes nothing.
    pub fn shr2p64(&mut self, value0: u64, value1: u64) -> (r: u64)
        requires
            value1 == 0 || value1 & 0x3f != 0,
        ensures
            value1 == 0 ==> r == value0 && *final(self) == *old(self),
            value1 != 0 ==> r == value0 >> (value1 & 0x3f) && *final(self) == old(self).after_shift(
                bit_at(value0, ((value1 & 0x3f) - 1) as u64),
                shr_overflow(r, 64),
                r,
                64,
            ),
    {
        if value1 == 0 {
            return value0;
        }
        proof {
            lemma_count_masks(value1);
        }
        let count = value1 & 0x3f;
        let result = value0 >> count;
        let cf = ((value0 >> (count - 1)) & 0x1) == 0x1;
        let of = ((((result << 1u64) ^ result) >> 63u64) & 0x1) == 0x1;
        *self = Flags { f_cf: cf, f_of: of, ..*self };
        self.calc_flags(result, 64);
        result
    }

    /// Logical right shift of the low double word by the masked count; a zero count
    /// changes nothing.
    pub fn shr2p32(&mut self, value0: u64, value1: u64) -> (r: u64)
        requires
            value1 == 0 || value1 & 0x1f != 0,
        ensures
            value1 == 0 ==> r == value0 && *final(self) == *old(self),
            value1 != 0 ==> r == (value0 >> (value1 & 0x1f)) & 0xffff_ffff && *final(self) == old(self).after_shift(
                bit_at(value0, ((value1 & 0x1f) - 1) as u64),
                shr_overflow(r, 32),
                r,
                32,
            ),
    {
        if value1 == 0 {
            return value0;
        }
        proof {
            lemma_count_masks(value1);
        }
        let count = value1 & 0x1f;
        let result = (value0 >> count) & 0xffff_ffff;
        let cf = ((value0 >> (count - 1)) & 0x1) == 0x1;
        let of = ((((result << 1u64) ^ result) >> 31u64) & 0x1) == 0x1;
        *self = Flags { f_cf: cf, f_of: of, ..*self };
        self.calc_flags(result, 32);
        result
    }

    /// Logical right shift of the low word by the masked count; a zero count
    /// changes nothing.
    pub fn shr2p16(&mut self, value0: u64, value1: u64) -> (r: u64)
        requires
            value1 == 0 || value1 & 0x1f != 0,
        ensures
            value1 == 0 ==> r == value0 && *final(self) == *old(self),
            value1 != 0 ==> r == (value0 >> (value1 & 0x1f)) & 0xffff && *final(self) == old(self).after_shift(
                bit_at(value0, ((value1 & 0x1f) - 1) as u64),
                shr_overflow(r, 16),
                r,
                16,
            ),
    {
        if value1 == 0 {
            return value0;
        }
        proof {
            lemma_count_masks(value1);
        }
        let count = value1 & 0x1f;
        let result = (value0 >> count) & 0xffff;
        let cf = ((value0 >> (count - 1)) & 0x1) == 0x1;
        let of = ((((result << 1u64) ^ result) >> 15u64) & 0x1) == 0x1;
        *self = Flags { f_cf: cf, f_of: of, ..*self };
        self.calc_flags(result, 16);
        result
    }

    /// Logical right shift of the low byte by the masked count; a zero count
    /// changes nothing.
    pub fn shr2p8(&mut self, value0: u64, value1: u64) -> (r: u64)
        requires
            value1 == 0 || value1 & 0x1f != 0,
        ensures
            value1 == 0 ==> r == value0 && *final(self) == *old(self),
            value1 != 0 ==> r == (value0 >> (value1 & 0x1f)) & 0xff && *final(self) == old(self).after_shift(
                bit_at(value0, ((value1 & 0x1f) - 1) as u64),
                shr_overflow(r, 8),
                r,
                8,
            ),
    {
        if value1 == 0 {
            return value0;
        }
        proof {
            lemma_count_masks(value1);
        }
        let count = value1 & 0x1f;
        let result = (value0 >> count) & 0xff;
        let cf = ((value0 >> (count - 1)) & 0x1) == 0x1;
        let of = ((((result << 1u64) ^ result) >> 7u64) & 0x1) == 0x1;
        *self = Flags { f_cf: cf, f_of: of, ..*self };
        self.calc_flags(result, 8);
        result
    }

    /// Logical right shift of the quad word by one.
    pub fn shr1p64(&mut self, value: u64) -> (r: u64)
        ensures
            r == value >> 1u64,
            *final(self) == old(self).after_shift(value % 2 == 1, shr_overflow(r, 64), r, 64),
    {
        let result = value >> 1u64;
        let cf = value % 2 == 1;
        let of = ((((result << 1u64) ^ result) >> 63u64) & 0x1) == 0x1;
        *self = Flags { f_cf: cf, f_of: of, ..*self };
        self.calc_flags(result, 64);
        result
    }

    /// Logical right shift of the low double word by one.
    pub fn shr1p32(&mut self, value: u64) -> (r: u64)
        ensures
            r == (value >> 1u64) & 0xffff_ffff,
            *final(self) == old(self).after_shift(value % 2 == 1, shr_overflow(r, 32), r, 32),
    {
        let result = (value >> 1u64) & 0xffff_ffff;
        let cf = value % 2 == 1;
        let of = ((((result << 1u64) ^ result) >> 31u64) & 0x1) == 0x1;
        *self = Flags { f_cf: cf, f_of: of, ..*self };
        self.calc_flags(result, 32);
        result
    }

    /// Logical right shift of the low word by one.
    pub fn shr1p16(&mut self, value: u64) -> (r: u64)
        ensures
            r == (value >> 1u64) & 0xffff,
            *final(self) == old(self).after_shift(value % 2 == 1, shr_overflow(r, 16), r, 16),
    {
        let result = (value >> 1u64) & 0xffff;
        let cf = value % 2 == 1;
        let of = ((((result << 1u64) ^ result) >> 15u64) & 0x1) == 0x1;
        *self = Flags { f_cf: cf, f_of: of, ..*self };
        self.calc_flags(result, 16);
        result
    }

    /// Logical right shift of the low byte by one.
    pub fn shr1p8(&mut self, value: u64) -> (r: u64)
        ensures
            r == (value >> 1u64) & 0xff,
            *final(self) == old(self).after_shift(value % 2 == 1, shr_overflow(r, 8), r, 8),
    {
        let result = (value >> 1u64) & 0xff;
        let cf = value % 2 == 1;
        let of = ((((result << 1u64) ^ result) >> 7u64) & 0x1) == 0x1;
        *self = Flags { f_cf: cf, f_of: of, ..*self };
        self.calc_flags(result, 8);
        result
    }
}

impl Flags {
    /// Flags of `value0 & value1` at the given width: carry and overflow
    /// cleared, adjust flag kept.
    pub fn test(&mut self, value0: u64, value1: u64, sz: u32)
        requires
            width_ok(sz),
        ensures
            *final(self) == (Flags {
                f_zf: value0 & value1 == 0,
                f_cf: false,
                f_of: false,
                f_pf: even_parity((value0 & value1) as int),
                f_sf: sign_set((value0 & value1) as int, sz),
                ..*old(self)
            }),
    {
        let result: u64 = value0 & value1;
        let m = width_modulus(sz);
        proof {
            lemma_parity_low_byte(result as int);
            lemma_low_def(result as int, sz);
        }
        *self = Flags {
            f_zf: result == 0,
            f_cf: false,
            f_of: false,
            f_pf: parity_of((result % 256) as u8),
            f_sf: (result as u128 % m) >= m / 2,
            ..*self
        };
    }

    /// Signed multiplication of the low parts of two values, keeping the low
    /// part of the product.
    fn imul_flags(&mut self, value0: u64, value1: u64, bits: u32) -> (r: u64)
        requires
            width_ok(bits),
        ensures
            r == low(imul_product(value0, value1, bits), bits),
            *final(self) == (Flags {
                f_cf: imul_product(value0, value1, bits) < 0 || imul_product(value0, value1, bits)
                    >= modulus(bits),
                f_of: imul_product(value0, value1, bits) < 0 || imul_product(value0, value1, bits)
                    >= modulus(bits),
                ..*old(self)
            }),
    {
        let a = signed_low(value0, bits);
        let b = signed_low(value1, bits);
        proof {
            assert(-0x8000_0000_0000_0000 <= a <= 0x8000_0000_0000_0000 && -0x8000_0000_0000_0000
                <= b <= 0x8000_0000_0000_0000 ==> -0x4000_0000_0000_0000_0000_0000_0000_0000 <= a
                * b <= 0x4000_0000_0000_0000_0000_0000_0000_0000) by (nonlinear_arith);
        }
        let p: i128 = a * b;
        let m = width_modulus(bits);
        let over = p < 0 || p >= m as i128;
        let res: u64 = if p >= 0 {
            proof {
                lemma_low_def(p as int, bits);
            }
            (p as u128 % m) as u64
        } else {
            proof {
                lemma_low_negative(p as int, bits);
            }
            let q: u128 = (-p) as u128 % m;
            if q == 0 {
                0
            } else {
                (m - q) as u64
            }
        };
        *self = Flags { f_cf: over, f_of: over, ..*self };
        res
    }

    /// Two operand signed multiplication of quad words; carry and overflow
    /// are set when the product is negative or does not fit in 64 bits.
    pub fn imul64p2(&mut self, value0: u64, value1: u64) -> (r: u64)
        ensures
            r == low(imul_product(value0, value1, 64), 64),
            *final(self) == (Flags {
                f_cf: imul_product(value0, value1, 64) < 0 || imul_product(value0, value1, 64)
                    >= modulus(64),
                f_of: imul_product(value0, value1, 64) < 0 || imul_product(value0, value1, 64)
                    >= modulus(64),
                ..*old(self)
            }),
    {
        self.imul_flags(value0, value1, 64)
    }

    /// Two operand signed multiplication of the low double words.
    pub fn imul32p2(&mut self, value0: u64, value1: u64) -> (r: u64)
        ensures
            r == low(imul_product(value0, value1, 32), 32),
            *final(self) == (Flags {
                f_cf: imul_product(value0, value1, 32) < 0 || imul_product(value0, value1, 32)
                    >= modulus(32),
                f_of: imul_product(value0, value1, 32) < 0 || imul_product(value0, value1, 32)
                    >= modulus(32),
                ..*old(self)
            }),
    {
        self.imul_flags(value0, value1, 32)
    }

    /// Two operand signed multiplication of the low words.
    pub fn imul16p2(&mut self, value0: u64, value1: u64) -> (r: u64)
        ensures
            r == low(imul_product(value0, value1, 16), 16),
            *final(self) == (Flags {
                f_cf: imul_product(value0, value1, 16) < 0 || imul_product(value0, value1, 16)
                    >= modulus(16),
                f_of: imul_product(value0, value1, 16) < 0 || imul_product(value0, value1, 16)
                    >= modulus(16),
                ..*old(self)
            }),
    {
        self.imul_flags(value0, value1, 16)
    }

    /// Two operand signed multiplication of the low bytes.
    pub fn imul8p2(&mut self, value0: u64, value1: u64) -> (r: u64)
        ensures
            r == low(imul_product(value0, value1, 8), 8),
            *final(self) == (Flags {
                f_cf: imul_product(value0, value1, 8) < 0 || imul_product(value0, value1, 8)
                    >= modulus(8),
                f_of: imul_product(value0, value1, 8) < 0 || imul_product(value0, value1, 8)
                    >= modulus(8),
                ..*old(self)
            }),
    {
        self.imul_flags(value0, value1, 8)
    }

    /// Carry and overflow of a rotation through carry to the right; the
    /// overflow flag is bit 63 of `res ^ (res << 1)`.
    pub fn rcr_of_and_cf(&mut self, value0: u64, value1: u64, sz: u32)
        requires
            1 <= value1 & 0x3f,
            1 <= sz <= 64,
            value1 & 0x3f != 1 ==> value1 & 0x3f <= sz && sz + 1 - (value1 & 0x3f) < 64,
        ensures
            *final(self) == (Flags {
                f_cf: bit_at(value0, ((value1 & 0x3f) - 1) as u64),
                f_of: ((rcr_bits(value0, old(self).f_cf, value1 & 0x3f, sz) ^ (rcr_bits(
                    value0,
                    old(self).f_cf,
                    value1 & 0x3f,
                    sz,
                ) << 1u64)) >> 63u64) == 1,
                ..*old(self)
            }),
    {
        proof {
            lemma_count_masks(value1);
        }
        let count = value1 & 0x3f;
        let c: u64 = if self.f_cf { 1 } else { 0 };
        let res = if count == 1 {
            (value0 >> 1u64) | (c << (sz - 1) as u64)
        } else {
            (value0 >> count) | (c << (sz as u64 - count)) | (value0 << ((sz + 1) as u64 - count))
        };
        let cf = ((value0 >> (count - 1)) & 1) == 1;
        let of = ((res ^ (res << 1u64)) >> 63u64) == 1;
        *self = Flags { f_cf: cf, f_of: of, ..*self };
    }

    /// Rotation through carry to the right by the masked count, masked to
    /// the width; the carry flag takes the last bit rotated out, the
    /// overflow flag is set for a count of one only.
    pub fn rcr(&mut self, value0: u64, value1: u64, sz: u32) -> (r: u64)
        requires
            sz <= 64,
            rot_count(value1, sz) == 1 ==> sz >= 1,
            rot_count(value1, sz) >= 2 ==> rot_count(value1, sz) <= sz,
        ensures
            rot_count(value1, sz) == 0 ==> r == value0 & low_mask(sz) && *final(self) == *old(self),
            rot_count(value1, sz) != 0 ==> r == rcr_bits(
                value0,
                old(self).f_cf,
                rot_count(value1, sz),
                sz,
            ) & low_mask(sz) && *final(self) == (Flags {
                f_cf: bit_at(value0, (rot_count(value1, sz) - 1) as u64),
                f_of: if rot_count(value1, sz) == 1 {
                    (((r ^ (r << 1u64)) >> (sz - 1) as u64) & 1) != 0
                } else {
                    old(self).f_of
                },
                ..*old(self)
            }),
    {
        proof {
            lemma_count_masks(value1);
        }
        let count = if sz == 64 { value1 & 0x3f } else { value1 & 0x1f };
        proof {
            if sz < 64 {
                lemma_one_shl(sz);
            }
        }
        let pow: u64 = if sz == 64 { 0xffff_ffff_ffff_ffff } else { (1u64 << sz) - 1 };
        if count == 0 {
            return value0 & pow;
        }
        let c: u64 = if self.f_cf { 1 } else { 0 };
        let rotated = if count == 1 {
            (value0 >> 1u64) | (c << (sz - 1) as u64)
        } else {
            (value0 >> count) | (c << (sz as u64 - count)) | (value0 << (sz as u64 + 1 - count))
        };
        let res = rotated & pow;
        let cf = ((value0 >> (count - 1)) & 1) == 1;
        let of = if count == 1 {
            (((res ^ (res << 1u64)) >> (sz - 1) as u64) & 1) != 0
        } else {
            self.f_of
        };
        *self = Flags { f_cf: cf, f_of: of, ..*self };
        res
    }

    /// The earlier rotation through carry to the right: always sets the carry
    /// flag, and sets the overflow flag from bit `sz - 1` of
    /// `res ^ (res << 1)`.
    pub fn rcr_prev(&mut self, value0: u64, value1: u64, sz: u32) -> (r: u64)
        requires
            1 <= sz < 64,
            1 <= value1 & 0x1f <= sz,
        ensures
            r == rcr_bits(value0, old(self).f_cf, value1 & 0x1f, sz) & low_mask(sz),
            *final(self) == (Flags {
                f_cf: bit_at(value0, ((value1 & 0x1f) - 1) as u64),
                f_of: ((r ^ (r << 1u64)) >> (sz - 1) as u64) == 1,
                ..*old(self)
            }),
    {
        proof {
            lemma_count_masks(value1);
        }
        let count = value1 & 0x1f;
        proof {
            lemma_one_shl(sz);
        }
        let pow: u64 = (1u64 << sz) - 1;
        let c: u64 = if self.f_cf { 1 } else { 0 };
        let res = if count == 1 {
            ((value0 >> 1u64) | (c << (sz - 1) as u64)) & pow
        } else {
            ((value0 >> count) | (c << (sz as u64 - count)) | (value0 << ((sz + 1) as u64
                - count))) & pow
        };
        let cf = ((value0 >> (count - 1)) & 1) == 1;
        let of = ((res ^ (res << 1u64)) >> (sz - 1) as u64) == 1;
        *self = Flags { f_cf: cf, f_of: of, ..*self };
        res
    }

    /// Rotation through carry to the left by the masked count; the carry
    /// flag takes the last bit rotated out, the overflow flag is set for a
    /// count of one only.
    pub fn rcl(&mut self, value0: u64, value1: u64, sz: u32) -> (r: u64)
        requires
            sz <= 64,
            rot_count(value1, sz) != 0 && sz != 64 ==> 1 <= sz <= 62 && rot_count(value1, sz)
                <= sz + 1,
        ensures
            rot_count(value1, sz) == 0 ==> r == value0 & low_mask(sz) && *final(self) == *old(self),
            rot_count(value1, sz) != 0 && sz == 64 ==> r == (rcl65(
                value0,
                old(self).f_cf,
                rot_count(value1, sz),
            ) >> 1u128) as u64 && *final(self) == (Flags {
                f_cf: rcl65(value0, old(self).f_cf, rot_count(value1, sz)) & 1 != 0,
                f_of: if rot_count(value1, sz) == 1 {
                    (rcl65(value0, old(self).f_cf, rot_count(value1, sz)) & 1 != 0) != ((r
                        >> 63u64) & 1 != 0)
                } else {
                    old(self).f_of
                },
                ..*old(self)
            }),
            rot_count(value1, sz) != 0 && sz != 64 ==> r == (rcl_narrow(
                value0,
                old(self).f_cf,
                rot_count(value1, sz),
                sz,
            ) >> 1u64) & low_mask(sz) && *final(self) == (Flags {
                f_cf: rcl_narrow(value0, old(self).f_cf, rot_count(value1, sz), sz) & 1 != 0,
                f_of: if rot_count(value1, sz) == 1 {
                    (rcl_narrow(value0, old(self).f_cf, rot_count(value1, sz), sz) & 1 != 0) != ((r
                        >> (sz - 1) as u64) & 1 != 0)
                } else {
                    old(self).f_of
                },
                ..*old(self)
            }),
    {
        proof {
            lemma_count_masks(value1);
        }
        proof {
            if sz < 64 {
                lemma_one_shl(sz);
            }
            if sz <= 62 {
                lemma_one_shl((sz + 1) as u32);
            }
        }
        let count = if sz == 64 { value1 & 0x3f } else { value1 & 0x1f };
        if count == 0 {
            let pow: u64 = if sz == 64 { 0xffff_ffff_ffff_ffff } else { (1u64 << sz) - 1 };
            return value0 & pow;
        }
        let c: u64 = if self.f_cf { 1 } else { 0 };
        if sz == 64 {
            let extended: u128 = ((value0 as u128) << 1u128) | (c as u128);
            let rotated: u128 = ((extended << count as u128) | (extended >> (65 - count) as u128))
                & 0x1_ffff_ffff_ffff_ffffu128;
            let res: u64 = (rotated >> 1u128) as u64;
            let cf = (rotated & 1) != 0;
            let of = if count == 1 {
                cf != ((res >> 63u64) & 1 != 0)
            } else {
                self.f_of
            };
            *self = Flags { f_cf: cf, f_of: of, ..*self };
            res
        } else {
            let pow: u64 = (1u64 << sz) - 1;
            let extended: u64 = ((value0 & pow) << 1u64) | c;
            let rotated: u64 = ((extended << count) | (extended >> (sz as u64 + 1 - count))) & (((1u64
                << (sz + 1) as u64) - 1) as u64);
            let res = (rotated >> 1u64) & pow;
            let cf = (rotated & 1) != 0;
            let of = if count == 1 {
                cf != ((res >> (sz - 1) as u64) & 1 != 0)
            } else {
                self.f_of
            };
            *self = Flags { f_cf: cf, f_of: of, ..*self };
            res
        }
    }

    /// Rotation to the right by the masked count; only the bits shifted in
    /// from the left are masked. The carry flag takes bit `sz - 1` of the
    /// result and the overflow flag whether bits `sz - 1` and `sz - 2` differ.
    pub fn ror(&mut self, value0: u64, value1: u64, sz: u32) -> (r: u64)
        requires
            2 <= sz <= 64,
            rot_count(value1, sz) <= sz,
            sz - rot_count(value1, sz) < 64,
        ensures
            r == (value0 >> rot_count(value1, sz)) | ((value0 << (sz - rot_count(value1, sz)) as u64)
                & rot_mask(sz)),
            *final(self) == (Flags {
                f_cf: bit_at(r, (sz - 1) as u64),
                f_of: (r >> (sz - 1) as u64) & 1 != (r >> (sz - 2) as u64) & 1,
                ..*old(self)
            }),
    {
        proof {
            lemma_count_masks(value1);
        }
        let mask: u64 = if sz == 64 { 0x3f } else { 0x1f };
        let res_mask: u64 = if sz == 64 {
            0xffff_ffff_ffff_ffff
        } else if sz == 32 {
            0xffff_ffff
        } else if sz == 16 {
            0xffff
        } else {
            0xff
        };
        let count = value1 & mask;
        let res = (value0 >> count) | ((value0 << (sz as u64 - count)) & res_mask);
        let bit63 = (res >> (sz - 1) as u64) & 1;
        let bit62 = (res >> (sz - 2) as u64) & 1;
        *self = Flags { f_cf: bit63 == 1, f_of: bit63 != bit62, ..*self };
        res
    }

    /// Rotation to the left by the masked count, masked to the width; the
    /// carry flag takes bit 0 of the result and the overflow flag is
    /// `cf ^ (res >> (sz - 1)) == 1`.
    pub fn rol(&mut self, value0: u64, value1: u64, sz: u32) -> (r: u64)
        requires
            1 <= sz <= 64,
            rot_count(value1, sz) <= sz,
            sz - rot_count(value1, sz) < 64,
        ensures
            r == ((value0 << rot_count(value1, sz)) | (value0 >> (sz - rot_count(value1, sz)) as u64))
                & rot_mask(sz),
            *final(self) == (Flags {
                f_cf: r & 1 == 1,
                f_of: (bit(r & 1 == 1) ^ (r >> (sz - 1) as u64)) == 1,
                ..*old(self)
            }),
    {
        proof {
            lemma_count_masks(value1);
        }
        let mask: u64 = if sz == 64 { 0x3f } else { 0x1f };
        let res_mask: u64 = if sz == 64 {
            0xffff_ffff_ffff_ffff
        } else if sz == 32 {
            0xffff_ffff
        } else if sz == 16 {
            0xffff
        } else {
            0xff
        };
        let count = value1 & mask;
        let res = ((value0 << count) | (value0 >> (sz as u64 - count))) & res_mask;
        let cf = (res & 0x1) == 1;
        let c: u64 = if cf { 1 } else { 0 };
        *self = Flags { f_cf: cf, f_of: (c ^ (res >> (sz - 1) as u64)) == 1, ..*self };
        res
    }
}

/// `true` or `false`, as text.
pub open spec fn bool_text(b: bool) -> Seq<char> {
    if b {
        "true"@
    } else {
        "false"@
    }
}

/// The text of one changed flag, `name: old -> new `, or nothing when the
/// flag did not change.
#[verifier::opaque]
pub open spec fn change_text(name: Seq<char>, x: bool, y: bool) -> Seq<char> {
    if x != y {
        name + ": "@ + bool_text(x) + " -> "@ + bool_text(y) + " "@
    } else {
        Seq::empty()
    }
}

/// The changes from `a` to `b` among the status and control flags, from
/// carry to overflow.
pub open spec fn diff_status_text(a: Flags, b: Flags) -> Seq<char> {
    Seq::empty()
        + change_text("cf"@, a.f_cf, b.f_cf)
        + change_text("pf"@, a.f_pf, b.f_pf)
        + change_text("af"@, a.f_af, b.f_af)
        + change_text("zf"@, a.f_zf, b.f_zf)
        + change_text("sf"@, a.f_sf, b.f_sf)
        + change_text("tf"@, a.f_tf, b.f_tf)
        + change_text("if"@, a.f_if, b.f_if)
        + change_text("df"@, a.f_df, b.f_df)
        + change_text("of"@, a.f_of, b.f_of)
}

/// The changes from `a` to `b` among the system flags, from the privilege
/// level bits to the identification flag.
pub open spec fn diff_system_text(a: Flags, b: Flags) -> Seq<char> {
    Seq::empty()
        + change_text("iopl1"@, a.f_iopl1, b.f_iopl1)
        + change_text("iopl2"@, a.f_iopl2, b.f_iopl2)
        + change_text("nt"@, a.f_nt, b.f_nt)
        + change_text("rf"@, a.f_rf, b.f_rf)
        + change_text("vm"@, a.f_vm, b.f_vm)
        + change_text("ac"@, a.f_ac, b.f_ac)
        + change_text("vif"@, a.f_vif, b.f_vif)
        + change_text("vip"@, a.f_vip, b.f_vip)
        + change_text("id"@, a.f_id, b.f_id)
}

/// The changes from `a` to `b`, flag by flag in register order.
pub open spec fn diff_text(a: Flags, b: Flags) -> Seq<char> {
    diff_status_text(a, b) + diff_system_text(a, b)
}

/// The names of the set status and control flags, as the trace shows them:
/// `[ ` then `CF `, `PF `, `AF `, `ZF `, `SF `, `TF `, `IF `, `DF `, `OF `
/// for each flag that is set, then `]`.
pub open spec fn trace_text(f: Flags) -> Seq<char> {
    "[ "@
        + (if f.f_cf { "CF "@ } else { Seq::empty() })
        + (if f.f_pf { "PF "@ } else { Seq::empty() })
        + (if f.f_af { "AF "@ } else { Seq::empty() })
        + (if f.f_zf { "ZF "@ } else { Seq::empty() })
        + (if f.f_sf { "SF "@ } else { Seq::empty() })
        + (if f.f_tf { "TF "@ } else { Seq::empty() })
        + (if f.f_if { "IF "@ } else { Seq::empty() })
        + (if f.f_df { "DF "@ } else { Seq::empty() })
        + (if f.f_of { "OF "@ } else { Seq::empty() })
        + "]"@
}

fn push_change(out: &mut String, name: &str, x: bool, y: bool)
    ensures
        final(out)@ == old(out)@ + change_text(name@, x, y),
{
    reveal(change_text);
    if x != y {
        let ghost before = out@;
        out.append(name);
        out.append(": ");
        out.append(if x { "true" } else { "false" });
        out.append(" -> ");
        out.append(if y { "true" } else { "false" });
        out.append(" ");
        assert(out@ =~= before + change_text(name@, x, y));
    } else {
        assert(out@ =~= out@ + Seq::<char>::empty());
    }
}

fn status_changes(a: Flags, b: Flags) -> (s: String)
    ensures
        s@ === diff_status_text(a, b),
{
    let mut s = String::new();
    push_change(&mut s, "cf", a.f_cf, b.f_cf);
    push_change(&mut s, "pf", a.f_pf, b.f_pf);
    push_change(&mut s, "af", a.f_af, b.f_af);
    push_change(&mut s, "zf", a.f_zf, b.f_zf);
    push_change(&mut s, "sf", a.f_sf, b.f_sf);
    push_change(&mut s, "tf", a.f_tf, b.f_tf);
    push_change(&mut s, "if", a.f_if, b.f_if);
    push_change(&mut s, "df", a.f_df, b.f_df);
    push_change(&mut s, "of", a.f_of, b.f_of);
    s
}

fn system_changes(a: Flags, b: Flags) -> (s: String)
    ensures
        s@ === diff_system_text(a, b),
{
    let mut s = String::new();
    push_change(&mut s, "iopl1", a.f_iopl1, b.f_iopl1);
    push_change(&mut s, "iopl2", a.f_iopl2, b.f_iopl2);
    push_change(&mut s, "nt", a.f_nt, b.f_nt);
    push_change(&mut s, "rf", a.f_rf, b.f_rf);
    push_change(&mut s, "vm", a.f_vm, b.f_vm);
    push_change(&mut s, "ac", a.f_ac, b.f_ac);
    push_change(&mut s, "vif", a.f_vif, b.f_vif);
    push_change(&mut s, "vip", a.f_vip, b.f_vip);
    push_change(&mut s, "id", a.f_id, b.f_id);
    s
}

impl Flags {
    /// The flags that differ between `a` and `b`, each as
    /// `name: old -> new `, in register order.
    pub fn diff(a: Flags, b: Flags) -> (output: String)
        ensures
            output@ == diff_text(a, b),
    {
        let mut output = status_changes(a, b);
        let system = system_changes(a, b);
        output.append(system.as_str());
        output
    }

    /// The set status and control flags by name, as the trace line shows them.
    pub fn trace_names(&self) -> (fs: String)
        ensures
            fs@ == trace_text(*self),
    {
        let mut fs = String::from_str("[ ");
        if self.f_cf {
            fs.append("CF ");
        } else {
            proof {
                assert(fs@ =~= fs@ + Seq::<char>::empty());
            }
        }
        if self.f_pf {
            fs.append("PF ");
        } else {
            proof {
                assert(fs@ =~= fs@ + Seq::<char>::empty());
            }
        }
        if self.f_af {
            fs.append("AF ");
        } else {
            proof {
                assert(fs@ =~= fs@ + Seq::<char>::empty());
            }
        }
        if self.f_zf {
            fs.append("ZF ");
        } else {
            proof {
                assert(fs@ =~= fs@ + Seq::<char>::empty());
            }
        }
        if self.f_sf {
            fs.append("SF ");
        } else {
            proof {
                assert(fs@ =~= fs@ + Seq::<char>::empty());
            }
        }
        if self.f_tf {
            fs.append("TF ");
        } else {
            proof {
                assert(fs@ =~= fs@ + Seq::<char>::empty());
            }
        }
        if self.f_if {
            fs.append("IF ");
        } else {
            proof {
                assert(fs@ =~= fs@ + Seq::<char>::empty());
            }
        }
        if self.f_df {
            fs.append("DF ");
        } else {
            proof {
                assert(fs@ =~= fs@ + Seq::<char>::empty());
            }
        }
        if self.f_of {
            fs.append("OF ");
        } else {
            proof {
                assert(fs@ =~= fs@ + Seq::<char>::empty());
            }
        }
        fs.append("]");
        fs
    }
}

proof fn lemma_word_fields(w: u32, b0: bool, b1: bool, b2: bool, b3: bool, b4: bool, b5: bool, b6: bool, b7: bool, b8: bool, b9: bool, b10: bool, b11: bool, b12: bool, b13: bool, b14: bool, b15: bool, b16: bool, b17: bool)
    by (bit_vector)
    requires
        w == (if b0 { 0x1u32 } else { 0u32 }) | 0x2u32 | (if b1 { 0x4u32 } else { 0u32 }) | (if b2 { 0x10u32 } else { 0u32 }) | (if b3 { 0x40u32 } else { 0u32 }) | (if b4 { 0x80u32 } else { 0u32 }) | (if b5 { 0x100u32 } else { 0u32 }) | (if b6 { 0x200u32 } else { 0u32 }) | (if b7 { 0x400u32 } else { 0u32 }) | (if b8 { 0x800u32 } else { 0u32 }) | (if b9 { 0x1000u32 } else { 0u32 }) | (if b10 { 0x2000u32 } else { 0u32 }) | (if b11 { 0x4000u32 } else { 0u32 }) | (if b12 { 0x10000u32 } else { 0u32 }) | (if b13 { 0x20000u32 } else { 0u32 }) | (if b14 { 0x40000u32 } else { 0u32 }) | (if b15 { 0x80000u32 } else { 0u32 }) | (if b16 { 0x100000u32 } else { 0u32 }) | (if b17 { 0x200000u32 } else { 0u32 }),
    ensures
        (w & 0x1u32 != 0) == b0,
        (w & 0x4u32 != 0) == b1,
        (w & 0x10u32 != 0) == b2,
        (w & 0x40u32 != 0) == b3,
        (w & 0x80u32 != 0) == b4,
        (w & 0x100u32 != 0) == b5,
        (w & 0x200u32 != 0) == b6,
        (w & 0x400u32 != 0) == b7,
        (w & 0x800u32 != 0) == b8,
        (w & 0x1000u32 != 0) == b9,
        (w & 0x2000u32 != 0) == b10,
        (w & 0x4000u32 != 0) == b11,
        (w & 0x10000u32 != 0) == b12,
        (w & 0x20000u32 != 0) == b13,
        (w & 0x40000u32 != 0) == b14,
        (w & 0x80000u32 != 0) == b15,
        (w & 0x100000u32 != 0) == b16,
        (w & 0x200000u32 != 0) == b17,
        w & 0x2u32 != 0,
{
}

proof fn lemma_fields_word(w: u32)
    by (bit_vector)
    ensures
        (if (w & 0x1u32 != 0) { 0x1u32 } else { 0u32 }) | 0x2u32 | (if (w & 0x4u32 != 0) { 0x4u32 } else { 0u32 }) | (if (w & 0x10u32 != 0) { 0x10u32 } else { 0u32 }) | (if (w & 0x40u32 != 0) { 0x40u32 } else { 0u32 }) | (if (w & 0x80u32 != 0) { 0x80u32 } else { 0u32 }) | (if (w & 0x100u32 != 0) { 0x100u32 } else { 0u32 }) | (if (w & 0x200u32 != 0) { 0x200u32 } else { 0u32 }) | (if (w & 0x400u32 != 0) { 0x400u32 } else { 0u32 }) | (if (w & 0x800u32 != 0) { 0x800u32 } else { 0u32 }) | (if (w & 0x1000u32 != 0) { 0x1000u32 } else { 0u32 }) | (if (w & 0x2000u32 != 0) { 0x2000u32 } else { 0u32 }) | (if (w & 0x4000u32 != 0) { 0x4000u32 } else { 0u32 }) | (if (w & 0x10000u32 != 0) { 0x10000u32 } else { 0u32 }) | (if (w & 0x20000u32 != 0) { 0x20000u32 } else { 0u32 }) | (if (w & 0x40000u32 != 0) { 0x40000u32 } else { 0u32 }) | (if (w & 0x80000u32 != 0) { 0x80000u32 } else { 0u32 }) | (if (w & 0x100000u32 != 0) { 0x100000u32 } else { 0u32 }) | (if (w & 0x200000u32 != 0) { 0x200000u32 } else { 0u32 }) == (w & 0x3F_7FD5u32) | 0x2u32,
{
}

/// Rotating a value of the width right by `c` and back left by `c` gives
/// it back, for each width.
proof fn lemma_rotate_back(v: u64, c: u64)
    by (bit_vector)
    ensures
        v < 0x100 && 0 < c < 8 ==> (((((v >> c) | ((v << ((8u64 - c) as u64)) & 0xffu64)) << c) | (((v >> c) | ((v << ((8u64 - c) as u64)) & 0xffu64)) >> ((8u64 - c) as u64))) & 0xffu64) == v,
        v < 0x10000 && 0 < c < 16 ==> (((((v >> c) | ((v << ((16u64 - c) as u64)) & 0xffffu64)) << c) | (((v >> c) | ((v << ((16u64 - c) as u64)) & 0xffffu64)) >> ((16u64 - c) as u64))) & 0xffffu64) == v,
        v < 0x1_0000_0000 && 0 < c < 32 ==> (((((v >> c) | ((v << ((32u64 - c) as u64)) & 0xffff_ffffu64)) << c) | (((v >> c) | ((v << ((32u64 - c) as u64)) & 0xffff_ffffu64)) >> ((32u64 - c) as u64))) & 0xffff_ffffu64) == v,
        0 < c < 64 ==> (((((v >> c) | ((v << ((64u64 - c) as u64)) & 0xffff_ffff_ffff_ffffu64)) << c) | (((v >> c) | ((v << ((64u64 - c) as u64)) & 0xffff_ffff_ffff_ffffu64)) >> ((64u64 - c) as u64))) & 0xffff_ffff_ffff_ffffu64) == v,
{
}

/// Rotating right by a count below the width and then left by the same
/// count gives the value back; the rotation right stays in the width.
pub proof fn lemma_rol_of_ror(v: u64, c: u64, sz: u32)
    requires
        sz == 8 || sz == 16 || sz == 32 || sz == 64,
        0 < c < sz,
        sz == 64 || v <= rot_mask(sz),
    ensures
        ({
            let n = rot_count(c, sz);
            let y = (v >> n) | ((v << (sz - n) as u64) & rot_mask(sz));
            &&& y <= rot_mask(sz)
            &&& ((y << rot_count(c, sz)) | (y >> (sz - rot_count(c, sz)) as u64)) & rot_mask(sz) == v
        }),
{
    assert(c & 0x1f == c && c & 0x3f == c || sz == 64 && c & 0x3f == c) by (bit_vector)
        requires
            c < 64,
            sz == 64 || c < 32;
    lemma_rotate_back(v, c);
    let m = rot_mask(sz);
    let n = rot_count(c, sz);
    let y = (v >> n) | ((v << (sz - n) as u64) & m);
    assert(y <= m) by (bit_vector)
        requires
            y == (v >> n) | ((v << ((sz - n) as u64)) & m),
            m == 0xff || m == 0xffff || m == 0xffff_ffff || m == 0xffff_ffff_ffff_ffff,
            v <= m;
}

/// Loading the word that `dump` packs gives back every flag.
#[verifier::spinoff_prover]
pub proof fn lemma_load_of_dump(f: Flags)
    ensures
        Flags::from_eflags_word(f.eflags_word()) == f,
{
    assert(f.eflags_word() == (if f.f_cf { 0x1u32 } else { 0u32 }) | 0x2u32 | (if f.f_pf { 0x4u32 } else { 0u32 }) | (if f.f_af { 0x10u32 } else { 0u32 }) | (if f.f_zf { 0x40u32 } else { 0u32 }) | (if f.f_sf { 0x80u32 } else { 0u32 }) | (if f.f_tf { 0x100u32 } else { 0u32 }) | (if f.f_if { 0x200u32 } else { 0u32 }) | (if f.f_df { 0x400u32 } else { 0u32 }) | (if f.f_of { 0x800u32 } else { 0u32 }) | (if f.f_iopl1 { 0x1000u32 } else { 0u32 }) | (if f.f_iopl2 { 0x2000u32 } else { 0u32 }) | (if f.f_nt { 0x4000u32 } else { 0u32 }) | (if f.f_rf { 0x10000u32 } else { 0u32 }) | (if f.f_vm { 0x20000u32 } else { 0u32 }) | (if f.f_ac { 0x40000u32 } else { 0u32 }) | (if f.f_vif { 0x80000u32 } else { 0u32 }) | (if f.f_vip { 0x100000u32 } else { 0u32 }) | (if f.f_id { 0x200000u32 } else { 0u32 })) by {
        reveal(Flags::eflags_word);
    }
    lemma_word_fields(f.eflags_word(), f.f_cf, f.f_pf, f.f_af, f.f_zf, f.f_sf, f.f_tf, f.f_if, f.f_df, f.f_of, f.f_iopl1, f.f_iopl2, f.f_nt, f.f_rf, f.f_vm, f.f_ac, f.f_vif, f.f_vip, f.f_id);
}

/// Packing the flags that `load` sets gives back the loaded word with the
/// reserved bits cleared and bit 1 set.
#[verifier::spinoff_prover]
pub proof fn lemma_dump_of_load(w: u32)
    ensures
        Flags::from_eflags_word(w).eflags_word() == (w & 0x3F_7FD5u32) | 0x2u32,
{
    let g = Flags::from_eflags_word(w);
    assert(g.eflags_word() == (if g.f_cf { 0x1u32 } else { 0u32 }) | 0x2u32 | (if g.f_pf { 0x4u32 } else { 0u32 }) | (if g.f_af { 0x10u32 } else { 0u32 }) | (if g.f_zf { 0x40u32 } else { 0u32 }) | (if g.f_sf { 0x80u32 } else { 0u32 }) | (if g.f_tf { 0x100u32 } else { 0u32 }) | (if g.f_if { 0x200u32 } else { 0u32 }) | (if g.f_df { 0x400u32 } else { 0u32 }) | (if g.f_of { 0x800u32 } else { 0u32 }) | (if g.f_iopl1 { 0x1000u32 } else { 0u32 }) | (if g.f_iopl2 { 0x2000u32 } else { 0u32 }) | (if g.f_nt { 0x4000u32 } else { 0u32 }) | (if g.f_rf { 0x10000u32 } else { 0u32 }) | (if g.f_vm { 0x20000u32 } else { 0u32 }) | (if g.f_ac { 0x40000u32 } else { 0u32 }) | (if g.f_vif { 0x80000u32 } else { 0u32 }) | (if g.f_vip { 0x100000u32 } else { 0u32 }) | (if g.f_id { 0x200000u32 } else { 0u32 })) by {
        reveal(Flags::eflags_word);
    }
    lemma_fields_word(w);
}

/// Every flag sits at its architectural bit of the EFLAGS word, both in
/// what `load` sets from a word and in the word that `dump` packs: carry
/// 0, parity 2, adjust 4, zero 6, sign 7, trap 8, interrupt 9, direction
/// 10, overflow 11, I/O privilege level 12 and 13, nested task 14, resume
/// 16, virtual 8086 17, alignment check 18, virtual interrupt 19, virtual
/// interrupt pending 20, identification 21; bit 1 is always set in a
/// packed word.
pub proof fn lemma_eflags_bit_positions(f: Flags, w: u32)
    ensures
        Flags::from_eflags_word(w).f_cf == (w & 0x1u32 != 0),
        Flags::from_eflags_word(w).f_pf == (w & 0x4u32 != 0),
        Flags::from_eflags_word(w).f_af == (w & 0x10u32 != 0),
        Flags::from_eflags_word(w).f_zf == (w & 0x40u32 != 0),
        Flags::from_eflags_word(w).f_sf == (w & 0x80u32 != 0),
        Flags::from_eflags_word(w).f_tf == (w & 0x100u32 != 0),
        Flags::from_eflags_word(w).f_if == (w & 0x200u32 != 0),
        Flags::from_eflags_word(w).f_df == (w & 0x400u32 != 0),
        Flags::from_eflags_word(w).f_of == (w & 0x800u32 != 0),
        Flags::from_eflags_word(w).f_iopl1 == (w & 0x1000u32 != 0),
        Flags::from_eflags_word(w).f_iopl2 == (w & 0x2000u32 != 0),
        Flags::from_eflags_word(w).f_nt == (w & 0x4000u32 != 0),
        Flags::from_eflags_word(w).f_rf == (w & 0x10000u32 != 0),
        Flags::from_eflags_word(w).f_vm == (w & 0x20000u32 != 0),
        Flags::from_eflags_word(w).f_ac == (w & 0x40000u32 != 0),
        Flags::from_eflags_word(w).f_vif == (w & 0x80000u32 != 0),
        Flags::from_eflags_word(w).f_vip == (w & 0x100000u32 != 0),
        Flags::from_eflags_word(w).f_id == (w & 0x200000u32 != 0),
        (f.eflags_word() & 0x1u32 != 0) == f.f_cf,
        (f.eflags_word() & 0x4u32 != 0) == f.f_pf,
        (f.eflags_word() & 0x10u32 != 0) == f.f_af,
        (f.eflags_word() & 0x40u32 != 0) == f.f_zf,
        (f.eflags_word() & 0x80u32 != 0) == f.f_sf,
        (f.eflags_word() & 0x100u32 != 0) == f.f_tf,
        (f.eflags_word() & 0x200u32 != 0) == f.f_if,
        (f.eflags_word() & 0x400u32 != 0) == f.f_df,
        (f.eflags_word() & 0x800u32 != 0) == f.f_of,
        (f.eflags_word() & 0x1000u32 != 0) == f.f_iopl1,
        (f.eflags_word() & 0x2000u32 != 0) == f.f_iopl2,
        (f.eflags_word() & 0x4000u32 != 0) == f.f_nt,
        (f.eflags_word() & 0x10000u32 != 0) == f.f_rf,
        (f.eflags_word() & 0x20000u32 != 0) == f.f_vm,
        (f.eflags_word() & 0x40000u32 != 0) == f.f_ac,
        (f.eflags_word() & 0x80000u32 != 0) == f.f_vif,
        (f.eflags_word() & 0x100000u32 != 0) == f.f_vip,
        (f.eflags_word() & 0x200000u32 != 0) == f.f_id,
        f.eflags_word() & 0x2u32 != 0,
{
    assert(f.eflags_word() == (if f.f_cf { 0x1u32 } else { 0u32 }) | 0x2u32 | (if f.f_pf { 0x4u32 } else { 0u32 }) | (if f.f_af { 0x10u32 } else { 0u32 }) | (if f.f_zf { 0x40u32 } else { 0u32 }) | (if f.f_sf { 0x80u32 } else { 0u32 }) | (if f.f_tf { 0x100u32 } else { 0u32 }) | (if f.f_if { 0x200u32 } else { 0u32 }) | (if f.f_df { 0x400u32 } else { 0u32 }) | (if f.f_of { 0x800u32 } else { 0u32 }) | (if f.f_iopl1 { 0x1000u32 } else { 0u32 }) | (if f.f_iopl2 { 0x2000u32 } else { 0u32 }) | (if f.f_nt { 0x4000u32 } else { 0u32 }) | (if f.f_rf { 0x10000u32 } else { 0u32 }) | (if f.f_vm { 0x20000u32 } else { 0u32 }) | (if f.f_ac { 0x40000u32 } else { 0u32 }) | (if f.f_vif { 0x80000u32 } else { 0u32 }) | (if f.f_vip { 0x100000u32 } else { 0u32 }) | (if f.f_id { 0x200000u32 } else { 0u32 })) by {
        reveal(Flags::eflags_word);
    }
    lemma_word_fields(f.eflags_word(), f.f_cf, f.f_pf, f.f_af, f.f_zf, f.f_sf, f.f_tf, f.f_if, f.f_df, f.f_of, f.f_iopl1, f.f_iopl2, f.f_nt, f.f_rf, f.f_vm, f.f_ac, f.f_vif, f.f_vip, f.f_id);
}

/// Rotating through the carry, 64 bits wide: by a count `c` of 1 to 63,
/// the value is shifted left by `c`, the old carry enters at bit `c - 1`,
/// the top `c - 1` bits of the value come in below it, and the new carry
/// is bit `64 - c` of the value, the last one rotated out.
pub proof fn lemma_rcl64_rotates(v: u64, cf: bool, c: u64)
    requires
        1 <= c <= 63,
    ensures
        (rcl65(v, cf, c) >> 1u128) as u64 == (v << c) | (bit(cf) << ((c - 1) as u64)) | (if c == 1 {
            0u64
        } else {
            v >> ((65 - c) as u64)
        }),
        (rcl65(v, cf, c) & 1 != 0) == ((v >> ((64 - c) as u64)) & 1 == 1),
{
    let b = bit(cf);
    let ext: u128 = ((v as u128) << 1u128) | (b as u128);
    assert(rcl65(v, cf, c) == ((ext << c as u128) | (ext >> (65 - c) as u128)) & 0x1_ffff_ffff_ffff_ffffu128);
    assert((((((ext << c as u128) | (ext >> (65 - c) as u128)) & 0x1_ffff_ffff_ffff_ffffu128) >> 1u128) as u64
        == (v << c) | (b << ((c - 1) as u64)) | (if c == 1 {
        0u64
    } else {
        v >> ((65 - c) as u64)
    })) && ((((ext << c as u128) | (ext >> (65 - c) as u128)) & 0x1_ffff_ffff_ffff_ffffu128) & 1 != 0) == ((v
        >> ((64 - c) as u64)) & 1 == 1)) by (bit_vector)
        requires
            1 <= c <= 63,
            b <= 1,
            ext == ((v as u128) << 1u128) | (b as u128),
    ;
}

/// Rotating through the carry, 8, 16 or 32 bits wide: by a count `c` of 1
/// to the width, the value is shifted left by `c`, the old carry enters at
/// bit `c - 1`, the top `c - 1` bits of the value come in below it, all
/// kept to the width; the new carry is bit `sz - c` of the value.
pub proof fn lemma_rcl_narrow_rotates(v: u64, cf: bool, c: u64, sz: u32)
    requires
        sz == 8 || sz == 16 || sz == 32,
        1 <= c <= sz,
        v <= low_mask(sz),
    ensures
        (rcl_narrow(v, cf, c, sz) >> 1u64) & low_mask(sz) == ((v << c) | (bit(cf) << ((c - 1) as u64)) | (
        if c == 1 {
            0u64
        } else {
            v >> ((sz + 1 - c) as u64)
        })) & low_mask(sz),
        (rcl_narrow(v, cf, c, sz) & 1 != 0) == ((v >> ((sz - c) as u64)) & 1 == 1),
{
    let b = bit(cf);
    let w = sz as u64;
    let m: u64 = ((1u64 << w) - 1) as u64;
    let m2: u64 = ((1u64 << (w + 1)) - 1) as u64;
    let ext: u64 = ((v & m) << 1u64) | b;
    assert(low_mask(sz) == m);
    assert(rcl_narrow(v, cf, c, sz) == ((ext << c) | (ext >> (w + 1 - c) as u64)) & m2);
    assert(((((ext << c) | (ext >> (w + 1 - c) as u64)) & m2) >> 1u64) & m == ((v << c) | (b << ((c - 1) as u64))
        | (if c == 1 {
        0u64
    } else {
        v >> ((w + 1 - c) as u64)
    })) & m && ((((ext << c) | (ext >> (w + 1 - c) as u64)) & m2) & 1 != 0) == ((v >> ((w - c) as u64)) & 1
        == 1)) by (bit_vector)
        requires
            w == 8 || w == 16 || w == 32,
            1 <= c <= w,
            b <= 1,
            m == ((1u64 << w) - 1) as u64,
            m2 == ((1u64 << (w + 1)) - 1) as u64,
            v <= m,
            ext == ((v & m) << 1u64) | b,
    ;
}

/// Rotating through the carry undoes itself, 64 bits wide: rotating left
/// by a count `c` of 1 to 63 and then right by `c`, each time through the
/// carry that the other left, gives back the value and the carry.
pub proof fn lemma_rcr_undoes_rcl64(v: u64, cf: bool, c: u64)
    requires
        1 <= c <= 63,
    ensures
        ({
            let x = rcl65(v, cf, c);
            let r = (x >> 1u128) as u64;
            &&& rcr_bits(r, x & 1 != 0, c, 64) & low_mask(64) == v
            &&& bit_at(r, (c - 1) as u64) == cf
        }),
{
    lemma_rcl64_rotates(v, cf, c);
    let x = rcl65(v, cf, c);
    let r = (x >> 1u128) as u64;
    let cf1 = x & 1 != 0;
    let b = bit(cf);
    let b1 = bit(cf1);
    let k: u64 = (c - 1) as u64;
    assert(rcr_bits(r, cf1, c, 64) == if c == 1 {
        (r >> 1u64) | (b1 << 63u64)
    } else {
        (r >> c) | (b1 << ((64 - c) as u64)) | (r << ((65 - c) as u64))
    });
    assert((if c == 1 {
        (r >> 1u64) | (b1 << 63u64)
    } else {
        (r >> c) | (b1 << ((64 - c) as u64)) | (r << ((65 - c) as u64))
    }) & 0xffff_ffff_ffff_ffffu64 == v && (((r >> k) & 1 == 1) == (b == 1))) by (bit_vector)
        requires
            1 <= c <= 63,
            k == c - 1,
            b <= 1,
            r == (v << c) | (b << k) | (if c == 1 {
                0u64
            } else {
                v >> ((65 - c) as u64)
            }),
            b1 == (if (v >> ((64 - c) as u64)) & 1 == 1 {
                1u64
            } else {
                0u64
            }),
    ;
}

/// Rotating through the carry undoes itself, 8, 16 or 32 bits wide:
/// rotating a value of the width left by a count `c` of 1 to the width
/// and then right by `c`, each time through the carry that the other
/// left, gives back the value and the carry.
pub proof fn lemma_rcr_undoes_rcl_narrow(v: u64, cf: bool, c: u64, sz: u32)
    requires
        sz == 8 || sz == 16 || sz == 32,
        1 <= c <= sz,
        v <= low_mask(sz),
    ensures
        ({
            let x = rcl_narrow(v, cf, c, sz);
            let r = (x >> 1u64) & low_mask(sz);
            &&& rcr_bits(r, x & 1 != 0, c, sz) & low_mask(sz) == v
            &&& bit_at(r, (c - 1) as u64) == cf
        }),
{
    lemma_rcl_narrow_rotates(v, cf, c, sz);
    let x = rcl_narrow(v, cf, c, sz);
    let m = low_mask(sz);
    let r = (x >> 1u64) & m;
    let cf1 = x & 1 != 0;
    let b = bit(cf);
    let b1 = bit(cf1);
    let w = sz as u64;
    let k: u64 = (c - 1) as u64;
    assert(m == ((1u64 << w) - 1) as u64);
    assert(rcr_bits(r, cf1, c, sz) == if c == 1 {
        (r >> 1u64) | (b1 << ((w - 1) as u64))
    } else {
        (r >> c) | (b1 << ((w - c) as u64)) | (r << ((w + 1 - c) as u64))
    });
    assert((if c == 1 {
        (r >> 1u64) | (b1 << ((w - 1) as u64))
    } else {
        (r >> c) | (b1 << ((w - c) as u64)) | (r << ((w + 1 - c) as u64))
    }) & m == v && (((r >> k) & 1 == 1) == (b == 1))) by (bit_vector)
        requires
            w == 8 || w == 16 || w == 32,
            1 <= c <= w,
            k == c - 1,
            b <= 1,
            m == ((1u64 << w) - 1) as u64,
            v <= m,
            r == ((v << c) | (b << k) | (if c == 1 {
                0u64
            } else {
                v >> ((w + 1 - c) as u64)
            })) & m,
            b1 == (if (v >> ((w - c) as u64)) & 1 == 1 {
                1u64
            } else {
                0u64
            }),
    ;
}

} // verus!
