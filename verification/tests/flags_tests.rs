use libmwemu::flags::{
    build_parity_table, Flags, MAX_I16, MAX_I32, MAX_I64, MAX_I8, MAX_U16, MAX_U32, MAX_U64, MAX_U8,
    MIN_I16, MIN_I32, MIN_I64, MIN_I8, MIN_U16, MIN_U32, MIN_U64, MIN_U8, PARITY_LOOKUP_TABLE,
};

#[test]
fn flag_calculations() {
    assert_eq!(PARITY_LOOKUP_TABLE[0], true);
    assert_eq!(PARITY_LOOKUP_TABLE[1], false);
    assert_eq!(PARITY_LOOKUP_TABLE[3], true);
    assert_eq!(PARITY_LOOKUP_TABLE[7], false);
    assert_eq!(PARITY_LOOKUP_TABLE[15], true);
    assert_eq!(PARITY_LOOKUP_TABLE[255], true);

    assert_eq!(MIN_U8, 0);
    assert_eq!(MAX_U8, 0xff);
    assert_eq!(MIN_U16, 0);
    assert_eq!(MAX_U16, 0xffff);
    assert_eq!(MIN_U32, 0);
    assert_eq!(MAX_U32, 0xffffffff);
    assert_eq!(MIN_U64, 0);
    assert_eq!(MAX_U64, 0xffffffffffffffff);

    assert_eq!(MIN_I8, -128);
    assert_eq!(MAX_I8, 0x7f);
    assert_eq!(MIN_I16, -32768);
    assert_eq!(MAX_I16, 0x7fff);
    assert_eq!(MIN_I32, -2147483648);
    assert_eq!(MAX_I32, 0x7fffffff);
    assert_eq!(MIN_I64, -9223372036854775808);
    assert_eq!(MAX_I64, 0x7fffffffffffffff);
}

#[test]
fn parity_table_matches_builder() {
    let built = build_parity_table();
    for i in 0..256 {
        assert_eq!(built[i], PARITY_LOOKUP_TABLE[i]);
        assert_eq!(built[i], (i as u8).count_ones() % 2 == 0);
    }
}

#[test]
fn new_flags_word_is_bit_one() {
    let f = Flags::new();
    assert_eq!(f.dump(), 0x2);
    assert!(!f.f_cf && !f.f_zf && !f.f_of);
}

#[test]
fn dump_load_roundtrip() {
    let mut f = Flags::new();
    f.load(0x0000_0ad7);
    assert!(f.f_cf);
    assert!(f.f_pf);
    assert!(f.f_af);
    assert!(f.f_zf);
    assert!(f.f_sf);
    assert!(!f.f_tf);
    assert!(f.f_if);
    assert!(!f.f_df);
    assert!(f.f_of);
    assert_eq!(f.dump(), 0x0000_0ad7);
    // bits that hold no flag read back as zero, bit 1 as one
    let mut g = Flags::new();
    g.load(0xffff_ffff);
    assert_eq!(g.dump(), 0x003f_7fd7);
    let mut h = Flags::new();
    h.load(g.dump());
    assert_eq!(h.dump(), g.dump());
}

#[test]
fn clear_resets_everything() {
    let mut f = Flags::new();
    f.load(0x0000_0fd7);
    f.clear();
    assert_eq!(f.dump(), 0x2);
}

#[test]
fn add32_carry_and_overflow() {
    let mut f = Flags::new();
    let r = f.add32(0xffff_ffff, 1, false, false);
    assert_eq!(r, 0);
    assert!(f.f_cf);
    assert!(f.f_zf);
    assert!(!f.f_sf);
    assert!(!f.f_of);
    assert!(f.f_af);
    assert!(f.f_pf);

    let r = f.add32(0x7fff_ffff, 1, false, false);
    assert_eq!(r, 0x8000_0000);
    assert!(!f.f_cf);
    assert!(f.f_of);
    assert!(f.f_sf);
    assert!(!f.f_zf);

    let r = f.add32(1, 1, true, true);
    assert_eq!(r, 3);
    assert!(!f.f_cf);
}

#[test]
fn add8_and_add16_wrap() {
    let mut f = Flags::new();
    assert_eq!(f.add8(0x80, 0x80, false, false), 0);
    assert!(f.f_cf && f.f_of && f.f_zf);
    assert_eq!(f.add16(0x1234, 0x1111, false, false), 0x2345);
    assert!(!f.f_cf && !f.f_of && !f.f_zf);
    assert_eq!(f.add64(u64::MAX, 2, false, false), 1);
    assert!(f.f_cf);
}

#[test]
fn sub_sets_borrow() {
    let mut f = Flags::new();
    let r = f.sub32(1, 2);
    assert_eq!(r, 0xffff_ffff);
    assert!(f.f_cf);
    assert!(f.f_sf);
    assert!(!f.f_zf);
    assert!(!f.f_of);
    let r = f.sub8(0x80, 1);
    assert_eq!(r, 0x7f);
    assert!(f.f_of);
    assert!(!f.f_cf);
    let r = f.sub64(5, 5);
    assert_eq!(r, 0);
    assert!(f.f_zf);
}

#[test]
fn inc_dec_neg() {
    let mut f = Flags::new();
    f.f_cf = true;
    assert_eq!(f.inc8(0x7f), 0x80);
    assert!(f.f_of);
    assert!(f.f_cf, "inc keeps the carry");
    assert_eq!(f.dec16(0x8000), 0x7fff);
    assert!(f.f_of);
    assert_eq!(f.inc64(u64::MAX), 0);
    assert!(f.f_zf);
    assert_eq!(f.neg8(1), 0xff);
    assert!(f.f_cf);
    assert_eq!(f.neg32(0), 0);
    assert!(f.f_cf, "neg sets the carry whatever the operand");
    assert!(f.f_zf);
    assert_eq!(f.neg16(0x8000), 0x8000);
    assert!(f.f_of);
}

#[test]
fn calc_flags_and_parity() {
    let mut f = Flags::new();
    f.calc_flags(0x80, 8);
    assert!(f.f_sf);
    assert!(!f.f_zf);
    assert!(!f.f_pf);
    f.calc_flags(0, 32);
    assert!(f.f_zf);
    assert!(f.f_pf);
    f.calc_pf(0x03);
    assert!(f.f_pf);
    f.calc_pf(0x01);
    assert!(!f.f_pf);
}

#[test]
fn shifts() {
    let mut f = Flags::new();
    assert_eq!(f.shl2p8(0x81, 1), 0x02);
    assert!(f.f_cf);
    assert_eq!(f.shr2p32(0x8000_0001, 1), 0x4000_0000);
    assert!(f.f_cf);
    assert_eq!(f.sar2p8(0x80, 3), 0xf0);
    assert!(f.f_sf);
    assert_eq!(f.sar1p32(0x8000_0000), 0xc000_0000);
    assert_eq!(f.shl1p64(0x8000_0000_0000_0000), 0);
    assert!(f.f_cf);
    assert!(f.f_zf);
}

#[test]
fn rotates() {
    let mut f = Flags::new();
    assert_eq!(f.rol(0x80, 1, 8), 0x01);
    assert!(f.f_cf);
    assert_eq!(f.ror(0x01, 1, 8), 0x80);
    assert!(f.f_cf);
    f.f_cf = true;
    assert_eq!(f.rcl(0x80, 1, 8), 0x01);
    assert!(f.f_cf);
    f.f_cf = false;
    assert_eq!(f.rcr(0x01, 1, 8), 0x00);
    assert!(f.f_cf);
}

#[test]
fn imul_overflow() {
    let mut f = Flags::new();
    assert_eq!(f.imul32p2(0x10000, 0x10000), 0);
    assert!(f.f_cf && f.f_of);
    assert_eq!(f.imul16p2(3, 4), 12);
    assert!(!f.f_cf && !f.f_of);
    assert_eq!(f.imul8p2(0xff, 0xff), 1);
    assert!(!f.f_of);
}

#[test]
fn test_instruction() {
    let mut f = Flags::new();
    f.f_cf = true;
    f.f_of = true;
    f.test(0xf0, 0x0f, 8);
    assert!(f.f_zf);
    assert!(!f.f_cf && !f.f_of);
    f.test(0x80, 0x80, 8);
    assert!(f.f_sf);
    assert!(!f.f_zf);
}

#[test]
fn sub_checks() {
    let mut f = Flags::new();
    f.check_carry_sub_byte(1, 2);
    assert!(f.f_cf);
    f.check_carry_sub_byte(2, 1);
    assert!(!f.f_cf);
    assert_eq!(f.check_overflow_sub_byte(0x80, 1), 0x7f);
    assert!(f.f_of);
    assert_eq!(f.check_overflow_sub_dword(5, 3), 2);
    assert!(!f.f_of);
}

#[test]
fn diff_names_changed_flags() {
    let a = Flags::new();
    let mut b = Flags::new();
    b.f_cf = true;
    b.f_zf = true;
    b.f_id = true;
    assert_eq!(Flags::diff(a, b), "cf: false -> true zf: false -> true id: false -> true ");
    assert_eq!(Flags::diff(a, a), "");
}

#[test]
fn trace_names_lists_set_flags() {
    let mut f = Flags::new();
    assert_eq!(f.trace_names(), "[ ]");
    f.f_cf = true;
    f.f_of = true;
    assert_eq!(f.trace_names(), "[ CF OF ]");
}
