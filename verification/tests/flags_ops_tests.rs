use libmwemu::flags::Flags;

fn arith(f: &Flags) -> (bool, bool, bool, bool, bool, bool) {
    (f.f_cf, f.f_pf, f.f_af, f.f_zf, f.f_sf, f.f_of)
}

#[test]
fn shifts_by_one() {
    let mut f = Flags::new();
    // the carry is the top bit shifted out; the overflow, whether it differs
    // from the new top bit
    assert_eq!(f.shl1p8(0x81), 0x02);
    assert_eq!((f.f_cf, f.f_of, f.f_zf, f.f_sf, f.f_pf), (true, true, false, false, false));
    assert_eq!(f.shl1p8(0x180), 0);
    assert_eq!((f.f_cf, f.f_of, f.f_zf, f.f_pf), (true, true, true, true));
    assert_eq!(f.shl1p8(0xc0), 0x80);
    assert_eq!((f.f_cf, f.f_of, f.f_sf), (true, false, true));
    assert_eq!(f.shl1p16(0x4001), 0x8002);
    assert_eq!((f.f_cf, f.f_of, f.f_sf), (false, true, true));
    assert_eq!(f.shl1p16(0x8000), 0);
    assert_eq!((f.f_cf, f.f_of, f.f_zf), (true, true, true));
    assert_eq!(f.shl1p32(0x8000_0001), 2);
    assert_eq!((f.f_cf, f.f_of), (true, true));
    assert_eq!(f.sal1p16(0x4001), 0x8002);
    assert_eq!(f.shr1p8(0x81), 0x40);
    assert_eq!((f.f_cf, f.f_of, f.f_sf, f.f_zf, f.f_pf), (true, true, false, false, false));
    assert_eq!(f.shr1p16(0x8000), 0x4000);
    assert_eq!(f.shr1p32(3), 1);
    assert!(f.f_cf);
    assert_eq!(f.shr1p64(2), 1);
    assert!(!f.f_cf);
    // the 8 bit arithmetic shift shifts the byte as an unsigned number
    assert_eq!(f.sar1p8(0x80), 0x40);
    assert_eq!((f.f_cf, f.f_of), (false, false));
    assert_eq!(f.sar1p8(0x81), 0x40);
    assert!(f.f_cf);
    assert_eq!(f.sar1p16(0x8000), 0xc000);
    assert!(f.f_sf);
    assert_eq!(f.sar1p64(0x8000000000000001), 0xc000000000000000);
    assert!(f.f_cf);
    assert_eq!(f.sal1p8(0x40), 0x80);
    assert_eq!(f.sal1p32(0x40000000), 0x80000000);
    assert_eq!(f.sal1p64(1), 2);
}

#[test]
fn shifts_by_count() {
    let mut f = Flags::new();
    f.f_cf = true;
    // a zero count returns the operand and keeps the flags
    assert_eq!(f.shr2p8(0x81, 0), 0x81);
    assert!(f.f_cf);
    assert_eq!(f.shr2p8(0x80, 7), 1);
    assert_eq!((f.f_cf, f.f_of, f.f_zf, f.f_sf, f.f_pf), (false, false, false, false, false));
    assert_eq!(f.shr2p16(0x8000, 15), 1);
    assert_eq!(f.shr2p64(0x10, 4), 1);
    assert!(!f.f_cf);
    assert_eq!(f.sar2p32(0x80000000, 4), 0xf8000000);
    assert_eq!((f.f_cf, f.f_of, f.f_sf, f.f_zf, f.f_pf), (false, false, true, false, true));
    assert_eq!(f.sar2p64(0x8000000000000000, 63), 0xffffffffffffffff);
    assert_eq!(f.sar2p16(0x8000, 1), 0xc000);
    assert_eq!(f.shl2p64(1, 63), 0x8000000000000000);
    assert_eq!((f.f_cf, f.f_of, f.f_sf, f.f_zf, f.f_pf), (false, true, true, false, true));
    assert_eq!(f.shl2p16(0x8001, 1), 0x0002);
    assert!(f.f_cf);
    assert_eq!(f.shl2p32(1, 31), 0x80000000);
    assert_eq!(f.sal2p8(0x81, 1), 0x02);
    assert!(f.f_cf);
    assert_eq!(f.sal2p16(1, 4), 0x10);
    assert_eq!(f.sal2p32(1, 4), 0x10);
    assert_eq!(f.sal2p64(1, 4), 0x10);
}

#[test]
fn increments_and_decrements() {
    let mut f = Flags::new();
    assert_eq!(f.inc16(0xffff), 0);
    assert_eq!((f.f_pf, f.f_af, f.f_zf, f.f_sf, f.f_of), (true, true, true, false, false));
    assert_eq!(f.inc16(0x7fff), 0x8000);
    assert_eq!((f.f_zf, f.f_sf, f.f_of, f.f_pf), (false, true, true, true));
    assert_eq!(f.inc32(0x7fffffff), 0x80000000);
    assert!(f.f_of);
    assert_eq!(f.inc32(0xffffffff), 0);
    assert!(f.f_zf);
    assert_eq!(f.dec8(0), 0xff);
    assert_eq!((f.f_pf, f.f_af, f.f_zf, f.f_sf, f.f_of), (true, true, false, true, false));
    assert_eq!(f.dec8(0x80), 0x7f);
    assert_eq!((f.f_pf, f.f_af, f.f_zf, f.f_sf, f.f_of), (false, false, false, false, true));
    assert_eq!(f.dec8(1), 0);
    assert!(f.f_zf);
    assert_eq!(f.dec32(0), 0xffffffff);
    assert!(f.f_sf);
    assert_eq!(f.dec64(0x8000000000000000), 0x7fffffffffffffff);
    assert!(f.f_of);
}

#[test]
fn negation_and_multiplication() {
    let mut f = Flags::new();
    assert_eq!(f.neg64(5), 0xfffffffffffffffb);
    assert_eq!((f.f_cf, f.f_of, f.f_sf, f.f_zf, f.f_pf), (true, false, true, false, false));
    assert_eq!(f.neg64(0x8000000000000000), 0x8000000000000000);
    assert!(f.f_of);
    assert_eq!(f.imul64p2(3, 4), 12);
    assert_eq!((f.f_cf, f.f_of), (false, false));
    // a negative product is taken as a wide unsigned value: both flags set
    assert_eq!(f.imul64p2(u64::MAX, 2), 0xfffffffffffffffe);
    assert_eq!((f.f_cf, f.f_of), (true, true));
    assert_eq!(f.imul64p2(1 << 32, 1 << 32), 0);
    assert_eq!((f.f_cf, f.f_of), (true, true));
}

#[test]
fn subtraction_checks() {
    let mut f = Flags::new();
    assert_eq!(f.sub16(5, 7), 0xfffe);
    assert_eq!(arith(&f), (true, false, true, false, true, false));
    f.check_carry_sub_word(1, 2);
    assert!(f.f_cf);
    f.check_carry_sub_dword(0x1_0000_0001, 2);
    assert!(f.f_cf);
    f.check_carry_sub_qword(3, 2);
    assert!(!f.f_cf);
    assert_eq!(f.check_overflow_sub_word(0x8000, 1), 0x7fff);
    assert!(f.f_of);
    assert_eq!(f.check_overflow_sub_word(5, 7), -2);
    assert!(!f.f_of);
    assert_eq!(f.check_overflow_sub_qword(0x8000000000000000, 1), 0x7fffffffffffffff);
    assert!(f.f_of);
    f.calc_af(0x0f, 0x01, 0x10, 8);
    assert!(f.f_af);
    f.calc_af(0x01, 0x01, 0x02, 8);
    assert!(!f.f_af);
}

#[test]
fn rotate_right_through_carry() {
    let mut f = Flags::new();
    f.f_cf = true;
    assert_eq!(f.rcr_prev(0x01, 1, 8), 0x80);
    assert_eq!((f.f_cf, f.f_of), (true, false));
    f.f_cf = false;
    f.rcr_of_and_cf(0x02, 1, 8);
    assert_eq!((f.f_cf, f.f_of), (false, false));
    f.f_cf = false;
    f.rcr_of_and_cf(0x03, 1, 8);
    assert!(f.f_cf);
}

#[test]
fn rol_undoes_ror() {
    let mut f = Flags::new();
    for &(v, c, sz) in &[(0x81u64, 3u64, 8u32), (0x1234, 5, 16), (0xdeadbeef, 13, 32), (0x0123456789abcdef, 40, 64)] {
        let y = f.ror(v, c, sz);
        assert_eq!(f.rol(y, c, sz), v);
        assert_eq!(f.f_cf, v & 1 == 1);
    }
}
