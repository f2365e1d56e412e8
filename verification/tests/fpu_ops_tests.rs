use libmwemu::fpu::f80::F80;
use libmwemu::fpu::fpu_stack::FPUStack;
use libmwemu::fpu::FPU;

const ONE: u128 = 0x3fff_8000_0000_0000_0000;
const TWO: u128 = 0x4000_8000_0000_0000_0000;
const THREE: u128 = 0x4000_c000_0000_0000_0000;
const MINUS_ONE: u128 = 0xbfff_8000_0000_0000_0000;

#[test]
fn f80_classification() {
    let one = F80 { st: ONE };
    assert!(one.is_normal());
    assert!(!one.is_denormal());
    // the integer bit test masks with bit 63 and then with bit 0: never set
    assert!(!one.bit_integer());
    let tiny = F80 { st: 1 };
    assert!(tiny.is_denormal());
    assert!(!tiny.is_normal());
    let inf = F80 { st: 0x7fff_8000_0000_0000_0000 };
    assert!(!inf.is_normal());
    assert!(!F80 { st: 0x4000_c000_0000_0000_0001 }.is_integer());
    assert!(F80 { st: 0 }.is_integer());
    assert!(!F80 { st: 0 }.is_empty());
    let mut wide = F80 { st: (1u128 << 100) | ONE };
    wide.fix();
    assert_eq!(wide.st, ONE);
}

#[test]
fn fpu_stack_top_and_invalid_bits() {
    let mut s = FPUStack::new();
    s.dec_top();
    assert_eq!(s.get_top(), 7);
    s.inc_top();
    s.inc_top();
    assert_eq!(s.get_top(), 1);
    s.set_invalid(3);
    assert!(s.is_invalid(3));
    s.clear_invalid(3);
    assert!(!s.is_invalid(3));
    s.push_f80(F80 { st: TWO });
    assert_eq!(s.get_ref(0).st, TWO);
}

#[test]
fn fpu_register_arithmetic() {
    let mut fpu = FPU::new();
    fpu.push_f80(F80 { st: ONE });
    // the addition doubles ST(0), whatever register is named
    fpu.add_to_st0(3);
    assert_eq!(fpu.get_st_u80(0), TWO);
    fpu.push_f80(F80 { st: THREE });
    assert_eq!(fpu.get_st_f80_copy(0).st, THREE);
    assert_eq!(fpu.get_st_f80_ref(1).st, TWO);
    // ST(0) = ST(1) - ST(0)
    fpu.subr(0, 1);
    assert_eq!(fpu.get_st_u80(0), MINUS_ONE);
    let top = fpu.st.get_top() as usize;
    assert_eq!(fpu.peek_st_u80(top), MINUS_ONE);
    fpu.clear_st(1);
    assert_eq!(fpu.get_st_u80(1), 0);
}

#[test]
fn fpu_environment_and_status() {
    let mut fpu = FPU::new();
    fpu.set_ip(0x401000);
    assert_eq!(fpu.ip, 0x401000);
    assert_eq!(fpu.get_env32(), vec![0xffff_027f, 0xffff0000, 0xffffffff, 0x401000]);
    assert_eq!(fpu.get_env64(), vec![0xffff_027f, 0xffff0000, 0xffffffff, 0x401000]);
    fpu.set_status_busy(true);
    assert!(fpu.get_status_busy());
    fpu.set_status_c2(true);
    assert!(fpu.get_status_c2());
    fpu.set_status_c1(true);
    assert!(fpu.get_status_c1());
    fpu.set_status_c2(false);
    assert!(!fpu.get_status_c2());
    fpu.do_trace();
    assert!(fpu.trace);
    fpu.check_pending_exceptions();
}

#[test]
fn xchg_st_twice_restores() {
    let mut fpu = FPU::new();
    fpu.push_f80(F80 { st: ONE });
    fpu.push_f80(F80 { st: TWO });
    fpu.push_f80(F80 { st: THREE });
    fpu.xchg_st(2);
    assert_eq!(fpu.peek_st_logical_u80(0), ONE);
    assert_eq!(fpu.peek_st_logical_u80(2), THREE);
    fpu.xchg_st(2);
    assert_eq!(fpu.peek_st_logical_u80(0), THREE);
    assert_eq!(fpu.peek_st_logical_u80(1), TWO);
    assert_eq!(fpu.peek_st_logical_u80(2), ONE);
    assert_eq!(fpu.get_depth(), 3);
}

#[test]
fn f64_bits_come_back() {
    for x in [1.0f64, -1.0, std::f64::consts::PI, -std::f64::consts::E, 1e10, -1e-10, 0.0, -0.0, f64::INFINITY, f64::NEG_INFINITY] {
        let mut f = F80::new();
        f.set_f64_bits(x.to_bits());
        assert_eq!(f.get_f64_bits(), x.to_bits());
    }
}
