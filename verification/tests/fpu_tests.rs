use libmwemu::fpu::f80::F80;
use libmwemu::fpu::fpu_stack::FPUStack;
use libmwemu::fpu::{StRegister, FPU};

fn f80_of(x: f64) -> F80 {
    let mut f = F80::new();
    f.set_f64_bits(x.to_bits());
    f
}

fn f64_of(f: &F80) -> f64 {
    f64::from_bits(f.get_f64_bits())
}

fn f64_of_u80(v: u128) -> f64 {
    f64_of(&F80 { st: v })
}

#[test]
fn fpu_f80_emulation() {
    let mut f80 = F80::new();

    f80.st = (16383u128 << 64) | (1u128 << 63);
    assert_eq!(f80.to_integer_u128(), 1);

    f80.set_f64_bits(1.0f64.to_bits());
    assert_eq!(f80.get(), 0x3fff8000000000000000);

    f80.set_f64_bits(0.0f64.to_bits());
    assert!(f80.is_zero());
    assert_eq!(f64_of(&f80), 0.0);

    f80.set_f64_bits((-0.0f64).to_bits());
    assert!(f80.is_zero());
    assert_eq!(f64_of(&f80), -0.0);

    f80.set_f64_bits(f64::INFINITY.to_bits());
    assert!(f80.is_infinite());
    assert_eq!(f64_of(&f80), f64::INFINITY);

    f80.set_f64_bits(f64::NEG_INFINITY.to_bits());
    assert!(f80.is_infinite());
    assert_eq!(f64_of(&f80), f64::NEG_INFINITY);

    f80.set_f64_bits(f64::NAN.to_bits());
    assert!(f80.is_nan());
    assert!(f64_of(&f80).is_nan());

    let test_values = [1.0, -1.0, 3.141592653589793, -2.718281828459045, 1e10, -1e-10];
    for &val in &test_values {
        f80.set_f64_bits(f64::to_bits(val));
        let back = f64_of(&f80);
        let diff = (val - back).abs();
        assert!(diff < 1e-12, "val: {}, got: {}", val, back);
    }

    f80.set_f64_bits(42.0f64.to_bits());
    assert!(!f80.is_nan());
    assert!(!f80.is_infinite());
    assert!(!f80.is_zero());

    let test_values = [0u128, 1, 9, 10, 42, 12345, 99999999, 12345678901234567890u128];
    for &val in &test_values {
        f80.set(val);
        let bcd = f80.to_bcd_packed();
        let mut f80_2 = F80::new();
        f80_2.from_bcd_packed(&bcd);
        assert_eq!(
            f80.to_integer_u128(),
            f80_2.to_integer_u128(),
            "BCD roundtrip: valor entero no coincide para valor {}",
            val
        );
        assert!(
            (f64_of(&f80) - f64_of(&f80_2)).abs() < 1e-10,
            "BCD roundtrip no coincide para valor {}",
            val
        );
    }

    f80.set_f64_bits(259.0f64.to_bits());
    let bcd = f80.to_bcd_packed();
    assert_eq!(bcd.len(), 10);
    assert_eq!(bcd[0], 0x59);
    assert_eq!(bcd[1], 0x02);

    f80.st = F80::encode_from_u128(259, false);
    let bcd = f80.to_bcd_packed();
    assert_eq!(bcd[0], 0x59);
    assert_eq!(bcd[1], 0x02);

    let mut f80 = F80::new();
    let val: u128 = 256;
    f80.set(val);
    let bytes = f80.get_bytes();
    let mut f80_2 = F80::new();
    f80_2.set_bytes(&bytes);
    assert_eq!(f80.get(), f80_2.get(), "Error en get() para valor {}", val);
    assert_eq!(f80.to_integer_u128(), f80_2.to_integer_u128(), "Error en to_integer_u128 para valor {}", val);
    let bcd1 = f80.to_bcd_packed();
    let bcd2 = f80_2.to_bcd_packed();
    assert_eq!(bcd1, bcd2, "Error en BCD packed para valor {}", val);

    let mut b: F80 = F80::new();
    f80.set_f64_bits((-1.1f64).to_bits());
    b.set_f64_bits(1.9f64.to_bits());
    f80.add(b);
    assert_eq!(f64_of(&f80), 0.7999999999999998);
    assert_eq!(f80.get(), 0x3ffeccccccccccccc000);

    f80.set_f64_bits(1.0f64.to_bits());
    b.set_f64_bits(2.0f64.to_bits());
    f80.sub(b);
    assert_eq!(f64_of(&f80), -1.0);
}

#[test]
fn fpu_conversions() {
    let mut fpu = FPU::new();
    assert_eq!(fpu.get_top(), 0);
    assert_eq!(fpu.get_depth(), 0);

    fpu.push_f80(f80_of(0.0));
    fpu.push_f80(f80_of(1.0));
    assert_eq!(f64_of_u80(fpu.peek_st_logical_u80(0)), 1.0);
    assert_eq!(f64_of_u80(fpu.peek_st_logical_u80(1)), 0.0);

    fpu.set_st_u80(1, 0x4000c90fdaa22168c235);
    assert_eq!(f64_of_u80(fpu.peek_st_logical_u80(1)), 3.14159265358979323);
    assert_eq!(fpu.peek_st_logical_u80(1), 0x4000c90fdaa22168c235);
}

#[test]
fn fpu_stack_operations() {
    let mut fpu = FPU::new();

    assert_eq!(fpu.get_top(), 0);
    assert_eq!(fpu.get_depth(), 0);

    fpu.push_f80(f80_of(1.0));
    assert_eq!(fpu.get_depth(), 1);
    assert_eq!(f64_of_u80(fpu.peek_st_logical_u80(0)), 1.0);

    fpu.push_f80(f80_of(2.0));
    assert_eq!(fpu.get_depth(), 2);
    assert_eq!(f64_of_u80(fpu.peek_st_logical_u80(0)), 2.0);
    assert_eq!(f64_of_u80(fpu.peek_st_logical_u80(1)), 1.0);

    fpu.push_f80(f80_of(3.0));
    assert_eq!(fpu.get_depth(), 3);
    assert_eq!(f64_of_u80(fpu.peek_st_logical_u80(0)), 3.0);
    assert_eq!(f64_of_u80(fpu.peek_st_logical_u80(1)), 2.0);
    assert_eq!(f64_of_u80(fpu.peek_st_logical_u80(2)), 1.0);

    let val = f64_of_u80(fpu.pop2());
    assert_eq!(val, 3.0);
    assert_eq!(fpu.get_depth(), 2);
    assert_eq!(f64_of_u80(fpu.peek_st_logical_u80(0)), 2.0);

    for i in 3..9 {
        fpu.push_f80(f80_of(i as f64));
    }
    assert_eq!(fpu.get_depth(), 8);

    fpu.clear();
    assert_eq!(fpu.get_depth(), 0);
    assert_eq!(fpu.get_top(), 0);

    fpu.push_f80(f80_of(10.5));
    fpu.push_f80(f80_of(20.25));
    fpu.push_f80(f80_of(30.125));
    assert_eq!(f64_of_u80(fpu.peek_st_logical_u80(0)), 30.125);
    assert_eq!(f64_of_u80(fpu.peek_st_logical_u80(1)), 20.25);
    assert_eq!(f64_of_u80(fpu.peek_st_logical_u80(2)), 10.5);
}

#[test]
fn f80_fields() {
    let mut f = F80::new();
    f.set(0xc000_8000_0000_0000_0001);
    assert!(f.is_negative());
    assert!(f.get_sign());
    assert_eq!(f.get_exponent(), 0x4000);
    assert_eq!(f.get_mantissa(), 0x8000_0000_0000_0001);
    assert_eq!(f.get_integer_bit(), 1);
    assert_eq!(f.get_fraction(), 1);
    f.neg();
    assert!(!f.is_negative());
    f.set_exponent(0x3fff);
    assert_eq!(f.get(), 0x3fff_8000_0000_0000_0001);
    f.set_mantissa(0x8000_0000_0000_0000);
    assert_eq!(f.get(), 0x3fff_8000_0000_0000_0000);
    f.set_sign(true);
    assert_eq!(f.get(), 0xbfff_8000_0000_0000_0000);
    // bits above 80 are dropped
    f.set(0x1_0000_0000_0000_0000_0000_0001);
    assert_eq!(f.get(), 1);
}

#[test]
fn f80_special_values() {
    let pi = F80::PI();
    assert_eq!(pi.get(), 0x4000_c90f_daa2_2168_c234);
    assert!((f64_of(&pi) - std::f64::consts::PI).abs() < 1e-15);
    let q = F80::QNaN();
    assert!(q.is_nan());
    let mut f = F80::new();
    f.set_real_indefinite();
    assert_eq!(f.get(), 0xffff_c000_0000_0000_0000);
    assert!(f.is_nan());
    f.set_PI();
    assert_eq!(f.get(), pi.get());
    f.set_QNaN();
    assert!(f.is_nan());
    assert!(!F80::new().is_nan());
    assert!(F80::new().is_zero());
}

#[test]
fn f80_bytes_are_little_endian() {
    let mut f = F80::new();
    f.set(0x0102_0304_0506_0708_090a);
    let b = f.get_bytes();
    assert_eq!(b, [0x0a, 0x09, 0x08, 0x07, 0x06, 0x05, 0x04, 0x03, 0x02, 0x01]);
    let mut g = F80::new();
    g.set_bytes(&b);
    assert_eq!(g.get(), f.get());
}

#[test]
fn f80_integer_conversions() {
    assert_eq!(F80::encode_from_u128(1, false), 0x3fff_8000_0000_0000_0000);
    assert_eq!(F80::encode_from_u128(2, true), 0xc000_8000_0000_0000_0000);
    assert_eq!(F80::encode_from_u128(0, false), 0);
    let mut f = F80::new();
    f.st = F80::encode_from_u128(1000, false);
    assert_eq!(f.to_integer_u128(), 1000);
    let bcd = f.to_bcd_packed();
    assert_eq!(bcd, [0x00, 0x10, 0, 0, 0, 0, 0, 0, 0, 0x0a]);
    f.st = F80::encode_from_u128(7, true);
    let bcd = f.to_bcd_packed();
    assert_eq!(bcd[0], 0x07);
    assert_eq!(bcd[9], 0x0b);
}

#[test]
fn f80_add_sub_exact() {
    let mut a = f80_of(1.5);
    a.add(f80_of(2.25));
    assert_eq!(f64_of(&a), 3.75);
    let mut s = f80_of(10.0);
    s.sub(f80_of(0.5));
    assert_eq!(f64_of(&s), 9.5);
    let mut z = f80_of(4.0);
    z.sub(f80_of(4.0));
    assert!(z.is_zero());
}

#[test]
fn stack_push_pop_and_invalid() {
    let mut st = FPUStack::new();
    assert_eq!(st.get_depth(), 0);
    assert!(st.pop().is_none());
    st.push_f80(f80_of(5.0));
    assert_eq!(st.get_depth(), 1);
    assert_eq!(st.get_top(), 7);
    assert_eq!(st.physical_index(0), 7);
    assert_eq!(f64_of(&st.peek(7)), 5.0);
    // reading past the pushed values marks the register invalid
    assert!(!st.is_invalid(0));
    let v = st.get(1);
    assert_eq!(v.get(), 0);
    assert!(st.is_invalid(0));
    // writing through it then gives the indefinite value
    assert!(st.get_mut(1).is_none());
    assert_eq!(st.peek(0).get(), 0xffff_c000_0000_0000_0000);
    let p = st.pop().unwrap();
    assert_eq!(f64_of(&p), 5.0);
    assert_eq!(st.get_depth(), 0);
    assert_eq!(st.get_top(), 0);
}

#[test]
fn stack_swap_and_get_mut() {
    let mut st = FPUStack::new();
    st.push_f80(f80_of(1.0));
    st.push_f80(f80_of(2.0));
    st.swap(0, 1);
    assert_eq!(f64_of(&st.get(0)), 1.0);
    assert_eq!(f64_of(&st.get(1)), 2.0);
    if let Some(r) = st.get_mut(0) {
        r.set(f80_of(8.0).get());
    }
    assert_eq!(f64_of(&st.get(0)), 8.0);
    assert!(st.get_mut(5).is_none());
}

#[test]
fn fpu_status_bits() {
    let mut fpu = FPU::new();
    fpu.set_status_c0(true);
    fpu.set_status_c3(true);
    assert!(fpu.get_status_c0());
    assert!(!fpu.get_status_c1());
    assert!(fpu.get_status_c3());
    fpu.set_status_c0(false);
    assert!(!fpu.get_status_c0());
    fpu.set_ctrl(0x037f);
    assert_eq!(fpu.get_ctrl(), 0x037f);
}

#[test]
fn fpu_arithmetic_on_stack() {
    let mut fpu = FPU::new();
    fpu.push_f80(f80_of(2.0));
    fpu.push_f80(f80_of(3.0));
    fpu.add(0, 1);
    assert_eq!(f64_of_u80(fpu.peek_st_logical_u80(0)), 5.0);
    fpu.sub(0, 1);
    assert_eq!(f64_of_u80(fpu.peek_st_logical_u80(0)), 3.0);
    fpu.neg_st(0);
    assert_eq!(f64_of_u80(fpu.peek_st_logical_u80(0)), -3.0);
    fpu.xchg_st(1);
    assert_eq!(f64_of_u80(fpu.peek_st_logical_u80(0)), 2.0);
    assert_eq!(f64_of_u80(fpu.peek_st_logical_u80(1)), -3.0);
    fpu.move_to_st0(1);
    assert_eq!(f64_of_u80(fpu.peek_st_logical_u80(0)), -3.0);
}

#[test]
fn st_registers_by_name() {
    let mut fpu = FPU::new();
    assert_eq!(fpu.reg_to_id(StRegister::ST0), 0);
    assert_eq!(fpu.reg_to_idx(StRegister::ST5), 5);
    assert_eq!(fpu.reg_to_id(StRegister::ST7), 7);
    fpu.push_f80(f80_of(1.0));
    fpu.push_f80(f80_of(2.0));
    fpu.set_streg_f80(StRegister::ST1, f80_of(6.0).get());
    assert_eq!(f64_of_u80(fpu.peek_st_logical_u80(1)), 6.0);
    fpu.move_reg_to_st0(StRegister::ST1);
    assert_eq!(f64_of_u80(fpu.peek_st_logical_u80(0)), 6.0);
}

#[test]
fn fxsave_fxrstor_roundtrip() {
    let mut fpu = FPU::new();
    fpu.push_f80(f80_of(1.25));
    fpu.fpu_control_word = 0x027f;
    fpu.mxcsr = 0x1f80;
    fpu.xmm[3] = 0x1234;
    let state = fpu.fxsave();
    assert_eq!(state.fpu_control_word, 0x027f);
    assert_eq!(state.mxcsr_mask, 0x1f80);
    assert_eq!(state.st.get_depth(), 1);
    let mut other = FPU::new();
    other.fxrstor(state);
    assert_eq!(other.fpu_control_word, 0x027f);
    assert_eq!(other.mxcsr, 0x1f80);
    assert_eq!(other.xmm[3], 0x1234);
    // the stack comes back from the image
    assert_eq!(other.get_depth(), 1);
    assert_eq!(f64_of_u80(other.peek_st_logical_u80(0)), 1.25);
}

#[test]
fn fpu_state_save_then_load() {
    let mut maps = libmwemu::maps::Maps::new();
    maps.create_map("fx", 0x5000, 0x200).unwrap();
    let mut fpu = FPU::new();
    fpu.fpu_control_word = 0x037f;
    fpu.mxcsr = 0x1f80;
    fpu.ip = 0x401000;
    let state = fpu.fxsave();
    state.save(0x5000, &mut maps);
    assert_eq!(maps.read_word(0x5000), Some(0x037f));
    assert_eq!(maps.read_qword(0x5008), Some(0x401000));
    assert_eq!(maps.read_dword(0x5018), Some(0x1f80));
    assert_eq!(maps.read_dword(0x501c), Some(0x1f80));
    let back = libmwemu::fpu::FPUState::load(0x5000, &maps);
    assert_eq!(back.fpu_control_word, 0x037f);
    assert_eq!(back.rip, 0x401000);
    assert_eq!(back.mxcsr, 0x1f80);
    assert_eq!(back.mxcsr_mask, 0x1f80);
    assert_eq!(back.st.get_depth(), 0);
}
