pub mod f80;
pub mod fpu_stack;

use vstd::prelude::*;
use crate::fpu::f80::{
    F80, FPU_80_BITS_MAX, SIGN_MASK, lemma_mask80_idempotent, exps_close, diff_normalizable, sign_field, signed_sum,
};
use crate::fpu::fpu_stack::FPUStack;
use crate::maps::Maps;
use crate::maps::mem64::le_bytes;
use crate::structures::{store_word, store_dword, store_qword};

verus! {

/// The image that `fxsave` writes and `fxrstor` reads.
pub struct FPUState {
    pub fpu_control_word: u16,
    pub fpu_status_word: u16,
    pub fpu_tag_word: u16,
    pub reserved1: u8,
    pub fpu_opcode: u16,
    pub rip: u64,
    pub rdp: u64,
    pub mxcsr: u32,
    pub mxcsr_mask: u32,
    pub st: FPUStack,
    pub xmm: [u128; 16],
    pub reserved2: [u8; 224],
}

impl FPUState {
    pub fn new() -> (s: Self)
        ensures
            s.fpu_control_word == 0 && s.fpu_status_word == 0 && s.fpu_tag_word == 0,
            s.reserved1 == 0 && s.fpu_opcode == 0 && s.rip == 0 && s.rdp == 0,
            s.mxcsr == 0 && s.mxcsr_mask == 0,
            s.st.wf() && s.st.top_view() == 0 && s.st.depth_view() == 0 && s.st.invalid_view() == 0,
            forall|i: int| 0 <= i < 8 ==> (#[trigger] s.st.regs_view()[i]).st == 0,
            forall|i: int| 0 <= i < 16 ==> #[trigger] s.xmm[i] == 0,
            forall|i: int| 0 <= i < 224 ==> #[trigger] s.reserved2[i] == 0,
    {
        Self {
            fpu_control_word: 0,
            fpu_status_word: 0,
            fpu_tag_word: 0,
            reserved1: 0,
            fpu_opcode: 0,
            rip: 0,
            rdp: 0,
            mxcsr: 0,
            mxcsr_mask: 0,
            st: FPUStack::new(),
            xmm: [0; 16],
            reserved2: [0; 224],
        }
    }

    /// Every field that `load` reads at `addr` lies in the region that a
    /// lookup of its address finds.
    pub open spec fn readable(maps: &Maps, addr: u64) -> bool {
        &&& maps.wf()
        &&& addr + 0x20 <= u64::MAX
        &&& maps.fits(addr, 2)
        &&& maps.fits((addr + 2) as u64, 2)
        &&& maps.fits((addr + 4) as u64, 2)
        &&& maps.fits((addr + 6) as u64, 2)
        &&& maps.fits((addr + 8) as u64, 8)
        &&& maps.fits((addr + 0x10) as u64, 8)
        &&& maps.fits((addr + 0x18) as u64, 4)
        &&& maps.fits((addr + 0x1c) as u64, 4)
    }

    /// `self` is the image that `load` reads at `addr`: the words, pointers
    /// and `mxcsr` from memory, everything else as `new` gives it.
    pub open spec fn loaded_from(self, maps: &Maps, addr: u64) -> bool {
        &&& self.fpu_control_word == maps.value_at(addr, 2)
        &&& self.fpu_status_word == maps.value_at((addr + 2) as u64, 2)
        &&& self.fpu_tag_word == maps.value_at((addr + 4) as u64, 2)
        &&& self.fpu_opcode == maps.value_at((addr + 6) as u64, 2)
        &&& self.rip == maps.value_at((addr + 8) as u64, 8)
        &&& self.rdp == maps.value_at((addr + 0x10) as u64, 8)
        &&& self.mxcsr == maps.value_at((addr + 0x18) as u64, 4)
        &&& self.mxcsr_mask == maps.value_at((addr + 0x1c) as u64, 4)
        &&& self.reserved1 == 0
        &&& self.st.wf() && self.st.top_view() == 0 && self.st.depth_view() == 0 && self.st.invalid_view() == 0
        &&& forall|i: int| 0 <= i < 8 ==> (#[trigger] self.st.regs_view()[i]).st == 0
        &&& forall|i: int| 0 <= i < 16 ==> #[trigger] self.xmm[i] == 0
        &&& forall|i: int| 0 <= i < 224 ==> #[trigger] self.reserved2[i] == 0
    }

    /// Every field that `save` writes at `addr` fits in the region that a
    /// lookup of its address finds, whatever the lookup cache holds.
    pub open spec fn fits_in(maps: Maps, addr: u64) -> bool {
        &&& maps.fits_anyhow(addr, 2)
        &&& maps.fits_anyhow((addr + 2) as u64, 2)
        &&& maps.fits_anyhow((addr + 4) as u64, 2)
        &&& maps.fits_anyhow((addr + 6) as u64, 2)
        &&& maps.fits_anyhow((addr + 8) as u64, 8)
        &&& maps.fits_anyhow((addr + 0x10) as u64, 8)
        &&& maps.fits_anyhow((addr + 0x18) as u64, 4)
        &&& maps.fits_anyhow((addr + 0x1c) as u64, 4)
    }

    /// The writes of `save` at `addr`, in order: address and little endian
    /// bytes of each field.
    pub open spec fn writes(self, addr: u64) -> Seq<(u64, Seq<u8>)> {
        seq![
            (addr, le_bytes(self.fpu_control_word as nat, 2)),
            ((addr + 2) as u64, le_bytes(self.fpu_status_word as nat, 2)),
            ((addr + 4) as u64, le_bytes(self.fpu_tag_word as nat, 2)),
            ((addr + 6) as u64, le_bytes(self.fpu_opcode as nat, 2)),
            ((addr + 8) as u64, le_bytes(self.rip as nat, 8)),
            ((addr + 0x10) as u64, le_bytes(self.rdp as nat, 8)),
            ((addr + 0x18) as u64, le_bytes(self.mxcsr as nat, 4)),
            ((addr + 0x1c) as u64, le_bytes(self.mxcsr_mask as nat, 4)),
        ]
    }

    /// Reads the control, status and tag words, the opcode, the instruction
    /// and data pointers and `mxcsr` with its mask at `addr`; the rest as
    /// `new` gives it.
    pub fn load(addr: u64, maps: &Maps) -> (r: FPUState)
        requires
            Self::readable(maps, addr),
        ensures
            r.loaded_from(maps, addr),
    {
        let mut state = FPUState::new();
        state.fpu_control_word = maps.read_word(addr).unwrap();
        state.fpu_status_word = maps.read_word(addr + 2).unwrap();
        state.fpu_tag_word = maps.read_word(addr + 4).unwrap();
        state.fpu_opcode = maps.read_word(addr + 6).unwrap();
        state.rip = maps.read_qword(addr + 8).unwrap();
        state.rdp = maps.read_qword(addr + 16).unwrap();
        state.mxcsr = maps.read_dword(addr + 24).unwrap();
        state.mxcsr_mask = maps.read_dword(addr + 28).unwrap();
        state
    }

    /// Writes the words, pointers and `mxcsr` with its mask at `addr`, one
    /// after the other (an unmapped field is tolerated only in banzai mode,
    /// and left unwritten).
    pub fn save(&self, addr: u64, maps: &mut Maps)
        requires
            old(maps).wf(),
            addr + 0x20 <= u64::MAX,
            !old(maps).banzai_view() ==> Self::fits_in(*old(maps), addr),
        ensures
            old(maps).wrote_values(*final(maps), self.writes(addr)),
    {
        let ghost m0 = *maps;
        let ghost mut done: Seq<(u64, Seq<u8>)> = Seq::empty();
        proof {
            m0.lemma_run_start();
        }
        store_word(maps, Ghost(m0), Ghost(done), addr, self.fpu_control_word);
        proof {
            done = done.push((addr, le_bytes(self.fpu_control_word as nat, 2)));
        }
        store_word(maps, Ghost(m0), Ghost(done), addr + 2, self.fpu_status_word);
        proof {
            done = done.push(((addr + 2) as u64, le_bytes(self.fpu_status_word as nat, 2)));
        }
        store_word(maps, Ghost(m0), Ghost(done), addr + 4, self.fpu_tag_word);
        proof {
            done = done.push(((addr + 4) as u64, le_bytes(self.fpu_tag_word as nat, 2)));
        }
        store_word(maps, Ghost(m0), Ghost(done), addr + 6, self.fpu_opcode);
        proof {
            done = done.push(((addr + 6) as u64, le_bytes(self.fpu_opcode as nat, 2)));
        }
        store_qword(maps, Ghost(m0), Ghost(done), addr + 8, self.rip);
        proof {
            done = done.push(((addr + 8) as u64, le_bytes(self.rip as nat, 8)));
        }
        store_qword(maps, Ghost(m0), Ghost(done), addr + 16, self.rdp);
        proof {
            done = done.push(((addr + 0x10) as u64, le_bytes(self.rdp as nat, 8)));
        }
        store_dword(maps, Ghost(m0), Ghost(done), addr + 24, self.mxcsr);
        proof {
            done = done.push(((addr + 0x18) as u64, le_bytes(self.mxcsr as nat, 4)));
        }
        store_dword(maps, Ghost(m0), Ghost(done), addr + 28, self.mxcsr_mask);
        proof {
            done = done.push(((addr + 0x1c) as u64, le_bytes(self.mxcsr_mask as nat, 4)));
        }
        assert(done =~= self.writes(addr));
    }
}

/// The x87 unit: the register stack with its status, control and tag
/// words, and the SSE registers that `fxsave` stores with it.
#[derive(Clone)]
pub struct FPU {
    pub st: FPUStack,
    pub st_depth: u8,
    pub status: u16,
    pub tag: u16,
    pub stat: u16,
    pub ctrl: u16,
    pub ip: u64,
    pub err_off: u32,
    pub err_sel: u32,
    pub code_segment: u16,
    pub data_segment: u16,
    pub operand_ptr: u64,
    pub reserved: [u8; 14],
    pub reserved2: [u8; 96],
    pub xmm: [u128; 16],
    pub mxcsr: u32,
    pub fpu_control_word: u16,
    pub opcode: u16,
    pub trace: bool,
}

/// A register of the x87 stack, ST(0) to ST(7), as an instruction names it.
#[derive(Clone, Copy, Debug, PartialEq, Eq, Structural)]
pub enum StRegister {
    ST0,
    ST1,
    ST2,
    ST3,
    ST4,
    ST5,
    ST6,
    ST7,
}

/// The position of a stack register: `n` for ST(n).
pub open spec fn st_number(reg: StRegister) -> nat {
    match reg {
        StRegister::ST0 => 0,
        StRegister::ST1 => 1,
        StRegister::ST2 => 2,
        StRegister::ST3 => 3,
        StRegister::ST4 => 4,
        StRegister::ST5 => 5,
        StRegister::ST6 => 6,
        StRegister::ST7 => 7,
    }
}

/// Bit `k` of a status word.
pub open spec fn status_bit(status: u16, k: u16) -> bool {
    status & (1u16 << k) != 0
}

/// The status word with bit `k` set to `val`.
pub open spec fn with_status_bit(status: u16, k: u16, val: bool) -> u16 {
    if val {
        status | (1u16 << k)
    } else {
        status & !(1u16 << k)
    }
}

impl FPU {
    /// The register stack keeps its invariant.
    pub open spec fn wf(self) -> bool {
        self.st.wf()
    }

    /// `self` with only the register stack replaced.
    pub open spec fn with_stack(self, st: FPUStack) -> FPU {
        FPU { st: st, ..self }
    }

    pub fn new() -> (f: FPU)
        ensures
            f.wf(),
            f.st.top_view() == 0 && f.st.depth_view() == 0 && f.st.invalid_view() == 0,
            forall|i: int| 0 <= i < 8 ==> (#[trigger] f.st.regs_view()[i]).st == 0,
            f.status == 0 && f.st_depth == 0 && f.tag == 0xffff && f.stat == 0 && f.ctrl == 0x027f,
            f.ip == 0 && f.err_off == 0 && f.err_sel == 0 && f.code_segment == 0,
            f.data_segment == 0 && f.operand_ptr == 0 && f.mxcsr == 0,
            f.fpu_control_word == 0 && f.opcode == 0 && !f.trace,
            forall|i: int| 0 <= i < 14 ==> #[trigger] f.reserved[i] == 0,
            forall|i: int| 0 <= i < 96 ==> #[trigger] f.reserved2[i] == 0,
            forall|i: int| 0 <= i < 16 ==> #[trigger] f.xmm[i] == 0,
    {
        FPU {
            st: FPUStack::new(),
            status: 0,
            st_depth: 0,
            tag: 0xffff,
            stat: 0,
            ctrl: 0x027f,
            ip: 0,
            err_off: 0,
            err_sel: 0,
            code_segment: 0,
            data_segment: 0,
            operand_ptr: 0,
            reserved: [0; 14],
            reserved2: [0; 96],
            xmm: [0; 16],
            mxcsr: 0,
            fpu_control_word: 0,
            opcode: 0,
            trace: false,
        }
    }

    /// Resets the stack and the control state; the status word, the opcode,
    /// `mxcsr` and the trace switch are kept.
    pub fn clear(&mut self)
        ensures
            final(self).wf(),
            final(self).st.top_view() == 0 && final(self).st.depth_view() == 0,
            final(self).st.invalid_view() == 0,
            forall|i: int| 0 <= i < 8 ==> (#[trigger] final(self).st.regs_view()[i]).st == 0,
            final(self).st_depth == 0 && final(self).tag == 0xffff && final(self).stat == 0,
            final(self).ctrl == 0x037f && final(self).ip == 0 && final(self).err_off == 0,
            final(self).err_sel == 0 && final(self).code_segment == 0,
            final(self).data_segment == 0 && final(self).operand_ptr == 0,
            final(self).fpu_control_word == 0,
            forall|i: int| 0 <= i < 14 ==> #[trigger] final(self).reserved[i] == 0,
            forall|i: int| 0 <= i < 96 ==> #[trigger] final(self).reserved2[i] == 0,
            forall|i: int| 0 <= i < 16 ==> #[trigger] final(self).xmm[i] == 0,
            final(self).status == old(self).status && final(self).opcode == old(self).opcode,
            final(self).mxcsr == old(self).mxcsr && final(self).trace == old(self).trace,
    {
        self.st_depth = 0;
        self.st = FPUStack::new();
        self.tag = 0xffff;
        self.stat = 0;
        self.ctrl = 0x037f;
        self.ip = 0;
        self.err_off = 0;
        self.err_sel = 0;
        self.code_segment = 0;
        self.data_segment = 0;
        self.operand_ptr = 0;
        self.reserved = [0; 14];
        self.reserved2 = [0; 96];
        self.xmm = [0; 16];
        self.fpu_control_word = 0;
    }

    /// Condition code C0 (status bit 8).
    pub fn get_status_c0(&self) -> (r: bool)
        ensures
            r == status_bit(self.status, 8),
    {
        (self.status & (1u16 << 8u16)) != 0
    }

    /// Condition code C1 (status bit 9).
    pub fn get_status_c1(&self) -> (r: bool)
        ensures
            r == status_bit(self.status, 9),
    {
        (self.status & (1u16 << 9u16)) != 0
    }

    /// Condition code C2 (status bit 10).
    pub fn get_status_c2(&self) -> (r: bool)
        ensures
            r == status_bit(self.status, 10),
    {
        (self.status & (1u16 << 10u16)) != 0
    }

    /// Condition code C3 (status bit 14).
    pub fn get_status_c3(&self) -> (r: bool)
        ensures
            r == status_bit(self.status, 14),
    {
        (self.status & (1u16 << 14u16)) != 0
    }

    /// The busy bit (status bit 15).
    pub fn get_status_busy(&self) -> (r: bool)
        ensures
            r == status_bit(self.status, 15),
    {
        (self.status & (1u16 << 15u16)) != 0
    }

    pub fn set_status_c0(&mut self, val: bool)
        ensures
            *final(self) == (FPU { status: with_status_bit(old(self).status, 8, val), ..*old(self) }),
    {
        if val {
            self.status = self.status | (1u16 << 8u16);
        } else {
            self.status = self.status & !(1u16 << 8u16);
        }
    }

    pub fn set_status_c1(&mut self, val: bool)
        ensures
            *final(self) == (FPU { status: with_status_bit(old(self).status, 9, val), ..*old(self) }),
    {
        if val {
            self.status = self.status | (1u16 << 9u16);
        } else {
            self.status = self.status & !(1u16 << 9u16);
        }
    }

    pub fn set_status_c2(&mut self, val: bool)
        ensures
            *final(self) == (FPU { status: with_status_bit(old(self).status, 10, val), ..*old(self) }),
    {
        if val {
            self.status = self.status | (1u16 << 10u16);
        } else {
            self.status = self.status & !(1u16 << 10u16);
        }
    }

    pub fn set_status_c3(&mut self, val: bool)
        ensures
            *final(self) == (FPU { status: with_status_bit(old(self).status, 14, val), ..*old(self) }),
    {
        if val {
            self.status = self.status | (1u16 << 14u16);
        } else {
            self.status = self.status & !(1u16 << 14u16);
        }
    }

    pub fn set_status_busy(&mut self, val: bool)
        ensures
            *final(self) == (FPU { status: with_status_bit(old(self).status, 15, val), ..*old(self) }),
    {
        if val {
            self.status = self.status | (1u16 << 15u16);
        } else {
            self.status = self.status & !(1u16 << 15u16);
        }
    }

    /// The physical register of ST(0).
    pub fn get_top(&mut self) -> (r: u8)
        requires
            old(self).wf(),
        ensures
            r == old(self).st.top_view(),
            r < 8,
            *final(self) == *old(self),
    {
        self.st.get_top()
    }

    /// The number of values on the stack.
    pub fn get_depth(&mut self) -> (r: u8)
        requires
            old(self).wf(),
        ensures
            r == old(self).st.depth_view(),
            *final(self) == *old(self),
    {
        self.st.get_depth()
    }

    pub fn set_ctrl(&mut self, ctrl: u16)
        ensures
            *final(self) == (FPU { ctrl: ctrl, ..*old(self) }),
    {
        self.ctrl = ctrl;
    }

    pub fn get_ctrl(&self) -> (r: u16)
        ensures
            r == self.ctrl,
    {
        self.ctrl
    }

    /// Switches on tracing of the stack at each instruction pointer update.
    pub fn do_trace(&mut self)
        ensures
            *final(self) == (FPU { trace: true, ..*old(self) }),
    {
        self.trace = true;
    }

    /// Records the instruction pointer of the last x87 instruction.
    pub fn set_ip(&mut self, ip: u64)
        ensures
            *final(self) == (FPU { ip: ip, ..*old(self) }),
    {
        self.ip = ip;
    }

    /// The 32 bit environment: tag and control word, two filler words, the
    /// low 32 bits of the instruction pointer.
    pub fn get_env32(&self) -> (r: Vec<u32>)
        ensures
            r@ == seq![
                ((self.tag as u32) * 0x1_0000 + self.ctrl as u32) as u32,
                0xffff_0000u32,
                0xffff_ffffu32,
                (self.ip % 0x1_0000_0000) as u32,
            ],
    {
        let mut r: Vec<u32> = Vec::new();
        let r1: u32 = (self.tag as u32) * 0x1_0000 + self.ctrl as u32;
        r.push(r1);
        r.push(0xffff_0000);
        r.push(0xffff_ffff);
        r.push((self.ip % 0x1_0000_0000) as u32);
        r
    }

    /// The 64 bit environment: tag and control word, two filler words, the
    /// instruction pointer.
    pub fn get_env64(&self) -> (r: Vec<u64>)
        ensures
            r@ == seq![
                ((self.tag as u64) * 0x1_0000 + self.ctrl as u64) as u64,
                0xffff_0000u64,
                0xffff_ffffu64,
                self.ip,
            ],
    {
        let mut r: Vec<u64> = Vec::new();
        let r1: u64 = (self.tag as u64) * 0x1_0000 + self.ctrl as u64;
        r.push(r1);
        r.push(0xffff_0000);
        r.push(0xffff_ffff);
        r.push(self.ip);
        r
    }

    /// Writes the low 80 bits of `value` to ST(i) (the indefinite value if
    /// ST(i) is invalid).
    pub fn set_st_u80(&mut self, i: usize, value: u128)
        requires
            old(self).wf(),
            i <= usize::MAX - 8,
        ensures
            old(self).st.written(
                final(self).st,
                old(self).st.invalid_view(),
                i as int,
                F80 { st: value & FPU_80_BITS_MAX },
            ),
            *final(self) == old(self).with_stack(final(self).st),
    {
        match self.st.get_mut(i) {
            Some(r) => r.set(value),
            None => {},
        }
    }

    /// The low 80 bits of the physical register `i`.
    pub fn peek_st_u80(&mut self, i: usize) -> (r: u128)
        requires
            old(self).wf(),
            i < 8,
        ensures
            r == old(self).st.regs_view()[i as int].st & FPU_80_BITS_MAX,
            *final(self) == *old(self),
    {
        self.st.peek(i).get()
    }

    /// The low 80 bits of ST(n), without marking anything.
    pub fn peek_st_logical_u80(&mut self, n: usize) -> (r: u128)
        requires
            old(self).wf(),
            n <= usize::MAX - 8,
        ensures
            r == old(self).st.regs_view()[old(self).st.phys(n as int)].st & FPU_80_BITS_MAX,
            *final(self) == *old(self),
    {
        let idx = (self.st.get_top() as usize + n) % 8;
        self.peek_st_u80(idx)
    }

    /// The low 80 bits of ST(i); reading an empty register marks it invalid.
    pub fn get_st_u80(&mut self, i: usize) -> (r: u128)
        requires
            old(self).wf(),
            i <= usize::MAX - 8,
        ensures
            r == old(self).st.regs_view()[old(self).st.phys(i as int)].st & FPU_80_BITS_MAX,
            final(self).wf(),
            final(self).st.invalid_view() == old(self).st.mark_read(old(self).st.invalid_view(), i as int),
            final(self).st.regs_view() == old(self).st.regs_view(),
            final(self).st.top_view() == old(self).st.top_view(),
            final(self).st.depth_view() == old(self).st.depth_view(),
            *final(self) == old(self).with_stack(final(self).st),
    {
        self.st.get(i).get()
    }

    /// Exchanges ST(0) and ST(i).
    pub fn xchg_st(&mut self, i: usize)
        requires
            old(self).wf(),
            i <= usize::MAX - 8,
        ensures
            final(self).wf(),
            final(self).st.regs_view() == old(self).st.regs_view().update(
                old(self).st.phys(0),
                old(self).st.regs_view()[old(self).st.phys(i as int)],
            ).update(old(self).st.phys(i as int), old(self).st.regs_view()[old(self).st.phys(0)]),
            final(self).st.top_view() == old(self).st.top_view(),
            final(self).st.depth_view() == old(self).st.depth_view(),
            final(self).st.invalid_view() == old(self).st.invalid_view(),
            *final(self) == old(self).with_stack(final(self).st),
    {
        proof {
            old(self).st.lemma_wf();
        }
        self.st.swap(0, i);
    }

    /// Writes zero to ST(i) (the indefinite value if ST(i) is invalid).
    pub fn clear_st(&mut self, i: usize)
        requires
            old(self).wf(),
            i <= usize::MAX - 8,
        ensures
            old(self).st.written(final(self).st, old(self).st.invalid_view(), i as int, F80 { st: 0 }),
            *final(self) == old(self).with_stack(final(self).st),
    {
        proof {
            lemma_mask80_idempotent(0);
        }
        match self.st.get_mut(i) {
            Some(r) => r.set(0),
            None => {},
        }
    }

    /// Flips the sign of ST(i) (writes the indefinite value if ST(i) is
    /// invalid).
    pub fn neg_st(&mut self, i: usize)
        requires
            old(self).wf(),
            i <= usize::MAX - 8,
        ensures
            old(self).st.written(
                final(self).st,
                old(self).st.invalid_view(),
                i as int,
                F80 { st: old(self).st.regs_view()[old(self).st.phys(i as int)].st ^ SIGN_MASK },
            ),
            *final(self) == old(self).with_stack(final(self).st),
    {
        match self.st.get_mut(i) {
            Some(r) => r.neg(),
            None => {},
        }
    }

    /// Copies ST(i) to ST(0).
    pub fn move_to_st0(&mut self, i: usize)
        requires
            old(self).wf(),
            i <= usize::MAX - 8,
        ensures
            old(self).st.written(
                final(self).st,
                old(self).st.mark_read(old(self).st.invalid_view(), i as int),
                0,
                F80 { st: old(self).st.regs_view()[old(self).st.phys(i as int)].st & FPU_80_BITS_MAX },
            ),
            *final(self) == old(self).with_stack(final(self).st),
    {
        let v = self.st.get(i).get();
        proof {
            lemma_mask80_idempotent(old(self).st.regs_view()[old(self).st.phys(i as int)].st);
        }
        match self.st.get_mut(0) {
            Some(r) => r.set(v),
            None => {},
        }
    }

    /// The position `n` of ST(n).
    pub fn reg_to_id(&self, reg: StRegister) -> (r: usize)
        ensures
            r == st_number(reg),
            r < 8,
    {
        match reg {
            StRegister::ST0 => 0,
            StRegister::ST1 => 1,
            StRegister::ST2 => 2,
            StRegister::ST3 => 3,
            StRegister::ST4 => 4,
            StRegister::ST5 => 5,
            StRegister::ST6 => 6,
            StRegister::ST7 => 7,
        }
    }

    /// The position `n` of ST(n), as an index of the stack.
    pub fn reg_to_idx(&self, reg: StRegister) -> (r: usize)
        ensures
            r == st_number(reg),
            r < 8,
    {
        match reg {
            StRegister::ST0 => 0,
            StRegister::ST1 => 1,
            StRegister::ST2 => 2,
            StRegister::ST3 => 3,
            StRegister::ST4 => 4,
            StRegister::ST5 => 5,
            StRegister::ST6 => 6,
            StRegister::ST7 => 7,
        }
    }

    /// Copies the register `reg` to ST(0).
    pub fn move_reg_to_st0(&mut self, reg: StRegister)
        requires
            old(self).wf(),
        ensures
            old(self).st.written(
                final(self).st,
                old(self).st.mark_read(old(self).st.invalid_view(), st_number(reg) as int),
                0,
                F80 {
                    st: old(self).st.regs_view()[old(self).st.phys(st_number(reg) as int)].st
                        & FPU_80_BITS_MAX,
                },
            ),
            *final(self) == old(self).with_stack(final(self).st),
    {
        match reg {
            StRegister::ST0 => self.move_to_st0(0),
            StRegister::ST1 => self.move_to_st0(1),
            StRegister::ST2 => self.move_to_st0(2),
            StRegister::ST3 => self.move_to_st0(3),
            StRegister::ST4 => self.move_to_st0(4),
            StRegister::ST5 => self.move_to_st0(5),
            StRegister::ST6 => self.move_to_st0(6),
            StRegister::ST7 => self.move_to_st0(7),
        }
    }

    /// Writes the low 80 bits of `value` to the register `reg` (the
    /// indefinite value if it is invalid).
    pub fn set_streg_f80(&mut self, reg: StRegister, value: u128)
        requires
            old(self).wf(),
        ensures
            old(self).st.written(
                final(self).st,
                old(self).st.invalid_view(),
                st_number(reg) as int,
                F80 { st: value & FPU_80_BITS_MAX },
            ),
            *final(self) == old(self).with_stack(final(self).st),
    {
        let idx = self.reg_to_idx(reg);
        match self.st.get_mut(idx) {
            Some(r) => r.set(value),
            None => {},
        }
    }

    /// Adds ST(0) to itself.
    pub fn add_to_st0(&mut self, i: usize)
        requires
            old(self).wf(),
        ensures
            old(self).st.written(
                final(self).st,
                old(self).st.mark_read(old(self).st.invalid_view(), 0),
                0,
                F80 {
                    st: signed_sum(
                        old(self).st.regs_view()[old(self).st.phys(0)].st,
                        old(self).st.regs_view()[old(self).st.phys(0)].st,
                        sign_field(old(self).st.regs_view()[old(self).st.phys(0)].st),
                    ),
                },
            ),
            *final(self) == old(self).with_stack(final(self).st),
    {
        let v = self.st.get(0);
        match self.st.get_mut(0) {
            Some(r) => r.add(v),
            None => {},
        }
    }

    /// ST(i) plus ST(j), into ST(i).
    pub fn add(&mut self, i: usize, j: usize)
        requires
            old(self).wf(),
            i != j,
            i <= usize::MAX - 8,
            j <= usize::MAX - 8,
            exps_close(
                old(self).st.regs_view()[old(self).st.phys(i as int)].st,
                old(self).st.regs_view()[old(self).st.phys(j as int)].st,
            ),
            sign_field(old(self).st.regs_view()[old(self).st.phys(i as int)].st) != sign_field(
                old(self).st.regs_view()[old(self).st.phys(j as int)].st,
            ) ==> diff_normalizable(
                old(self).st.regs_view()[old(self).st.phys(i as int)].st,
                old(self).st.regs_view()[old(self).st.phys(j as int)].st,
            ),
        ensures
            old(self).st.written(
                final(self).st,
                old(self).st.mark_read(old(self).st.invalid_view(), j as int),
                i as int,
                F80 {
                    st: signed_sum(
                        old(self).st.regs_view()[old(self).st.phys(i as int)].st,
                        old(self).st.regs_view()[old(self).st.phys(j as int)].st,
                        sign_field(old(self).st.regs_view()[old(self).st.phys(j as int)].st),
                    ),
                },
            ),
            *final(self) == old(self).with_stack(final(self).st),
    {
        let v = self.st.get(j);
        match self.st.get_mut(i) {
            Some(r) => r.add(v),
            None => {},
        }
    }

    /// ST(i) minus ST(j), into ST(i).
    pub fn sub(&mut self, i: usize, j: usize)
        requires
            old(self).wf(),
            i != j,
            i <= usize::MAX - 8,
            j <= usize::MAX - 8,
            exps_close(
                old(self).st.regs_view()[old(self).st.phys(i as int)].st,
                old(self).st.regs_view()[old(self).st.phys(j as int)].st,
            ),
            sign_field(old(self).st.regs_view()[old(self).st.phys(i as int)].st) == sign_field(
                old(self).st.regs_view()[old(self).st.phys(j as int)].st,
            ) ==> diff_normalizable(
                old(self).st.regs_view()[old(self).st.phys(i as int)].st,
                old(self).st.regs_view()[old(self).st.phys(j as int)].st,
            ),
        ensures
            old(self).st.written(
                final(self).st,
                old(self).st.mark_read(old(self).st.invalid_view(), j as int),
                i as int,
                F80 {
                    st: signed_sum(
                        old(self).st.regs_view()[old(self).st.phys(i as int)].st,
                        old(self).st.regs_view()[old(self).st.phys(j as int)].st,
                        !sign_field(old(self).st.regs_view()[old(self).st.phys(j as int)].st),
                    ),
                },
            ),
            *final(self) == old(self).with_stack(final(self).st),
    {
        let v = self.st.get(j);
        match self.st.get_mut(i) {
            Some(r) => r.sub(v),
            None => {},
        }
    }

    /// ST(j) minus ST(i), into ST(i).
    pub fn subr(&mut self, i: usize, j: usize)
        requires
            old(self).wf(),
            i != j,
            i <= usize::MAX - 8,
            j <= usize::MAX - 8,
            exps_close(
                old(self).st.regs_view()[old(self).st.phys(j as int)].st,
                old(self).st.regs_view()[old(self).st.phys(i as int)].st,
            ),
            sign_field(old(self).st.regs_view()[old(self).st.phys(j as int)].st) == sign_field(
                old(self).st.regs_view()[old(self).st.phys(i as int)].st,
            ) ==> diff_normalizable(
                old(self).st.regs_view()[old(self).st.phys(j as int)].st,
                old(self).st.regs_view()[old(self).st.phys(i as int)].st,
            ),
        ensures
            old(self).st.written(
                final(self).st,
                old(self).st.mark_read(
                    old(self).st.mark_read(old(self).st.invalid_view(), i as int),
                    j as int,
                ),
                i as int,
                F80 {
                    st: signed_sum(
                        old(self).st.regs_view()[old(self).st.phys(j as int)].st,
                        old(self).st.regs_view()[old(self).st.phys(i as int)].st,
                        !sign_field(old(self).st.regs_view()[old(self).st.phys(i as int)].st),
                    ) & FPU_80_BITS_MAX,
                },
            ),
            *final(self) == old(self).with_stack(final(self).st),
    {
        let a = self.st.get(i);
        let mut b = self.st.get(j);
        b.sub(a);
        let v = b.get();
        proof {
            lemma_mask80_idempotent(b.st);
        }
        match self.st.get_mut(i) {
            Some(r) => r.set(v),
            None => {},
        }
    }

    /// Pushes a value (see `FPUStack::push_f80`).
    pub fn push_f80(&mut self, value: F80)
        requires
            old(self).wf(),
            old(self).st.depth_view() < 8,
        ensures
            final(self).wf(),
            old(self).st.pushed(final(self).st, value),
            *final(self) == old(self).with_stack(final(self).st),
    {
        self.st.push_f80(value);
    }

    /// ST(n) by reference; reading an empty register marks it invalid.
    pub fn get_st_f80_ref(&mut self, n: usize) -> (r: &F80)
        requires
            old(self).wf(),
            n <= usize::MAX - 8,
        ensures
            *r == old(self).st.regs_view()[old(self).st.phys(n as int)],
            final(self).wf(),
            final(self).st.invalid_view() == old(self).st.mark_read(old(self).st.invalid_view(), n as int),
            final(self).st.regs_view() == old(self).st.regs_view(),
            final(self).st.top_view() == old(self).st.top_view(),
            final(self).st.depth_view() == old(self).st.depth_view(),
            *final(self) == old(self).with_stack(final(self).st),
    {
        self.st.get_ref(n)
    }

    /// A copy of ST(n); reading an empty register marks it invalid.
    pub fn get_st_f80_copy(&mut self, n: usize) -> (r: F80)
        requires
            old(self).wf(),
            n <= usize::MAX - 8,
        ensures
            r == old(self).st.regs_view()[old(self).st.phys(n as int)],
            final(self).wf(),
            final(self).st.invalid_view() == old(self).st.mark_read(old(self).st.invalid_view(), n as int),
            final(self).st.regs_view() == old(self).st.regs_view(),
            final(self).st.top_view() == old(self).st.top_view(),
            final(self).st.depth_view() == old(self).st.depth_view(),
            *final(self) == old(self).with_stack(final(self).st),
    {
        self.st.get(n)
    }

    /// Whether ST(a) is empty, which no value is (`F80::is_empty`); the read
    /// marks an empty register invalid.
    pub fn is_empty(&mut self, a: usize) -> (r: bool)
        requires
            old(self).wf(),
            a <= usize::MAX - 8,
        ensures
            !r,
            final(self).wf(),
            final(self).st.invalid_view() == old(self).st.mark_read(old(self).st.invalid_view(), a as int),
            final(self).st.regs_view() == old(self).st.regs_view(),
            final(self).st.top_view() == old(self).st.top_view(),
            final(self).st.depth_view() == old(self).st.depth_view(),
            *final(self) == old(self).with_stack(final(self).st),
    {
        self.st.get(a).is_empty()
    }

    /// Pops ST(0) and returns its low 80 bits, or zero on an empty stack.
    pub fn pop2(&mut self) -> (r: u128)
        requires
            old(self).wf(),
        ensures
            final(self).wf(),
            old(self).st.depth_view() == 0 ==> r == 0 && *final(self) == *old(self),
            old(self).st.depth_view() > 0 ==> {
                &&& r == old(self).st.regs_view()[old(self).st.top_view() as int].st
                    & FPU_80_BITS_MAX
                &&& final(self).st.top_view() == (old(self).st.top_view() + 1) % 8
                &&& final(self).st.depth_view() == old(self).st.depth_view() - 1
                &&& final(self).st.regs_view() == old(self).st.regs_view()
                &&& final(self).st.invalid_view() == old(self).st.invalid_view()
            },
            *final(self) == old(self).with_stack(final(self).st),
    {
        let v = match self.st.pop() {
            Some(f80val) => f80val.get(),
            None => 0,
        };
        v
    }

    /// Nothing is pending: x87 exceptions are not raised.
    pub fn check_pending_exceptions(self) {
    }

    /// The state image of `fxsave`: control, status and tag words, opcode,
    /// pointers, `mxcsr` (also as its mask), the stack and the SSE registers.
    pub fn fxsave(&self) -> (s: FPUState)
        ensures
            s.fpu_control_word == self.fpu_control_word,
            s.fpu_status_word == self.stat,
            s.fpu_tag_word == self.tag,
            s.fpu_opcode == self.opcode,
            s.rip == self.ip,
            s.rdp == self.operand_ptr,
            s.mxcsr == self.mxcsr,
            s.mxcsr_mask == self.mxcsr,
            s.st == self.st,
            s.xmm == self.xmm,
            s.reserved1 == 0,
            forall|i: int| 0 <= i < 224 ==> #[trigger] s.reserved2[i] == 0,
    {
        let mut state = FPUState::new();
        state.fpu_control_word = self.fpu_control_word;
        state.fpu_status_word = self.stat;
        state.fpu_tag_word = self.tag;
        state.fpu_opcode = self.opcode;
        state.rip = self.ip;
        state.rdp = self.operand_ptr;
        state.mxcsr = self.mxcsr;
        state.mxcsr_mask = self.mxcsr;
        state.st = self.st;
        state.xmm = self.xmm;
        return state;
    }

    /// Restores from an `fxsave` image: the words, pointers, `mxcsr`, SSE
    /// registers and the stack are taken from it, then each of ST(0) to
    /// ST(7) is taken for writing in turn and cut to 80 bits (see
    /// `FPUStack::fixed_reg`).
    pub fn fxrstor(&mut self, state: FPUState)
        requires
            old(self).wf(),
            state.st.wf(),
        ensures
            final(self).wf(),
            final(self).st.invalid_view() == state.st.marked_upto(state.st.invalid_view(), 8),
            forall|i: int| 0 <= i < 8 ==> final(self).st.regs_view()[state.st.phys(i)]
                == #[trigger] state.st.fixed_reg(i),
            final(self).fpu_control_word == state.fpu_control_word,
            final(self).stat == state.fpu_status_word,
            final(self).tag == state.fpu_tag_word,
            final(self).opcode == state.fpu_opcode,
            final(self).ip == state.rip,
            final(self).operand_ptr == state.rdp,
            final(self).mxcsr == state.mxcsr,
            final(self).xmm == state.xmm,
            final(self).st.top_view() == state.st.top_view(),
            final(self).st.depth_view() == state.st.depth_view(),
            *final(self) == (FPU {
                st: final(self).st,
                fpu_control_word: state.fpu_control_word,
                stat: state.fpu_status_word,
                tag: state.fpu_tag_word,
                opcode: state.fpu_opcode,
                ip: state.rip,
                operand_ptr: state.rdp,
                mxcsr: state.mxcsr,
                xmm: state.xmm,
                ..*old(self)
            }),
    {
        self.fpu_control_word = state.fpu_control_word;
        self.stat = state.fpu_status_word;
        self.tag = state.fpu_tag_word;
        self.opcode = state.fpu_opcode;
        self.ip = state.rip;
        self.operand_ptr = state.rdp;
        self.mxcsr = state.mxcsr;
        self.st = state.st;
        proof {
            self.st.lemma_wf();
        }
        let mut i: usize = 0;
        while i < 8
            invariant
                i <= 8,
                self.st.wf(),
                self.st.top_view() == state.st.top_view(),
                self.st.depth_view() == state.st.depth_view(),
                state.st.wf(),
                self.st.invalid_view() == state.st.marked_upto(state.st.invalid_view(), i as nat),
                self.st.regs_view().len() == 8,
                forall|j: int| 0 <= j < i ==> self.st.regs_view()[state.st.phys(j)]
                    == #[trigger] state.st.fixed_reg(j),
                forall|j: int| i <= j < 8 ==> #[trigger] self.st.regs_view()[state.st.phys(j)]
                    == state.st.regs_view()[state.st.phys(j)],
                *self == (FPU {
                    st: self.st,
                    fpu_control_word: state.fpu_control_word,
                    stat: state.fpu_status_word,
                    tag: state.fpu_tag_word,
                    opcode: state.fpu_opcode,
                    ip: state.rip,
                    operand_ptr: state.rdp,
                    mxcsr: state.mxcsr,
                    ..*old(self)
                }),
            decreases 8 - i,
        {
            let ghost before = self.st;
            proof {
                before.lemma_wf();
                state.st.lemma_wf();
            }
            match self.st.get_mut(i) {
                Some(r) => r.fix(),
                None => {},
            }
            proof {
                let s0 = state.st;
                assert(before.phys(i as int) == s0.phys(i as int));
                assert(before.mark_read(before.invalid_view(), i as int) == s0.marked_upto(
                    s0.invalid_view(),
                    (i + 1) as nat,
                ));
                assert forall|j: int| 0 <= j < 8 && j != i implies s0.phys(j) != s0.phys(i as int) by {}
            }
            i = i + 1;
        }
        self.xmm = state.xmm;
    }
}

/// Exchanging ST(0) with ST(i) twice (see `FPU::xchg_st`) gives back every
/// register, with the top, depth, invalid bits and all other state.
pub proof fn lemma_xchg_st_twice(f: FPU, mid: FPU, end: FPU, i: int)
    requires
        f.wf(),
        i >= 0,
        mid.st.regs_view() == f.st.regs_view().update(f.st.phys(0), f.st.regs_view()[f.st.phys(i)]).update(
            f.st.phys(i),
            f.st.regs_view()[f.st.phys(0)],
        ),
        mid.st.top_view() == f.st.top_view(),
        mid.st.depth_view() == f.st.depth_view(),
        mid.st.invalid_view() == f.st.invalid_view(),
        mid == f.with_stack(mid.st),
        end.st.regs_view() == mid.st.regs_view().update(mid.st.phys(0), mid.st.regs_view()[mid.st.phys(i)]).update(
            mid.st.phys(i),
            mid.st.regs_view()[mid.st.phys(0)],
        ),
        end.st.top_view() == mid.st.top_view(),
        end.st.depth_view() == mid.st.depth_view(),
        end.st.invalid_view() == mid.st.invalid_view(),
        end == mid.with_stack(end.st),
    ensures
        end.st.regs_view() == f.st.regs_view(),
        end.st.top_view() == f.st.top_view(),
        end.st.depth_view() == f.st.depth_view(),
        end.st.invalid_view() == f.st.invalid_view(),
        end == f.with_stack(end.st),
{
    f.st.lemma_wf();
    assert(end.st.regs_view() =~= f.st.regs_view());
}

impl FPUState {
    /// Saving the image at `addr`, where one region alone holds its bytes,
    /// and loading it back from there gives the words, pointers and `mxcsr`
    /// with its mask that were saved.
    pub proof fn lemma_load_after_save(self, before: Maps, after: Maps, addr: u64, k: usize, back: FPUState)
        requires
            before.wf(),
            addr + 0x20 <= u64::MAX,
            before.sole_region(k, addr, 0x20),
            before.wrote_values(after, self.writes(addr)),
            back.loaded_from(&after, addr),
        ensures
            FPUState::readable(&after, addr),
            back.fpu_control_word == self.fpu_control_word,
            back.fpu_status_word == self.fpu_status_word,
            back.fpu_tag_word == self.fpu_tag_word,
            back.fpu_opcode == self.fpu_opcode,
            back.rip == self.rip,
            back.rdp == self.rdp,
            back.mxcsr == self.mxcsr,
            back.mxcsr_mask == self.mxcsr_mask,
    {
        let ws = self.writes(addr);
        reveal_with_fuel(crate::fpu::f80::pow256, 9);
        assert(ws[0] == (addr, le_bytes(self.fpu_control_word as nat, 2)));
        assert(ws[1] == ((addr + 0x2) as u64, le_bytes(self.fpu_status_word as nat, 2)));
        assert(ws[2] == ((addr + 0x4) as u64, le_bytes(self.fpu_tag_word as nat, 2)));
        assert(ws[3] == ((addr + 0x6) as u64, le_bytes(self.fpu_opcode as nat, 2)));
        assert(ws[4] == ((addr + 0x8) as u64, le_bytes(self.rip as nat, 8)));
        assert(ws[5] == ((addr + 0x10) as u64, le_bytes(self.rdp as nat, 8)));
        assert(ws[6] == ((addr + 0x18) as u64, le_bytes(self.mxcsr as nat, 4)));
        assert(ws[7] == ((addr + 0x1c) as u64, le_bytes(self.mxcsr_mask as nat, 4)));
        assert forall|i: int| 0 <= i < ws.len() implies addr <= (#[trigger] ws[i]).0 && ws[i].0 + ws[i].1.len()
            <= addr + 0x20 by {
            assert(0 <= i < 8);
        }
        assert forall|i: int| 0 <= i < ws.len() implies (#[trigger] ws[i]).1.len() > 0 by {
            assert(0 <= i < 8);
        }
        before.lemma_sole_run(after, ws, k, addr, 0x20);
        before.lemma_same_layout_sole(after, k, addr, 0x20);
        before.lemma_same_layout_wf(after);
        let m0 = before.regions()[k];
        let m1 = after.regions()[k];
        assert forall|i: int| 0 <= i < ws.len() implies #[trigger] m0.holds(ws[i].0, ws[i].1.len()) by {
            assert(0 <= i < 8);
        }
        assert forall|i: int| 0 < i < ws.len() implies #[trigger] m0.offset(ws[i].0) + ws[i].1.len()
            <= m0.offset(ws[0].0) || m0.offset(ws[0].0) + ws[0].1.len() <= m0.offset(ws[i].0) by {
            assert(0 < i < 8);
        }
        m0.lemma_patched_value(m1, ws, 0, self.fpu_control_word as nat, 2);
        after.lemma_sole_region_found(k, addr, 0x20, addr);
        assert forall|i: int| 1 < i < ws.len() implies #[trigger] m0.offset(ws[i].0) + ws[i].1.len()
            <= m0.offset(ws[1].0) || m0.offset(ws[1].0) + ws[1].1.len() <= m0.offset(ws[i].0) by {
            assert(1 < i < 8);
        }
        m0.lemma_patched_value(m1, ws, 1, self.fpu_status_word as nat, 2);
        after.lemma_sole_region_found(k, addr, 0x20, (addr + 0x2) as u64);
        assert forall|i: int| 2 < i < ws.len() implies #[trigger] m0.offset(ws[i].0) + ws[i].1.len()
            <= m0.offset(ws[2].0) || m0.offset(ws[2].0) + ws[2].1.len() <= m0.offset(ws[i].0) by {
            assert(2 < i < 8);
        }
        m0.lemma_patched_value(m1, ws, 2, self.fpu_tag_word as nat, 2);
        after.lemma_sole_region_found(k, addr, 0x20, (addr + 0x4) as u64);
        assert forall|i: int| 3 < i < ws.len() implies #[trigger] m0.offset(ws[i].0) + ws[i].1.len()
            <= m0.offset(ws[3].0) || m0.offset(ws[3].0) + ws[3].1.len() <= m0.offset(ws[i].0) by {
            assert(3 < i < 8);
        }
        m0.lemma_patched_value(m1, ws, 3, self.fpu_opcode as nat, 2);
        after.lemma_sole_region_found(k, addr, 0x20, (addr + 0x6) as u64);
        assert forall|i: int| 4 < i < ws.len() implies #[trigger] m0.offset(ws[i].0) + ws[i].1.len()
            <= m0.offset(ws[4].0) || m0.offset(ws[4].0) + ws[4].1.len() <= m0.offset(ws[i].0) by {
            assert(4 < i < 8);
        }
        m0.lemma_patched_value(m1, ws, 4, self.rip as nat, 8);
        after.lemma_sole_region_found(k, addr, 0x20, (addr + 0x8) as u64);
        assert forall|i: int| 5 < i < ws.len() implies #[trigger] m0.offset(ws[i].0) + ws[i].1.len()
            <= m0.offset(ws[5].0) || m0.offset(ws[5].0) + ws[5].1.len() <= m0.offset(ws[i].0) by {
            assert(5 < i < 8);
        }
        m0.lemma_patched_value(m1, ws, 5, self.rdp as nat, 8);
        after.lemma_sole_region_found(k, addr, 0x20, (addr + 0x10) as u64);
        assert forall|i: int| 6 < i < ws.len() implies #[trigger] m0.offset(ws[i].0) + ws[i].1.len()
            <= m0.offset(ws[6].0) || m0.offset(ws[6].0) + ws[6].1.len() <= m0.offset(ws[i].0) by {
            assert(6 < i < 8);
        }
        m0.lemma_patched_value(m1, ws, 6, self.mxcsr as nat, 4);
        after.lemma_sole_region_found(k, addr, 0x20, (addr + 0x18) as u64);
        m0.lemma_patched_value(m1, ws, 7, self.mxcsr_mask as nat, 4);
        after.lemma_sole_region_found(k, addr, 0x20, (addr + 0x1c) as u64);
    }
}


} // verus!
