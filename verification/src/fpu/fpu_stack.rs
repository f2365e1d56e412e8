use vstd::prelude::*;
use crate::fpu::f80::{F80, FPU_80_BITS_MAX, REAL_INDEFINITE};

verus! {

/// The eight x87 data registers as a stack: `top` is the physical register
/// of ST(0), `depth` the number of pushed values, `invalid_flag` one bit per
/// physical register that was read while empty.
#[derive(Copy, Clone)]
pub struct FPUStack {
    regs: [F80; 8],
    top: u8,
    depth: u8,
    log: bool,
    invalid_flag: u8,
}

impl FPUStack {
    /// ST(0) names a register and at most eight values are pushed.
    pub closed spec fn wf(self) -> bool {
        self.top < 8 && self.depth <= 8
    }

    /// The invariant bounds the top and the depth.
    pub proof fn lemma_wf(self)
        requires
            self.wf(),
        ensures
            self.top_view() < 8,
            self.depth_view() <= 8,
            self.regs_view().len() == 8,
    {
    }

    /// The physical register of ST(0).
    pub closed spec fn top_view(self) -> nat {
        self.top as nat
    }

    /// The number of values on the stack.
    pub closed spec fn depth_view(self) -> nat {
        self.depth as nat
    }

    /// The registers in physical order.
    pub closed spec fn regs_view(self) -> Seq<F80> {
        self.regs@
    }

    /// The invalid bits, one per physical register.
    pub closed spec fn invalid_view(self) -> u8 {
        self.invalid_flag
    }

    /// The physical register of ST(n).
    pub open spec fn phys(self, n: int) -> int {
        (self.top_view() + n) % 8
    }

    /// Whether reading ST(n) reads a register that holds no pushed value.
    pub open spec fn reads_empty(self, n: int) -> bool {
        self.depth_view() == 0 || n >= self.depth_view()
    }

    /// The invalid bits `inv` after reading ST(n): the bit of its register
    /// is set when the register holds no pushed value.
    pub open spec fn mark_read(self, inv: u8, n: int) -> u8 {
        if self.reads_empty(n) {
            inv | (1u8 << self.phys(n) as u8)
        } else {
            inv
        }
    }

    /// The invalid bits `inv` after reading ST(0) to ST(k - 1) in turn.
    pub open spec fn marked_upto(self, inv: u8, k: nat) -> u8
        decreases k,
    {
        if k == 0 {
            inv
        } else {
            self.mark_read(self.marked_upto(inv, (k - 1) as nat), k - 1)
        }
    }

    /// The register of ST(i) after each of ST(0) to ST(7) was taken for
    /// writing in turn and cut to 80 bits: the register cut, or the
    /// indefinite value when it was not handed out.
    pub open spec fn fixed_reg(self, i: int) -> F80 {
        if self.writes_to(self.marked_upto(self.invalid_view(), i as nat), i) {
            F80 { st: self.regs_view()[self.phys(i)].st & FPU_80_BITS_MAX }
        } else {
            F80 { st: REAL_INDEFINITE }
        }
    }

    /// Whether ST(n) is handed out for writing, starting from the invalid
    /// bits `inv`: its bit is clear after the read.
    pub open spec fn writes_to(self, inv: u8, n: int) -> bool {
        self.mark_read(inv, n) & (1u8 << self.phys(n) as u8) == 0
    }

    /// `new` is `self` after a write of `value` to ST(n) through
    /// `get_mut`, starting from the invalid bits `inv`: the read marks the
    /// register, and a register that is then invalid gets the indefinite
    /// value in place of `value`.
    pub open spec fn written(self, new: FPUStack, inv: u8, n: int, value: F80) -> bool {
        &&& new.wf()
        &&& new.top_view() == self.top_view()
        &&& new.depth_view() == self.depth_view()
        &&& new.invalid_view() == self.mark_read(inv, n)
        &&& new.regs_view() == self.regs_view().update(
            self.phys(n),
            if self.writes_to(inv, n) {
                value
            } else {
                F80 { st: REAL_INDEFINITE }
            },
        )
    }

    /// Bit `idx` of the invalid bits.
    pub open spec fn invalid_bit(self, idx: int) -> bool {
        self.invalid_view() & (1u8 << idx as u8) != 0
    }

    pub fn new() -> (s: Self)
        ensures
            s.wf(),
            s.top_view() == 0,
            s.depth_view() == 0,
            s.invalid_view() == 0,
            s.regs_view().len() == 8,
            forall|i: int| 0 <= i < 8 ==> (#[trigger] s.regs_view()[i]).st == 0,
    {
        let zero = F80::new();
        Self { regs: [zero; 8], top: 0, depth: 0, log: false, invalid_flag: 0 }
    }

    /// The number of registers.
    pub fn len(&self) -> (r: usize)
        requires
            self.wf(),
        ensures
            r == 8,
    {
        8
    }

    pub fn get_top(&mut self) -> (r: u8)
        requires
            old(self).wf(),
        ensures
            final(self).wf(),
            r == old(self).top_view(),
            r < 8,
            *final(self) == *old(self),
    {
        self.top
    }

    /// Moves ST(0) one register up, modulo eight.
    pub fn inc_top(&mut self)
        requires
            old(self).wf(),
        ensures
            final(self).wf(),
            final(self).top_view() == (old(self).top_view() + 1) % 8,
            final(self).depth_view() == old(self).depth_view(),
            final(self).regs_view() == old(self).regs_view(),
            final(self).invalid_view() == old(self).invalid_view(),
    {
        self.top = (self.top + 1) % 8;
    }

    /// Moves ST(0) one register down, modulo eight.
    pub fn dec_top(&mut self)
        requires
            old(self).wf(),
        ensures
            final(self).wf(),
            final(self).top_view() == (old(self).top_view() + 7) % 8,
            final(self).depth_view() == old(self).depth_view(),
            final(self).regs_view() == old(self).regs_view(),
            final(self).invalid_view() == old(self).invalid_view(),
    {
        self.top = (self.top + 7) % 8;
    }

    /// Sets the invalid bit of a physical register.
    pub fn set_invalid(&mut self, idx: usize)
        requires
            old(self).wf(),
            idx < 8,
        ensures
            final(self).wf(),
            final(self).invalid_view() == old(self).invalid_view() | (1u8 << idx as u8),
            final(self).top_view() == old(self).top_view(),
            final(self).depth_view() == old(self).depth_view(),
            final(self).regs_view() == old(self).regs_view(),
    {
        self.invalid_flag = self.invalid_flag | (1u8 << idx as u8);
    }

    /// Clears the invalid bit of a physical register.
    pub fn clear_invalid(&mut self, idx: usize)
        requires
            old(self).wf(),
            idx < 8,
        ensures
            final(self).wf(),
            final(self).invalid_view() == old(self).invalid_view() & !(1u8 << idx as u8),
            final(self).top_view() == old(self).top_view(),
            final(self).depth_view() == old(self).depth_view(),
            final(self).regs_view() == old(self).regs_view(),
    {
        self.invalid_flag = self.invalid_flag & !(1u8 << idx as u8);
    }

    /// The invalid bit of a physical register.
    pub fn is_invalid(&self, idx: usize) -> (r: bool)
        requires
            self.wf(),
            idx < 8,
        ensures
            r == self.invalid_bit(idx as int),
    {
        (self.invalid_flag & (1u8 << idx as u8)) != 0
    }

    /// `new` is `self` after pushing `value`: ST(0) moved one register down
    /// and holds the low 80 bits of the value, and that register is no
    /// longer invalid.
    pub open spec fn pushed(self, new: FPUStack, value: F80) -> bool {
        &&& new.top_view() == (self.top_view() + 7) % 8
        &&& new.depth_view() == self.depth_view() + 1
        &&& new.regs_view() == self.regs_view().update(
            new.top_view() as int,
            F80 { st: value.st & FPU_80_BITS_MAX },
        )
        &&& new.invalid_view() == self.invalid_view() & !(1u8 << new.top_view() as u8)
    }

    /// `new` is `self` after a pop that gave `r`: nothing on an empty stack,
    /// else ST(0), with ST(0) moved one register up.
    pub open spec fn popped(self, new: FPUStack, r: Option<F80>) -> bool {
        &&& self.depth_view() == 0 ==> r is None && new == self
        &&& self.depth_view() > 0 ==> {
            &&& r == Some(self.regs_view()[self.top_view() as int])
            &&& new.top_view() == (self.top_view() + 1) % 8
            &&& new.depth_view() == self.depth_view() - 1
            &&& new.regs_view() == self.regs_view()
            &&& new.invalid_view() == self.invalid_view()
        }
    }

    /// Pushes a value: ST(0) moves one register down and takes the low 80
    /// bits of the value, and that register is no longer invalid.
    pub fn push_f80(&mut self, value: F80)
        requires
            old(self).wf(),
            old(self).depth_view() < 8,
        ensures
            final(self).wf(),
            old(self).pushed(*final(self), value),
    {
        self.top = (self.top + 7) % 8;
        let t = self.top as usize;
        self.regs[t] = F80 { st: value.get() };
        self.depth = self.depth + 1;
        self.clear_invalid(t);
    }

    /// Pops ST(0): `None` on an empty stack, otherwise its register, with
    /// ST(0) moved one register up.
    pub fn pop(&mut self) -> (r: Option<F80>)
        requires
            old(self).wf(),
        ensures
            final(self).wf(),
            old(self).popped(*final(self), r),
    {
        if self.depth == 0 {
            return None;
        }
        let val = self.regs[self.top as usize];
        self.top = (self.top + 1) % 8;
        self.depth = self.depth - 1;
        Some(val)
    }

    /// The physical register `n`, whatever the top.
    pub fn peek(&self, n: usize) -> (r: F80)
        requires
            self.wf(),
            n < 8,
        ensures
            r == self.regs_view()[n as int],
    {
        self.regs[n]
    }

    /// ST(n); reading a register that holds no pushed value marks it invalid.
    pub fn get(&mut self, n: usize) -> (r: F80)
        requires
            old(self).wf(),
            n <= usize::MAX - 8,
        ensures
            final(self).wf(),
            r == old(self).regs_view()[old(self).phys(n as int)],
            final(self).invalid_view() == old(self).mark_read(old(self).invalid_view(), n as int),
            final(self).top_view() == old(self).top_view(),
            final(self).depth_view() == old(self).depth_view(),
            final(self).regs_view() == old(self).regs_view(),
    {
        let idx = (self.top as usize + n) % 8;
        if self.depth == 0 || n >= self.depth as usize {
            self.set_invalid(idx);
        }
        self.regs[idx]
    }

    /// ST(n) by reference; reading a register that holds no pushed value
    /// marks it invalid.
    pub fn get_ref(&mut self, n: usize) -> (r: &F80)
        requires
            old(self).wf(),
            n <= usize::MAX - 8,
        ensures
            final(self).wf(),
            *r == old(self).regs_view()[old(self).phys(n as int)],
            final(self).invalid_view() == old(self).mark_read(old(self).invalid_view(), n as int),
            final(self).top_view() == old(self).top_view(),
            final(self).depth_view() == old(self).depth_view(),
            final(self).regs_view() == old(self).regs_view(),
    {
        let idx = (self.top as usize + n) % 8;
        if self.depth == 0 || n >= self.depth as usize {
            self.set_invalid(idx);
        }
        &self.regs[idx]
    }

    /// ST(n) for writing: reading a register that holds no pushed value
    /// marks it invalid; an invalid register is set to the indefinite value
    /// and not handed out.
    pub fn get_mut(&mut self, n: usize) -> (r: Option<&mut F80>)
        requires
            old(self).wf(),
            n <= usize::MAX - 8,
        ensures
            final(self).wf(),
            final(self).invalid_view() == old(self).mark_read(old(self).invalid_view(), n as int),
            final(self).top_view() == old(self).top_view(),
            final(self).depth_view() == old(self).depth_view(),
            !old(self).writes_to(old(self).invalid_view(), n as int) ==> r is None
                && final(self).regs_view() == old(self).regs_view().update(
                old(self).phys(n as int),
                F80 { st: REAL_INDEFINITE },
            ),
            old(self).writes_to(old(self).invalid_view(), n as int) ==> r is Some && *r->0
                == old(self).regs_view()[old(self).phys(n as int)] && final(self).regs_view()
                == old(self).regs_view().update(old(self).phys(n as int), *final(r->0)),
    {
        let idx = (self.top as usize + n) % 8;
        if self.depth == 0 || n >= self.depth as usize {
            self.set_invalid(idx);
        }
        if self.is_invalid(idx) {
            self.regs[idx] = F80 { st: REAL_INDEFINITE };
            None
        } else {
            Some(&mut self.regs[idx])
        }
    }

    pub fn get_depth(&self) -> (r: u8)
        requires
            self.wf(),
        ensures
            r == self.depth_view(),
            r <= 8,
    {
        self.depth
    }

    /// The physical register of ST(n).
    pub fn physical_index(&self, n: usize) -> (r: usize)
        requires
            self.wf(),
            n <= usize::MAX - 8,
        ensures
            r == self.phys(n as int),
    {
        (self.top as usize + n) % 8
    }

    /// Exchanges the physical registers `top + a` (not taken modulo eight)
    /// and ST(b).
    pub fn swap(&mut self, a: usize, b: usize)
        requires
            old(self).wf(),
            old(self).top_view() + a < 8,
            b <= usize::MAX - 8,
        ensures
            final(self).wf(),
            final(self).regs_view() == old(self).regs_view().update(
                old(self).top_view() + a,
                old(self).regs_view()[old(self).phys(b as int)],
            ).update(
                old(self).phys(b as int),
                old(self).regs_view()[old(self).top_view() + a],
            ),
            final(self).top_view() == old(self).top_view(),
            final(self).depth_view() == old(self).depth_view(),
            final(self).invalid_view() == old(self).invalid_view(),
    {
        let a = self.top as usize + a;
        let b = (self.top as usize + b) % 8;
        let ra = self.regs[a];
        let rb = self.regs[b];
        self.regs[a] = rb;
        self.regs[b] = ra;
    }
}

/// A pop right after a push gives back the pushed value, cut to 80 bits,
/// and leaves ST(0) and the depth where they were before the push.
pub proof fn lemma_pop_after_push(s0: FPUStack, s1: FPUStack, s2: FPUStack, value: F80, r: Option<F80>)
    requires
        s0.wf(),
        s0.depth_view() < 8,
        s0.pushed(s1, value),
        s1.popped(s2, r),
    ensures
        r == Some(F80 { st: value.st & FPU_80_BITS_MAX }),
        s2.top_view() == s0.top_view(),
        s2.depth_view() == s0.depth_view(),
        s2.regs_view() == s1.regs_view(),
{
}

} // verus!
