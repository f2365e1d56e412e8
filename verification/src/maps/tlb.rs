use vstd::prelude::*;

verus! {

/// The number of entries of the page lookup cache (TLB).
pub const TLB_SIZE: usize = 2048;

/// The page bits of an address: all but the low twelve.
pub const PAGE_MASK: u64 = 0xffff_ffff_ffff_f000;

/// The bits of `lpf + len` that pick an entry: bits 12 to 22.
pub const TLB_MASK: u64 = 0x7f_f000;

/// The `lpf` of an entry that holds no page.
pub const INVALID_TLB_ENTRY: u64 = 0xffff_ffff_ffff_ffff;

/// The page of an address.
pub open spec fn lpf_of(addr: u64) -> u64 {
    addr & PAGE_MASK
}

/// The entry that `lpf + len` maps to.
pub open spec fn tlb_index(lpf: u64, len: u64) -> u64 {
    ((lpf + len) as u64 & TLB_MASK) >> 12u64
}

/// Every sum maps to one of the `TLB_SIZE` entries.
pub proof fn lemma_tlb_index_bound(lpf: u64, len: u64)
    requires
        lpf + len <= u64::MAX,
    ensures
        tlb_index(lpf, len) < TLB_SIZE,
{
    let sum = (lpf + len) as u64;
    assert((sum & 0x7f_f000) >> 12u64 < 2048) by (bit_vector);
}

/// The page frame of `addr`: `addr` with its low twelve bits cleared.
#[allow(non_snake_case)]
pub fn LPF_OF(addr: u64) -> (r: u64)
    ensures
        r == lpf_of(addr),
        r <= addr,
        r % 4096 == 0,
        addr - r < 4096,
{
    assert(addr & 0xffff_ffff_ffff_f000 <= addr) by (bit_vector);
    assert((addr & 0xffff_ffff_ffff_f000) % 4096 == 0) by (bit_vector);
    assert(addr - (addr & 0xffff_ffff_ffff_f000) < 4096) by (bit_vector);
    addr & PAGE_MASK
}

/// A cached page lookup: the page `lpf` lives in the memory region whose
/// key is `mem64`.
#[derive(Clone, Copy, Debug)]
pub struct TLBEntry {
    pub lpf: u64,
    pub mem64: usize,
}

impl TLBEntry {
    /// Whether the entry holds a page.
    pub open spec fn is_valid(&self) -> bool {
        self.lpf != INVALID_TLB_ENTRY
    }

    fn new() -> (e: Self)
        ensures
            !e.is_valid(),
            e.mem64 == 0,
    {
        TLBEntry { lpf: INVALID_TLB_ENTRY, mem64: 0 }
    }

    fn valid(&self) -> (r: bool)
        ensures
            r == self.is_valid(),
    {
        self.lpf != INVALID_TLB_ENTRY
    }

    /// Forgets the page; the region key stays.
    pub fn invalidate(&mut self)
        ensures
            !final(self).is_valid(),
            final(self).mem64 == old(self).mem64,
    {
        self.lpf = INVALID_TLB_ENTRY;
    }

    /// Records that page `lpf` lives in region `mem64`.
    pub fn set_mem(&mut self, lpf: u64, mem64: usize)
        ensures
            final(self).lpf == lpf,
            final(self).mem64 == mem64,
    {
        self.lpf = lpf;
        self.mem64 = mem64;
    }

    /// The key of the region.
    pub fn get_mem(&self) -> (r: usize)
        ensures
            r == self.mem64,
    {
        self.mem64
    }
}

/// A direct mapped page lookup cache (TLB) of `TLB_SIZE` entries.
pub struct TLB {
    entry: Vec<TLBEntry>,
}

impl TLB {
    /// The entries.
    pub closed spec fn entries(&self) -> Seq<TLBEntry> {
        self.entry@
    }

    /// The buffer has its `TLB_SIZE` entries.
    pub open spec fn wf(&self) -> bool {
        self.entries().len() == TLB_SIZE
    }

    /// The entry that a lookup of `len` bytes at `addr` reads.
    pub open spec fn entry_for(&self, addr: u64, len: u64) -> TLBEntry {
        self.entries()[tlb_index(lpf_of(addr), len) as int]
    }

    /// A buffer with every entry empty.
    pub fn new() -> (t: Self)
        ensures
            t.wf(),
            forall|i: int| 0 <= i < TLB_SIZE ==> !(#[trigger] t.entries()[i]).is_valid(),
    {
        let mut entry: Vec<TLBEntry> = Vec::new();
        let mut i: usize = 0;
        while i < TLB_SIZE
            invariant
                i <= TLB_SIZE,
                entry@.len() == i,
                forall|j: int| 0 <= j < i ==> !(#[trigger] entry@[j]).is_valid(),
            decreases TLB_SIZE - i,
        {
            entry.push(TLBEntry::new());
            i = i + 1;
        }
        TLB { entry }
    }

    /// Invalidates every entry, keeping their region keys.
    pub fn flush(&mut self)
        requires
            old(self).wf(),
        ensures
            final(self).wf(),
            forall|i: int|
                0 <= i < TLB_SIZE ==> !(#[trigger] final(self).entries()[i]).is_valid()
                    && final(self).entries()[i].mem64 == old(self).entries()[i].mem64,
    {
        let mut i: usize = 0;
        while i < self.entry.len()
            invariant
                i <= self.entry@.len() == TLB_SIZE,
                forall|j: int|
                    0 <= j < i ==> !(#[trigger] self.entry@[j]).is_valid() && self.entry@[j].mem64
                        == old(self).entry@[j].mem64,
                forall|j: int| i <= j < TLB_SIZE ==> #[trigger] self.entry@[j] == old(self).entry@[j],
            decreases TLB_SIZE - i,
        {
            let mut e = self.entry[i];
            e.invalidate();
            self.entry.set(i, e);
            i = i + 1;
        }
    }

    /// The entry that `lpf + len` maps to: bits 12 to 22 of the sum.
    pub fn get_index_of(&self, lpf: u64, len: u64) -> (r: usize)
        requires
            lpf + len <= u64::MAX,
        ensures
            r == tlb_index(lpf, len),
            r < TLB_SIZE,
    {
        let sum = lpf + len;
        proof {
            lemma_tlb_index_bound(lpf, len);
        }
        ((sum & TLB_MASK) >> 12) as usize
    }

    /// The entry for a lookup of `len` bytes at `addr`.
    pub fn get_entry_of(&self, addr: u64, len: u64) -> (r: &TLBEntry)
        requires
            self.wf(),
            lpf_of(addr) + len <= u64::MAX,
        ensures
            *r == self.entry_for(addr, len),
    {
        let lpf = LPF_OF(addr);
        let idx = self.get_index_of(lpf, len);
        &self.entry[idx]
    }

    /// The entry for a lookup of `len` bytes at `addr`, to be changed.
    pub fn get_entry_of_mut(&mut self, addr: u64, len: u64) -> (r: &mut TLBEntry)
        requires
            old(self).wf(),
            lpf_of(addr) + len <= u64::MAX,
        ensures
            *r == old(self).entry_for(addr, len),
            final(self).wf(),
            final(self).entries() == old(self).entries().update(
                tlb_index(lpf_of(addr), len) as int,
                *final(r),
            ),
    {
        let lpf = LPF_OF(addr);
        let idx = self.get_index_of(lpf, len);
        &mut self.entry[idx]
    }

    /// Invalidates the entry for the page of `laddr` if it holds that page:
    /// a lookup at `laddr` then finds no entry for its page, unless it is
    /// the last page, whose frame is also that of an empty entry.
    pub fn invlpg(&mut self, laddr: u64)
        requires
            old(self).wf(),
        ensures
            final(self).wf(),
            !final(self).entry_for(laddr, 0).is_valid() || lpf_of(final(self).entry_for(laddr, 0).lpf)
                != lpf_of(laddr),
            ({
                let i = tlb_index(lpf_of(laddr), 0) as int;
                let e = old(self).entries()[i];
                final(self).entries() == old(self).entries().update(
                    i,
                    if lpf_of(e.lpf) == lpf_of(laddr) {
                        TLBEntry { lpf: INVALID_TLB_ENTRY, mem64: e.mem64 }
                    } else {
                        e
                    },
                )
            }),
    {
        let lpf = LPF_OF(laddr);
        let idx = self.get_index_of(lpf, 0);
        let mut e = self.entry[idx];
        if LPF_OF(e.lpf) == lpf {
            e.invalidate();
        }
        self.entry.set(idx, e);
    }
}

} // verus!
