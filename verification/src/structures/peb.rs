use vstd::prelude::*;
use crate::maps::Maps;
use crate::maps::mem64::{Mem64, le_bytes, writes_ordered};
use crate::structures::{put_byte, put_dword};

verus! {

/// The process environment block of a 32 bit process.
#[derive(Debug)]
pub struct PEB {
    inheritet_addr_space: u8,
    read_img_file_exec_options: u8,
    pub being_debugged: u8,
    speer_bool: u8,
    padding: u32,
    pub image_base_addr: u32,
    pub ldr: u32,
    process_parameters: u32,
    reserved4: [u32; 3],
    alt_thunk_list_ptr: u32,
    reserved5: u32,
    reserved6: u32,
    reserved7: u32,
    reserved8: u32,
    alt_thunk_list_ptr_32: u32,
    reserved9: [u32; 45],
    reserved10: [u8; 96],
    post_process_init_routine: u32,
    reserved11: [u32; 128],
    reserved12: u32,
    session_id: u32,
}

impl PEB {
    /// The values that `new` gives.
    pub closed spec fn is_fresh(self, image_base_addr: u32, ldr: u32, process_parameters: u32) -> bool {
        &&& self.inheritet_addr_space == 0
        &&& self.read_img_file_exec_options == 0
        &&& self.being_debugged == 0
        &&& self.speer_bool == 0
        &&& self.padding == 0
        &&& self.image_base_addr == image_base_addr
        &&& self.ldr == ldr
        &&& self.process_parameters == process_parameters
        &&& forall|i: int| 0 <= i < 3 ==> #[trigger] self.reserved4@[i] == 0
        &&& self.alt_thunk_list_ptr == 0
        &&& self.reserved5 == 0
        &&& self.reserved6 == 0
        &&& self.reserved7 == 0
        &&& self.reserved8 == 0
        &&& self.alt_thunk_list_ptr_32 == 0
        &&& forall|i: int| 0 <= i < 45 ==> #[trigger] self.reserved9@[i] == 0
        &&& forall|i: int| 0 <= i < 96 ==> #[trigger] self.reserved10@[i] == 0
        &&& self.post_process_init_routine == 0
        &&& forall|i: int| 0 <= i < 128 ==> #[trigger] self.reserved11@[i] == 0
        &&& self.reserved12 == 0
        &&& self.session_id == 0
    }

    /// Every field that `load` reads at `addr` lies in the region that a
    /// lookup of its address finds.
    pub open spec fn readable(maps: &Maps, addr: u64) -> bool {
        &&& maps.wf()
        &&& addr + 0x44 <= u64::MAX
        &&& maps.fits(addr, 1)
        &&& maps.fits((addr + 1) as u64, 1)
        &&& maps.fits((addr + 2) as u64, 1)
        &&& maps.fits((addr + 3) as u64, 1)
        &&& maps.fits((addr + 4) as u64, 4)
        &&& maps.fits((addr + 8) as u64, 4)
        &&& maps.fits((addr + 0xc) as u64, 4)
        &&& maps.fits((addr + 0x10) as u64, 4)
        &&& maps.fits((addr + 0x14) as u64, 4)
        &&& maps.fits((addr + 0x18) as u64, 4)
        &&& maps.fits((addr + 0x1c) as u64, 4)
        &&& maps.fits((addr + 0x20) as u64, 4)
        &&& maps.fits((addr + 0x24) as u64, 4)
        &&& maps.fits((addr + 0x28) as u64, 4)
        &&& maps.fits((addr + 0x2c) as u64, 4)
        &&& maps.fits((addr + 0x30) as u64, 4)
        &&& maps.fits((addr + 0x34) as u64, 4)
        &&& maps.fits((addr + 0x38) as u64, 4)
        &&& maps.fits((addr + 0x3c) as u64, 4)
        &&& maps.fits((addr + 0x40) as u64, 4)
    }

    /// `self` holds the values that `load` reads at `addr`.
    pub closed spec fn loaded_from(self, maps: &Maps, addr: u64) -> bool {
        &&& maps.byte_at(addr) == Some(self.inheritet_addr_space)
        &&& maps.byte_at((addr + 1) as u64) == Some(self.read_img_file_exec_options)
        &&& maps.byte_at((addr + 2) as u64) == Some(self.being_debugged)
        &&& maps.byte_at((addr + 3) as u64) == Some(self.speer_bool)
        &&& self.padding == maps.value_at((addr + 4) as u64, 4)
        &&& self.image_base_addr == maps.value_at((addr + 8) as u64, 4)
        &&& self.ldr == maps.value_at((addr + 0xc) as u64, 4)
        &&& self.process_parameters == maps.value_at((addr + 0x10) as u64, 4)
        &&& self.reserved4[0] == maps.value_at((addr + 0x14) as u64, 4)
        &&& self.reserved4[1] == maps.value_at((addr + 0x18) as u64, 4)
        &&& self.reserved4[2] == maps.value_at((addr + 0x1c) as u64, 4)
        &&& self.alt_thunk_list_ptr == maps.value_at((addr + 0x20) as u64, 4)
        &&& self.reserved5 == maps.value_at((addr + 0x24) as u64, 4)
        &&& self.reserved6 == maps.value_at((addr + 0x28) as u64, 4)
        &&& self.reserved7 == maps.value_at((addr + 0x2c) as u64, 4)
        &&& self.reserved8 == maps.value_at((addr + 0x30) as u64, 4)
        &&& self.alt_thunk_list_ptr_32 == maps.value_at((addr + 0x34) as u64, 4)
        &&& forall|i: int| 0 <= i < 45 ==> #[trigger] self.reserved9@[i] == 0
        &&& forall|i: int| 0 <= i < 96 ==> #[trigger] self.reserved10@[i] == 0
        &&& self.post_process_init_routine == maps.value_at((addr + 0x38) as u64, 4)
        &&& forall|i: int| 0 <= i < 128 ==> #[trigger] self.reserved11@[i] == 0
        &&& self.reserved12 == maps.value_at((addr + 0x3c) as u64, 4)
        &&& self.session_id == maps.value_at((addr + 0x40) as u64, 4)
    }

    /// Every field that `save` writes at `addr` lies in the region.
    pub open spec fn holds_in(mem: Mem64, addr: u64) -> bool {
        &&& addr + 0x44 <= u64::MAX
        &&& mem.holds(addr, 1)
        &&& mem.holds((addr + 1) as u64, 1)
        &&& mem.holds((addr + 2) as u64, 1)
        &&& mem.holds((addr + 3) as u64, 1)
        &&& mem.holds((addr + 4) as u64, 4)
        &&& mem.holds((addr + 8) as u64, 4)
        &&& mem.holds((addr + 0xc) as u64, 4)
        &&& mem.holds((addr + 0x10) as u64, 4)
        &&& mem.holds((addr + 0x14) as u64, 4)
        &&& mem.holds((addr + 0x18) as u64, 4)
        &&& mem.holds((addr + 0x1c) as u64, 4)
        &&& mem.holds((addr + 0x20) as u64, 4)
        &&& mem.holds((addr + 0x24) as u64, 4)
        &&& mem.holds((addr + 0x28) as u64, 4)
        &&& mem.holds((addr + 0x2c) as u64, 4)
        &&& mem.holds((addr + 0x30) as u64, 4)
        &&& mem.holds((addr + 0x34) as u64, 4)
        &&& mem.holds((addr + 0x38) as u64, 4)
        &&& mem.holds((addr + 0x3c) as u64, 4)
        &&& mem.holds((addr + 0x40) as u64, 4)
    }

    /// The writes of `save` at `addr`, in order: address and little endian
    /// bytes of each field.
    pub closed spec fn writes(self, addr: u64) -> Seq<(u64, Seq<u8>)> {
        seq![
            (addr, seq![self.inheritet_addr_space]),
            ((addr + 1) as u64, seq![self.read_img_file_exec_options]),
            ((addr + 2) as u64, seq![self.being_debugged]),
            ((addr + 3) as u64, seq![self.speer_bool]),
            ((addr + 4) as u64, le_bytes((self.padding) as nat, 4)),
            ((addr + 8) as u64, le_bytes((self.image_base_addr) as nat, 4)),
            ((addr + 0xc) as u64, le_bytes((self.ldr) as nat, 4)),
            ((addr + 0x10) as u64, le_bytes((self.process_parameters) as nat, 4)),
            ((addr + 0x14) as u64, le_bytes((self.reserved4[0]) as nat, 4)),
            ((addr + 0x18) as u64, le_bytes((self.reserved4[1]) as nat, 4)),
            ((addr + 0x1c) as u64, le_bytes((self.reserved4[2]) as nat, 4)),
            ((addr + 0x20) as u64, le_bytes((self.alt_thunk_list_ptr) as nat, 4)),
            ((addr + 0x24) as u64, le_bytes((self.reserved5) as nat, 4)),
            ((addr + 0x28) as u64, le_bytes((self.reserved6) as nat, 4)),
            ((addr + 0x2c) as u64, le_bytes((self.reserved7) as nat, 4)),
            ((addr + 0x30) as u64, le_bytes((self.reserved8) as nat, 4)),
            ((addr + 0x34) as u64, le_bytes((self.alt_thunk_list_ptr_32) as nat, 4)),
            ((addr + 0x38) as u64, le_bytes((self.post_process_init_routine) as nat, 4)),
            ((addr + 0x3c) as u64, le_bytes((self.reserved12) as nat, 4)),
            ((addr + 0x40) as u64, le_bytes((self.session_id) as nat, 4)),
        ]
    }

    /// The reserved arrays, which `save` does not write and `load` gives
    /// as zero, are zero.
    pub closed spec fn reserved_zero(self) -> bool {
        &&& forall|i: int| 0 <= i < 45 ==> #[trigger] self.reserved9@[i] == 0
        &&& forall|i: int| 0 <= i < 96 ==> #[trigger] self.reserved10@[i] == 0
        &&& forall|i: int| 0 <= i < 128 ==> #[trigger] self.reserved11@[i] == 0
    }

    /// The structure with its initial values (see `is_fresh`).
    pub fn new(image_base_addr: u32, ldr: u32, process_parameters: u32) -> (r: PEB)
        ensures
            r.is_fresh(image_base_addr, ldr, process_parameters),
            r.reserved_zero(),
    {
        PEB {
            inheritet_addr_space: 0,
            read_img_file_exec_options: 0,
            being_debugged: 0,
            speer_bool: 0,
            padding: 0,
            image_base_addr,
            ldr,
            process_parameters,
            reserved4: [0; 3],
            alt_thunk_list_ptr: 0,
            reserved5: 0,
            reserved6: 0,
            reserved7: 0,
            reserved8: 0,
            alt_thunk_list_ptr_32: 0,
            reserved9: [0; 45],
            reserved10: [0; 96],
            post_process_init_routine: 0,
            reserved11: [0; 128],
            reserved12: 0,
            session_id: 0,
        }
    }

    /// The size of the structure in emulated memory.
    pub fn size() -> (r: usize)
        ensures
            r == 800,
    {
        800
    }

    /// Reads the structure at `addr`.
    pub fn load(addr: u64, maps: &Maps) -> (r: PEB)
        requires
            Self::readable(maps, addr),
        ensures
            r.loaded_from(maps, addr),
    {
        PEB {
            inheritet_addr_space: maps.read_byte(addr).unwrap(),
            read_img_file_exec_options: maps.read_byte(addr + 1).unwrap(),
            being_debugged: maps.read_byte(addr + 2).unwrap(),
            speer_bool: maps.read_byte(addr + 3).unwrap(),
            padding: maps.read_dword(addr + 4).unwrap(),
            image_base_addr: maps.read_dword(addr + 8).unwrap(),
            ldr: maps.read_dword(addr + 0xc).unwrap(),
            process_parameters: maps.read_dword(addr + 0x10).unwrap(),
            reserved4: [
                maps.read_dword(addr + 0x14).unwrap(),
                maps.read_dword(addr + 0x18).unwrap(),
                maps.read_dword(addr + 0x1c).unwrap(),
            ],
            alt_thunk_list_ptr: maps.read_dword(addr + 0x20).unwrap(),
            reserved5: maps.read_dword(addr + 0x24).unwrap(),
            reserved6: maps.read_dword(addr + 0x28).unwrap(),
            reserved7: maps.read_dword(addr + 0x2c).unwrap(),
            reserved8: maps.read_dword(addr + 0x30).unwrap(),
            alt_thunk_list_ptr_32: maps.read_dword(addr + 0x34).unwrap(),
            reserved9: [0; 45],
            reserved10: [0; 96],
            post_process_init_routine: maps.read_dword(addr + 0x38).unwrap(),
            reserved11: [0; 128],
            reserved12: maps.read_dword(addr + 0x3c).unwrap(),
            session_id: maps.read_dword(addr + 0x40).unwrap(),
        }
    }

    /// Writes the fields from the start of the region, one after the other.
    pub fn save(&self, mem: &mut Mem64)
        requires
            Self::holds_in(*old(mem), old(mem).base_view()),
        ensures
            old(mem).wrote_all(*final(mem), self.writes(old(mem).base_view())),
            final(mem).bytes().len() == old(mem).bytes().len(),
    {
        let addr = mem.get_base();
        let ghost m0 = *mem;
        let ghost mut done: Seq<(u64, Seq<u8>)> = Seq::empty();
        put_byte(mem, Ghost(m0), Ghost(done), addr, self.inheritet_addr_space);
        proof {
            done = done.push((addr, seq![self.inheritet_addr_space]));
        }
        put_byte(mem, Ghost(m0), Ghost(done), addr + 1, self.read_img_file_exec_options);
        proof {
            done = done.push(((addr + 1) as u64, seq![self.read_img_file_exec_options]));
        }
        put_byte(mem, Ghost(m0), Ghost(done), addr + 2, self.being_debugged);
        proof {
            done = done.push(((addr + 2) as u64, seq![self.being_debugged]));
        }
        put_byte(mem, Ghost(m0), Ghost(done), addr + 3, self.speer_bool);
        proof {
            done = done.push(((addr + 3) as u64, seq![self.speer_bool]));
        }
        put_dword(mem, Ghost(m0), Ghost(done), addr + 4, self.padding);
        proof {
            done = done.push(((addr + 4) as u64, le_bytes((self.padding) as nat, 4)));
        }
        put_dword(mem, Ghost(m0), Ghost(done), addr + 8, self.image_base_addr);
        proof {
            done = done.push(((addr + 8) as u64, le_bytes((self.image_base_addr) as nat, 4)));
        }
        put_dword(mem, Ghost(m0), Ghost(done), addr + 0xc, self.ldr);
        proof {
            done = done.push(((addr + 0xc) as u64, le_bytes((self.ldr) as nat, 4)));
        }
        put_dword(mem, Ghost(m0), Ghost(done), addr + 0x10, self.process_parameters);
        proof {
            done = done.push(((addr + 0x10) as u64, le_bytes((self.process_parameters) as nat, 4)));
        }
        put_dword(mem, Ghost(m0), Ghost(done), addr + 0x14, self.reserved4[0]);
        proof {
            done = done.push(((addr + 0x14) as u64, le_bytes((self.reserved4[0]) as nat, 4)));
        }
        put_dword(mem, Ghost(m0), Ghost(done), addr + 0x18, self.reserved4[1]);
        proof {
            done = done.push(((addr + 0x18) as u64, le_bytes((self.reserved4[1]) as nat, 4)));
        }
        put_dword(mem, Ghost(m0), Ghost(done), addr + 0x1c, self.reserved4[2]);
        proof {
            done = done.push(((addr + 0x1c) as u64, le_bytes((self.reserved4[2]) as nat, 4)));
        }
        put_dword(mem, Ghost(m0), Ghost(done), addr + 0x20, self.alt_thunk_list_ptr);
        proof {
            done = done.push(((addr + 0x20) as u64, le_bytes((self.alt_thunk_list_ptr) as nat, 4)));
        }
        put_dword(mem, Ghost(m0), Ghost(done), addr + 0x24, self.reserved5);
        proof {
            done = done.push(((addr + 0x24) as u64, le_bytes((self.reserved5) as nat, 4)));
        }
        put_dword(mem, Ghost(m0), Ghost(done), addr + 0x28, self.reserved6);
        proof {
            done = done.push(((addr + 0x28) as u64, le_bytes((self.reserved6) as nat, 4)));
        }
        put_dword(mem, Ghost(m0), Ghost(done), addr + 0x2c, self.reserved7);
        proof {
            done = done.push(((addr + 0x2c) as u64, le_bytes((self.reserved7) as nat, 4)));
        }
        put_dword(mem, Ghost(m0), Ghost(done), addr + 0x30, self.reserved8);
        proof {
            done = done.push(((addr + 0x30) as u64, le_bytes((self.reserved8) as nat, 4)));
        }
        put_dword(mem, Ghost(m0), Ghost(done), addr + 0x34, self.alt_thunk_list_ptr_32);
        proof {
            done = done.push(((addr + 0x34) as u64, le_bytes((self.alt_thunk_list_ptr_32) as nat, 4)));
        }
        put_dword(mem, Ghost(m0), Ghost(done), addr + 0x38, self.post_process_init_routine);
        proof {
            done = done.push(((addr + 0x38) as u64, le_bytes((self.post_process_init_routine) as nat, 4)));
        }
        put_dword(mem, Ghost(m0), Ghost(done), addr + 0x3c, self.reserved12);
        proof {
            done = done.push(((addr + 0x3c) as u64, le_bytes((self.reserved12) as nat, 4)));
        }
        put_dword(mem, Ghost(m0), Ghost(done), addr + 0x40, self.session_id);
        proof {
            done = done.push(((addr + 0x40) as u64, le_bytes((self.session_id) as nat, 4)));
        }
        assert(done =~= self.writes(addr));
    }

    /// `self` loaded at `image_base` instead.
    pub closed spec fn with_image_base(self, image_base: u32) -> PEB {
        PEB { image_base_addr: image_base, ..self }
    }

    /// Sets the address the image is loaded at.
    pub fn set_image_base(&mut self, image_base: u32)
        ensures
            *final(self) == old(self).with_image_base(image_base),
            final(self).reserved_zero() == old(self).reserved_zero(),
    {
        self.image_base_addr = image_base;
        assert(self.reserved9@ == old(self).reserved9@);
        assert(self.reserved10@ == old(self).reserved10@);
        assert(self.reserved11@ == old(self).reserved11@);
    }
}

impl PEB {
    /// Saving the block into region `k` (through `Maps::get_mem`), whose
    /// base is `addr` and which alone holds the block's bytes, and loading it
    /// back from `addr` gives the block that was saved, when its arrays are
    /// zero: `save` writes none of them and `load` gives them zero.
    #[verifier::rlimit(40)]
    pub proof fn lemma_load_after_save(self, before: Maps, after: Maps, k: usize, addr: u64)
        requires
            before.wf(),
            before.sole_region(k, addr, 0x44),
            before.regions()[k].base_view() == addr,
            before.regions()[k].wrote_all(after.regions()[k], self.writes(addr)),
            after.regions() == before.regions().insert(k, after.regions()[k]),
            after.bases() == before.bases(),
            after.names() == before.names(),
            after.cache() == before.cache(),
            after.banzai_view() == before.banzai_view(),
            self.reserved_zero(),
        ensures
            PEB::readable(&after, addr),
            self.loaded_from(&after, addr),
    {
        let ws = self.writes(addr);
        reveal_with_fuel(crate::fpu::f80::pow256, 5);
        assert(ws.len() == 20);
        assert(ws[0] == (addr, seq![self.inheritet_addr_space]));
        assert(ws[1] == ((addr + 0x1) as u64, seq![self.read_img_file_exec_options]));
        assert(ws[2] == ((addr + 0x2) as u64, seq![self.being_debugged]));
        assert(ws[3] == ((addr + 0x3) as u64, seq![self.speer_bool]));
        assert(ws[4] == ((addr + 0x4) as u64, le_bytes(self.padding as nat, 4)));
        assert(ws[5] == ((addr + 0x8) as u64, le_bytes(self.image_base_addr as nat, 4)));
        assert(ws[6] == ((addr + 0xc) as u64, le_bytes(self.ldr as nat, 4)));
        assert(ws[7] == ((addr + 0x10) as u64, le_bytes(self.process_parameters as nat, 4)));
        assert(ws[8] == ((addr + 0x14) as u64, le_bytes(self.reserved4[0] as nat, 4)));
        assert(ws[9] == ((addr + 0x18) as u64, le_bytes(self.reserved4[1] as nat, 4)));
        assert(ws[10] == ((addr + 0x1c) as u64, le_bytes(self.reserved4[2] as nat, 4)));
        assert(ws[11] == ((addr + 0x20) as u64, le_bytes(self.alt_thunk_list_ptr as nat, 4)));
        assert(ws[12] == ((addr + 0x24) as u64, le_bytes(self.reserved5 as nat, 4)));
        assert(ws[13] == ((addr + 0x28) as u64, le_bytes(self.reserved6 as nat, 4)));
        assert(ws[14] == ((addr + 0x2c) as u64, le_bytes(self.reserved7 as nat, 4)));
        assert(ws[15] == ((addr + 0x30) as u64, le_bytes(self.reserved8 as nat, 4)));
        assert(ws[16] == ((addr + 0x34) as u64, le_bytes(self.alt_thunk_list_ptr_32 as nat, 4)));
        assert(ws[17] == ((addr + 0x38) as u64, le_bytes(self.post_process_init_routine as nat, 4)));
        assert(ws[18] == ((addr + 0x3c) as u64, le_bytes(self.reserved12 as nat, 4)));
        assert(ws[19] == ((addr + 0x40) as u64, le_bytes(self.session_id as nat, 4)));
        let m0 = before.regions()[k];
        let m1 = after.regions()[k];
        assert forall|i: int| 0 <= i < ws.len() implies #[trigger] m0.holds(ws[i].0, ws[i].1.len()) by {
            assert(0 <= i < 20);
        }
        m0.lemma_patched_len(ws);
        before.lemma_region_replaced(after, k);
        before.lemma_same_layout_sole(after, k, addr, 0x44);
        assert forall|i: int| 0 < i < ws.len() implies #[trigger] m0.offset(ws[i].0) + ws[i].1.len()
            <= m0.offset(ws[0].0) || m0.offset(ws[0].0) + ws[0].1.len() <= m0.offset(ws[i].0) by {
            assert(0 < i < 20);
        }
        m0.lemma_patched_read(ws, 0);
        assert(m1.bytes()[m1.offset(addr)] == self.inheritet_addr_space) by {
            assert(m0.patched(ws).subrange(m0.offset(ws[0].0), m0.offset(ws[0].0) + 1)[0] == ws[0].1[0]);
        }
        after.lemma_sole_region_found(k, addr, 0x44, addr);
        assert forall|i: int| 1 < i < ws.len() implies #[trigger] m0.offset(ws[i].0) + ws[i].1.len()
            <= m0.offset(ws[1].0) || m0.offset(ws[1].0) + ws[1].1.len() <= m0.offset(ws[i].0) by {
            assert(1 < i < 20);
        }
        m0.lemma_patched_read(ws, 1);
        assert(m1.bytes()[m1.offset((addr + 0x1) as u64)] == self.read_img_file_exec_options) by {
            assert(m0.patched(ws).subrange(m0.offset(ws[1].0), m0.offset(ws[1].0) + 1)[0] == ws[1].1[0]);
        }
        after.lemma_sole_region_found(k, addr, 0x44, (addr + 0x1) as u64);
        assert forall|i: int| 2 < i < ws.len() implies #[trigger] m0.offset(ws[i].0) + ws[i].1.len()
            <= m0.offset(ws[2].0) || m0.offset(ws[2].0) + ws[2].1.len() <= m0.offset(ws[i].0) by {
            assert(2 < i < 20);
        }
        m0.lemma_patched_read(ws, 2);
        assert(m1.bytes()[m1.offset((addr + 0x2) as u64)] == self.being_debugged) by {
            assert(m0.patched(ws).subrange(m0.offset(ws[2].0), m0.offset(ws[2].0) + 1)[0] == ws[2].1[0]);
        }
        after.lemma_sole_region_found(k, addr, 0x44, (addr + 0x2) as u64);
        assert forall|i: int| 3 < i < ws.len() implies #[trigger] m0.offset(ws[i].0) + ws[i].1.len()
            <= m0.offset(ws[3].0) || m0.offset(ws[3].0) + ws[3].1.len() <= m0.offset(ws[i].0) by {
            assert(3 < i < 20);
        }
        m0.lemma_patched_read(ws, 3);
        assert(m1.bytes()[m1.offset((addr + 0x3) as u64)] == self.speer_bool) by {
            assert(m0.patched(ws).subrange(m0.offset(ws[3].0), m0.offset(ws[3].0) + 1)[0] == ws[3].1[0]);
        }
        after.lemma_sole_region_found(k, addr, 0x44, (addr + 0x3) as u64);
        assert forall|i: int| 4 < i < ws.len() implies #[trigger] m0.offset(ws[i].0) + ws[i].1.len()
            <= m0.offset(ws[4].0) || m0.offset(ws[4].0) + ws[4].1.len() <= m0.offset(ws[i].0) by {
            assert(4 < i < 20);
        }
        m0.lemma_patched_value(m1, ws, 4, self.padding as nat, 4);
        after.lemma_sole_region_found(k, addr, 0x44, (addr + 0x4) as u64);
        assert forall|i: int| 5 < i < ws.len() implies #[trigger] m0.offset(ws[i].0) + ws[i].1.len()
            <= m0.offset(ws[5].0) || m0.offset(ws[5].0) + ws[5].1.len() <= m0.offset(ws[i].0) by {
            assert(5 < i < 20);
        }
        m0.lemma_patched_value(m1, ws, 5, self.image_base_addr as nat, 4);
        after.lemma_sole_region_found(k, addr, 0x44, (addr + 0x8) as u64);
        assert forall|i: int| 6 < i < ws.len() implies #[trigger] m0.offset(ws[i].0) + ws[i].1.len()
            <= m0.offset(ws[6].0) || m0.offset(ws[6].0) + ws[6].1.len() <= m0.offset(ws[i].0) by {
            assert(6 < i < 20);
        }
        m0.lemma_patched_value(m1, ws, 6, self.ldr as nat, 4);
        after.lemma_sole_region_found(k, addr, 0x44, (addr + 0xc) as u64);
        assert forall|i: int| 7 < i < ws.len() implies #[trigger] m0.offset(ws[i].0) + ws[i].1.len()
            <= m0.offset(ws[7].0) || m0.offset(ws[7].0) + ws[7].1.len() <= m0.offset(ws[i].0) by {
            assert(7 < i < 20);
        }
        m0.lemma_patched_value(m1, ws, 7, self.process_parameters as nat, 4);
        after.lemma_sole_region_found(k, addr, 0x44, (addr + 0x10) as u64);
        assert forall|i: int| 8 < i < ws.len() implies #[trigger] m0.offset(ws[i].0) + ws[i].1.len()
            <= m0.offset(ws[8].0) || m0.offset(ws[8].0) + ws[8].1.len() <= m0.offset(ws[i].0) by {
            assert(8 < i < 20);
        }
        m0.lemma_patched_value(m1, ws, 8, self.reserved4[0] as nat, 4);
        after.lemma_sole_region_found(k, addr, 0x44, (addr + 0x14) as u64);
        assert forall|i: int| 9 < i < ws.len() implies #[trigger] m0.offset(ws[i].0) + ws[i].1.len()
            <= m0.offset(ws[9].0) || m0.offset(ws[9].0) + ws[9].1.len() <= m0.offset(ws[i].0) by {
            assert(9 < i < 20);
        }
        m0.lemma_patched_value(m1, ws, 9, self.reserved4[1] as nat, 4);
        after.lemma_sole_region_found(k, addr, 0x44, (addr + 0x18) as u64);
        assert forall|i: int| 10 < i < ws.len() implies #[trigger] m0.offset(ws[i].0) + ws[i].1.len()
            <= m0.offset(ws[10].0) || m0.offset(ws[10].0) + ws[10].1.len() <= m0.offset(ws[i].0) by {
            assert(10 < i < 20);
        }
        m0.lemma_patched_value(m1, ws, 10, self.reserved4[2] as nat, 4);
        after.lemma_sole_region_found(k, addr, 0x44, (addr + 0x1c) as u64);
        assert forall|i: int| 11 < i < ws.len() implies #[trigger] m0.offset(ws[i].0) + ws[i].1.len()
            <= m0.offset(ws[11].0) || m0.offset(ws[11].0) + ws[11].1.len() <= m0.offset(ws[i].0) by {
            assert(11 < i < 20);
        }
        m0.lemma_patched_value(m1, ws, 11, self.alt_thunk_list_ptr as nat, 4);
        after.lemma_sole_region_found(k, addr, 0x44, (addr + 0x20) as u64);
        assert forall|i: int| 12 < i < ws.len() implies #[trigger] m0.offset(ws[i].0) + ws[i].1.len()
            <= m0.offset(ws[12].0) || m0.offset(ws[12].0) + ws[12].1.len() <= m0.offset(ws[i].0) by {
            assert(12 < i < 20);
        }
        m0.lemma_patched_value(m1, ws, 12, self.reserved5 as nat, 4);
        after.lemma_sole_region_found(k, addr, 0x44, (addr + 0x24) as u64);
        assert forall|i: int| 13 < i < ws.len() implies #[trigger] m0.offset(ws[i].0) + ws[i].1.len()
            <= m0.offset(ws[13].0) || m0.offset(ws[13].0) + ws[13].1.len() <= m0.offset(ws[i].0) by {
            assert(13 < i < 20);
        }
        m0.lemma_patched_value(m1, ws, 13, self.reserved6 as nat, 4);
        after.lemma_sole_region_found(k, addr, 0x44, (addr + 0x28) as u64);
        assert forall|i: int| 14 < i < ws.len() implies #[trigger] m0.offset(ws[i].0) + ws[i].1.len()
            <= m0.offset(ws[14].0) || m0.offset(ws[14].0) + ws[14].1.len() <= m0.offset(ws[i].0) by {
            assert(14 < i < 20);
        }
        m0.lemma_patched_value(m1, ws, 14, self.reserved7 as nat, 4);
        after.lemma_sole_region_found(k, addr, 0x44, (addr + 0x2c) as u64);
        assert forall|i: int| 15 < i < ws.len() implies #[trigger] m0.offset(ws[i].0) + ws[i].1.len()
            <= m0.offset(ws[15].0) || m0.offset(ws[15].0) + ws[15].1.len() <= m0.offset(ws[i].0) by {
            assert(15 < i < 20);
        }
        m0.lemma_patched_value(m1, ws, 15, self.reserved8 as nat, 4);
        after.lemma_sole_region_found(k, addr, 0x44, (addr + 0x30) as u64);
        assert forall|i: int| 16 < i < ws.len() implies #[trigger] m0.offset(ws[i].0) + ws[i].1.len()
            <= m0.offset(ws[16].0) || m0.offset(ws[16].0) + ws[16].1.len() <= m0.offset(ws[i].0) by {
            assert(16 < i < 20);
        }
        m0.lemma_patched_value(m1, ws, 16, self.alt_thunk_list_ptr_32 as nat, 4);
        after.lemma_sole_region_found(k, addr, 0x44, (addr + 0x34) as u64);
        assert forall|i: int| 17 < i < ws.len() implies #[trigger] m0.offset(ws[i].0) + ws[i].1.len()
            <= m0.offset(ws[17].0) || m0.offset(ws[17].0) + ws[17].1.len() <= m0.offset(ws[i].0) by {
            assert(17 < i < 20);
        }
        m0.lemma_patched_value(m1, ws, 17, self.post_process_init_routine as nat, 4);
        after.lemma_sole_region_found(k, addr, 0x44, (addr + 0x38) as u64);
        assert forall|i: int| 18 < i < ws.len() implies #[trigger] m0.offset(ws[i].0) + ws[i].1.len()
            <= m0.offset(ws[18].0) || m0.offset(ws[18].0) + ws[18].1.len() <= m0.offset(ws[i].0) by {
            assert(18 < i < 20);
        }
        m0.lemma_patched_value(m1, ws, 18, self.reserved12 as nat, 4);
        after.lemma_sole_region_found(k, addr, 0x44, (addr + 0x3c) as u64);
        m0.lemma_patched_value(m1, ws, 19, self.session_id as nat, 4);
        after.lemma_sole_region_found(k, addr, 0x44, (addr + 0x40) as u64);
    }
}


impl PEB {
    /// The writes of `save` at `addr` for the block that `new` gives: the
    /// same list as `writes`, with the values `new` puts in each field.
    pub open spec fn fresh_writes(image_base_addr: u32, ldr: u32, process_parameters: u32, addr: u64) -> Seq<(u64, Seq<u8>)> {
        seq![
            (addr, seq![(0) as u8]),
            ((addr + 1) as u64, seq![(0) as u8]),
            ((addr + 2) as u64, seq![(0) as u8]),
            ((addr + 3) as u64, seq![(0) as u8]),
            ((addr + 4) as u64, le_bytes(((0)) as nat, 4)),
            ((addr + 8) as u64, le_bytes(((image_base_addr)) as nat, 4)),
            ((addr + 0xc) as u64, le_bytes(((ldr)) as nat, 4)),
            ((addr + 0x10) as u64, le_bytes(((process_parameters)) as nat, 4)),
            ((addr + 0x14) as u64, le_bytes(((0)) as nat, 4)),
            ((addr + 0x18) as u64, le_bytes(((0)) as nat, 4)),
            ((addr + 0x1c) as u64, le_bytes(((0)) as nat, 4)),
            ((addr + 0x20) as u64, le_bytes(((0)) as nat, 4)),
            ((addr + 0x24) as u64, le_bytes(((0)) as nat, 4)),
            ((addr + 0x28) as u64, le_bytes(((0)) as nat, 4)),
            ((addr + 0x2c) as u64, le_bytes(((0)) as nat, 4)),
            ((addr + 0x30) as u64, le_bytes(((0)) as nat, 4)),
            ((addr + 0x34) as u64, le_bytes(((0)) as nat, 4)),
            ((addr + 0x38) as u64, le_bytes(((0)) as nat, 4)),
            ((addr + 0x3c) as u64, le_bytes(((0)) as nat, 4)),
            ((addr + 0x40) as u64, le_bytes(((0)) as nat, 4)),
        ]
    }

    /// A block as `new` gives it is written as `fresh_writes` lists.
    pub proof fn lemma_fresh_writes(self, image_base_addr: u32, ldr: u32, process_parameters: u32, addr: u64)
        requires
            self.is_fresh(image_base_addr, ldr, process_parameters),
        ensures
            self.writes(addr) == Self::fresh_writes(image_base_addr, ldr, process_parameters, addr),
    {
        assert(self.writes(addr) =~= Self::fresh_writes(image_base_addr, ldr, process_parameters, addr));
    }

    /// The writes of `save` at `addr` lie one after the other, from `addr`
    /// to `addr + 0x44`, each of at least one byte.
    pub proof fn lemma_writes_ordered(self, addr: u64)
        requires
            addr + 0x44 <= u64::MAX,
        ensures
            self.writes(addr).len() == 20,
            writes_ordered(self.writes(addr), 0),
            self.writes(addr)[0].0 == addr,
            self.writes(addr)[19].0 + self.writes(addr)[19].1.len() == addr + 0x44,
            forall|i: int| 0 <= i < 20 ==> (#[trigger] self.writes(addr)[i]).1.len() > 0,
    {
        let ws = self.writes(addr);
        assert(ws.len() == 20);
        assert(writes_ordered(ws, 19));
        assert(writes_ordered(ws, 18));
        assert(writes_ordered(ws, 17));
        assert(writes_ordered(ws, 16));
        assert(writes_ordered(ws, 15));
        assert(writes_ordered(ws, 14));
        assert(writes_ordered(ws, 13));
        assert(writes_ordered(ws, 12));
        assert(writes_ordered(ws, 11));
        assert(writes_ordered(ws, 10));
        assert(writes_ordered(ws, 9));
        assert(writes_ordered(ws, 8));
        assert(writes_ordered(ws, 7));
        assert(writes_ordered(ws, 6));
        assert(writes_ordered(ws, 5));
        assert(writes_ordered(ws, 4));
        assert(writes_ordered(ws, 3));
        assert(writes_ordered(ws, 2));
        assert(writes_ordered(ws, 1));
        assert(writes_ordered(ws, 0));
        assert forall|i: int| 0 <= i < 20 implies (#[trigger] ws[i]).1.len() > 0 by {
            assert(0 <= i < 20);
        }
    }
}

} // verus!
