use vstd::prelude::*;
use crate::maps::Maps;
use crate::maps::mem64::{Mem64, le_bytes};
use crate::structures::{put_dword, put_qword};

verus! {

/// The thread information block at the start of a 32 bit thread environment
/// block.
#[derive(Debug)]
pub struct NtTib32 {
    pub exception_list: u32,
    pub stack_base: u32,
    pub stack_limit: u32,
    pub sub_system_tib: u32,
    pub fiber_data: u32,
    pub arbitrary_user_pointer: u32,
    pub self_pointer: u32,
}

impl NtTib32 {
    /// The values that `new` gives.
    pub open spec fn is_fresh(self) -> bool {
        &&& self.exception_list == 0
        &&& self.stack_base == 0
        &&& self.stack_limit == 0
        &&& self.sub_system_tib == 0
        &&& self.fiber_data == 0
        &&& self.arbitrary_user_pointer == 0
        &&& self.self_pointer == 0
    }

    /// Every field that `load` reads at `addr` lies in the region that a
    /// lookup of its address finds.
    pub open spec fn readable(maps: &Maps, addr: u64) -> bool {
        &&& maps.wf()
        &&& addr + 0x1c <= u64::MAX
        &&& maps.fits(addr, 4)
        &&& maps.fits((addr + 4) as u64, 4)
        &&& maps.fits((addr + 8) as u64, 4)
        &&& maps.fits((addr + 0xc) as u64, 4)
        &&& maps.fits((addr + 0x10) as u64, 4)
        &&& maps.fits((addr + 0x14) as u64, 4)
        &&& maps.fits((addr + 0x18) as u64, 4)
    }

    /// `self` holds the values that `load` reads at `addr`.
    pub open spec fn loaded_from(self, maps: &Maps, addr: u64) -> bool {
        &&& self.exception_list == maps.value_at(addr, 4)
        &&& self.stack_base == maps.value_at((addr + 4) as u64, 4)
        &&& self.stack_limit == maps.value_at((addr + 8) as u64, 4)
        &&& self.sub_system_tib == maps.value_at((addr + 0xc) as u64, 4)
        &&& self.fiber_data == maps.value_at((addr + 0x10) as u64, 4)
        &&& self.arbitrary_user_pointer == maps.value_at((addr + 0x14) as u64, 4)
        &&& self.self_pointer == maps.value_at((addr + 0x18) as u64, 4)
    }

    /// Every field that `load_map` reads at `addr` lies in the region.
    pub open spec fn readable_in(mem: &Mem64, addr: u64) -> bool {
        &&& addr + 0x1c <= u64::MAX
        &&& mem.holds(addr, 4)
        &&& mem.holds((addr + 4) as u64, 4)
        &&& mem.holds((addr + 8) as u64, 4)
        &&& mem.holds((addr + 0xc) as u64, 4)
        &&& mem.holds((addr + 0x10) as u64, 4)
        &&& mem.holds((addr + 0x14) as u64, 4)
        &&& mem.holds((addr + 0x18) as u64, 4)
    }

    /// `self` holds the values that `load_map` reads at `addr`.
    pub open spec fn read_from(self, mem: &Mem64, addr: u64) -> bool {
        &&& self.exception_list == mem.value_at(addr, 4)
        &&& self.stack_base == mem.value_at((addr + 4) as u64, 4)
        &&& self.stack_limit == mem.value_at((addr + 8) as u64, 4)
        &&& self.sub_system_tib == mem.value_at((addr + 0xc) as u64, 4)
        &&& self.fiber_data == mem.value_at((addr + 0x10) as u64, 4)
        &&& self.arbitrary_user_pointer == mem.value_at((addr + 0x14) as u64, 4)
        &&& self.self_pointer == mem.value_at((addr + 0x18) as u64, 4)
    }

    /// Every field that `save` writes at `addr` lies in the region.
    pub open spec fn holds_in(mem: Mem64, addr: u64) -> bool {
        &&& addr + 0x1c <= u64::MAX
        &&& mem.holds(addr, 4)
        &&& mem.holds((addr + 4) as u64, 4)
        &&& mem.holds((addr + 8) as u64, 4)
        &&& mem.holds((addr + 0xc) as u64, 4)
        &&& mem.holds((addr + 0x10) as u64, 4)
        &&& mem.holds((addr + 0x14) as u64, 4)
        &&& mem.holds((addr + 0x18) as u64, 4)
    }

    /// The writes of `save` at `addr`, in order: address and little endian
    /// bytes of each field.
    pub open spec fn writes(self, addr: u64) -> Seq<(u64, Seq<u8>)> {
        seq![
            (addr, le_bytes((self.exception_list) as nat, 4)),
            ((addr + 4) as u64, le_bytes((self.stack_base) as nat, 4)),
            ((addr + 8) as u64, le_bytes((self.stack_limit) as nat, 4)),
            ((addr + 0xc) as u64, le_bytes((self.sub_system_tib) as nat, 4)),
            ((addr + 0x10) as u64, le_bytes((self.fiber_data) as nat, 4)),
            ((addr + 0x14) as u64, le_bytes((self.arbitrary_user_pointer) as nat, 4)),
            ((addr + 0x18) as u64, le_bytes((self.self_pointer) as nat, 4)),
        ]
    }

    /// The structure with its initial values (see `is_fresh`).
    pub fn new() -> (r: NtTib32)
        ensures
            r.is_fresh(),
    {
        NtTib32 {
            exception_list: 0,
            stack_base: 0,
            stack_limit: 0,
            sub_system_tib: 0,
            fiber_data: 0,
            arbitrary_user_pointer: 0,
            self_pointer: 0,
        }
    }

    /// The size of the structure in emulated memory.
    pub fn size() -> (r: usize)
        ensures
            r == 28,
    {
        28
    }

    /// Reads the structure at `addr`.
    pub fn load(addr: u64, maps: &Maps) -> (r: NtTib32)
        requires
            Self::readable(maps, addr),
        ensures
            r.loaded_from(maps, addr),
    {
        NtTib32 {
            exception_list: maps.read_dword(addr).unwrap(),
            stack_base: maps.read_dword(addr + 4).unwrap(),
            stack_limit: maps.read_dword(addr + 8).unwrap(),
            sub_system_tib: maps.read_dword(addr + 0xc).unwrap(),
            fiber_data: maps.read_dword(addr + 0x10).unwrap(),
            arbitrary_user_pointer: maps.read_dword(addr + 0x14).unwrap(),
            self_pointer: maps.read_dword(addr + 0x18).unwrap(),
        }
    }

    /// Reads the structure at `addr` of the region.
    pub fn load_map(addr: u64, map: &Mem64) -> (r: NtTib32)
        requires
            Self::readable_in(map, addr),
        ensures
            r.read_from(map, addr),
    {
        NtTib32 {
            exception_list: map.read_dword(addr),
            stack_base: map.read_dword(addr + 4),
            stack_limit: map.read_dword(addr + 8),
            sub_system_tib: map.read_dword(addr + 0xc),
            fiber_data: map.read_dword(addr + 0x10),
            arbitrary_user_pointer: map.read_dword(addr + 0x14),
            self_pointer: map.read_dword(addr + 0x18),
        }
    }

    /// Writes the fields at `addr` of the region, one after the other.
    pub fn save(&self, addr: u64, mem: &mut Mem64)
        requires
            Self::holds_in(*old(mem), addr),
        ensures
            old(mem).wrote_all(*final(mem), self.writes(addr)),
            final(mem).bytes().len() == old(mem).bytes().len(),
    {
        let ghost m0 = *mem;
        let ghost mut done: Seq<(u64, Seq<u8>)> = Seq::empty();
        put_dword(mem, Ghost(m0), Ghost(done), addr, self.exception_list);
        proof {
            done = done.push((addr, le_bytes((self.exception_list) as nat, 4)));
        }
        put_dword(mem, Ghost(m0), Ghost(done), addr + 4, self.stack_base);
        proof {
            done = done.push(((addr + 4) as u64, le_bytes((self.stack_base) as nat, 4)));
        }
        put_dword(mem, Ghost(m0), Ghost(done), addr + 8, self.stack_limit);
        proof {
            done = done.push(((addr + 8) as u64, le_bytes((self.stack_limit) as nat, 4)));
        }
        put_dword(mem, Ghost(m0), Ghost(done), addr + 0xc, self.sub_system_tib);
        proof {
            done = done.push(((addr + 0xc) as u64, le_bytes((self.sub_system_tib) as nat, 4)));
        }
        put_dword(mem, Ghost(m0), Ghost(done), addr + 0x10, self.fiber_data);
        proof {
            done = done.push(((addr + 0x10) as u64, le_bytes((self.fiber_data) as nat, 4)));
        }
        put_dword(mem, Ghost(m0), Ghost(done), addr + 0x14, self.arbitrary_user_pointer);
        proof {
            done = done.push(((addr + 0x14) as u64, le_bytes((self.arbitrary_user_pointer) as nat, 4)));
        }
        put_dword(mem, Ghost(m0), Ghost(done), addr + 0x18, self.self_pointer);
        proof {
            done = done.push(((addr + 0x18) as u64, le_bytes((self.self_pointer) as nat, 4)));
        }
        assert(done =~= self.writes(addr));
    }
}

impl Default for NtTib32 {
    fn default() -> (r: Self)
        ensures
            r.is_fresh(),
    {
        Self::new()
    }
}

/// The thread environment block of a 32 bit thread.
#[derive(Debug)]
pub struct TEB {
    pub nt_tib: NtTib32,
    pub environment_pointer: u32,
    pub process_id: u32,
    pub thread_id: u32,
    pub active_rpc_handle: u32,
    pub thread_local_storage_pointer: u32,
    pub process_environment_block: u32,
    pub last_error_value: u32,
    pub count_of_owned_critical_sections: u32,
    pub csr_client_thread: u32,
    pub win32_thread_info: u32,
    pub user32_reserved: [u32; 26],
    pub user_reserved: [u32; 6],
    pub wow32_reserved: u32,
    pub current_locale: u32,
    pub fp_software_status_register: u32,
    pub system_reserved1: [u64; 54],
    pub exception_code: u32,
    pub activation_context_stack_pointer: u32,
    pub spare_bytes: [u8; 24],
    pub tx_fs_context: u32,
}

impl TEB {
    /// The values that `new` gives.
    pub open spec fn is_fresh(self, peb_addr: u32) -> bool {
        &&& self.nt_tib.is_fresh()
        &&& self.environment_pointer == 0
        &&& self.process_id == 3240
        &&& self.thread_id == 1
        &&& self.active_rpc_handle == 0
        &&& self.thread_local_storage_pointer == 0
        &&& self.process_environment_block == peb_addr
        &&& self.last_error_value == 0
        &&& self.count_of_owned_critical_sections == 0
        &&& self.csr_client_thread == 0
        &&& self.win32_thread_info == 0
        &&& forall|i: int| 0 <= i < 26 ==> #[trigger] self.user32_reserved@[i] == 0
        &&& forall|i: int| 0 <= i < 6 ==> #[trigger] self.user_reserved@[i] == 0
        &&& self.wow32_reserved == 0
        &&& self.current_locale == 0
        &&& self.fp_software_status_register == 0
        &&& forall|i: int| 0 <= i < 54 ==> #[trigger] self.system_reserved1@[i] == 0
        &&& self.exception_code == 0
        &&& self.activation_context_stack_pointer == 0
        &&& forall|i: int| 0 <= i < 24 ==> #[trigger] self.spare_bytes@[i] == 0
        &&& self.tx_fs_context == 0
    }

    /// Every field that `load` reads at `addr` lies in the region that a
    /// lookup of its address finds.
    pub open spec fn readable(maps: &Maps, addr: u64) -> bool {
        &&& maps.wf()
        &&& addr + 0xc2 <= u64::MAX
        &&& NtTib32::readable(maps, addr)
        &&& maps.fits((addr + 0x1c) as u64, 4)
        &&& maps.fits((addr + 0x20) as u64, 4)
        &&& maps.fits((addr + 0x24) as u64, 4)
        &&& maps.fits((addr + 0x28) as u64, 4)
        &&& maps.fits((addr + 0x2c) as u64, 4)
        &&& maps.fits((addr + 0x30) as u64, 4)
        &&& maps.fits((addr + 0x34) as u64, 4)
        &&& maps.fits((addr + 0x38) as u64, 4)
        &&& maps.fits((addr + 0x3c) as u64, 4)
        &&& maps.fits((addr + 0x40) as u64, 4)
        &&& maps.fits((addr + 0x46) as u64, 4)
        &&& maps.fits((addr + 0x4a) as u64, 4)
        &&& maps.fits((addr + 0x4e) as u64, 4)
        &&& maps.fits((addr + 0x52) as u64, 4)
        &&& maps.fits((addr + 0x56) as u64, 4)
        &&& maps.fits((addr + 0xbe) as u64, 4)
    }

    /// `self` holds the values that `load` reads at `addr`.
    pub open spec fn loaded_from(self, maps: &Maps, addr: u64) -> bool {
        &&& self.nt_tib.loaded_from(maps, addr)
        &&& self.environment_pointer == maps.value_at((addr + 0x1c) as u64, 4)
        &&& self.process_id == maps.value_at((addr + 0x20) as u64, 4)
        &&& self.thread_id == maps.value_at((addr + 0x24) as u64, 4)
        &&& self.active_rpc_handle == maps.value_at((addr + 0x28) as u64, 4)
        &&& self.thread_local_storage_pointer == maps.value_at((addr + 0x2c) as u64, 4)
        &&& self.process_environment_block == maps.value_at((addr + 0x30) as u64, 4)
        &&& self.last_error_value == maps.value_at((addr + 0x34) as u64, 4)
        &&& self.count_of_owned_critical_sections == maps.value_at((addr + 0x38) as u64, 4)
        &&& self.csr_client_thread == maps.value_at((addr + 0x3c) as u64, 4)
        &&& self.win32_thread_info == maps.value_at((addr + 0x40) as u64, 4)
        &&& forall|i: int| 0 <= i < 26 ==> #[trigger] self.user32_reserved@[i] == 0
        &&& forall|i: int| 0 <= i < 6 ==> #[trigger] self.user_reserved@[i] == 0
        &&& self.wow32_reserved == maps.value_at((addr + 0x46) as u64, 4)
        &&& self.current_locale == maps.value_at((addr + 0x4a) as u64, 4)
        &&& self.fp_software_status_register == maps.value_at((addr + 0x4e) as u64, 4)
        &&& forall|i: int| 0 <= i < 54 ==> #[trigger] self.system_reserved1@[i] == 0
        &&& self.exception_code == maps.value_at((addr + 0x52) as u64, 4)
        &&& self.activation_context_stack_pointer == maps.value_at((addr + 0x56) as u64, 4)
        &&& forall|i: int| 0 <= i < 24 ==> #[trigger] self.spare_bytes@[i] == 0
        &&& self.tx_fs_context == maps.value_at((addr + 0xbe) as u64, 4)
    }

    /// Every field that `load_map` reads at `addr` lies in the region.
    pub open spec fn readable_in(mem: &Mem64, addr: u64) -> bool {
        &&& addr + 0xc2 <= u64::MAX
        &&& NtTib32::readable_in(mem, addr)
        &&& mem.holds((addr + 0x1c) as u64, 4)
        &&& mem.holds((addr + 0x20) as u64, 4)
        &&& mem.holds((addr + 0x24) as u64, 4)
        &&& mem.holds((addr + 0x28) as u64, 4)
        &&& mem.holds((addr + 0x2c) as u64, 4)
        &&& mem.holds((addr + 0x30) as u64, 4)
        &&& mem.holds((addr + 0x34) as u64, 4)
        &&& mem.holds((addr + 0x38) as u64, 4)
        &&& mem.holds((addr + 0x3c) as u64, 4)
        &&& mem.holds((addr + 0x40) as u64, 4)
        &&& mem.holds((addr + 0x46) as u64, 4)
        &&& mem.holds((addr + 0x4a) as u64, 4)
        &&& mem.holds((addr + 0x4e) as u64, 4)
        &&& mem.holds((addr + 0x52) as u64, 4)
        &&& mem.holds((addr + 0x56) as u64, 4)
        &&& mem.holds((addr + 0xbe) as u64, 4)
    }

    /// `self` holds the values that `load_map` reads at `addr`.
    pub open spec fn read_from(self, mem: &Mem64, addr: u64) -> bool {
        &&& self.nt_tib.read_from(mem, addr)
        &&& self.environment_pointer == mem.value_at((addr + 0x1c) as u64, 4)
        &&& self.process_id == mem.value_at((addr + 0x20) as u64, 4)
        &&& self.thread_id == mem.value_at((addr + 0x24) as u64, 4)
        &&& self.active_rpc_handle == mem.value_at((addr + 0x28) as u64, 4)
        &&& self.thread_local_storage_pointer == mem.value_at((addr + 0x2c) as u64, 4)
        &&& self.process_environment_block == mem.value_at((addr + 0x30) as u64, 4)
        &&& self.last_error_value == mem.value_at((addr + 0x34) as u64, 4)
        &&& self.count_of_owned_critical_sections == mem.value_at((addr + 0x38) as u64, 4)
        &&& self.csr_client_thread == mem.value_at((addr + 0x3c) as u64, 4)
        &&& self.win32_thread_info == mem.value_at((addr + 0x40) as u64, 4)
        &&& forall|i: int| 0 <= i < 26 ==> #[trigger] self.user32_reserved@[i] == 0
        &&& forall|i: int| 0 <= i < 6 ==> #[trigger] self.user_reserved@[i] == 0
        &&& self.wow32_reserved == mem.value_at((addr + 0x46) as u64, 4)
        &&& self.current_locale == mem.value_at((addr + 0x4a) as u64, 4)
        &&& self.fp_software_status_register == mem.value_at((addr + 0x4e) as u64, 4)
        &&& forall|i: int| 0 <= i < 54 ==> #[trigger] self.system_reserved1@[i] == 0
        &&& self.exception_code == mem.value_at((addr + 0x52) as u64, 4)
        &&& self.activation_context_stack_pointer == mem.value_at((addr + 0x56) as u64, 4)
        &&& forall|i: int| 0 <= i < 24 ==> #[trigger] self.spare_bytes@[i] == 0
        &&& self.tx_fs_context == mem.value_at((addr + 0xbe) as u64, 4)
    }

    /// Every field that `save` writes at `addr` lies in the region.
    pub open spec fn holds_in(mem: Mem64, addr: u64) -> bool {
        &&& addr + 0x5a <= u64::MAX
        &&& NtTib32::holds_in(mem, addr)
        &&& mem.holds((addr + 0x1c) as u64, 4)
        &&& mem.holds((addr + 0x20) as u64, 4)
        &&& mem.holds((addr + 0x24) as u64, 4)
        &&& mem.holds((addr + 0x28) as u64, 4)
        &&& mem.holds((addr + 0x2c) as u64, 4)
        &&& mem.holds((addr + 0x30) as u64, 4)
        &&& mem.holds((addr + 0x34) as u64, 4)
        &&& mem.holds((addr + 0x38) as u64, 4)
        &&& mem.holds((addr + 0x3c) as u64, 4)
        &&& mem.holds((addr + 0x40) as u64, 4)
        &&& mem.holds((addr + 0x46) as u64, 4)
        &&& mem.holds((addr + 0x4a) as u64, 4)
        &&& mem.holds((addr + 0x4e) as u64, 4)
        &&& mem.holds((addr + 0x52) as u64, 4)
        &&& mem.holds((addr + 0x56) as u64, 4)
    }

    /// The writes of `save` at `addr`, in order: address and little endian
    /// bytes of each field.
    pub open spec fn writes(self, addr: u64) -> Seq<(u64, Seq<u8>)> {
        self.nt_tib.writes(addr)
            + seq![
            ((addr + 0x1c) as u64, le_bytes((self.environment_pointer) as nat, 4)),
            ((addr + 0x20) as u64, le_bytes((self.process_id) as nat, 4)),
            ((addr + 0x24) as u64, le_bytes((self.thread_id) as nat, 4)),
            ((addr + 0x28) as u64, le_bytes((self.active_rpc_handle) as nat, 4)),
            ((addr + 0x2c) as u64, le_bytes((self.thread_local_storage_pointer) as nat, 4)),
            ((addr + 0x30) as u64, le_bytes((self.process_environment_block) as nat, 4)),
            ((addr + 0x34) as u64, le_bytes((self.last_error_value) as nat, 4)),
            ((addr + 0x38) as u64, le_bytes((self.count_of_owned_critical_sections) as nat, 4)),
            ((addr + 0x3c) as u64, le_bytes((self.csr_client_thread) as nat, 4)),
            ((addr + 0x40) as u64, le_bytes((self.win32_thread_info) as nat, 4)),
            ((addr + 0x46) as u64, le_bytes((self.wow32_reserved) as nat, 4)),
            ((addr + 0x4a) as u64, le_bytes((self.current_locale) as nat, 4)),
            ((addr + 0x4e) as u64, le_bytes((self.fp_software_status_register) as nat, 4)),
            ((addr + 0x52) as u64, le_bytes((self.exception_code) as nat, 4)),
            ((addr + 0x56) as u64, le_bytes((self.activation_context_stack_pointer) as nat, 4)),
        ]
    }

    /// The structure with its initial values (see `is_fresh`).
    pub fn new(peb_addr: u32) -> (r: TEB)
        ensures
            r.is_fresh(peb_addr),
    {
        TEB {
            nt_tib: NtTib32::new(),
            environment_pointer: 0,
            process_id: 3240,
            thread_id: 1,
            active_rpc_handle: 0,
            thread_local_storage_pointer: 0,
            process_environment_block: peb_addr,
            last_error_value: 0,
            count_of_owned_critical_sections: 0,
            csr_client_thread: 0,
            win32_thread_info: 0,
            user32_reserved: [0; 26],
            user_reserved: [0; 6],
            wow32_reserved: 0,
            current_locale: 0,
            fp_software_status_register: 0,
            system_reserved1: [0; 54],
            exception_code: 0,
            activation_context_stack_pointer: 0,
            spare_bytes: [0; 24],
            tx_fs_context: 0,
        }
    }

    /// The size of the structure in emulated memory.
    pub fn size() -> (r: usize)
        ensures
            r == 1000,
    {
        1000
    }

    /// Reads the structure at `addr`.
    pub fn load(addr: u64, maps: &Maps) -> (r: TEB)
        requires
            Self::readable(maps, addr),
        ensures
            r.loaded_from(maps, addr),
    {
        TEB {
            nt_tib: NtTib32::load(addr, maps),
            environment_pointer: maps.read_dword(addr + 0x1c).unwrap(),
            process_id: maps.read_dword(addr + 0x20).unwrap(),
            thread_id: maps.read_dword(addr + 0x24).unwrap(),
            active_rpc_handle: maps.read_dword(addr + 0x28).unwrap(),
            thread_local_storage_pointer: maps.read_dword(addr + 0x2c).unwrap(),
            process_environment_block: maps.read_dword(addr + 0x30).unwrap(),
            last_error_value: maps.read_dword(addr + 0x34).unwrap(),
            count_of_owned_critical_sections: maps.read_dword(addr + 0x38).unwrap(),
            csr_client_thread: maps.read_dword(addr + 0x3c).unwrap(),
            win32_thread_info: maps.read_dword(addr + 0x40).unwrap(),
            user32_reserved: [0; 26],
            user_reserved: [0; 6],
            wow32_reserved: maps.read_dword(addr + 0x46).unwrap(),
            current_locale: maps.read_dword(addr + 0x4a).unwrap(),
            fp_software_status_register: maps.read_dword(addr + 0x4e).unwrap(),
            system_reserved1: [0; 54],
            exception_code: maps.read_dword(addr + 0x52).unwrap(),
            activation_context_stack_pointer: maps.read_dword(addr + 0x56).unwrap(),
            spare_bytes: [0; 24],
            tx_fs_context: maps.read_dword(addr + 0xbe).unwrap(),
        }
    }

    /// Reads the structure at `addr` of the region.
    pub fn load_map(addr: u64, map: &Mem64) -> (r: TEB)
        requires
            Self::readable_in(map, addr),
        ensures
            r.read_from(map, addr),
    {
        TEB {
            nt_tib: NtTib32::load_map(addr, map),
            environment_pointer: map.read_dword(addr + 0x1c),
            process_id: map.read_dword(addr + 0x20),
            thread_id: map.read_dword(addr + 0x24),
            active_rpc_handle: map.read_dword(addr + 0x28),
            thread_local_storage_pointer: map.read_dword(addr + 0x2c),
            process_environment_block: map.read_dword(addr + 0x30),
            last_error_value: map.read_dword(addr + 0x34),
            count_of_owned_critical_sections: map.read_dword(addr + 0x38),
            csr_client_thread: map.read_dword(addr + 0x3c),
            win32_thread_info: map.read_dword(addr + 0x40),
            user32_reserved: [0; 26],
            user_reserved: [0; 6],
            wow32_reserved: map.read_dword(addr + 0x46),
            current_locale: map.read_dword(addr + 0x4a),
            fp_software_status_register: map.read_dword(addr + 0x4e),
            system_reserved1: [0; 54],
            exception_code: map.read_dword(addr + 0x52),
            activation_context_stack_pointer: map.read_dword(addr + 0x56),
            spare_bytes: [0; 24],
            tx_fs_context: map.read_dword(addr + 0xbe),
        }
    }

    /// Writes the fields from the start of the region, one after the other.
    pub fn save(&self, mem: &mut Mem64)
        requires
            Self::holds_in(*old(mem), old(mem).base_view()),
        ensures
            old(mem).wrote_all(*final(mem), self.writes(old(mem).base_view())),
            final(mem).bytes().len() == old(mem).bytes().len(),
    {
        let addr = mem.get_base();
        let ghost m0 = *mem;
        let ghost mut done: Seq<(u64, Seq<u8>)> = Seq::empty();
        let ghost prev = *mem;
        self.nt_tib.save(addr, mem);
        proof {
            m0.lemma_wrote_all_concat(prev, *mem, done, self.nt_tib.writes(addr));
            done = done + self.nt_tib.writes(addr);
        }
        put_dword(mem, Ghost(m0), Ghost(done), addr + 0x1c, self.environment_pointer);
        proof {
            done = done.push(((addr + 0x1c) as u64, le_bytes((self.environment_pointer) as nat, 4)));
        }
        put_dword(mem, Ghost(m0), Ghost(done), addr + 0x20, self.process_id);
        proof {
            done = done.push(((addr + 0x20) as u64, le_bytes((self.process_id) as nat, 4)));
        }
        put_dword(mem, Ghost(m0), Ghost(done), addr + 0x24, self.thread_id);
        proof {
            done = done.push(((addr + 0x24) as u64, le_bytes((self.thread_id) as nat, 4)));
        }
        put_dword(mem, Ghost(m0), Ghost(done), addr + 0x28, self.active_rpc_handle);
        proof {
            done = done.push(((addr + 0x28) as u64, le_bytes((self.active_rpc_handle) as nat, 4)));
        }
        put_dword(mem, Ghost(m0), Ghost(done), addr + 0x2c, self.thread_local_storage_pointer);
        proof {
            done = done.push(((addr + 0x2c) as u64, le_bytes((self.thread_local_storage_pointer) as nat, 4)));
        }
        put_dword(mem, Ghost(m0), Ghost(done), addr + 0x30, self.process_environment_block);
        proof {
            done = done.push(((addr + 0x30) as u64, le_bytes((self.process_environment_block) as nat, 4)));
        }
        put_dword(mem, Ghost(m0), Ghost(done), addr + 0x34, self.last_error_value);
        proof {
            done = done.push(((addr + 0x34) as u64, le_bytes((self.last_error_value) as nat, 4)));
        }
        put_dword(mem, Ghost(m0), Ghost(done), addr + 0x38, self.count_of_owned_critical_sections);
        proof {
            done = done.push(((addr + 0x38) as u64, le_bytes((self.count_of_owned_critical_sections) as nat, 4)));
        }
        put_dword(mem, Ghost(m0), Ghost(done), addr + 0x3c, self.csr_client_thread);
        proof {
            done = done.push(((addr + 0x3c) as u64, le_bytes((self.csr_client_thread) as nat, 4)));
        }
        put_dword(mem, Ghost(m0), Ghost(done), addr + 0x40, self.win32_thread_info);
        proof {
            done = done.push(((addr + 0x40) as u64, le_bytes((self.win32_thread_info) as nat, 4)));
        }
        put_dword(mem, Ghost(m0), Ghost(done), addr + 0x46, self.wow32_reserved);
        proof {
            done = done.push(((addr + 0x46) as u64, le_bytes((self.wow32_reserved) as nat, 4)));
        }
        put_dword(mem, Ghost(m0), Ghost(done), addr + 0x4a, self.current_locale);
        proof {
            done = done.push(((addr + 0x4a) as u64, le_bytes((self.current_locale) as nat, 4)));
        }
        put_dword(mem, Ghost(m0), Ghost(done), addr + 0x4e, self.fp_software_status_register);
        proof {
            done = done.push(((addr + 0x4e) as u64, le_bytes((self.fp_software_status_register) as nat, 4)));
        }
        put_dword(mem, Ghost(m0), Ghost(done), addr + 0x52, self.exception_code);
        proof {
            done = done.push(((addr + 0x52) as u64, le_bytes((self.exception_code) as nat, 4)));
        }
        put_dword(mem, Ghost(m0), Ghost(done), addr + 0x56, self.activation_context_stack_pointer);
        proof {
            done = done.push(((addr + 0x56) as u64, le_bytes((self.activation_context_stack_pointer) as nat, 4)));
        }
        assert(done =~= self.writes(addr));
    }

    /// Records the code of the last error.
    pub fn set_last_error(&mut self, err: u32)
        ensures
            final(self).last_error_value == err,
            *final(self) == (TEB { last_error_value: err, ..*old(self) }),
    {
        self.last_error_value = err;
    }
}

/// The thread information block at the start of a 64 bit thread environment
/// block.
#[derive(Debug)]
pub struct NtTib64 {
    pub exception_list: u64,
    pub stack_base: u64,
    pub stack_limit: u64,
    pub sub_system_tib: u64,
    pub fiber_data: u64,
    pub arbitrary_user_pointer: u64,
    pub self_pointer: u64,
}

impl NtTib64 {
    /// The values that `new` gives.
    pub open spec fn is_fresh(self) -> bool {
        &&& self.exception_list == 0
        &&& self.stack_base == 0
        &&& self.stack_limit == 0
        &&& self.sub_system_tib == 0
        &&& self.fiber_data == 0
        &&& self.arbitrary_user_pointer == 0
        &&& self.self_pointer == 0
    }

    /// Every field that `load` reads at `addr` lies in the region that a
    /// lookup of its address finds.
    pub open spec fn readable(maps: &Maps, addr: u64) -> bool {
        &&& maps.wf()
        &&& addr + 0x38 <= u64::MAX
        &&& maps.fits(addr, 8)
        &&& maps.fits((addr + 8) as u64, 8)
        &&& maps.fits((addr + 0x10) as u64, 8)
        &&& maps.fits((addr + 0x18) as u64, 8)
        &&& maps.fits((addr + 0x20) as u64, 8)
        &&& maps.fits((addr + 0x28) as u64, 8)
        &&& maps.fits((addr + 0x30) as u64, 8)
    }

    /// `self` holds the values that `load` reads at `addr`.
    pub open spec fn loaded_from(self, maps: &Maps, addr: u64) -> bool {
        &&& self.exception_list == maps.value_at(addr, 8)
        &&& self.stack_base == maps.value_at((addr + 8) as u64, 8)
        &&& self.stack_limit == maps.value_at((addr + 0x10) as u64, 8)
        &&& self.sub_system_tib == maps.value_at((addr + 0x18) as u64, 8)
        &&& self.fiber_data == maps.value_at((addr + 0x20) as u64, 8)
        &&& self.arbitrary_user_pointer == maps.value_at((addr + 0x28) as u64, 8)
        &&& self.self_pointer == maps.value_at((addr + 0x30) as u64, 8)
    }

    /// Every field that `load_map` reads at `addr` lies in the region.
    pub open spec fn readable_in(mem: &Mem64, addr: u64) -> bool {
        &&& addr + 0x38 <= u64::MAX
        &&& mem.holds(addr, 8)
        &&& mem.holds((addr + 8) as u64, 8)
        &&& mem.holds((addr + 0x10) as u64, 8)
        &&& mem.holds((addr + 0x18) as u64, 8)
        &&& mem.holds((addr + 0x20) as u64, 8)
        &&& mem.holds((addr + 0x28) as u64, 8)
        &&& mem.holds((addr + 0x30) as u64, 8)
    }

    /// `self` holds the values that `load_map` reads at `addr`.
    pub open spec fn read_from(self, mem: &Mem64, addr: u64) -> bool {
        &&& self.exception_list == mem.value_at(addr, 8)
        &&& self.stack_base == mem.value_at((addr + 8) as u64, 8)
        &&& self.stack_limit == mem.value_at((addr + 0x10) as u64, 8)
        &&& self.sub_system_tib == mem.value_at((addr + 0x18) as u64, 8)
        &&& self.fiber_data == mem.value_at((addr + 0x20) as u64, 8)
        &&& self.arbitrary_user_pointer == mem.value_at((addr + 0x28) as u64, 8)
        &&& self.self_pointer == mem.value_at((addr + 0x30) as u64, 8)
    }

    /// Every field that `save` writes at `addr` lies in the region.
    pub open spec fn holds_in(mem: Mem64, addr: u64) -> bool {
        &&& addr + 0x38 <= u64::MAX
        &&& mem.holds(addr, 8)
        &&& mem.holds((addr + 8) as u64, 8)
        &&& mem.holds((addr + 0x10) as u64, 8)
        &&& mem.holds((addr + 0x18) as u64, 8)
        &&& mem.holds((addr + 0x20) as u64, 8)
        &&& mem.holds((addr + 0x28) as u64, 8)
        &&& mem.holds((addr + 0x30) as u64, 8)
    }

    /// The writes of `save` at `addr`, in order: address and little endian
    /// bytes of each field.
    pub open spec fn writes(self, addr: u64) -> Seq<(u64, Seq<u8>)> {
        seq![
            (addr, le_bytes((self.exception_list) as nat, 8)),
            ((addr + 8) as u64, le_bytes((self.stack_base) as nat, 8)),
            ((addr + 0x10) as u64, le_bytes((self.stack_limit) as nat, 8)),
            ((addr + 0x18) as u64, le_bytes((self.sub_system_tib) as nat, 8)),
            ((addr + 0x20) as u64, le_bytes((self.fiber_data) as nat, 8)),
            ((addr + 0x28) as u64, le_bytes((self.arbitrary_user_pointer) as nat, 8)),
            ((addr + 0x30) as u64, le_bytes((self.self_pointer) as nat, 8)),
        ]
    }

    /// The structure with its initial values (see `is_fresh`).
    pub fn new() -> (r: NtTib64)
        ensures
            r.is_fresh(),
    {
        NtTib64 {
            exception_list: 0,
            stack_base: 0,
            stack_limit: 0,
            sub_system_tib: 0,
            fiber_data: 0,
            arbitrary_user_pointer: 0,
            self_pointer: 0,
        }
    }

    /// The size of the structure in emulated memory.
    pub fn size() -> (r: usize)
        ensures
            r == 56,
    {
        56
    }

    /// Reads the structure at `addr`.
    pub fn load(addr: u64, maps: &Maps) -> (r: NtTib64)
        requires
            Self::readable(maps, addr),
        ensures
            r.loaded_from(maps, addr),
    {
        NtTib64 {
            exception_list: maps.read_qword(addr).unwrap(),
            stack_base: maps.read_qword(addr + 8).unwrap(),
            stack_limit: maps.read_qword(addr + 0x10).unwrap(),
            sub_system_tib: maps.read_qword(addr + 0x18).unwrap(),
            fiber_data: maps.read_qword(addr + 0x20).unwrap(),
            arbitrary_user_pointer: maps.read_qword(addr + 0x28).unwrap(),
            self_pointer: maps.read_qword(addr + 0x30).unwrap(),
        }
    }

    /// Reads the structure at `addr` of the region.
    pub fn load_map(addr: u64, map: &Mem64) -> (r: NtTib64)
        requires
            Self::readable_in(map, addr),
        ensures
            r.read_from(map, addr),
    {
        NtTib64 {
            exception_list: map.read_qword(addr),
            stack_base: map.read_qword(addr + 8),
            stack_limit: map.read_qword(addr + 0x10),
            sub_system_tib: map.read_qword(addr + 0x18),
            fiber_data: map.read_qword(addr + 0x20),
            arbitrary_user_pointer: map.read_qword(addr + 0x28),
            self_pointer: map.read_qword(addr + 0x30),
        }
    }

    /// Writes the fields at `addr` of the region, one after the other.
    pub fn save(&self, addr: u64, mem: &mut Mem64)
        requires
            Self::holds_in(*old(mem), addr),
        ensures
            old(mem).wrote_all(*final(mem), self.writes(addr)),
            final(mem).bytes().len() == old(mem).bytes().len(),
    {
        let ghost m0 = *mem;
        let ghost mut done: Seq<(u64, Seq<u8>)> = Seq::empty();
        put_qword(mem, Ghost(m0), Ghost(done), addr, self.exception_list);
        proof {
            done = done.push((addr, le_bytes((self.exception_list) as nat, 8)));
        }
        put_qword(mem, Ghost(m0), Ghost(done), addr + 8, self.stack_base);
        proof {
            done = done.push(((addr + 8) as u64, le_bytes((self.stack_base) as nat, 8)));
        }
        put_qword(mem, Ghost(m0), Ghost(done), addr + 0x10, self.stack_limit);
        proof {
            done = done.push(((addr + 0x10) as u64, le_bytes((self.stack_limit) as nat, 8)));
        }
        put_qword(mem, Ghost(m0), Ghost(done), addr + 0x18, self.sub_system_tib);
        proof {
            done = done.push(((addr + 0x18) as u64, le_bytes((self.sub_system_tib) as nat, 8)));
        }
        put_qword(mem, Ghost(m0), Ghost(done), addr + 0x20, self.fiber_data);
        proof {
            done = done.push(((addr + 0x20) as u64, le_bytes((self.fiber_data) as nat, 8)));
        }
        put_qword(mem, Ghost(m0), Ghost(done), addr + 0x28, self.arbitrary_user_pointer);
        proof {
            done = done.push(((addr + 0x28) as u64, le_bytes((self.arbitrary_user_pointer) as nat, 8)));
        }
        put_qword(mem, Ghost(m0), Ghost(done), addr + 0x30, self.self_pointer);
        proof {
            done = done.push(((addr + 0x30) as u64, le_bytes((self.self_pointer) as nat, 8)));
        }
        assert(done =~= self.writes(addr));
    }
}

impl Default for NtTib64 {
    fn default() -> (r: Self)
        ensures
            r.is_fresh(),
    {
        Self::new()
    }
}

/// The thread environment block of a 64 bit thread.
#[derive(Debug)]
pub struct TEB64 {
    pub nt_tib: NtTib64,
    pub environment_pointer: u64,
    pub process_id: u64,
    pub thread_id: u64,
    pub active_rpc_handle: u64,
    pub thread_local_storage_pointer: u64,
    pub process_environment_block: u64,
    pub last_error_value: u32,
    pub count_of_owned_critical_sections: u32,
    pub csr_client_thread: u64,
    pub win32_thread_info: u64,
    pub user32_reserved: [u32; 26],
    pub user_reserved: [u32; 6],
    pub wow32_reserved: u64,
    pub current_locale: u32,
    pub fp_software_status_register: u32,
    pub system_reserved1: [u64; 54],
    pub exception_code: u32,
    pub activation_context_stack_pointer: u64,
}

impl TEB64 {
    /// The values that `new` gives.
    pub open spec fn is_fresh(self, peb_addr: u64) -> bool {
        &&& self.nt_tib.is_fresh()
        &&& self.environment_pointer == 0
        &&& self.process_id == 3240
        &&& self.thread_id == 1
        &&& self.active_rpc_handle == 0
        &&& self.thread_local_storage_pointer == 0
        &&& self.process_environment_block == peb_addr
        &&& self.last_error_value == 0
        &&& self.count_of_owned_critical_sections == 0
        &&& self.csr_client_thread == 0
        &&& self.win32_thread_info == 0
        &&& forall|i: int| 0 <= i < 26 ==> #[trigger] self.user32_reserved@[i] == 0
        &&& forall|i: int| 0 <= i < 6 ==> #[trigger] self.user_reserved@[i] == 0
        &&& self.wow32_reserved == 0
        &&& self.current_locale == 0
        &&& self.fp_software_status_register == 0
        &&& forall|i: int| 0 <= i < 54 ==> #[trigger] self.system_reserved1@[i] == 0
        &&& self.exception_code == 0
        &&& self.activation_context_stack_pointer == 0
    }

    /// Every field that `load` reads at `addr` lies in the region that a
    /// lookup of its address finds.
    pub open spec fn readable(maps: &Maps, addr: u64) -> bool {
        &&& maps.wf()
        &&& addr + 0x2d0 <= u64::MAX
        &&& NtTib64::readable(maps, addr)
        &&& maps.fits((addr + 0x38) as u64, 8)
        &&& maps.fits((addr + 0x40) as u64, 8)
        &&& maps.fits((addr + 0x48) as u64, 8)
        &&& maps.fits((addr + 0x50) as u64, 8)
        &&& maps.fits((addr + 0x58) as u64, 8)
        &&& maps.fits((addr + 0x60) as u64, 8)
        &&& maps.fits((addr + 0x68) as u64, 4)
        &&& maps.fits((addr + 0x6c) as u64, 4)
        &&& maps.fits((addr + 0x70) as u64, 8)
        &&& maps.fits((addr + 0x78) as u64, 8)
        &&& maps.fits((addr + 0x100) as u64, 8)
        &&& maps.fits((addr + 0x108) as u64, 4)
        &&& maps.fits((addr + 0x10c) as u64, 4)
        &&& maps.fits((addr + 0x2c0) as u64, 4)
        &&& maps.fits((addr + 0x2c8) as u64, 8)
    }

    /// `self` holds the values that `load` reads at `addr`.
    pub open spec fn loaded_from(self, maps: &Maps, addr: u64) -> bool {
        &&& self.nt_tib.loaded_from(maps, addr)
        &&& self.environment_pointer == maps.value_at((addr + 0x38) as u64, 8)
        &&& self.process_id == maps.value_at((addr + 0x40) as u64, 8)
        &&& self.thread_id == maps.value_at((addr + 0x48) as u64, 8)
        &&& self.active_rpc_handle == maps.value_at((addr + 0x50) as u64, 8)
        &&& self.thread_local_storage_pointer == maps.value_at((addr + 0x58) as u64, 8)
        &&& self.process_environment_block == maps.value_at((addr + 0x60) as u64, 8)
        &&& self.last_error_value == maps.value_at((addr + 0x68) as u64, 4)
        &&& self.count_of_owned_critical_sections == maps.value_at((addr + 0x6c) as u64, 4)
        &&& self.csr_client_thread == maps.value_at((addr + 0x70) as u64, 8)
        &&& self.win32_thread_info == maps.value_at((addr + 0x78) as u64, 8)
        &&& forall|i: int| 0 <= i < 26 ==> #[trigger] self.user32_reserved@[i] == 0
        &&& forall|i: int| 0 <= i < 6 ==> #[trigger] self.user_reserved@[i] == 0
        &&& self.wow32_reserved == maps.value_at((addr + 0x100) as u64, 8)
        &&& self.current_locale == maps.value_at((addr + 0x108) as u64, 4)
        &&& self.fp_software_status_register == maps.value_at((addr + 0x10c) as u64, 4)
        &&& forall|i: int| 0 <= i < 54 ==> #[trigger] self.system_reserved1@[i] == 0
        &&& self.exception_code == maps.value_at((addr + 0x2c0) as u64, 4)
        &&& self.activation_context_stack_pointer == maps.value_at((addr + 0x2c8) as u64, 8)
    }

    /// Every field that `load_map` reads at `addr` lies in the region.
    pub open spec fn readable_in(mem: &Mem64, addr: u64) -> bool {
        &&& addr + 0x2d0 <= u64::MAX
        &&& NtTib64::readable_in(mem, addr)
        &&& mem.holds((addr + 0x38) as u64, 8)
        &&& mem.holds((addr + 0x40) as u64, 8)
        &&& mem.holds((addr + 0x48) as u64, 8)
        &&& mem.holds((addr + 0x50) as u64, 8)
        &&& mem.holds((addr + 0x58) as u64, 8)
        &&& mem.holds((addr + 0x60) as u64, 8)
        &&& mem.holds((addr + 0x68) as u64, 4)
        &&& mem.holds((addr + 0x6c) as u64, 4)
        &&& mem.holds((addr + 0x70) as u64, 8)
        &&& mem.holds((addr + 0x78) as u64, 8)
        &&& mem.holds((addr + 0x100) as u64, 8)
        &&& mem.holds((addr + 0x108) as u64, 4)
        &&& mem.holds((addr + 0x10c) as u64, 4)
        &&& mem.holds((addr + 0x2c0) as u64, 4)
        &&& mem.holds((addr + 0x2c8) as u64, 8)
    }

    /// `self` holds the values that `load_map` reads at `addr`.
    pub open spec fn read_from(self, mem: &Mem64, addr: u64) -> bool {
        &&& self.nt_tib.read_from(mem, addr)
        &&& self.environment_pointer == mem.value_at((addr + 0x38) as u64, 8)
        &&& self.process_id == mem.value_at((addr + 0x40) as u64, 8)
        &&& self.thread_id == mem.value_at((addr + 0x48) as u64, 8)
        &&& self.active_rpc_handle == mem.value_at((addr + 0x50) as u64, 8)
        &&& self.thread_local_storage_pointer == mem.value_at((addr + 0x58) as u64, 8)
        &&& self.process_environment_block == mem.value_at((addr + 0x60) as u64, 8)
        &&& self.last_error_value == mem.value_at((addr + 0x68) as u64, 4)
        &&& self.count_of_owned_critical_sections == mem.value_at((addr + 0x6c) as u64, 4)
        &&& self.csr_client_thread == mem.value_at((addr + 0x70) as u64, 8)
        &&& self.win32_thread_info == mem.value_at((addr + 0x78) as u64, 8)
        &&& forall|i: int| 0 <= i < 26 ==> #[trigger] self.user32_reserved@[i] == 0
        &&& forall|i: int| 0 <= i < 6 ==> #[trigger] self.user_reserved@[i] == 0
        &&& self.wow32_reserved == mem.value_at((addr + 0x100) as u64, 8)
        &&& self.current_locale == mem.value_at((addr + 0x108) as u64, 4)
        &&& self.fp_software_status_register == mem.value_at((addr + 0x10c) as u64, 4)
        &&& forall|i: int| 0 <= i < 54 ==> #[trigger] self.system_reserved1@[i] == 0
        &&& self.exception_code == mem.value_at((addr + 0x2c0) as u64, 4)
        &&& self.activation_context_stack_pointer == mem.value_at((addr + 0x2c8) as u64, 8)
    }

    /// Every field that `save` writes at `addr` lies in the region.
    pub open spec fn holds_in(mem: Mem64, addr: u64) -> bool {
        &&& addr + 0x2d0 <= u64::MAX
        &&& NtTib64::holds_in(mem, addr)
        &&& mem.holds((addr + 0x38) as u64, 8)
        &&& mem.holds((addr + 0x40) as u64, 8)
        &&& mem.holds((addr + 0x48) as u64, 8)
        &&& mem.holds((addr + 0x50) as u64, 8)
        &&& mem.holds((addr + 0x58) as u64, 8)
        &&& mem.holds((addr + 0x60) as u64, 8)
        &&& mem.holds((addr + 0x68) as u64, 4)
        &&& mem.holds((addr + 0x6c) as u64, 4)
        &&& mem.holds((addr + 0x70) as u64, 8)
        &&& mem.holds((addr + 0x78) as u64, 8)
        &&& mem.holds((addr + 0x100) as u64, 104)
        &&& mem.holds((addr + 0x108) as u64, 24)
        &&& mem.holds((addr + 0x100) as u64, 8)
        &&& mem.holds((addr + 0x108) as u64, 4)
        &&& mem.holds((addr + 0x10c) as u64, 4)
        &&& mem.holds((addr + 0x2c0) as u64, 4)
        &&& mem.holds((addr + 0x2c8) as u64, 8)
    }

    /// The writes of `save` at `addr`, in order: address and little endian
    /// bytes of each field.
    pub open spec fn writes(self, addr: u64) -> Seq<(u64, Seq<u8>)> {
        self.nt_tib.writes(addr)
            + seq![
            ((addr + 0x38) as u64, le_bytes((self.environment_pointer) as nat, 8)),
            ((addr + 0x40) as u64, le_bytes((self.process_id) as nat, 8)),
            ((addr + 0x48) as u64, le_bytes((self.thread_id) as nat, 8)),
            ((addr + 0x50) as u64, le_bytes((self.active_rpc_handle) as nat, 8)),
            ((addr + 0x58) as u64, le_bytes((self.thread_local_storage_pointer) as nat, 8)),
            ((addr + 0x60) as u64, le_bytes((self.process_environment_block) as nat, 8)),
            ((addr + 0x68) as u64, le_bytes((self.last_error_value) as nat, 4)),
            ((addr + 0x6c) as u64, le_bytes((self.count_of_owned_critical_sections) as nat, 4)),
            ((addr + 0x70) as u64, le_bytes((self.csr_client_thread) as nat, 8)),
            ((addr + 0x78) as u64, le_bytes((self.win32_thread_info) as nat, 8)),
        ]
            + Seq::new(26, |i: int| (((addr + 0x100) + 4 * i) as u64, le_bytes(self.user32_reserved[i] as nat, 4)))
            + Seq::new(6, |i: int| (((addr + 0x108) + 4 * i) as u64, le_bytes(self.user_reserved[i] as nat, 4)))
            + seq![
            ((addr + 0x100) as u64, le_bytes((self.wow32_reserved) as nat, 8)),
            ((addr + 0x108) as u64, le_bytes((self.current_locale) as nat, 4)),
            ((addr + 0x10c) as u64, le_bytes((self.fp_software_status_register) as nat, 4)),
            ((addr + 0x2c0) as u64, le_bytes((self.exception_code) as nat, 4)),
            ((addr + 0x2c8) as u64, le_bytes((self.activation_context_stack_pointer) as nat, 8)),
        ]
    }

    /// The structure with its initial values (see `is_fresh`).
    pub fn new(peb_addr: u64) -> (r: TEB64)
        ensures
            r.is_fresh(peb_addr),
    {
        TEB64 {
            nt_tib: NtTib64::new(),
            environment_pointer: 0,
            process_id: 3240,
            thread_id: 1,
            active_rpc_handle: 0,
            thread_local_storage_pointer: 0,
            process_environment_block: peb_addr,
            last_error_value: 0,
            count_of_owned_critical_sections: 0,
            csr_client_thread: 0,
            win32_thread_info: 0,
            user32_reserved: [0; 26],
            user_reserved: [0; 6],
            wow32_reserved: 0,
            current_locale: 0,
            fp_software_status_register: 0,
            system_reserved1: [0; 54],
            exception_code: 0,
            activation_context_stack_pointer: 0,
        }
    }

    /// The size of the structure in emulated memory.
    pub fn size() -> (r: usize)
        ensures
            r == 0x2d0,
    {
        0x2d0
    }

    /// Reads the structure at `addr`.
    pub fn load(addr: u64, maps: &Maps) -> (r: TEB64)
        requires
            Self::readable(maps, addr),
        ensures
            r.loaded_from(maps, addr),
    {
        TEB64 {
            nt_tib: NtTib64::load(addr, maps),
            environment_pointer: maps.read_qword(addr + 0x38).unwrap(),
            process_id: maps.read_qword(addr + 0x40).unwrap(),
            thread_id: maps.read_qword(addr + 0x48).unwrap(),
            active_rpc_handle: maps.read_qword(addr + 0x50).unwrap(),
            thread_local_storage_pointer: maps.read_qword(addr + 0x58).unwrap(),
            process_environment_block: maps.read_qword(addr + 0x60).unwrap(),
            last_error_value: maps.read_dword(addr + 0x68).unwrap(),
            count_of_owned_critical_sections: maps.read_dword(addr + 0x6c).unwrap(),
            csr_client_thread: maps.read_qword(addr + 0x70).unwrap(),
            win32_thread_info: maps.read_qword(addr + 0x78).unwrap(),
            user32_reserved: [0; 26],
            user_reserved: [0; 6],
            wow32_reserved: maps.read_qword(addr + 0x100).unwrap(),
            current_locale: maps.read_dword(addr + 0x108).unwrap(),
            fp_software_status_register: maps.read_dword(addr + 0x10c).unwrap(),
            system_reserved1: [0; 54],
            exception_code: maps.read_dword(addr + 0x2c0).unwrap(),
            activation_context_stack_pointer: maps.read_qword(addr + 0x2c8).unwrap(),
        }
    }

    /// Reads the structure at `addr` of the region.
    pub fn load_map(addr: u64, map: &Mem64) -> (r: TEB64)
        requires
            Self::readable_in(map, addr),
        ensures
            r.read_from(map, addr),
    {
        TEB64 {
            nt_tib: NtTib64::load_map(addr, map),
            environment_pointer: map.read_qword(addr + 0x38),
            process_id: map.read_qword(addr + 0x40),
            thread_id: map.read_qword(addr + 0x48),
            active_rpc_handle: map.read_qword(addr + 0x50),
            thread_local_storage_pointer: map.read_qword(addr + 0x58),
            process_environment_block: map.read_qword(addr + 0x60),
            last_error_value: map.read_dword(addr + 0x68),
            count_of_owned_critical_sections: map.read_dword(addr + 0x6c),
            csr_client_thread: map.read_qword(addr + 0x70),
            win32_thread_info: map.read_qword(addr + 0x78),
            user32_reserved: [0; 26],
            user_reserved: [0; 6],
            wow32_reserved: map.read_qword(addr + 0x100),
            current_locale: map.read_dword(addr + 0x108),
            fp_software_status_register: map.read_dword(addr + 0x10c),
            system_reserved1: [0; 54],
            exception_code: map.read_dword(addr + 0x2c0),
            activation_context_stack_pointer: map.read_qword(addr + 0x2c8),
        }
    }

    /// Writes the fields from the start of the region, one after the other.
    pub fn save(&self, mem: &mut Mem64)
        requires
            Self::holds_in(*old(mem), old(mem).base_view()),
        ensures
            old(mem).wrote_all(*final(mem), self.writes(old(mem).base_view())),
            final(mem).bytes().len() == old(mem).bytes().len(),
    {
        let addr = mem.get_base();
        let ghost m0 = *mem;
        let ghost mut done: Seq<(u64, Seq<u8>)> = Seq::empty();
        let ghost prev = *mem;
        self.nt_tib.save(addr, mem);
        proof {
            m0.lemma_wrote_all_concat(prev, *mem, done, self.nt_tib.writes(addr));
            done = done + self.nt_tib.writes(addr);
        }
        put_qword(mem, Ghost(m0), Ghost(done), addr + 0x38, self.environment_pointer);
        proof {
            done = done.push(((addr + 0x38) as u64, le_bytes((self.environment_pointer) as nat, 8)));
        }
        put_qword(mem, Ghost(m0), Ghost(done), addr + 0x40, self.process_id);
        proof {
            done = done.push(((addr + 0x40) as u64, le_bytes((self.process_id) as nat, 8)));
        }
        put_qword(mem, Ghost(m0), Ghost(done), addr + 0x48, self.thread_id);
        proof {
            done = done.push(((addr + 0x48) as u64, le_bytes((self.thread_id) as nat, 8)));
        }
        put_qword(mem, Ghost(m0), Ghost(done), addr + 0x50, self.active_rpc_handle);
        proof {
            done = done.push(((addr + 0x50) as u64, le_bytes((self.active_rpc_handle) as nat, 8)));
        }
        put_qword(mem, Ghost(m0), Ghost(done), addr + 0x58, self.thread_local_storage_pointer);
        proof {
            done = done.push(((addr + 0x58) as u64, le_bytes((self.thread_local_storage_pointer) as nat, 8)));
        }
        put_qword(mem, Ghost(m0), Ghost(done), addr + 0x60, self.process_environment_block);
        proof {
            done = done.push(((addr + 0x60) as u64, le_bytes((self.process_environment_block) as nat, 8)));
        }
        put_dword(mem, Ghost(m0), Ghost(done), addr + 0x68, self.last_error_value);
        proof {
            done = done.push(((addr + 0x68) as u64, le_bytes((self.last_error_value) as nat, 4)));
        }
        put_dword(mem, Ghost(m0), Ghost(done), addr + 0x6c, self.count_of_owned_critical_sections);
        proof {
            done = done.push(((addr + 0x6c) as u64, le_bytes((self.count_of_owned_critical_sections) as nat, 4)));
        }
        put_qword(mem, Ghost(m0), Ghost(done), addr + 0x70, self.csr_client_thread);
        proof {
            done = done.push(((addr + 0x70) as u64, le_bytes((self.csr_client_thread) as nat, 8)));
        }
        put_qword(mem, Ghost(m0), Ghost(done), addr + 0x78, self.win32_thread_info);
        proof {
            done = done.push(((addr + 0x78) as u64, le_bytes((self.win32_thread_info) as nat, 8)));
        }
        let mut idx: u64 = addr + 0x100;
        let ghost before = done;
        let mut i: usize = 0;
        while i < 26
            invariant
                i <= 26,
                idx == addr + 0x100 + 4 * i,
                Self::holds_in(m0, addr),
                m0.wrote_all(*mem, done),
                mem.bytes().len() == m0.bytes().len(),
                done == before + Seq::new(i as nat, |j: int| (((addr + 0x100) + 4 * j) as u64, le_bytes(self.user32_reserved[j] as nat, 4))),
            decreases 26 - i,
        {
            let ghost prev = *mem;
            mem.write_dword(idx, self.user32_reserved[i]);
            proof {
                m0.lemma_field_put(prev, *mem, done, idx, le_bytes(self.user32_reserved[i as int] as nat, 4));
                done = done.push((idx, le_bytes(self.user32_reserved[i as int] as nat, 4)));
                assert(done =~= before + Seq::new((i + 1) as nat, |j: int| (((addr + 0x100) + 4 * j) as u64, le_bytes(self.user32_reserved[j] as nat, 4))));
            }
            idx = idx + 4;
            i = i + 1;
        }
        let mut idx: u64 = addr + 0x108;
        let ghost before = done;
        let mut i: usize = 0;
        while i < 6
            invariant
                i <= 6,
                idx == addr + 0x108 + 4 * i,
                Self::holds_in(m0, addr),
                m0.wrote_all(*mem, done),
                mem.bytes().len() == m0.bytes().len(),
                done == before + Seq::new(i as nat, |j: int| (((addr + 0x108) + 4 * j) as u64, le_bytes(self.user_reserved[j] as nat, 4))),
            decreases 6 - i,
        {
            let ghost prev = *mem;
            mem.write_dword(idx, self.user_reserved[i]);
            proof {
                m0.lemma_field_put(prev, *mem, done, idx, le_bytes(self.user_reserved[i as int] as nat, 4));
                done = done.push((idx, le_bytes(self.user_reserved[i as int] as nat, 4)));
                assert(done =~= before + Seq::new((i + 1) as nat, |j: int| (((addr + 0x108) + 4 * j) as u64, le_bytes(self.user_reserved[j] as nat, 4))));
            }
            idx = idx + 4;
            i = i + 1;
        }
        put_qword(mem, Ghost(m0), Ghost(done), addr + 0x100, self.wow32_reserved);
        proof {
            done = done.push(((addr + 0x100) as u64, le_bytes((self.wow32_reserved) as nat, 8)));
        }
        put_dword(mem, Ghost(m0), Ghost(done), addr + 0x108, self.current_locale);
        proof {
            done = done.push(((addr + 0x108) as u64, le_bytes((self.current_locale) as nat, 4)));
        }
        put_dword(mem, Ghost(m0), Ghost(done), addr + 0x10c, self.fp_software_status_register);
        proof {
            done = done.push(((addr + 0x10c) as u64, le_bytes((self.fp_software_status_register) as nat, 4)));
        }
        put_dword(mem, Ghost(m0), Ghost(done), addr + 0x2c0, self.exception_code);
        proof {
            done = done.push(((addr + 0x2c0) as u64, le_bytes((self.exception_code) as nat, 4)));
        }
        put_qword(mem, Ghost(m0), Ghost(done), addr + 0x2c8, self.activation_context_stack_pointer);
        proof {
            done = done.push(((addr + 0x2c8) as u64, le_bytes((self.activation_context_stack_pointer) as nat, 8)));
        }
        assert(done =~= self.writes(addr));
    }

    /// Records the code of the last error.
    pub fn set_last_error(&mut self, err: u32)
        ensures
            final(self).last_error_value == err,
            *final(self) == (TEB64 { last_error_value: err, ..*old(self) }),
    {
        self.last_error_value = err;
    }
}

impl NtTib32 {
    /// Saving the block at `addr` of a region and loading it back from there
    /// gives the block that was saved.
    pub proof fn lemma_load_map_after_save(self, before: Mem64, after: Mem64, addr: u64)
        requires
            NtTib32::holds_in(before, addr),
            before.wrote_all(after, self.writes(addr)),
        ensures
            NtTib32::readable_in(&after, addr),
            self.read_from(&after, addr),
    {
        let ws = self.writes(addr);
        reveal_with_fuel(crate::fpu::f80::pow256, 5);
        assert(ws[0] == (addr, le_bytes(self.exception_list as nat, 4)));
        assert(ws[1] == ((addr + 4) as u64, le_bytes(self.stack_base as nat, 4)));
        assert(ws[2] == ((addr + 8) as u64, le_bytes(self.stack_limit as nat, 4)));
        assert(ws[3] == ((addr + 0xc) as u64, le_bytes(self.sub_system_tib as nat, 4)));
        assert(ws[4] == ((addr + 0x10) as u64, le_bytes(self.fiber_data as nat, 4)));
        assert(ws[5] == ((addr + 0x14) as u64, le_bytes(self.arbitrary_user_pointer as nat, 4)));
        assert(ws[6] == ((addr + 0x18) as u64, le_bytes(self.self_pointer as nat, 4)));
        assert forall|i: int| 0 <= i < ws.len() implies #[trigger] before.holds(ws[i].0, ws[i].1.len()) by {
            assert(0 <= i < 7);
        }
        assert forall|i: int| 0 < i < ws.len() implies #[trigger] before.offset(ws[i].0) + ws[i].1.len()
            <= before.offset(ws[0].0) || before.offset(ws[0].0) + ws[0].1.len() <= before.offset(ws[i].0) by {
            assert(0 < i < 7);
        }
        before.lemma_patched_value(after, ws, 0, self.exception_list as nat, 4);
        assert forall|i: int| 1 < i < ws.len() implies #[trigger] before.offset(ws[i].0) + ws[i].1.len()
            <= before.offset(ws[1].0) || before.offset(ws[1].0) + ws[1].1.len() <= before.offset(ws[i].0) by {
            assert(1 < i < 7);
        }
        before.lemma_patched_value(after, ws, 1, self.stack_base as nat, 4);
        assert forall|i: int| 2 < i < ws.len() implies #[trigger] before.offset(ws[i].0) + ws[i].1.len()
            <= before.offset(ws[2].0) || before.offset(ws[2].0) + ws[2].1.len() <= before.offset(ws[i].0) by {
            assert(2 < i < 7);
        }
        before.lemma_patched_value(after, ws, 2, self.stack_limit as nat, 4);
        assert forall|i: int| 3 < i < ws.len() implies #[trigger] before.offset(ws[i].0) + ws[i].1.len()
            <= before.offset(ws[3].0) || before.offset(ws[3].0) + ws[3].1.len() <= before.offset(ws[i].0) by {
            assert(3 < i < 7);
        }
        before.lemma_patched_value(after, ws, 3, self.sub_system_tib as nat, 4);
        assert forall|i: int| 4 < i < ws.len() implies #[trigger] before.offset(ws[i].0) + ws[i].1.len()
            <= before.offset(ws[4].0) || before.offset(ws[4].0) + ws[4].1.len() <= before.offset(ws[i].0) by {
            assert(4 < i < 7);
        }
        before.lemma_patched_value(after, ws, 4, self.fiber_data as nat, 4);
        assert forall|i: int| 5 < i < ws.len() implies #[trigger] before.offset(ws[i].0) + ws[i].1.len()
            <= before.offset(ws[5].0) || before.offset(ws[5].0) + ws[5].1.len() <= before.offset(ws[i].0) by {
            assert(5 < i < 7);
        }
        before.lemma_patched_value(after, ws, 5, self.arbitrary_user_pointer as nat, 4);
        assert forall|i: int| 6 < i < ws.len() implies #[trigger] before.offset(ws[i].0) + ws[i].1.len()
            <= before.offset(ws[6].0) || before.offset(ws[6].0) + ws[6].1.len() <= before.offset(ws[i].0) by {
            assert(6 < i < 7);
        }
        before.lemma_patched_value(after, ws, 6, self.self_pointer as nat, 4);
    }
}

impl NtTib64 {
    /// Saving the block at `addr` of a region and loading it back from there
    /// gives the block that was saved.
    pub proof fn lemma_load_map_after_save(self, before: Mem64, after: Mem64, addr: u64)
        requires
            NtTib64::holds_in(before, addr),
            before.wrote_all(after, self.writes(addr)),
        ensures
            NtTib64::readable_in(&after, addr),
            self.read_from(&after, addr),
    {
        let ws = self.writes(addr);
        reveal_with_fuel(crate::fpu::f80::pow256, 9);
        assert(ws[0] == (addr, le_bytes(self.exception_list as nat, 8)));
        assert(ws[1] == ((addr + 8) as u64, le_bytes(self.stack_base as nat, 8)));
        assert(ws[2] == ((addr + 0x10) as u64, le_bytes(self.stack_limit as nat, 8)));
        assert(ws[3] == ((addr + 0x18) as u64, le_bytes(self.sub_system_tib as nat, 8)));
        assert(ws[4] == ((addr + 0x20) as u64, le_bytes(self.fiber_data as nat, 8)));
        assert(ws[5] == ((addr + 0x28) as u64, le_bytes(self.arbitrary_user_pointer as nat, 8)));
        assert(ws[6] == ((addr + 0x30) as u64, le_bytes(self.self_pointer as nat, 8)));
        assert forall|i: int| 0 <= i < ws.len() implies #[trigger] before.holds(ws[i].0, ws[i].1.len()) by {
            assert(0 <= i < 7);
        }
        assert forall|i: int| 0 < i < ws.len() implies #[trigger] before.offset(ws[i].0) + ws[i].1.len()
            <= before.offset(ws[0].0) || before.offset(ws[0].0) + ws[0].1.len() <= before.offset(ws[i].0) by {
            assert(0 < i < 7);
        }
        before.lemma_patched_value(after, ws, 0, self.exception_list as nat, 8);
        assert forall|i: int| 1 < i < ws.len() implies #[trigger] before.offset(ws[i].0) + ws[i].1.len()
            <= before.offset(ws[1].0) || before.offset(ws[1].0) + ws[1].1.len() <= before.offset(ws[i].0) by {
            assert(1 < i < 7);
        }
        before.lemma_patched_value(after, ws, 1, self.stack_base as nat, 8);
        assert forall|i: int| 2 < i < ws.len() implies #[trigger] before.offset(ws[i].0) + ws[i].1.len()
            <= before.offset(ws[2].0) || before.offset(ws[2].0) + ws[2].1.len() <= before.offset(ws[i].0) by {
            assert(2 < i < 7);
        }
        before.lemma_patched_value(after, ws, 2, self.stack_limit as nat, 8);
        assert forall|i: int| 3 < i < ws.len() implies #[trigger] before.offset(ws[i].0) + ws[i].1.len()
            <= before.offset(ws[3].0) || before.offset(ws[3].0) + ws[3].1.len() <= before.offset(ws[i].0) by {
            assert(3 < i < 7);
        }
        before.lemma_patched_value(after, ws, 3, self.sub_system_tib as nat, 8);
        assert forall|i: int| 4 < i < ws.len() implies #[trigger] before.offset(ws[i].0) + ws[i].1.len()
            <= before.offset(ws[4].0) || before.offset(ws[4].0) + ws[4].1.len() <= before.offset(ws[i].0) by {
            assert(4 < i < 7);
        }
        before.lemma_patched_value(after, ws, 4, self.fiber_data as nat, 8);
        assert forall|i: int| 5 < i < ws.len() implies #[trigger] before.offset(ws[i].0) + ws[i].1.len()
            <= before.offset(ws[5].0) || before.offset(ws[5].0) + ws[5].1.len() <= before.offset(ws[i].0) by {
            assert(5 < i < 7);
        }
        before.lemma_patched_value(after, ws, 5, self.arbitrary_user_pointer as nat, 8);
        assert forall|i: int| 6 < i < ws.len() implies #[trigger] before.offset(ws[i].0) + ws[i].1.len()
            <= before.offset(ws[6].0) || before.offset(ws[6].0) + ws[6].1.len() <= before.offset(ws[i].0) by {
            assert(6 < i < 7);
        }
        before.lemma_patched_value(after, ws, 6, self.self_pointer as nat, 8);
    }
}

impl TEB {
    /// Saving the block at `addr` of a region and loading it back from there
    /// gives the block that was saved, when its arrays are zero and its last
    /// field holds the bytes that lie there already: `save` writes neither,
    /// and `load_map` gives zero arrays and reads that field.
    pub proof fn lemma_load_map_after_save(self, before: Mem64, after: Mem64, addr: u64)
        requires
            TEB::holds_in(before, addr),
            TEB::readable_in(&before, addr),
            before.wrote_all(after, self.writes(addr)),
            forall|i: int| 0 <= i < 26 ==> #[trigger] self.user32_reserved@[i] == 0,
            forall|i: int| 0 <= i < 6 ==> #[trigger] self.user_reserved@[i] == 0,
            forall|i: int| 0 <= i < 54 ==> #[trigger] self.system_reserved1@[i] == 0,
            forall|i: int| 0 <= i < 24 ==> #[trigger] self.spare_bytes@[i] == 0,
            self.tx_fs_context == before.value_at((addr + 0xbe) as u64, 4),
        ensures
            TEB::readable_in(&after, addr),
            self.read_from(&after, addr),
    {
        let ws = self.writes(addr);
        reveal_with_fuel(crate::fpu::f80::pow256, 5);
        assert(ws.len() == 22);
        assert(ws[0] == (addr, le_bytes(self.nt_tib.exception_list as nat, 4)));
        assert(ws[1] == ((addr + 0x4) as u64, le_bytes(self.nt_tib.stack_base as nat, 4)));
        assert(ws[2] == ((addr + 0x8) as u64, le_bytes(self.nt_tib.stack_limit as nat, 4)));
        assert(ws[3] == ((addr + 0xc) as u64, le_bytes(self.nt_tib.sub_system_tib as nat, 4)));
        assert(ws[4] == ((addr + 0x10) as u64, le_bytes(self.nt_tib.fiber_data as nat, 4)));
        assert(ws[5] == ((addr + 0x14) as u64, le_bytes(self.nt_tib.arbitrary_user_pointer as nat, 4)));
        assert(ws[6] == ((addr + 0x18) as u64, le_bytes(self.nt_tib.self_pointer as nat, 4)));
        assert(ws[7] == ((addr + 0x1c) as u64, le_bytes(self.environment_pointer as nat, 4)));
        assert(ws[8] == ((addr + 0x20) as u64, le_bytes(self.process_id as nat, 4)));
        assert(ws[9] == ((addr + 0x24) as u64, le_bytes(self.thread_id as nat, 4)));
        assert(ws[10] == ((addr + 0x28) as u64, le_bytes(self.active_rpc_handle as nat, 4)));
        assert(ws[11] == ((addr + 0x2c) as u64, le_bytes(self.thread_local_storage_pointer as nat, 4)));
        assert(ws[12] == ((addr + 0x30) as u64, le_bytes(self.process_environment_block as nat, 4)));
        assert(ws[13] == ((addr + 0x34) as u64, le_bytes(self.last_error_value as nat, 4)));
        assert(ws[14] == ((addr + 0x38) as u64, le_bytes(self.count_of_owned_critical_sections as nat, 4)));
        assert(ws[15] == ((addr + 0x3c) as u64, le_bytes(self.csr_client_thread as nat, 4)));
        assert(ws[16] == ((addr + 0x40) as u64, le_bytes(self.win32_thread_info as nat, 4)));
        assert(ws[17] == ((addr + 0x46) as u64, le_bytes(self.wow32_reserved as nat, 4)));
        assert(ws[18] == ((addr + 0x4a) as u64, le_bytes(self.current_locale as nat, 4)));
        assert(ws[19] == ((addr + 0x4e) as u64, le_bytes(self.fp_software_status_register as nat, 4)));
        assert(ws[20] == ((addr + 0x52) as u64, le_bytes(self.exception_code as nat, 4)));
        assert(ws[21] == ((addr + 0x56) as u64, le_bytes(self.activation_context_stack_pointer as nat, 4)));
        assert forall|i: int| 0 <= i < ws.len() implies #[trigger] before.holds(ws[i].0, ws[i].1.len()) by {
            assert(0 <= i < 22);
        }
        assert forall|i: int| 0 < i < ws.len() implies #[trigger] before.offset(ws[i].0) + ws[i].1.len()
            <= before.offset(ws[0].0) || before.offset(ws[0].0) + ws[0].1.len() <= before.offset(ws[i].0) by {
            assert(0 < i < 22);
        }
        before.lemma_patched_value(after, ws, 0, self.nt_tib.exception_list as nat, 4);
        assert forall|i: int| 1 < i < ws.len() implies #[trigger] before.offset(ws[i].0) + ws[i].1.len()
            <= before.offset(ws[1].0) || before.offset(ws[1].0) + ws[1].1.len() <= before.offset(ws[i].0) by {
            assert(1 < i < 22);
        }
        before.lemma_patched_value(after, ws, 1, self.nt_tib.stack_base as nat, 4);
        assert forall|i: int| 2 < i < ws.len() implies #[trigger] before.offset(ws[i].0) + ws[i].1.len()
            <= before.offset(ws[2].0) || before.offset(ws[2].0) + ws[2].1.len() <= before.offset(ws[i].0) by {
            assert(2 < i < 22);
        }
        before.lemma_patched_value(after, ws, 2, self.nt_tib.stack_limit as nat, 4);
        assert forall|i: int| 3 < i < ws.len() implies #[trigger] before.offset(ws[i].0) + ws[i].1.len()
            <= before.offset(ws[3].0) || before.offset(ws[3].0) + ws[3].1.len() <= before.offset(ws[i].0) by {
            assert(3 < i < 22);
        }
        before.lemma_patched_value(after, ws, 3, self.nt_tib.sub_system_tib as nat, 4);
        assert forall|i: int| 4 < i < ws.len() implies #[trigger] before.offset(ws[i].0) + ws[i].1.len()
            <= before.offset(ws[4].0) || before.offset(ws[4].0) + ws[4].1.len() <= before.offset(ws[i].0) by {
            assert(4 < i < 22);
        }
        before.lemma_patched_value(after, ws, 4, self.nt_tib.fiber_data as nat, 4);
        assert forall|i: int| 5 < i < ws.len() implies #[trigger] before.offset(ws[i].0) + ws[i].1.len()
            <= before.offset(ws[5].0) || before.offset(ws[5].0) + ws[5].1.len() <= before.offset(ws[i].0) by {
            assert(5 < i < 22);
        }
        before.lemma_patched_value(after, ws, 5, self.nt_tib.arbitrary_user_pointer as nat, 4);
        assert forall|i: int| 6 < i < ws.len() implies #[trigger] before.offset(ws[i].0) + ws[i].1.len()
            <= before.offset(ws[6].0) || before.offset(ws[6].0) + ws[6].1.len() <= before.offset(ws[i].0) by {
            assert(6 < i < 22);
        }
        before.lemma_patched_value(after, ws, 6, self.nt_tib.self_pointer as nat, 4);
        assert forall|i: int| 7 < i < ws.len() implies #[trigger] before.offset(ws[i].0) + ws[i].1.len()
            <= before.offset(ws[7].0) || before.offset(ws[7].0) + ws[7].1.len() <= before.offset(ws[i].0) by {
            assert(7 < i < 22);
        }
        before.lemma_patched_value(after, ws, 7, self.environment_pointer as nat, 4);
        assert forall|i: int| 8 < i < ws.len() implies #[trigger] before.offset(ws[i].0) + ws[i].1.len()
            <= before.offset(ws[8].0) || before.offset(ws[8].0) + ws[8].1.len() <= before.offset(ws[i].0) by {
            assert(8 < i < 22);
        }
        before.lemma_patched_value(after, ws, 8, self.process_id as nat, 4);
        assert forall|i: int| 9 < i < ws.len() implies #[trigger] before.offset(ws[i].0) + ws[i].1.len()
            <= before.offset(ws[9].0) || before.offset(ws[9].0) + ws[9].1.len() <= before.offset(ws[i].0) by {
            assert(9 < i < 22);
        }
        before.lemma_patched_value(after, ws, 9, self.thread_id as nat, 4);
        assert forall|i: int| 10 < i < ws.len() implies #[trigger] before.offset(ws[i].0) + ws[i].1.len()
            <= before.offset(ws[10].0) || before.offset(ws[10].0) + ws[10].1.len() <= before.offset(ws[i].0) by {
            assert(10 < i < 22);
        }
        before.lemma_patched_value(after, ws, 10, self.active_rpc_handle as nat, 4);
        assert forall|i: int| 11 < i < ws.len() implies #[trigger] before.offset(ws[i].0) + ws[i].1.len()
            <= before.offset(ws[11].0) || before.offset(ws[11].0) + ws[11].1.len() <= before.offset(ws[i].0) by {
            assert(11 < i < 22);
        }
        before.lemma_patched_value(after, ws, 11, self.thread_local_storage_pointer as nat, 4);
        assert forall|i: int| 12 < i < ws.len() implies #[trigger] before.offset(ws[i].0) + ws[i].1.len()
            <= before.offset(ws[12].0) || before.offset(ws[12].0) + ws[12].1.len() <= before.offset(ws[i].0) by {
            assert(12 < i < 22);
        }
        before.lemma_patched_value(after, ws, 12, self.process_environment_block as nat, 4);
        assert forall|i: int| 13 < i < ws.len() implies #[trigger] before.offset(ws[i].0) + ws[i].1.len()
            <= before.offset(ws[13].0) || before.offset(ws[13].0) + ws[13].1.len() <= before.offset(ws[i].0) by {
            assert(13 < i < 22);
        }
        before.lemma_patched_value(after, ws, 13, self.last_error_value as nat, 4);
        assert forall|i: int| 14 < i < ws.len() implies #[trigger] before.offset(ws[i].0) + ws[i].1.len()
            <= before.offset(ws[14].0) || before.offset(ws[14].0) + ws[14].1.len() <= before.offset(ws[i].0) by {
            assert(14 < i < 22);
        }
        before.lemma_patched_value(after, ws, 14, self.count_of_owned_critical_sections as nat, 4);
        assert forall|i: int| 15 < i < ws.len() implies #[trigger] before.offset(ws[i].0) + ws[i].1.len()
            <= before.offset(ws[15].0) || before.offset(ws[15].0) + ws[15].1.len() <= before.offset(ws[i].0) by {
            assert(15 < i < 22);
        }
        before.lemma_patched_value(after, ws, 15, self.csr_client_thread as nat, 4);
        assert forall|i: int| 16 < i < ws.len() implies #[trigger] before.offset(ws[i].0) + ws[i].1.len()
            <= before.offset(ws[16].0) || before.offset(ws[16].0) + ws[16].1.len() <= before.offset(ws[i].0) by {
            assert(16 < i < 22);
        }
        before.lemma_patched_value(after, ws, 16, self.win32_thread_info as nat, 4);
        assert forall|i: int| 17 < i < ws.len() implies #[trigger] before.offset(ws[i].0) + ws[i].1.len()
            <= before.offset(ws[17].0) || before.offset(ws[17].0) + ws[17].1.len() <= before.offset(ws[i].0) by {
            assert(17 < i < 22);
        }
        before.lemma_patched_value(after, ws, 17, self.wow32_reserved as nat, 4);
        assert forall|i: int| 18 < i < ws.len() implies #[trigger] before.offset(ws[i].0) + ws[i].1.len()
            <= before.offset(ws[18].0) || before.offset(ws[18].0) + ws[18].1.len() <= before.offset(ws[i].0) by {
            assert(18 < i < 22);
        }
        before.lemma_patched_value(after, ws, 18, self.current_locale as nat, 4);
        assert forall|i: int| 19 < i < ws.len() implies #[trigger] before.offset(ws[i].0) + ws[i].1.len()
            <= before.offset(ws[19].0) || before.offset(ws[19].0) + ws[19].1.len() <= before.offset(ws[i].0) by {
            assert(19 < i < 22);
        }
        before.lemma_patched_value(after, ws, 19, self.fp_software_status_register as nat, 4);
        assert forall|i: int| 20 < i < ws.len() implies #[trigger] before.offset(ws[i].0) + ws[i].1.len()
            <= before.offset(ws[20].0) || before.offset(ws[20].0) + ws[20].1.len() <= before.offset(ws[i].0) by {
            assert(20 < i < 22);
        }
        before.lemma_patched_value(after, ws, 20, self.exception_code as nat, 4);
        before.lemma_patched_value(after, ws, 21, self.activation_context_stack_pointer as nat, 4);
        assert forall|i: int| 0 <= i < ws.len() implies #[trigger] before.offset(ws[i].0) + ws[i].1.len()
            <= before.offset((addr + 0xbe) as u64) || before.offset((addr + 0xbe) as u64) + 4 <= before.offset(ws[i].0) by {
            assert(0 <= i < 22);
        }
        before.lemma_patched_untouched(after, ws, (addr + 0xbe) as u64, 4);
    }
}


impl TEB64 {
    /// Saving the block at `addr` of a region and loading it back from there
    /// gives the block that was saved, when its arrays are zero: `load_map`
    /// gives zero arrays whatever `save` wrote for them.
    #[verifier::rlimit(100)]
    pub proof fn lemma_load_map_after_save(self, before: Mem64, after: Mem64, addr: u64)
        requires
            TEB64::holds_in(before, addr),
            TEB64::readable_in(&before, addr),
            before.wrote_all(after, self.writes(addr)),
            forall|i: int| 0 <= i < 26 ==> #[trigger] self.user32_reserved@[i] == 0,
            forall|i: int| 0 <= i < 6 ==> #[trigger] self.user_reserved@[i] == 0,
            forall|i: int| 0 <= i < 54 ==> #[trigger] self.system_reserved1@[i] == 0,
        ensures
            TEB64::readable_in(&after, addr),
            self.read_from(&after, addr),
    {
        let ws = self.writes(addr);
        reveal_with_fuel(crate::fpu::f80::pow256, 9);
        assert(ws.len() == 54);
        assert(ws[0] == (addr, le_bytes(self.nt_tib.exception_list as nat, 8)));
        assert(ws[1] == ((addr + 0x8) as u64, le_bytes(self.nt_tib.stack_base as nat, 8)));
        assert(ws[2] == ((addr + 0x10) as u64, le_bytes(self.nt_tib.stack_limit as nat, 8)));
        assert(ws[3] == ((addr + 0x18) as u64, le_bytes(self.nt_tib.sub_system_tib as nat, 8)));
        assert(ws[4] == ((addr + 0x20) as u64, le_bytes(self.nt_tib.fiber_data as nat, 8)));
        assert(ws[5] == ((addr + 0x28) as u64, le_bytes(self.nt_tib.arbitrary_user_pointer as nat, 8)));
        assert(ws[6] == ((addr + 0x30) as u64, le_bytes(self.nt_tib.self_pointer as nat, 8)));
        assert(ws[7] == ((addr + 0x38) as u64, le_bytes(self.environment_pointer as nat, 8)));
        assert(ws[8] == ((addr + 0x40) as u64, le_bytes(self.process_id as nat, 8)));
        assert(ws[9] == ((addr + 0x48) as u64, le_bytes(self.thread_id as nat, 8)));
        assert(ws[10] == ((addr + 0x50) as u64, le_bytes(self.active_rpc_handle as nat, 8)));
        assert(ws[11] == ((addr + 0x58) as u64, le_bytes(self.thread_local_storage_pointer as nat, 8)));
        assert(ws[12] == ((addr + 0x60) as u64, le_bytes(self.process_environment_block as nat, 8)));
        assert(ws[13] == ((addr + 0x68) as u64, le_bytes(self.last_error_value as nat, 4)));
        assert(ws[14] == ((addr + 0x6c) as u64, le_bytes(self.count_of_owned_critical_sections as nat, 4)));
        assert(ws[15] == ((addr + 0x70) as u64, le_bytes(self.csr_client_thread as nat, 8)));
        assert(ws[16] == ((addr + 0x78) as u64, le_bytes(self.win32_thread_info as nat, 8)));
        assert(ws[49] == ((addr + 0x100) as u64, le_bytes(self.wow32_reserved as nat, 8)));
        assert(ws[50] == ((addr + 0x108) as u64, le_bytes(self.current_locale as nat, 4)));
        assert(ws[51] == ((addr + 0x10c) as u64, le_bytes(self.fp_software_status_register as nat, 4)));
        assert(ws[52] == ((addr + 0x2c0) as u64, le_bytes(self.exception_code as nat, 4)));
        assert(ws[53] == ((addr + 0x2c8) as u64, le_bytes(self.activation_context_stack_pointer as nat, 8)));
        assert forall|i: int| 17 <= i < 43 implies #[trigger] ws[i].0 == (addr + 0x100) + 4 * (i - 17) && ws[i].1.len() == 4 by {
        }
        assert forall|i: int| 43 <= i < 49 implies #[trigger] ws[i].0 == (addr + 0x108) + 4 * (i - 43) && ws[i].1.len() == 4 by {
        }
        assert forall|i: int| 0 <= i < ws.len() implies #[trigger] before.holds(ws[i].0, ws[i].1.len()) by {
            if 17 <= i < 49 {
                assert(ws[i].1.len() == 4);
            } else {
                assert(0 <= i < 17 || 49 <= i < 54);
            }
        }
        assert forall|i: int| 0 < i < ws.len() implies #[trigger] before.offset(ws[i].0) + ws[i].1.len()
            <= before.offset(ws[0].0) || before.offset(ws[0].0) + ws[0].1.len() <= before.offset(ws[i].0) by {
            if 17 <= i < 49 {
                assert(ws[i].1.len() == 4);
            } else {
                assert(0 < i < 17 || 49 <= i < 54);
            }
        }
        before.lemma_patched_value(after, ws, 0, self.nt_tib.exception_list as nat, 8);
        assert forall|i: int| 1 < i < ws.len() implies #[trigger] before.offset(ws[i].0) + ws[i].1.len()
            <= before.offset(ws[1].0) || before.offset(ws[1].0) + ws[1].1.len() <= before.offset(ws[i].0) by {
            if 17 <= i < 49 {
                assert(ws[i].1.len() == 4);
            } else {
                assert(1 < i < 17 || 49 <= i < 54);
            }
        }
        before.lemma_patched_value(after, ws, 1, self.nt_tib.stack_base as nat, 8);
        assert forall|i: int| 2 < i < ws.len() implies #[trigger] before.offset(ws[i].0) + ws[i].1.len()
            <= before.offset(ws[2].0) || before.offset(ws[2].0) + ws[2].1.len() <= before.offset(ws[i].0) by {
            if 17 <= i < 49 {
                assert(ws[i].1.len() == 4);
            } else {
                assert(2 < i < 17 || 49 <= i < 54);
            }
        }
        before.lemma_patched_value(after, ws, 2, self.nt_tib.stack_limit as nat, 8);
        assert forall|i: int| 3 < i < ws.len() implies #[trigger] before.offset(ws[i].0) + ws[i].1.len()
            <= before.offset(ws[3].0) || before.offset(ws[3].0) + ws[3].1.len() <= before.offset(ws[i].0) by {
            if 17 <= i < 49 {
                assert(ws[i].1.len() == 4);
            } else {
                assert(3 < i < 17 || 49 <= i < 54);
            }
        }
        before.lemma_patched_value(after, ws, 3, self.nt_tib.sub_system_tib as nat, 8);
        assert forall|i: int| 4 < i < ws.len() implies #[trigger] before.offset(ws[i].0) + ws[i].1.len()
            <= before.offset(ws[4].0) || before.offset(ws[4].0) + ws[4].1.len() <= before.offset(ws[i].0) by {
            if 17 <= i < 49 {
                assert(ws[i].1.len() == 4);
            } else {
                assert(4 < i < 17 || 49 <= i < 54);
            }
        }
        before.lemma_patched_value(after, ws, 4, self.nt_tib.fiber_data as nat, 8);
        assert forall|i: int| 5 < i < ws.len() implies #[trigger] before.offset(ws[i].0) + ws[i].1.len()
            <= before.offset(ws[5].0) || before.offset(ws[5].0) + ws[5].1.len() <= before.offset(ws[i].0) by {
            if 17 <= i < 49 {
                assert(ws[i].1.len() == 4);
            } else {
                assert(5 < i < 17 || 49 <= i < 54);
            }
        }
        before.lemma_patched_value(after, ws, 5, self.nt_tib.arbitrary_user_pointer as nat, 8);
        assert forall|i: int| 6 < i < ws.len() implies #[trigger] before.offset(ws[i].0) + ws[i].1.len()
            <= before.offset(ws[6].0) || before.offset(ws[6].0) + ws[6].1.len() <= before.offset(ws[i].0) by {
            if 17 <= i < 49 {
                assert(ws[i].1.len() == 4);
            } else {
                assert(6 < i < 17 || 49 <= i < 54);
            }
        }
        before.lemma_patched_value(after, ws, 6, self.nt_tib.self_pointer as nat, 8);
        assert forall|i: int| 7 < i < ws.len() implies #[trigger] before.offset(ws[i].0) + ws[i].1.len()
            <= before.offset(ws[7].0) || before.offset(ws[7].0) + ws[7].1.len() <= before.offset(ws[i].0) by {
            if 17 <= i < 49 {
                assert(ws[i].1.len() == 4);
            } else {
                assert(7 < i < 17 || 49 <= i < 54);
            }
        }
        before.lemma_patched_value(after, ws, 7, self.environment_pointer as nat, 8);
        assert forall|i: int| 8 < i < ws.len() implies #[trigger] before.offset(ws[i].0) + ws[i].1.len()
            <= before.offset(ws[8].0) || before.offset(ws[8].0) + ws[8].1.len() <= before.offset(ws[i].0) by {
            if 17 <= i < 49 {
                assert(ws[i].1.len() == 4);
            } else {
                assert(8 < i < 17 || 49 <= i < 54);
            }
        }
        before.lemma_patched_value(after, ws, 8, self.process_id as nat, 8);
        assert forall|i: int| 9 < i < ws.len() implies #[trigger] before.offset(ws[i].0) + ws[i].1.len()
            <= before.offset(ws[9].0) || before.offset(ws[9].0) + ws[9].1.len() <= before.offset(ws[i].0) by {
            if 17 <= i < 49 {
                assert(ws[i].1.len() == 4);
            } else {
                assert(9 < i < 17 || 49 <= i < 54);
            }
        }
        before.lemma_patched_value(after, ws, 9, self.thread_id as nat, 8);
        assert forall|i: int| 10 < i < ws.len() implies #[trigger] before.offset(ws[i].0) + ws[i].1.len()
            <= before.offset(ws[10].0) || before.offset(ws[10].0) + ws[10].1.len() <= before.offset(ws[i].0) by {
            if 17 <= i < 49 {
                assert(ws[i].1.len() == 4);
            } else {
                assert(10 < i < 17 || 49 <= i < 54);
            }
        }
        before.lemma_patched_value(after, ws, 10, self.active_rpc_handle as nat, 8);
        assert forall|i: int| 11 < i < ws.len() implies #[trigger] before.offset(ws[i].0) + ws[i].1.len()
            <= before.offset(ws[11].0) || before.offset(ws[11].0) + ws[11].1.len() <= before.offset(ws[i].0) by {
            if 17 <= i < 49 {
                assert(ws[i].1.len() == 4);
            } else {
                assert(11 < i < 17 || 49 <= i < 54);
            }
        }
        before.lemma_patched_value(after, ws, 11, self.thread_local_storage_pointer as nat, 8);
        assert forall|i: int| 12 < i < ws.len() implies #[trigger] before.offset(ws[i].0) + ws[i].1.len()
            <= before.offset(ws[12].0) || before.offset(ws[12].0) + ws[12].1.len() <= before.offset(ws[i].0) by {
            if 17 <= i < 49 {
                assert(ws[i].1.len() == 4);
            } else {
                assert(12 < i < 17 || 49 <= i < 54);
            }
        }
        before.lemma_patched_value(after, ws, 12, self.process_environment_block as nat, 8);
        assert forall|i: int| 13 < i < ws.len() implies #[trigger] before.offset(ws[i].0) + ws[i].1.len()
            <= before.offset(ws[13].0) || before.offset(ws[13].0) + ws[13].1.len() <= before.offset(ws[i].0) by {
            if 17 <= i < 49 {
                assert(ws[i].1.len() == 4);
            } else {
                assert(13 < i < 17 || 49 <= i < 54);
            }
        }
        before.lemma_patched_value(after, ws, 13, self.last_error_value as nat, 4);
        assert forall|i: int| 14 < i < ws.len() implies #[trigger] before.offset(ws[i].0) + ws[i].1.len()
            <= before.offset(ws[14].0) || before.offset(ws[14].0) + ws[14].1.len() <= before.offset(ws[i].0) by {
            if 17 <= i < 49 {
                assert(ws[i].1.len() == 4);
            } else {
                assert(14 < i < 17 || 49 <= i < 54);
            }
        }
        before.lemma_patched_value(after, ws, 14, self.count_of_owned_critical_sections as nat, 4);
        assert forall|i: int| 15 < i < ws.len() implies #[trigger] before.offset(ws[i].0) + ws[i].1.len()
            <= before.offset(ws[15].0) || before.offset(ws[15].0) + ws[15].1.len() <= before.offset(ws[i].0) by {
            if 17 <= i < 49 {
                assert(ws[i].1.len() == 4);
            } else {
                assert(15 < i < 17 || 49 <= i < 54);
            }
        }
        before.lemma_patched_value(after, ws, 15, self.csr_client_thread as nat, 8);
        assert forall|i: int| 16 < i < ws.len() implies #[trigger] before.offset(ws[i].0) + ws[i].1.len()
            <= before.offset(ws[16].0) || before.offset(ws[16].0) + ws[16].1.len() <= before.offset(ws[i].0) by {
            if 17 <= i < 49 {
                assert(ws[i].1.len() == 4);
            } else {
                assert(16 < i < 17 || 49 <= i < 54);
            }
        }
        before.lemma_patched_value(after, ws, 16, self.win32_thread_info as nat, 8);
        assert forall|i: int| 49 < i < ws.len() implies #[trigger] before.offset(ws[i].0) + ws[i].1.len()
            <= before.offset(ws[49].0) || before.offset(ws[49].0) + ws[49].1.len() <= before.offset(ws[i].0) by {
            assert(49 < i < 54);
        }
        before.lemma_patched_value(after, ws, 49, self.wow32_reserved as nat, 8);
        assert forall|i: int| 50 < i < ws.len() implies #[trigger] before.offset(ws[i].0) + ws[i].1.len()
            <= before.offset(ws[50].0) || before.offset(ws[50].0) + ws[50].1.len() <= before.offset(ws[i].0) by {
            assert(50 < i < 54);
        }
        before.lemma_patched_value(after, ws, 50, self.current_locale as nat, 4);
        assert forall|i: int| 51 < i < ws.len() implies #[trigger] before.offset(ws[i].0) + ws[i].1.len()
            <= before.offset(ws[51].0) || before.offset(ws[51].0) + ws[51].1.len() <= before.offset(ws[i].0) by {
            assert(51 < i < 54);
        }
        before.lemma_patched_value(after, ws, 51, self.fp_software_status_register as nat, 4);
        assert forall|i: int| 52 < i < ws.len() implies #[trigger] before.offset(ws[i].0) + ws[i].1.len()
            <= before.offset(ws[52].0) || before.offset(ws[52].0) + ws[52].1.len() <= before.offset(ws[i].0) by {
            assert(52 < i < 54);
        }
        before.lemma_patched_value(after, ws, 52, self.exception_code as nat, 4);
        before.lemma_patched_value(after, ws, 53, self.activation_context_stack_pointer as nat, 8);
    }
}


} // verus!
