use vstd::prelude::*;
use crate::maps::Maps;
use crate::maps::mem64::{Mem64, le_bytes, writes_ordered};
use crate::structures::{put_byte, put_word, put_dword, put_qword};

verus! {

/// The process environment block of a 64 bit process.
///
/// `load` reads each field at its offset in the 64 bit layout of the block
/// (the arrays it gives as zeros); `save` writes every field, arrays included,
/// at the same offsets, in order from the start of the region.
#[derive(Clone, Copy, Debug)]
pub struct PEB64 {
    inheritet_addr_space: u8,
    read_img_file_exec_options: u8,
    pub being_debugged: u8,
    system_dependent_01: u8,
    dummy_align: u32,
    mutant: u64,
    pub image_base_addr: u64,
    pub ldr: u64,
    process_parameters: u64,
    subsystem_data: u64,
    process_heap: u64,
    fast_peb_lock: u64,
    system_dependent_02: u64,
    system_dependent_03: u64,
    system_dependent_04: u64,
    kernel_callback_table: u64,
    system_reserved: u32,
    system_dependent_05: u32,
    system_dependent_06: u64,
    tls_expansion_counter: u64,
    tls_bitmap: u64,
    tls_bitmap_bits: [u32; 2],
    read_only_shared_memory_base: u64,
    system_dependent_07: u64,
    read_only_static_server_data: u64,
    ansi_code_page_data: u64,
    oem_code_page_data: u64,
    unicode_case_table_data: u64,
    number_of_processors: u32,
    nt_global_flag: u32,
    critical_section_timeout: u64,
    heap_segment_reserve: u64,
    heap_segment_commit: u64,
    heap_decommit_total_free_threshold: u64,
    heap_decommit_free_block_threshold: u64,
    number_of_heaps: u32,
    max_number_of_heaps: u32,
    process_heaps: u64,
    gdi_share_handle_table: u64,
    process_starter_helper: u64,
    gdi_dc_attribute_list: u64,
    loader_lock: u64,
    os_major_version: u32,
    os_minor_version: u32,
    os_build_number: u16,
    oscsd_version: u16,
    os_platform_id: u32,
    image_subsystem: u32,
    image_subsystem_major_version: u32,
    image_subsystem_minor_version: u64,
    active_process_afinity_mask: u64,
    gdi_handle_buffer: [u64; 30],
    post_process_init_routine: u64,
    tls_expansion_bitmap: u64,
    tls_expansion_bitmap_bits: [u32; 32],
    session_id: u64,
    app_compat_flags: u64,
    app_compat_flags_user: u64,
    p_shim_data: u64,
    app_compat_info: u64,
    csd_version: [u64; 2],
    activate_context_data: u64,
    process_assembly_storage_map: u64,
    system_default_activation_context_data: u64,
    system_assembly_storage_map: u64,
    minimum_stack_commit: u64,
}

impl PEB64 {
    /// The values that `new` gives.
    pub closed spec fn is_fresh(self, image_base_addr: u64, ldr: u64, process_parameters: u64) -> bool {
        &&& self.inheritet_addr_space == 0x0
        &&& self.read_img_file_exec_options == 0x0
        &&& self.being_debugged == 0x0
        &&& self.system_dependent_01 == 0x0
        &&& self.dummy_align == 0x0
        &&& self.mutant == 0xffffffffffffffff
        &&& self.image_base_addr == image_base_addr
        &&& self.ldr == ldr
        &&& self.process_parameters == process_parameters
        &&& self.subsystem_data == 0x0
        &&& self.process_heap == 0x520000
        &&& self.fast_peb_lock == 0x7710a900
        &&& self.system_dependent_02 == 0x0
        &&& self.system_dependent_03 == 0x0
        &&& self.system_dependent_04 == 0x2
        &&& self.kernel_callback_table == 0x76f59500
        &&& self.system_reserved == 0x0
        &&& self.system_dependent_05 == 0x0
        &&& self.system_dependent_06 == 0x7feff2f0000
        &&& self.tls_expansion_counter == 0x0
        &&& self.tls_bitmap == 0x77102590
        &&& self.tls_bitmap_bits[0] == 0x1fff
        &&& self.tls_bitmap_bits[1] == 0x0
        &&& self.read_only_shared_memory_base == 0x7efe0000
        &&& self.system_dependent_07 == 0x0
        &&& self.read_only_static_server_data == 0x7efe0a90
        &&& self.ansi_code_page_data == 0x7fffffb0000
        &&& self.oem_code_page_data == 0x7fffffc0228
        &&& self.unicode_case_table_data == 0x7fffffd0650
        &&& self.number_of_processors == 0x1
        &&& self.nt_global_flag == 0x70
        &&& self.critical_section_timeout == 0xffffe86d079b8000
        &&& self.heap_segment_reserve == 0x100000
        &&& self.heap_segment_commit == 0x2000
        &&& self.heap_decommit_total_free_threshold == 0x10000
        &&& self.heap_decommit_free_block_threshold == 0x10000
        &&& self.number_of_heaps == 0x4
        &&& self.max_number_of_heaps == 0x10
        &&& self.process_heaps == 0x7710a6c0
        &&& self.gdi_share_handle_table == 0x920000
        &&& self.process_starter_helper == 0x0
        &&& self.gdi_dc_attribute_list == 0x14
        &&& self.loader_lock == 0x77107490
        &&& self.os_major_version == 0x6
        &&& self.os_minor_version == 0x1
        &&& self.os_build_number == 0x1db1
        &&& self.oscsd_version == 0x100
        &&& self.os_platform_id == 0x2
        &&& self.image_subsystem == 0x3
        &&& self.image_subsystem_major_version == 0x5
        &&& self.image_subsystem_minor_version == 0x2
        &&& self.active_process_afinity_mask == 0x1
        &&& forall|i: int| 0 <= i < 30 ==> #[trigger] self.gdi_handle_buffer@[i] == 0
        &&& self.post_process_init_routine == 0x0
        &&& self.tls_expansion_bitmap == 0x77102580
        &&& forall|i: int| 0 <= i < 32 ==> #[trigger] self.tls_expansion_bitmap_bits@[i] == 0
        &&& self.session_id == 0x1
        &&& self.app_compat_flags == 0x0
        &&& self.app_compat_flags_user == 0x0
        &&& self.p_shim_data == 0x0
        &&& self.app_compat_info == 0x0
        &&& self.csd_version[0] == 0x1e001c
        &&& self.csd_version[1] == 0x7efe0afa
        &&& self.activate_context_data == 0x0
        &&& self.process_assembly_storage_map == 0x0
        &&& self.system_default_activation_context_data == 0x230000
        &&& self.system_assembly_storage_map == 0x0
        &&& self.minimum_stack_commit == 0x0
    }

    /// Every field that `load` reads at `addr` lies in the region that a
    /// lookup of its address finds.
    pub open spec fn readable(maps: &Maps, addr: u64) -> bool {
        &&& maps.wf()
        &&& addr + 0x320 <= u64::MAX
        &&& maps.fits(addr, 1)
        &&& maps.fits((addr + 1) as u64, 1)
        &&& maps.fits((addr + 2) as u64, 1)
        &&& maps.fits((addr + 3) as u64, 1)
        &&& maps.fits((addr + 8) as u64, 8)
        &&& maps.fits((addr + 0x10) as u64, 8)
        &&& maps.fits((addr + 0x18) as u64, 8)
        &&& maps.fits((addr + 0x20) as u64, 8)
        &&& maps.fits((addr + 0x28) as u64, 8)
        &&& maps.fits((addr + 0x30) as u64, 8)
        &&& maps.fits((addr + 0x38) as u64, 8)
        &&& maps.fits((addr + 0x40) as u64, 8)
        &&& maps.fits((addr + 0x48) as u64, 8)
        &&& maps.fits((addr + 0x50) as u64, 8)
        &&& maps.fits((addr + 0x58) as u64, 8)
        &&& maps.fits((addr + 0x60) as u64, 4)
        &&& maps.fits((addr + 0x64) as u64, 4)
        &&& maps.fits((addr + 0x68) as u64, 8)
        &&& maps.fits((addr + 0x70) as u64, 8)
        &&& maps.fits((addr + 0x78) as u64, 8)
        &&& maps.fits((addr + 0x80) as u64, 4)
        &&& maps.fits((addr + 0x84) as u64, 4)
        &&& maps.fits((addr + 0x88) as u64, 8)
        &&& maps.fits((addr + 0x90) as u64, 8)
        &&& maps.fits((addr + 0x98) as u64, 8)
        &&& maps.fits((addr + 0xa0) as u64, 8)
        &&& maps.fits((addr + 0xa8) as u64, 8)
        &&& maps.fits((addr + 0xb0) as u64, 8)
        &&& maps.fits((addr + 0xb8) as u64, 4)
        &&& maps.fits((addr + 0xbc) as u64, 4)
        &&& maps.fits((addr + 0xc0) as u64, 8)
        &&& maps.fits((addr + 0xc8) as u64, 8)
        &&& maps.fits((addr + 0xd0) as u64, 8)
        &&& maps.fits((addr + 0xd8) as u64, 8)
        &&& maps.fits((addr + 0xe0) as u64, 8)
        &&& maps.fits((addr + 0xe8) as u64, 4)
        &&& maps.fits((addr + 0xec) as u64, 4)
        &&& maps.fits((addr + 0xf0) as u64, 8)
        &&& maps.fits((addr + 0xf8) as u64, 8)
        &&& maps.fits((addr + 0x100) as u64, 8)
        &&& maps.fits((addr + 0x108) as u64, 8)
        &&& maps.fits((addr + 0x110) as u64, 8)
        &&& maps.fits((addr + 0x118) as u64, 4)
        &&& maps.fits((addr + 0x11c) as u64, 4)
        &&& maps.fits((addr + 0x120) as u64, 2)
        &&& maps.fits((addr + 0x122) as u64, 2)
        &&& maps.fits((addr + 0x124) as u64, 4)
        &&& maps.fits((addr + 0x128) as u64, 4)
        &&& maps.fits((addr + 0x12c) as u64, 4)
        &&& maps.fits((addr + 0x130) as u64, 8)
        &&& maps.fits((addr + 0x138) as u64, 8)
        &&& maps.fits((addr + 0x230) as u64, 8)
        &&& maps.fits((addr + 0x238) as u64, 8)
        &&& maps.fits((addr + 0x2c0) as u64, 8)
        &&& maps.fits((addr + 0x2c8) as u64, 8)
        &&& maps.fits((addr + 0x2d0) as u64, 8)
        &&& maps.fits((addr + 0x2d8) as u64, 8)
        &&& maps.fits((addr + 0x2e0) as u64, 8)
        &&& maps.fits((addr + 0x2e8) as u64, 8)
        &&& maps.fits((addr + 0x2f0) as u64, 8)
        &&& maps.fits((addr + 0x2f8) as u64, 8)
        &&& maps.fits((addr + 0x300) as u64, 8)
        &&& maps.fits((addr + 0x308) as u64, 8)
        &&& maps.fits((addr + 0x310) as u64, 8)
        &&& maps.fits((addr + 0x318) as u64, 8)
    }

    /// `self` holds the values that `load` reads at `addr`.
    pub closed spec fn loaded_from(self, maps: &Maps, addr: u64) -> bool {
        &&& maps.byte_at(addr) == Some(self.inheritet_addr_space)
        &&& maps.byte_at((addr + 1) as u64) == Some(self.read_img_file_exec_options)
        &&& maps.byte_at((addr + 2) as u64) == Some(self.being_debugged)
        &&& maps.byte_at((addr + 3) as u64) == Some(self.system_dependent_01)
        &&& self.dummy_align == 0x0
        &&& self.mutant == maps.value_at((addr + 8) as u64, 8)
        &&& self.image_base_addr == maps.value_at((addr + 0x10) as u64, 8)
        &&& self.ldr == maps.value_at((addr + 0x18) as u64, 8)
        &&& self.process_parameters == maps.value_at((addr + 0x20) as u64, 8)
        &&& self.subsystem_data == maps.value_at((addr + 0x28) as u64, 8)
        &&& self.process_heap == maps.value_at((addr + 0x30) as u64, 8)
        &&& self.fast_peb_lock == maps.value_at((addr + 0x38) as u64, 8)
        &&& self.system_dependent_02 == maps.value_at((addr + 0x40) as u64, 8)
        &&& self.system_dependent_03 == maps.value_at((addr + 0x48) as u64, 8)
        &&& self.system_dependent_04 == maps.value_at((addr + 0x50) as u64, 8)
        &&& self.kernel_callback_table == maps.value_at((addr + 0x58) as u64, 8)
        &&& self.system_reserved == maps.value_at((addr + 0x60) as u64, 4)
        &&& self.system_dependent_05 == maps.value_at((addr + 0x64) as u64, 4)
        &&& self.system_dependent_06 == maps.value_at((addr + 0x68) as u64, 8)
        &&& self.tls_expansion_counter == maps.value_at((addr + 0x70) as u64, 8)
        &&& self.tls_bitmap == maps.value_at((addr + 0x78) as u64, 8)
        &&& self.tls_bitmap_bits[0] == maps.value_at((addr + 0x80) as u64, 4)
        &&& self.tls_bitmap_bits[1] == maps.value_at((addr + 0x84) as u64, 4)
        &&& self.read_only_shared_memory_base == maps.value_at((addr + 0x88) as u64, 8)
        &&& self.system_dependent_07 == maps.value_at((addr + 0x90) as u64, 8)
        &&& self.read_only_static_server_data == maps.value_at((addr + 0x98) as u64, 8)
        &&& self.ansi_code_page_data == maps.value_at((addr + 0xa0) as u64, 8)
        &&& self.oem_code_page_data == maps.value_at((addr + 0xa8) as u64, 8)
        &&& self.unicode_case_table_data == maps.value_at((addr + 0xb0) as u64, 8)
        &&& self.number_of_processors == maps.value_at((addr + 0xb8) as u64, 4)
        &&& self.nt_global_flag == maps.value_at((addr + 0xbc) as u64, 4)
        &&& self.critical_section_timeout == maps.value_at((addr + 0xc0) as u64, 8)
        &&& self.heap_segment_reserve == maps.value_at((addr + 0xc8) as u64, 8)
        &&& self.heap_segment_commit == maps.value_at((addr + 0xd0) as u64, 8)
        &&& self.heap_decommit_total_free_threshold == maps.value_at((addr + 0xd8) as u64, 8)
        &&& self.heap_decommit_free_block_threshold == maps.value_at((addr + 0xe0) as u64, 8)
        &&& self.number_of_heaps == maps.value_at((addr + 0xe8) as u64, 4)
        &&& self.max_number_of_heaps == maps.value_at((addr + 0xec) as u64, 4)
        &&& self.process_heaps == maps.value_at((addr + 0xf0) as u64, 8)
        &&& self.gdi_share_handle_table == maps.value_at((addr + 0xf8) as u64, 8)
        &&& self.process_starter_helper == maps.value_at((addr + 0x100) as u64, 8)
        &&& self.gdi_dc_attribute_list == maps.value_at((addr + 0x108) as u64, 8)
        &&& self.loader_lock == maps.value_at((addr + 0x110) as u64, 8)
        &&& self.os_major_version == maps.value_at((addr + 0x118) as u64, 4)
        &&& self.os_minor_version == maps.value_at((addr + 0x11c) as u64, 4)
        &&& self.os_build_number == maps.value_at((addr + 0x120) as u64, 2)
        &&& self.oscsd_version == maps.value_at((addr + 0x122) as u64, 2)
        &&& self.os_platform_id == maps.value_at((addr + 0x124) as u64, 4)
        &&& self.image_subsystem == maps.value_at((addr + 0x128) as u64, 4)
        &&& self.image_subsystem_major_version == maps.value_at((addr + 0x12c) as u64, 4)
        &&& self.image_subsystem_minor_version == maps.value_at((addr + 0x130) as u64, 8)
        &&& self.active_process_afinity_mask == maps.value_at((addr + 0x138) as u64, 8)
        &&& forall|i: int| 0 <= i < 30 ==> #[trigger] self.gdi_handle_buffer@[i] == 0
        &&& self.post_process_init_routine == maps.value_at((addr + 0x230) as u64, 8)
        &&& self.tls_expansion_bitmap == maps.value_at((addr + 0x238) as u64, 8)
        &&& forall|i: int| 0 <= i < 32 ==> #[trigger] self.tls_expansion_bitmap_bits@[i] == 0
        &&& self.session_id == maps.value_at((addr + 0x2c0) as u64, 8)
        &&& self.app_compat_flags == maps.value_at((addr + 0x2c8) as u64, 8)
        &&& self.app_compat_flags_user == maps.value_at((addr + 0x2d0) as u64, 8)
        &&& self.p_shim_data == maps.value_at((addr + 0x2d8) as u64, 8)
        &&& self.app_compat_info == maps.value_at((addr + 0x2e0) as u64, 8)
        &&& self.csd_version[0] == maps.value_at((addr + 0x2e8) as u64, 8)
        &&& self.csd_version[1] == maps.value_at((addr + 0x2f0) as u64, 8)
        &&& self.activate_context_data == maps.value_at((addr + 0x2f8) as u64, 8)
        &&& self.process_assembly_storage_map == maps.value_at((addr + 0x300) as u64, 8)
        &&& self.system_default_activation_context_data == maps.value_at((addr + 0x308) as u64, 8)
        &&& self.system_assembly_storage_map == maps.value_at((addr + 0x310) as u64, 8)
        &&& self.minimum_stack_commit == maps.value_at((addr + 0x318) as u64, 8)
    }

    /// Every field that `save` writes at `addr` lies in the region.
    pub open spec fn holds_in(mem: Mem64, addr: u64) -> bool {
        &&& addr + 0x320 <= u64::MAX
        &&& mem.holds(addr, 1)
        &&& mem.holds((addr + 1) as u64, 1)
        &&& mem.holds((addr + 2) as u64, 1)
        &&& mem.holds((addr + 3) as u64, 1)
        &&& mem.holds((addr + 4) as u64, 4)
        &&& mem.holds((addr + 8) as u64, 8)
        &&& mem.holds((addr + 0x10) as u64, 8)
        &&& mem.holds((addr + 0x18) as u64, 8)
        &&& mem.holds((addr + 0x20) as u64, 8)
        &&& mem.holds((addr + 0x28) as u64, 8)
        &&& mem.holds((addr + 0x30) as u64, 8)
        &&& mem.holds((addr + 0x38) as u64, 8)
        &&& mem.holds((addr + 0x40) as u64, 8)
        &&& mem.holds((addr + 0x48) as u64, 8)
        &&& mem.holds((addr + 0x50) as u64, 8)
        &&& mem.holds((addr + 0x58) as u64, 8)
        &&& mem.holds((addr + 0x60) as u64, 4)
        &&& mem.holds((addr + 0x64) as u64, 4)
        &&& mem.holds((addr + 0x68) as u64, 8)
        &&& mem.holds((addr + 0x70) as u64, 8)
        &&& mem.holds((addr + 0x78) as u64, 8)
        &&& mem.holds((addr + 0x80) as u64, 4)
        &&& mem.holds((addr + 0x84) as u64, 4)
        &&& mem.holds((addr + 0x88) as u64, 8)
        &&& mem.holds((addr + 0x90) as u64, 8)
        &&& mem.holds((addr + 0x98) as u64, 8)
        &&& mem.holds((addr + 0xa0) as u64, 8)
        &&& mem.holds((addr + 0xa8) as u64, 8)
        &&& mem.holds((addr + 0xb0) as u64, 8)
        &&& mem.holds((addr + 0xb8) as u64, 4)
        &&& mem.holds((addr + 0xbc) as u64, 4)
        &&& mem.holds((addr + 0xc0) as u64, 8)
        &&& mem.holds((addr + 0xc8) as u64, 8)
        &&& mem.holds((addr + 0xd0) as u64, 8)
        &&& mem.holds((addr + 0xd8) as u64, 8)
        &&& mem.holds((addr + 0xe0) as u64, 8)
        &&& mem.holds((addr + 0xe8) as u64, 4)
        &&& mem.holds((addr + 0xec) as u64, 4)
        &&& mem.holds((addr + 0xf0) as u64, 8)
        &&& mem.holds((addr + 0xf8) as u64, 8)
        &&& mem.holds((addr + 0x100) as u64, 8)
        &&& mem.holds((addr + 0x108) as u64, 8)
        &&& mem.holds((addr + 0x110) as u64, 8)
        &&& mem.holds((addr + 0x118) as u64, 4)
        &&& mem.holds((addr + 0x11c) as u64, 4)
        &&& mem.holds((addr + 0x120) as u64, 2)
        &&& mem.holds((addr + 0x122) as u64, 2)
        &&& mem.holds((addr + 0x124) as u64, 4)
        &&& mem.holds((addr + 0x128) as u64, 4)
        &&& mem.holds((addr + 0x12c) as u64, 4)
        &&& mem.holds((addr + 0x130) as u64, 8)
        &&& mem.holds((addr + 0x138) as u64, 8)
        &&& mem.holds((addr + 0x140) as u64, 240)
        &&& mem.holds((addr + 0x230) as u64, 8)
        &&& mem.holds((addr + 0x238) as u64, 8)
        &&& mem.holds((addr + 0x240) as u64, 128)
        &&& mem.holds((addr + 0x2c0) as u64, 8)
        &&& mem.holds((addr + 0x2c8) as u64, 8)
        &&& mem.holds((addr + 0x2d0) as u64, 8)
        &&& mem.holds((addr + 0x2d8) as u64, 8)
        &&& mem.holds((addr + 0x2e0) as u64, 8)
        &&& mem.holds((addr + 0x2e8) as u64, 8)
        &&& mem.holds((addr + 0x2f0) as u64, 8)
        &&& mem.holds((addr + 0x2f8) as u64, 8)
        &&& mem.holds((addr + 0x300) as u64, 8)
        &&& mem.holds((addr + 0x308) as u64, 8)
        &&& mem.holds((addr + 0x310) as u64, 8)
        &&& mem.holds((addr + 0x318) as u64, 8)
    }

    /// The writes of `save` at `addr`, in order: address and little endian
    /// bytes of each field.
    pub closed spec fn writes(self, addr: u64) -> Seq<(u64, Seq<u8>)> {
        seq![
            (addr, seq![self.inheritet_addr_space]),
            ((addr + 1) as u64, seq![self.read_img_file_exec_options]),
            ((addr + 2) as u64, seq![self.being_debugged]),
            ((addr + 3) as u64, seq![self.system_dependent_01]),
            ((addr + 4) as u64, le_bytes((self.dummy_align) as nat, 4)),
            ((addr + 8) as u64, le_bytes((self.mutant) as nat, 8)),
            ((addr + 0x10) as u64, le_bytes((self.image_base_addr) as nat, 8)),
            ((addr + 0x18) as u64, le_bytes((self.ldr) as nat, 8)),
            ((addr + 0x20) as u64, le_bytes((self.process_parameters) as nat, 8)),
            ((addr + 0x28) as u64, le_bytes((self.subsystem_data) as nat, 8)),
            ((addr + 0x30) as u64, le_bytes((self.process_heap) as nat, 8)),
            ((addr + 0x38) as u64, le_bytes((self.fast_peb_lock) as nat, 8)),
            ((addr + 0x40) as u64, le_bytes((self.system_dependent_02) as nat, 8)),
            ((addr + 0x48) as u64, le_bytes((self.system_dependent_03) as nat, 8)),
            ((addr + 0x50) as u64, le_bytes((self.system_dependent_04) as nat, 8)),
            ((addr + 0x58) as u64, le_bytes((self.kernel_callback_table) as nat, 8)),
            ((addr + 0x60) as u64, le_bytes((self.system_reserved) as nat, 4)),
            ((addr + 0x64) as u64, le_bytes((self.system_dependent_05) as nat, 4)),
            ((addr + 0x68) as u64, le_bytes((self.system_dependent_06) as nat, 8)),
            ((addr + 0x70) as u64, le_bytes((self.tls_expansion_counter) as nat, 8)),
            ((addr + 0x78) as u64, le_bytes((self.tls_bitmap) as nat, 8)),
            ((addr + 0x80) as u64, le_bytes((self.tls_bitmap_bits[0]) as nat, 4)),
            ((addr + 0x84) as u64, le_bytes((self.tls_bitmap_bits[1]) as nat, 4)),
            ((addr + 0x88) as u64, le_bytes((self.read_only_shared_memory_base) as nat, 8)),
            ((addr + 0x90) as u64, le_bytes((self.system_dependent_07) as nat, 8)),
            ((addr + 0x98) as u64, le_bytes((self.read_only_static_server_data) as nat, 8)),
            ((addr + 0xa0) as u64, le_bytes((self.ansi_code_page_data) as nat, 8)),
            ((addr + 0xa8) as u64, le_bytes((self.oem_code_page_data) as nat, 8)),
            ((addr + 0xb0) as u64, le_bytes((self.unicode_case_table_data) as nat, 8)),
            ((addr + 0xb8) as u64, le_bytes((self.number_of_processors) as nat, 4)),
            ((addr + 0xbc) as u64, le_bytes((self.nt_global_flag) as nat, 4)),
            ((addr + 0xc0) as u64, le_bytes((self.critical_section_timeout) as nat, 8)),
            ((addr + 0xc8) as u64, le_bytes((self.heap_segment_reserve) as nat, 8)),
            ((addr + 0xd0) as u64, le_bytes((self.heap_segment_commit) as nat, 8)),
            ((addr + 0xd8) as u64, le_bytes((self.heap_decommit_total_free_threshold) as nat, 8)),
            ((addr + 0xe0) as u64, le_bytes((self.heap_decommit_free_block_threshold) as nat, 8)),
            ((addr + 0xe8) as u64, le_bytes((self.number_of_heaps) as nat, 4)),
            ((addr + 0xec) as u64, le_bytes((self.max_number_of_heaps) as nat, 4)),
            ((addr + 0xf0) as u64, le_bytes((self.process_heaps) as nat, 8)),
            ((addr + 0xf8) as u64, le_bytes((self.gdi_share_handle_table) as nat, 8)),
            ((addr + 0x100) as u64, le_bytes((self.process_starter_helper) as nat, 8)),
            ((addr + 0x108) as u64, le_bytes((self.gdi_dc_attribute_list) as nat, 8)),
            ((addr + 0x110) as u64, le_bytes((self.loader_lock) as nat, 8)),
            ((addr + 0x118) as u64, le_bytes((self.os_major_version) as nat, 4)),
            ((addr + 0x11c) as u64, le_bytes((self.os_minor_version) as nat, 4)),
            ((addr + 0x120) as u64, le_bytes((self.os_build_number) as nat, 2)),
            ((addr + 0x122) as u64, le_bytes((self.oscsd_version) as nat, 2)),
            ((addr + 0x124) as u64, le_bytes((self.os_platform_id) as nat, 4)),
            ((addr + 0x128) as u64, le_bytes((self.image_subsystem) as nat, 4)),
            ((addr + 0x12c) as u64, le_bytes((self.image_subsystem_major_version) as nat, 4)),
            ((addr + 0x130) as u64, le_bytes((self.image_subsystem_minor_version) as nat, 8)),
            ((addr + 0x138) as u64, le_bytes((self.active_process_afinity_mask) as nat, 8)),
        ]
            + Seq::new(30, |i: int| (((addr + 0x140) + 8 * i) as u64, le_bytes(self.gdi_handle_buffer[i] as nat, 8)))
            + seq![
            ((addr + 0x230) as u64, le_bytes((self.post_process_init_routine) as nat, 8)),
            ((addr + 0x238) as u64, le_bytes((self.tls_expansion_bitmap) as nat, 8)),
        ]
            + Seq::new(32, |i: int| (((addr + 0x240) + 4 * i) as u64, le_bytes(self.tls_expansion_bitmap_bits[i] as nat, 4)))
            + seq![
            ((addr + 0x2c0) as u64, le_bytes((self.session_id) as nat, 8)),
            ((addr + 0x2c8) as u64, le_bytes((self.app_compat_flags) as nat, 8)),
            ((addr + 0x2d0) as u64, le_bytes((self.app_compat_flags_user) as nat, 8)),
            ((addr + 0x2d8) as u64, le_bytes((self.p_shim_data) as nat, 8)),
            ((addr + 0x2e0) as u64, le_bytes((self.app_compat_info) as nat, 8)),
            ((addr + 0x2e8) as u64, le_bytes((self.csd_version[0]) as nat, 8)),
            ((addr + 0x2f0) as u64, le_bytes((self.csd_version[1]) as nat, 8)),
            ((addr + 0x2f8) as u64, le_bytes((self.activate_context_data) as nat, 8)),
            ((addr + 0x300) as u64, le_bytes((self.process_assembly_storage_map) as nat, 8)),
            ((addr + 0x308) as u64, le_bytes((self.system_default_activation_context_data) as nat, 8)),
            ((addr + 0x310) as u64, le_bytes((self.system_assembly_storage_map) as nat, 8)),
            ((addr + 0x318) as u64, le_bytes((self.minimum_stack_commit) as nat, 8)),
        ]
    }

    /// The alignment field and the arrays, which `load` gives as zero, are
    /// zero.
    pub closed spec fn reserved_zero(self) -> bool {
        &&& self.dummy_align == 0
        &&& forall|i: int| 0 <= i < 30 ==> #[trigger] self.gdi_handle_buffer@[i] == 0
        &&& forall|i: int| 0 <= i < 32 ==> #[trigger] self.tls_expansion_bitmap_bits@[i] == 0
    }

    /// The field `being_debugged`.
    pub closed spec fn being_debugged_view(self) -> u8 {
        self.being_debugged
    }

    /// The field `image_base_addr`.
    pub closed spec fn image_base_view(self) -> u64 {
        self.image_base_addr
    }

    /// The field `ldr`.
    pub closed spec fn ldr_view(self) -> u64 {
        self.ldr
    }

    /// The public fields of a fresh block: not being debugged, and the image
    /// base and loader data given to `new`.
    pub proof fn lemma_fresh_public(self, image_base_addr: u64, ldr: u64, process_parameters: u64)
        requires
            self.is_fresh(image_base_addr, ldr, process_parameters),
        ensures
            self.being_debugged_view() == 0,
            self.image_base_view() == image_base_addr,
            self.ldr_view() == ldr,
            self.reserved_zero(),
    {
    }

    /// The public fields of a loaded block, as read at `addr`: the byte at
    /// +2 and the quad words at +0x10 and +0x18.
    pub proof fn lemma_loaded_public(self, maps: &Maps, addr: u64)
        requires
            self.loaded_from(maps, addr),
        ensures
            maps.byte_at((addr + 2) as u64) == Some(self.being_debugged_view()),
            self.image_base_view() == maps.value_at((addr + 0x10) as u64, 8),
            self.ldr_view() == maps.value_at((addr + 0x18) as u64, 8),
            self.reserved_zero(),
    {
    }

    /// The writes of `save` number 128 and hold the public fields at their
    /// offsets: the byte at +2 and the quad words at +0x10 and +0x18.
    pub proof fn lemma_writes_public(self, addr: u64)
        ensures
            self.writes(addr).len() == 128,
            self.writes(addr)[2] == ((addr + 2) as u64, seq![self.being_debugged_view()]),
            self.writes(addr)[6] == ((addr + 0x10) as u64, le_bytes(self.image_base_view() as nat, 8)),
            self.writes(addr)[7] == ((addr + 0x18) as u64, le_bytes(self.ldr_view() as nat, 8)),
    {
    }

    /// The structure with its initial values (see `is_fresh`).
    pub fn new(image_base_addr: u64, ldr: u64, process_parameters: u64) -> (r: PEB64)
        ensures
            r.is_fresh(image_base_addr, ldr, process_parameters),
    {
        PEB64 {
            inheritet_addr_space: 0x0,
            read_img_file_exec_options: 0x0,
            being_debugged: 0x0,
            system_dependent_01: 0x0,
            dummy_align: 0x0,
            mutant: 0xffffffffffffffff,
            image_base_addr,
            ldr,
            process_parameters,
            subsystem_data: 0x0,
            process_heap: 0x520000,
            fast_peb_lock: 0x7710a900,
            system_dependent_02: 0x0,
            system_dependent_03: 0x0,
            system_dependent_04: 0x2,
            kernel_callback_table: 0x76f59500,
            system_reserved: 0x0,
            system_dependent_05: 0x0,
            system_dependent_06: 0x7feff2f0000,
            tls_expansion_counter: 0x0,
            tls_bitmap: 0x77102590,
            tls_bitmap_bits: [0x1fff, 0x0],
            read_only_shared_memory_base: 0x7efe0000,
            system_dependent_07: 0x0,
            read_only_static_server_data: 0x7efe0a90,
            ansi_code_page_data: 0x7fffffb0000,
            oem_code_page_data: 0x7fffffc0228,
            unicode_case_table_data: 0x7fffffd0650,
            number_of_processors: 0x1,
            nt_global_flag: 0x70,
            critical_section_timeout: 0xffffe86d079b8000,
            heap_segment_reserve: 0x100000,
            heap_segment_commit: 0x2000,
            heap_decommit_total_free_threshold: 0x10000,
            heap_decommit_free_block_threshold: 0x10000,
            number_of_heaps: 0x4,
            max_number_of_heaps: 0x10,
            process_heaps: 0x7710a6c0,
            gdi_share_handle_table: 0x920000,
            process_starter_helper: 0x0,
            gdi_dc_attribute_list: 0x14,
            loader_lock: 0x77107490,
            os_major_version: 0x6,
            os_minor_version: 0x1,
            os_build_number: 0x1db1,
            oscsd_version: 0x100,
            os_platform_id: 0x2,
            image_subsystem: 0x3,
            image_subsystem_major_version: 0x5,
            image_subsystem_minor_version: 0x2,
            active_process_afinity_mask: 0x1,
            gdi_handle_buffer: [0; 30],
            post_process_init_routine: 0x0,
            tls_expansion_bitmap: 0x77102580,
            tls_expansion_bitmap_bits: [0; 32],
            session_id: 0x1,
            app_compat_flags: 0x0,
            app_compat_flags_user: 0x0,
            p_shim_data: 0x0,
            app_compat_info: 0x0,
            csd_version: [0x1e001c, 0x7efe0afa],
            activate_context_data: 0x0,
            process_assembly_storage_map: 0x0,
            system_default_activation_context_data: 0x230000,
            system_assembly_storage_map: 0x0,
            minimum_stack_commit: 0x0,
        }
    }

    /// The size of the structure in emulated memory.
    pub fn size() -> (r: usize)
        ensures
            r == 800,
    {
        800
    }

    /// Reads the structure at `addr`.
    pub fn load(addr: u64, maps: &Maps) -> (r: PEB64)
        requires
            Self::readable(maps, addr),
        ensures
            r.loaded_from(maps, addr),
    {
        PEB64 {
            inheritet_addr_space: maps.read_byte(addr).unwrap(),
            read_img_file_exec_options: maps.read_byte(addr + 1).unwrap(),
            being_debugged: maps.read_byte(addr + 2).unwrap(),
            system_dependent_01: maps.read_byte(addr + 3).unwrap(),
            dummy_align: 0x0,
            mutant: maps.read_qword(addr + 8).unwrap(),
            image_base_addr: maps.read_qword(addr + 0x10).unwrap(),
            ldr: maps.read_qword(addr + 0x18).unwrap(),
            process_parameters: maps.read_qword(addr + 0x20).unwrap(),
            subsystem_data: maps.read_qword(addr + 0x28).unwrap(),
            process_heap: maps.read_qword(addr + 0x30).unwrap(),
            fast_peb_lock: maps.read_qword(addr + 0x38).unwrap(),
            system_dependent_02: maps.read_qword(addr + 0x40).unwrap(),
            system_dependent_03: maps.read_qword(addr + 0x48).unwrap(),
            system_dependent_04: maps.read_qword(addr + 0x50).unwrap(),
            kernel_callback_table: maps.read_qword(addr + 0x58).unwrap(),
            system_reserved: maps.read_dword(addr + 0x60).unwrap(),
            system_dependent_05: maps.read_dword(addr + 0x64).unwrap(),
            system_dependent_06: maps.read_qword(addr + 0x68).unwrap(),
            tls_expansion_counter: maps.read_qword(addr + 0x70).unwrap(),
            tls_bitmap: maps.read_qword(addr + 0x78).unwrap(),
            tls_bitmap_bits: [
                maps.read_dword(addr + 0x80).unwrap(),
                maps.read_dword(addr + 0x84).unwrap(),
            ],
            read_only_shared_memory_base: maps.read_qword(addr + 0x88).unwrap(),
            system_dependent_07: maps.read_qword(addr + 0x90).unwrap(),
            read_only_static_server_data: maps.read_qword(addr + 0x98).unwrap(),
            ansi_code_page_data: maps.read_qword(addr + 0xa0).unwrap(),
            oem_code_page_data: maps.read_qword(addr + 0xa8).unwrap(),
            unicode_case_table_data: maps.read_qword(addr + 0xb0).unwrap(),
            number_of_processors: maps.read_dword(addr + 0xb8).unwrap(),
            nt_global_flag: maps.read_dword(addr + 0xbc).unwrap(),
            critical_section_timeout: maps.read_qword(addr + 0xc0).unwrap(),
            heap_segment_reserve: maps.read_qword(addr + 0xc8).unwrap(),
            heap_segment_commit: maps.read_qword(addr + 0xd0).unwrap(),
            heap_decommit_total_free_threshold: maps.read_qword(addr + 0xd8).unwrap(),
            heap_decommit_free_block_threshold: maps.read_qword(addr + 0xe0).unwrap(),
            number_of_heaps: maps.read_dword(addr + 0xe8).unwrap(),
            max_number_of_heaps: maps.read_dword(addr + 0xec).unwrap(),
            process_heaps: maps.read_qword(addr + 0xf0).unwrap(),
            gdi_share_handle_table: maps.read_qword(addr + 0xf8).unwrap(),
            process_starter_helper: maps.read_qword(addr + 0x100).unwrap(),
            gdi_dc_attribute_list: maps.read_qword(addr + 0x108).unwrap(),
            loader_lock: maps.read_qword(addr + 0x110).unwrap(),
            os_major_version: maps.read_dword(addr + 0x118).unwrap(),
            os_minor_version: maps.read_dword(addr + 0x11c).unwrap(),
            os_build_number: maps.read_word(addr + 0x120).unwrap(),
            oscsd_version: maps.read_word(addr + 0x122).unwrap(),
            os_platform_id: maps.read_dword(addr + 0x124).unwrap(),
            image_subsystem: maps.read_dword(addr + 0x128).unwrap(),
            image_subsystem_major_version: maps.read_dword(addr + 0x12c).unwrap(),
            image_subsystem_minor_version: maps.read_qword(addr + 0x130).unwrap(),
            active_process_afinity_mask: maps.read_qword(addr + 0x138).unwrap(),
            gdi_handle_buffer: [0; 30],
            post_process_init_routine: maps.read_qword(addr + 0x230).unwrap(),
            tls_expansion_bitmap: maps.read_qword(addr + 0x238).unwrap(),
            tls_expansion_bitmap_bits: [0; 32],
            session_id: maps.read_qword(addr + 0x2c0).unwrap(),
            app_compat_flags: maps.read_qword(addr + 0x2c8).unwrap(),
            app_compat_flags_user: maps.read_qword(addr + 0x2d0).unwrap(),
            p_shim_data: maps.read_qword(addr + 0x2d8).unwrap(),
            app_compat_info: maps.read_qword(addr + 0x2e0).unwrap(),
            csd_version: [
                maps.read_qword(addr + 0x2e8).unwrap(),
                maps.read_qword(addr + 0x2f0).unwrap(),
            ],
            activate_context_data: maps.read_qword(addr + 0x2f8).unwrap(),
            process_assembly_storage_map: maps.read_qword(addr + 0x300).unwrap(),
            system_default_activation_context_data: maps.read_qword(addr + 0x308).unwrap(),
            system_assembly_storage_map: maps.read_qword(addr + 0x310).unwrap(),
            minimum_stack_commit: maps.read_qword(addr + 0x318).unwrap(),
        }
    }

    /// Writes the fields from the start of the region, one after the other.
    #[verifier::spinoff_prover]
    #[verifier::rlimit(60)]
    pub fn save(&self, mem: &mut Mem64)
        requires
            Self::holds_in(*old(mem), old(mem).base_view()),
        ensures
            old(mem).wrote_all(*final(mem), self.writes(old(mem).base_view())),
            final(mem).bytes().len() == old(mem).bytes().len(),
    {
        let addr = mem.get_base();
        let ghost m0 = *mem;
        let ghost mut done: Seq<(u64, Seq<u8>)> = Seq::empty();
        put_byte(mem, Ghost(m0), Ghost(done), addr, self.inheritet_addr_space);
        proof {
            done = done.push((addr, seq![self.inheritet_addr_space]));
        }
        put_byte(mem, Ghost(m0), Ghost(done), addr + 1, self.read_img_file_exec_options);
        proof {
            done = done.push(((addr + 1) as u64, seq![self.read_img_file_exec_options]));
        }
        put_byte(mem, Ghost(m0), Ghost(done), addr + 2, self.being_debugged);
        proof {
            done = done.push(((addr + 2) as u64, seq![self.being_debugged]));
        }
        put_byte(mem, Ghost(m0), Ghost(done), addr + 3, self.system_dependent_01);
        proof {
            done = done.push(((addr + 3) as u64, seq![self.system_dependent_01]));
        }
        put_dword(mem, Ghost(m0), Ghost(done), addr + 4, self.dummy_align);
        proof {
            done = done.push(((addr + 4) as u64, le_bytes((self.dummy_align) as nat, 4)));
        }
        put_qword(mem, Ghost(m0), Ghost(done), addr + 8, self.mutant);
        proof {
            done = done.push(((addr + 8) as u64, le_bytes((self.mutant) as nat, 8)));
        }
        put_qword(mem, Ghost(m0), Ghost(done), addr + 0x10, self.image_base_addr);
        proof {
            done = done.push(((addr + 0x10) as u64, le_bytes((self.image_base_addr) as nat, 8)));
        }
        put_qword(mem, Ghost(m0), Ghost(done), addr + 0x18, self.ldr);
        proof {
            done = done.push(((addr + 0x18) as u64, le_bytes((self.ldr) as nat, 8)));
        }
        put_qword(mem, Ghost(m0), Ghost(done), addr + 0x20, self.process_parameters);
        proof {
            done = done.push(((addr + 0x20) as u64, le_bytes((self.process_parameters) as nat, 8)));
        }
        put_qword(mem, Ghost(m0), Ghost(done), addr + 0x28, self.subsystem_data);
        proof {
            done = done.push(((addr + 0x28) as u64, le_bytes((self.subsystem_data) as nat, 8)));
        }
        put_qword(mem, Ghost(m0), Ghost(done), addr + 0x30, self.process_heap);
        proof {
            done = done.push(((addr + 0x30) as u64, le_bytes((self.process_heap) as nat, 8)));
        }
        put_qword(mem, Ghost(m0), Ghost(done), addr + 0x38, self.fast_peb_lock);
        proof {
            done = done.push(((addr + 0x38) as u64, le_bytes((self.fast_peb_lock) as nat, 8)));
        }
        put_qword(mem, Ghost(m0), Ghost(done), addr + 0x40, self.system_dependent_02);
        proof {
            done = done.push(((addr + 0x40) as u64, le_bytes((self.system_dependent_02) as nat, 8)));
        }
        put_qword(mem, Ghost(m0), Ghost(done), addr + 0x48, self.system_dependent_03);
        proof {
            done = done.push(((addr + 0x48) as u64, le_bytes((self.system_dependent_03) as nat, 8)));
        }
        put_qword(mem, Ghost(m0), Ghost(done), addr + 0x50, self.system_dependent_04);
        proof {
            done = done.push(((addr + 0x50) as u64, le_bytes((self.system_dependent_04) as nat, 8)));
        }
        put_qword(mem, Ghost(m0), Ghost(done), addr + 0x58, self.kernel_callback_table);
        proof {
            done = done.push(((addr + 0x58) as u64, le_bytes((self.kernel_callback_table) as nat, 8)));
        }
        put_dword(mem, Ghost(m0), Ghost(done), addr + 0x60, self.system_reserved);
        proof {
            done = done.push(((addr + 0x60) as u64, le_bytes((self.system_reserved) as nat, 4)));
        }
        put_dword(mem, Ghost(m0), Ghost(done), addr + 0x64, self.system_dependent_05);
        proof {
            done = done.push(((addr + 0x64) as u64, le_bytes((self.system_dependent_05) as nat, 4)));
        }
        put_qword(mem, Ghost(m0), Ghost(done), addr + 0x68, self.system_dependent_06);
        proof {
            done = done.push(((addr + 0x68) as u64, le_bytes((self.system_dependent_06) as nat, 8)));
        }
        put_qword(mem, Ghost(m0), Ghost(done), addr + 0x70, self.tls_expansion_counter);
        proof {
            done = done.push(((addr + 0x70) as u64, le_bytes((self.tls_expansion_counter) as nat, 8)));
        }
        put_qword(mem, Ghost(m0), Ghost(done), addr + 0x78, self.tls_bitmap);
        proof {
            done = done.push(((addr + 0x78) as u64, le_bytes((self.tls_bitmap) as nat, 8)));
        }
        put_dword(mem, Ghost(m0), Ghost(done), addr + 0x80, self.tls_bitmap_bits[0]);
        proof {
            done = done.push(((addr + 0x80) as u64, le_bytes((self.tls_bitmap_bits[0]) as nat, 4)));
        }
        put_dword(mem, Ghost(m0), Ghost(done), addr + 0x84, self.tls_bitmap_bits[1]);
        proof {
            done = done.push(((addr + 0x84) as u64, le_bytes((self.tls_bitmap_bits[1]) as nat, 4)));
        }
        put_qword(mem, Ghost(m0), Ghost(done), addr + 0x88, self.read_only_shared_memory_base);
        proof {
            done = done.push(((addr + 0x88) as u64, le_bytes((self.read_only_shared_memory_base) as nat, 8)));
        }
        put_qword(mem, Ghost(m0), Ghost(done), addr + 0x90, self.system_dependent_07);
        proof {
            done = done.push(((addr + 0x90) as u64, le_bytes((self.system_dependent_07) as nat, 8)));
        }
        put_qword(mem, Ghost(m0), Ghost(done), addr + 0x98, self.read_only_static_server_data);
        proof {
            done = done.push(((addr + 0x98) as u64, le_bytes((self.read_only_static_server_data) as nat, 8)));
        }
        put_qword(mem, Ghost(m0), Ghost(done), addr + 0xa0, self.ansi_code_page_data);
        proof {
            done = done.push(((addr + 0xa0) as u64, le_bytes((self.ansi_code_page_data) as nat, 8)));
        }
        put_qword(mem, Ghost(m0), Ghost(done), addr + 0xa8, self.oem_code_page_data);
        proof {
            done = done.push(((addr + 0xa8) as u64, le_bytes((self.oem_code_page_data) as nat, 8)));
        }
        put_qword(mem, Ghost(m0), Ghost(done), addr + 0xb0, self.unicode_case_table_data);
        proof {
            done = done.push(((addr + 0xb0) as u64, le_bytes((self.unicode_case_table_data) as nat, 8)));
        }
        put_dword(mem, Ghost(m0), Ghost(done), addr + 0xb8, self.number_of_processors);
        proof {
            done = done.push(((addr + 0xb8) as u64, le_bytes((self.number_of_processors) as nat, 4)));
        }
        put_dword(mem, Ghost(m0), Ghost(done), addr + 0xbc, self.nt_global_flag);
        proof {
            done = done.push(((addr + 0xbc) as u64, le_bytes((self.nt_global_flag) as nat, 4)));
        }
        put_qword(mem, Ghost(m0), Ghost(done), addr + 0xc0, self.critical_section_timeout);
        proof {
            done = done.push(((addr + 0xc0) as u64, le_bytes((self.critical_section_timeout) as nat, 8)));
        }
        put_qword(mem, Ghost(m0), Ghost(done), addr + 0xc8, self.heap_segment_reserve);
        proof {
            done = done.push(((addr + 0xc8) as u64, le_bytes((self.heap_segment_reserve) as nat, 8)));
        }
        put_qword(mem, Ghost(m0), Ghost(done), addr + 0xd0, self.heap_segment_commit);
        proof {
            done = done.push(((addr + 0xd0) as u64, le_bytes((self.heap_segment_commit) as nat, 8)));
        }
        put_qword(mem, Ghost(m0), Ghost(done), addr + 0xd8, self.heap_decommit_total_free_threshold);
        proof {
            done = done.push(((addr + 0xd8) as u64, le_bytes((self.heap_decommit_total_free_threshold) as nat, 8)));
        }
        put_qword(mem, Ghost(m0), Ghost(done), addr + 0xe0, self.heap_decommit_free_block_threshold);
        proof {
            done = done.push(((addr + 0xe0) as u64, le_bytes((self.heap_decommit_free_block_threshold) as nat, 8)));
        }
        put_dword(mem, Ghost(m0), Ghost(done), addr + 0xe8, self.number_of_heaps);
        proof {
            done = done.push(((addr + 0xe8) as u64, le_bytes((self.number_of_heaps) as nat, 4)));
        }
        put_dword(mem, Ghost(m0), Ghost(done), addr + 0xec, self.max_number_of_heaps);
        proof {
            done = done.push(((addr + 0xec) as u64, le_bytes((self.max_number_of_heaps) as nat, 4)));
        }
        put_qword(mem, Ghost(m0), Ghost(done), addr + 0xf0, self.process_heaps);
        proof {
            done = done.push(((addr + 0xf0) as u64, le_bytes((self.process_heaps) as nat, 8)));
        }
        put_qword(mem, Ghost(m0), Ghost(done), addr + 0xf8, self.gdi_share_handle_table);
        proof {
            done = done.push(((addr + 0xf8) as u64, le_bytes((self.gdi_share_handle_table) as nat, 8)));
        }
        put_qword(mem, Ghost(m0), Ghost(done), addr + 0x100, self.process_starter_helper);
        proof {
            done = done.push(((addr + 0x100) as u64, le_bytes((self.process_starter_helper) as nat, 8)));
        }
        put_qword(mem, Ghost(m0), Ghost(done), addr + 0x108, self.gdi_dc_attribute_list);
        proof {
            done = done.push(((addr + 0x108) as u64, le_bytes((self.gdi_dc_attribute_list) as nat, 8)));
        }
        put_qword(mem, Ghost(m0), Ghost(done), addr + 0x110, self.loader_lock);
        proof {
            done = done.push(((addr + 0x110) as u64, le_bytes((self.loader_lock) as nat, 8)));
        }
        put_dword(mem, Ghost(m0), Ghost(done), addr + 0x118, self.os_major_version);
        proof {
            done = done.push(((addr + 0x118) as u64, le_bytes((self.os_major_version) as nat, 4)));
        }
        put_dword(mem, Ghost(m0), Ghost(done), addr + 0x11c, self.os_minor_version);
        proof {
            done = done.push(((addr + 0x11c) as u64, le_bytes((self.os_minor_version) as nat, 4)));
        }
        put_word(mem, Ghost(m0), Ghost(done), addr + 0x120, self.os_build_number);
        proof {
            done = done.push(((addr + 0x120) as u64, le_bytes((self.os_build_number) as nat, 2)));
        }
        put_word(mem, Ghost(m0), Ghost(done), addr + 0x122, self.oscsd_version);
        proof {
            done = done.push(((addr + 0x122) as u64, le_bytes((self.oscsd_version) as nat, 2)));
        }
        put_dword(mem, Ghost(m0), Ghost(done), addr + 0x124, self.os_platform_id);
        proof {
            done = done.push(((addr + 0x124) as u64, le_bytes((self.os_platform_id) as nat, 4)));
        }
        put_dword(mem, Ghost(m0), Ghost(done), addr + 0x128, self.image_subsystem);
        proof {
            done = done.push(((addr + 0x128) as u64, le_bytes((self.image_subsystem) as nat, 4)));
        }
        put_dword(mem, Ghost(m0), Ghost(done), addr + 0x12c, self.image_subsystem_major_version);
        proof {
            done = done.push(((addr + 0x12c) as u64, le_bytes((self.image_subsystem_major_version) as nat, 4)));
        }
        put_qword(mem, Ghost(m0), Ghost(done), addr + 0x130, self.image_subsystem_minor_version);
        proof {
            done = done.push(((addr + 0x130) as u64, le_bytes((self.image_subsystem_minor_version) as nat, 8)));
        }
        put_qword(mem, Ghost(m0), Ghost(done), addr + 0x138, self.active_process_afinity_mask);
        proof {
            done = done.push(((addr + 0x138) as u64, le_bytes((self.active_process_afinity_mask) as nat, 8)));
        }
        let mut idx: u64 = addr + 0x140;
        let ghost before = done;
        let mut i: usize = 0;
        while i < 30
            invariant
                i <= 30,
                idx == addr + 0x140 + 8 * i,
                Self::holds_in(m0, addr),
                m0.wrote_all(*mem, done),
                mem.bytes().len() == m0.bytes().len(),
                done == before + Seq::new(i as nat, |j: int| (((addr + 0x140) + 8 * j) as u64, le_bytes(self.gdi_handle_buffer[j] as nat, 8))),
            decreases 30 - i,
        {
            let ghost prev = *mem;
            mem.write_qword(idx, self.gdi_handle_buffer[i]);
            proof {
                m0.lemma_field_put(prev, *mem, done, idx, le_bytes(self.gdi_handle_buffer[i as int] as nat, 8));
                done = done.push((idx, le_bytes(self.gdi_handle_buffer[i as int] as nat, 8)));
                assert(done =~= before + Seq::new((i + 1) as nat, |j: int| (((addr + 0x140) + 8 * j) as u64, le_bytes(self.gdi_handle_buffer[j] as nat, 8))));
            }
            idx = idx + 8;
            i = i + 1;
        }
        put_qword(mem, Ghost(m0), Ghost(done), addr + 0x230, self.post_process_init_routine);
        proof {
            done = done.push(((addr + 0x230) as u64, le_bytes((self.post_process_init_routine) as nat, 8)));
        }
        put_qword(mem, Ghost(m0), Ghost(done), addr + 0x238, self.tls_expansion_bitmap);
        proof {
            done = done.push(((addr + 0x238) as u64, le_bytes((self.tls_expansion_bitmap) as nat, 8)));
        }
        let mut idx: u64 = addr + 0x240;
        let ghost before = done;
        let mut i: usize = 0;
        while i < 32
            invariant
                i <= 32,
                idx == addr + 0x240 + 4 * i,
                Self::holds_in(m0, addr),
                m0.wrote_all(*mem, done),
                mem.bytes().len() == m0.bytes().len(),
                done == before + Seq::new(i as nat, |j: int| (((addr + 0x240) + 4 * j) as u64, le_bytes(self.tls_expansion_bitmap_bits[j] as nat, 4))),
            decreases 32 - i,
        {
            let ghost prev = *mem;
            mem.write_dword(idx, self.tls_expansion_bitmap_bits[i]);
            proof {
                m0.lemma_field_put(prev, *mem, done, idx, le_bytes(self.tls_expansion_bitmap_bits[i as int] as nat, 4));
                done = done.push((idx, le_bytes(self.tls_expansion_bitmap_bits[i as int] as nat, 4)));
                assert(done =~= before + Seq::new((i + 1) as nat, |j: int| (((addr + 0x240) + 4 * j) as u64, le_bytes(self.tls_expansion_bitmap_bits[j] as nat, 4))));
            }
            idx = idx + 4;
            i = i + 1;
        }
        put_qword(mem, Ghost(m0), Ghost(done), addr + 0x2c0, self.session_id);
        proof {
            done = done.push(((addr + 0x2c0) as u64, le_bytes((self.session_id) as nat, 8)));
        }
        put_qword(mem, Ghost(m0), Ghost(done), addr + 0x2c8, self.app_compat_flags);
        proof {
            done = done.push(((addr + 0x2c8) as u64, le_bytes((self.app_compat_flags) as nat, 8)));
        }
        put_qword(mem, Ghost(m0), Ghost(done), addr + 0x2d0, self.app_compat_flags_user);
        proof {
            done = done.push(((addr + 0x2d0) as u64, le_bytes((self.app_compat_flags_user) as nat, 8)));
        }
        put_qword(mem, Ghost(m0), Ghost(done), addr + 0x2d8, self.p_shim_data);
        proof {
            done = done.push(((addr + 0x2d8) as u64, le_bytes((self.p_shim_data) as nat, 8)));
        }
        put_qword(mem, Ghost(m0), Ghost(done), addr + 0x2e0, self.app_compat_info);
        proof {
            done = done.push(((addr + 0x2e0) as u64, le_bytes((self.app_compat_info) as nat, 8)));
        }
        put_qword(mem, Ghost(m0), Ghost(done), addr + 0x2e8, self.csd_version[0]);
        proof {
            done = done.push(((addr + 0x2e8) as u64, le_bytes((self.csd_version[0]) as nat, 8)));
        }
        put_qword(mem, Ghost(m0), Ghost(done), addr + 0x2f0, self.csd_version[1]);
        proof {
            done = done.push(((addr + 0x2f0) as u64, le_bytes((self.csd_version[1]) as nat, 8)));
        }
        put_qword(mem, Ghost(m0), Ghost(done), addr + 0x2f8, self.activate_context_data);
        proof {
            done = done.push(((addr + 0x2f8) as u64, le_bytes((self.activate_context_data) as nat, 8)));
        }
        put_qword(mem, Ghost(m0), Ghost(done), addr + 0x300, self.process_assembly_storage_map);
        proof {
            done = done.push(((addr + 0x300) as u64, le_bytes((self.process_assembly_storage_map) as nat, 8)));
        }
        put_qword(mem, Ghost(m0), Ghost(done), addr + 0x308, self.system_default_activation_context_data);
        proof {
            done = done.push(((addr + 0x308) as u64, le_bytes((self.system_default_activation_context_data) as nat, 8)));
        }
        put_qword(mem, Ghost(m0), Ghost(done), addr + 0x310, self.system_assembly_storage_map);
        proof {
            done = done.push(((addr + 0x310) as u64, le_bytes((self.system_assembly_storage_map) as nat, 8)));
        }
        put_qword(mem, Ghost(m0), Ghost(done), addr + 0x318, self.minimum_stack_commit);
        proof {
            done = done.push(((addr + 0x318) as u64, le_bytes((self.minimum_stack_commit) as nat, 8)));
        }
        assert(done =~= self.writes(addr));
    }
}

impl PEB64 {
    /// Saving the block into region `k` (through `Maps::get_mem`), whose
    /// base is `addr` and which alone holds the block's bytes, and loading it
    /// back from `addr` gives the block that was saved, when its alignment
    /// field and its arrays are zero: `load` gives them zero.
    #[verifier::rlimit(80)]
    pub proof fn lemma_load_after_save(self, before: Maps, after: Maps, k: usize, addr: u64)
        requires
            before.wf(),
            before.sole_region(k, addr, 0x320),
            before.regions()[k].base_view() == addr,
            before.regions()[k].wrote_all(after.regions()[k], self.writes(addr)),
            after.regions() == before.regions().insert(k, after.regions()[k]),
            after.bases() == before.bases(),
            after.names() == before.names(),
            after.cache() == before.cache(),
            after.banzai_view() == before.banzai_view(),
            self.reserved_zero(),
        ensures
            PEB64::readable(&after, addr),
            self.loaded_from(&after, addr),
    {
        let ws = self.writes(addr);
        reveal_with_fuel(crate::fpu::f80::pow256, 9);
        assert(ws.len() == 128);
        assert(ws[0] == (addr, seq![self.inheritet_addr_space]));
        assert(ws[1] == ((addr + 0x1) as u64, seq![self.read_img_file_exec_options]));
        assert(ws[2] == ((addr + 0x2) as u64, seq![self.being_debugged]));
        assert(ws[3] == ((addr + 0x3) as u64, seq![self.system_dependent_01]));
        assert(ws[4] == ((addr + 0x4) as u64, le_bytes(self.dummy_align as nat, 4)));
        assert(ws[5] == ((addr + 0x8) as u64, le_bytes(self.mutant as nat, 8)));
        assert(ws[6] == ((addr + 0x10) as u64, le_bytes(self.image_base_addr as nat, 8)));
        assert(ws[7] == ((addr + 0x18) as u64, le_bytes(self.ldr as nat, 8)));
        assert(ws[8] == ((addr + 0x20) as u64, le_bytes(self.process_parameters as nat, 8)));
        assert(ws[9] == ((addr + 0x28) as u64, le_bytes(self.subsystem_data as nat, 8)));
        assert(ws[10] == ((addr + 0x30) as u64, le_bytes(self.process_heap as nat, 8)));
        assert(ws[11] == ((addr + 0x38) as u64, le_bytes(self.fast_peb_lock as nat, 8)));
        assert(ws[12] == ((addr + 0x40) as u64, le_bytes(self.system_dependent_02 as nat, 8)));
        assert(ws[13] == ((addr + 0x48) as u64, le_bytes(self.system_dependent_03 as nat, 8)));
        assert(ws[14] == ((addr + 0x50) as u64, le_bytes(self.system_dependent_04 as nat, 8)));
        assert(ws[15] == ((addr + 0x58) as u64, le_bytes(self.kernel_callback_table as nat, 8)));
        assert(ws[16] == ((addr + 0x60) as u64, le_bytes(self.system_reserved as nat, 4)));
        assert(ws[17] == ((addr + 0x64) as u64, le_bytes(self.system_dependent_05 as nat, 4)));
        assert(ws[18] == ((addr + 0x68) as u64, le_bytes(self.system_dependent_06 as nat, 8)));
        assert(ws[19] == ((addr + 0x70) as u64, le_bytes(self.tls_expansion_counter as nat, 8)));
        assert(ws[20] == ((addr + 0x78) as u64, le_bytes(self.tls_bitmap as nat, 8)));
        assert(ws[21] == ((addr + 0x80) as u64, le_bytes(self.tls_bitmap_bits[0] as nat, 4)));
        assert(ws[22] == ((addr + 0x84) as u64, le_bytes(self.tls_bitmap_bits[1] as nat, 4)));
        assert(ws[23] == ((addr + 0x88) as u64, le_bytes(self.read_only_shared_memory_base as nat, 8)));
        assert(ws[24] == ((addr + 0x90) as u64, le_bytes(self.system_dependent_07 as nat, 8)));
        assert(ws[25] == ((addr + 0x98) as u64, le_bytes(self.read_only_static_server_data as nat, 8)));
        assert(ws[26] == ((addr + 0xa0) as u64, le_bytes(self.ansi_code_page_data as nat, 8)));
        assert(ws[27] == ((addr + 0xa8) as u64, le_bytes(self.oem_code_page_data as nat, 8)));
        assert(ws[28] == ((addr + 0xb0) as u64, le_bytes(self.unicode_case_table_data as nat, 8)));
        assert(ws[29] == ((addr + 0xb8) as u64, le_bytes(self.number_of_processors as nat, 4)));
        assert(ws[30] == ((addr + 0xbc) as u64, le_bytes(self.nt_global_flag as nat, 4)));
        assert(ws[31] == ((addr + 0xc0) as u64, le_bytes(self.critical_section_timeout as nat, 8)));
        assert(ws[32] == ((addr + 0xc8) as u64, le_bytes(self.heap_segment_reserve as nat, 8)));
        assert(ws[33] == ((addr + 0xd0) as u64, le_bytes(self.heap_segment_commit as nat, 8)));
        assert(ws[34] == ((addr + 0xd8) as u64, le_bytes(self.heap_decommit_total_free_threshold as nat, 8)));
        assert(ws[35] == ((addr + 0xe0) as u64, le_bytes(self.heap_decommit_free_block_threshold as nat, 8)));
        assert(ws[36] == ((addr + 0xe8) as u64, le_bytes(self.number_of_heaps as nat, 4)));
        assert(ws[37] == ((addr + 0xec) as u64, le_bytes(self.max_number_of_heaps as nat, 4)));
        assert(ws[38] == ((addr + 0xf0) as u64, le_bytes(self.process_heaps as nat, 8)));
        assert(ws[39] == ((addr + 0xf8) as u64, le_bytes(self.gdi_share_handle_table as nat, 8)));
        assert(ws[40] == ((addr + 0x100) as u64, le_bytes(self.process_starter_helper as nat, 8)));
        assert(ws[41] == ((addr + 0x108) as u64, le_bytes(self.gdi_dc_attribute_list as nat, 8)));
        assert(ws[42] == ((addr + 0x110) as u64, le_bytes(self.loader_lock as nat, 8)));
        assert(ws[43] == ((addr + 0x118) as u64, le_bytes(self.os_major_version as nat, 4)));
        assert(ws[44] == ((addr + 0x11c) as u64, le_bytes(self.os_minor_version as nat, 4)));
        assert(ws[45] == ((addr + 0x120) as u64, le_bytes(self.os_build_number as nat, 2)));
        assert(ws[46] == ((addr + 0x122) as u64, le_bytes(self.oscsd_version as nat, 2)));
        assert(ws[47] == ((addr + 0x124) as u64, le_bytes(self.os_platform_id as nat, 4)));
        assert(ws[48] == ((addr + 0x128) as u64, le_bytes(self.image_subsystem as nat, 4)));
        assert(ws[49] == ((addr + 0x12c) as u64, le_bytes(self.image_subsystem_major_version as nat, 4)));
        assert(ws[50] == ((addr + 0x130) as u64, le_bytes(self.image_subsystem_minor_version as nat, 8)));
        assert(ws[51] == ((addr + 0x138) as u64, le_bytes(self.active_process_afinity_mask as nat, 8)));
        assert(ws[82] == ((addr + 0x230) as u64, le_bytes(self.post_process_init_routine as nat, 8)));
        assert(ws[83] == ((addr + 0x238) as u64, le_bytes(self.tls_expansion_bitmap as nat, 8)));
        assert(ws[116] == ((addr + 0x2c0) as u64, le_bytes(self.session_id as nat, 8)));
        assert(ws[117] == ((addr + 0x2c8) as u64, le_bytes(self.app_compat_flags as nat, 8)));
        assert(ws[118] == ((addr + 0x2d0) as u64, le_bytes(self.app_compat_flags_user as nat, 8)));
        assert(ws[119] == ((addr + 0x2d8) as u64, le_bytes(self.p_shim_data as nat, 8)));
        assert(ws[120] == ((addr + 0x2e0) as u64, le_bytes(self.app_compat_info as nat, 8)));
        assert(ws[121] == ((addr + 0x2e8) as u64, le_bytes(self.csd_version[0] as nat, 8)));
        assert(ws[122] == ((addr + 0x2f0) as u64, le_bytes(self.csd_version[1] as nat, 8)));
        assert(ws[123] == ((addr + 0x2f8) as u64, le_bytes(self.activate_context_data as nat, 8)));
        assert(ws[124] == ((addr + 0x300) as u64, le_bytes(self.process_assembly_storage_map as nat, 8)));
        assert(ws[125] == ((addr + 0x308) as u64, le_bytes(self.system_default_activation_context_data as nat, 8)));
        assert(ws[126] == ((addr + 0x310) as u64, le_bytes(self.system_assembly_storage_map as nat, 8)));
        assert(ws[127] == ((addr + 0x318) as u64, le_bytes(self.minimum_stack_commit as nat, 8)));
        assert(writes_ordered(ws, 127));
        assert(writes_ordered(ws, 126));
        assert(writes_ordered(ws, 125));
        assert(writes_ordered(ws, 124));
        assert(writes_ordered(ws, 123));
        assert(writes_ordered(ws, 122));
        assert(writes_ordered(ws, 121));
        assert(writes_ordered(ws, 120));
        assert(writes_ordered(ws, 119));
        assert(writes_ordered(ws, 118));
        assert(writes_ordered(ws, 117));
        assert(writes_ordered(ws, 116));
        assert(writes_ordered(ws, 115));
        assert(writes_ordered(ws, 114));
        assert(writes_ordered(ws, 113));
        assert(writes_ordered(ws, 112));
        assert(writes_ordered(ws, 111));
        assert(writes_ordered(ws, 110));
        assert(writes_ordered(ws, 109));
        assert(writes_ordered(ws, 108));
        assert(writes_ordered(ws, 107));
        assert(writes_ordered(ws, 106));
        assert(writes_ordered(ws, 105));
        assert(writes_ordered(ws, 104));
        assert(writes_ordered(ws, 103));
        assert(writes_ordered(ws, 102));
        assert(writes_ordered(ws, 101));
        assert(writes_ordered(ws, 100));
        assert(writes_ordered(ws, 99));
        assert(writes_ordered(ws, 98));
        assert(writes_ordered(ws, 97));
        assert(writes_ordered(ws, 96));
        assert(writes_ordered(ws, 95));
        assert(writes_ordered(ws, 94));
        assert(writes_ordered(ws, 93));
        assert(writes_ordered(ws, 92));
        assert(writes_ordered(ws, 91));
        assert(writes_ordered(ws, 90));
        assert(writes_ordered(ws, 89));
        assert(writes_ordered(ws, 88));
        assert(writes_ordered(ws, 87));
        assert(writes_ordered(ws, 86));
        assert(writes_ordered(ws, 85));
        assert(writes_ordered(ws, 84));
        assert(writes_ordered(ws, 83));
        assert(writes_ordered(ws, 82));
        assert(writes_ordered(ws, 81));
        assert(writes_ordered(ws, 80));
        assert(writes_ordered(ws, 79));
        assert(writes_ordered(ws, 78));
        assert(writes_ordered(ws, 77));
        assert(writes_ordered(ws, 76));
        assert(writes_ordered(ws, 75));
        assert(writes_ordered(ws, 74));
        assert(writes_ordered(ws, 73));
        assert(writes_ordered(ws, 72));
        assert(writes_ordered(ws, 71));
        assert(writes_ordered(ws, 70));
        assert(writes_ordered(ws, 69));
        assert(writes_ordered(ws, 68));
        assert(writes_ordered(ws, 67));
        assert(writes_ordered(ws, 66));
        assert(writes_ordered(ws, 65));
        assert(writes_ordered(ws, 64));
        assert(writes_ordered(ws, 63));
        assert(writes_ordered(ws, 62));
        assert(writes_ordered(ws, 61));
        assert(writes_ordered(ws, 60));
        assert(writes_ordered(ws, 59));
        assert(writes_ordered(ws, 58));
        assert(writes_ordered(ws, 57));
        assert(writes_ordered(ws, 56));
        assert(writes_ordered(ws, 55));
        assert(writes_ordered(ws, 54));
        assert(writes_ordered(ws, 53));
        assert(writes_ordered(ws, 52));
        assert(writes_ordered(ws, 51));
        assert(writes_ordered(ws, 50));
        assert(writes_ordered(ws, 49));
        assert(writes_ordered(ws, 48));
        assert(writes_ordered(ws, 47));
        assert(writes_ordered(ws, 46));
        assert(writes_ordered(ws, 45));
        assert(writes_ordered(ws, 44));
        assert(writes_ordered(ws, 43));
        assert(writes_ordered(ws, 42));
        assert(writes_ordered(ws, 41));
        assert(writes_ordered(ws, 40));
        assert(writes_ordered(ws, 39));
        assert(writes_ordered(ws, 38));
        assert(writes_ordered(ws, 37));
        assert(writes_ordered(ws, 36));
        assert(writes_ordered(ws, 35));
        assert(writes_ordered(ws, 34));
        assert(writes_ordered(ws, 33));
        assert(writes_ordered(ws, 32));
        assert(writes_ordered(ws, 31));
        assert(writes_ordered(ws, 30));
        assert(writes_ordered(ws, 29));
        assert(writes_ordered(ws, 28));
        assert(writes_ordered(ws, 27));
        assert(writes_ordered(ws, 26));
        assert(writes_ordered(ws, 25));
        assert(writes_ordered(ws, 24));
        assert(writes_ordered(ws, 23));
        assert(writes_ordered(ws, 22));
        assert(writes_ordered(ws, 21));
        assert(writes_ordered(ws, 20));
        assert(writes_ordered(ws, 19));
        assert(writes_ordered(ws, 18));
        assert(writes_ordered(ws, 17));
        assert(writes_ordered(ws, 16));
        assert(writes_ordered(ws, 15));
        assert(writes_ordered(ws, 14));
        assert(writes_ordered(ws, 13));
        assert(writes_ordered(ws, 12));
        assert(writes_ordered(ws, 11));
        assert(writes_ordered(ws, 10));
        assert(writes_ordered(ws, 9));
        assert(writes_ordered(ws, 8));
        assert(writes_ordered(ws, 7));
        assert(writes_ordered(ws, 6));
        assert(writes_ordered(ws, 5));
        assert(writes_ordered(ws, 4));
        assert(writes_ordered(ws, 3));
        assert(writes_ordered(ws, 2));
        assert(writes_ordered(ws, 1));
        assert(writes_ordered(ws, 0));
        let m0 = before.regions()[k];
        let m1 = after.regions()[k];
        m0.lemma_ordered_run(ws);
        m0.lemma_patched_len(ws);
        before.lemma_region_replaced(after, k);
        before.lemma_same_layout_sole(after, k, addr, 0x320);
        m0.lemma_patched_read(ws, 0);
        assert(m1.bytes()[m1.offset(addr)] == self.inheritet_addr_space) by {
            assert(m0.patched(ws).subrange(m0.offset(ws[0].0), m0.offset(ws[0].0) + 1)[0] == ws[0].1[0]);
        }
        after.lemma_sole_region_found(k, addr, 0x320, addr);
        m0.lemma_patched_read(ws, 1);
        assert(m1.bytes()[m1.offset((addr + 0x1) as u64)] == self.read_img_file_exec_options) by {
            assert(m0.patched(ws).subrange(m0.offset(ws[1].0), m0.offset(ws[1].0) + 1)[0] == ws[1].1[0]);
        }
        after.lemma_sole_region_found(k, addr, 0x320, (addr + 0x1) as u64);
        m0.lemma_patched_read(ws, 2);
        assert(m1.bytes()[m1.offset((addr + 0x2) as u64)] == self.being_debugged) by {
            assert(m0.patched(ws).subrange(m0.offset(ws[2].0), m0.offset(ws[2].0) + 1)[0] == ws[2].1[0]);
        }
        after.lemma_sole_region_found(k, addr, 0x320, (addr + 0x2) as u64);
        m0.lemma_patched_read(ws, 3);
        assert(m1.bytes()[m1.offset((addr + 0x3) as u64)] == self.system_dependent_01) by {
            assert(m0.patched(ws).subrange(m0.offset(ws[3].0), m0.offset(ws[3].0) + 1)[0] == ws[3].1[0]);
        }
        after.lemma_sole_region_found(k, addr, 0x320, (addr + 0x3) as u64);
        m0.lemma_patched_value(m1, ws, 5, self.mutant as nat, 8);
        after.lemma_sole_region_found(k, addr, 0x320, (addr + 0x8) as u64);
        m0.lemma_patched_value(m1, ws, 6, self.image_base_addr as nat, 8);
        after.lemma_sole_region_found(k, addr, 0x320, (addr + 0x10) as u64);
        m0.lemma_patched_value(m1, ws, 7, self.ldr as nat, 8);
        after.lemma_sole_region_found(k, addr, 0x320, (addr + 0x18) as u64);
        m0.lemma_patched_value(m1, ws, 8, self.process_parameters as nat, 8);
        after.lemma_sole_region_found(k, addr, 0x320, (addr + 0x20) as u64);
        m0.lemma_patched_value(m1, ws, 9, self.subsystem_data as nat, 8);
        after.lemma_sole_region_found(k, addr, 0x320, (addr + 0x28) as u64);
        m0.lemma_patched_value(m1, ws, 10, self.process_heap as nat, 8);
        after.lemma_sole_region_found(k, addr, 0x320, (addr + 0x30) as u64);
        m0.lemma_patched_value(m1, ws, 11, self.fast_peb_lock as nat, 8);
        after.lemma_sole_region_found(k, addr, 0x320, (addr + 0x38) as u64);
        m0.lemma_patched_value(m1, ws, 12, self.system_dependent_02 as nat, 8);
        after.lemma_sole_region_found(k, addr, 0x320, (addr + 0x40) as u64);
        m0.lemma_patched_value(m1, ws, 13, self.system_dependent_03 as nat, 8);
        after.lemma_sole_region_found(k, addr, 0x320, (addr + 0x48) as u64);
        m0.lemma_patched_value(m1, ws, 14, self.system_dependent_04 as nat, 8);
        after.lemma_sole_region_found(k, addr, 0x320, (addr + 0x50) as u64);
        m0.lemma_patched_value(m1, ws, 15, self.kernel_callback_table as nat, 8);
        after.lemma_sole_region_found(k, addr, 0x320, (addr + 0x58) as u64);
        m0.lemma_patched_value(m1, ws, 16, self.system_reserved as nat, 4);
        after.lemma_sole_region_found(k, addr, 0x320, (addr + 0x60) as u64);
        m0.lemma_patched_value(m1, ws, 17, self.system_dependent_05 as nat, 4);
        after.lemma_sole_region_found(k, addr, 0x320, (addr + 0x64) as u64);
        m0.lemma_patched_value(m1, ws, 18, self.system_dependent_06 as nat, 8);
        after.lemma_sole_region_found(k, addr, 0x320, (addr + 0x68) as u64);
        m0.lemma_patched_value(m1, ws, 19, self.tls_expansion_counter as nat, 8);
        after.lemma_sole_region_found(k, addr, 0x320, (addr + 0x70) as u64);
        m0.lemma_patched_value(m1, ws, 20, self.tls_bitmap as nat, 8);
        after.lemma_sole_region_found(k, addr, 0x320, (addr + 0x78) as u64);
        m0.lemma_patched_value(m1, ws, 21, self.tls_bitmap_bits[0] as nat, 4);
        after.lemma_sole_region_found(k, addr, 0x320, (addr + 0x80) as u64);
        m0.lemma_patched_value(m1, ws, 22, self.tls_bitmap_bits[1] as nat, 4);
        after.lemma_sole_region_found(k, addr, 0x320, (addr + 0x84) as u64);
        m0.lemma_patched_value(m1, ws, 23, self.read_only_shared_memory_base as nat, 8);
        after.lemma_sole_region_found(k, addr, 0x320, (addr + 0x88) as u64);
        m0.lemma_patched_value(m1, ws, 24, self.system_dependent_07 as nat, 8);
        after.lemma_sole_region_found(k, addr, 0x320, (addr + 0x90) as u64);
        m0.lemma_patched_value(m1, ws, 25, self.read_only_static_server_data as nat, 8);
        after.lemma_sole_region_found(k, addr, 0x320, (addr + 0x98) as u64);
        m0.lemma_patched_value(m1, ws, 26, self.ansi_code_page_data as nat, 8);
        after.lemma_sole_region_found(k, addr, 0x320, (addr + 0xa0) as u64);
        m0.lemma_patched_value(m1, ws, 27, self.oem_code_page_data as nat, 8);
        after.lemma_sole_region_found(k, addr, 0x320, (addr + 0xa8) as u64);
        m0.lemma_patched_value(m1, ws, 28, self.unicode_case_table_data as nat, 8);
        after.lemma_sole_region_found(k, addr, 0x320, (addr + 0xb0) as u64);
        m0.lemma_patched_value(m1, ws, 29, self.number_of_processors as nat, 4);
        after.lemma_sole_region_found(k, addr, 0x320, (addr + 0xb8) as u64);
        m0.lemma_patched_value(m1, ws, 30, self.nt_global_flag as nat, 4);
        after.lemma_sole_region_found(k, addr, 0x320, (addr + 0xbc) as u64);
        m0.lemma_patched_value(m1, ws, 31, self.critical_section_timeout as nat, 8);
        after.lemma_sole_region_found(k, addr, 0x320, (addr + 0xc0) as u64);
        m0.lemma_patched_value(m1, ws, 32, self.heap_segment_reserve as nat, 8);
        after.lemma_sole_region_found(k, addr, 0x320, (addr + 0xc8) as u64);
        m0.lemma_patched_value(m1, ws, 33, self.heap_segment_commit as nat, 8);
        after.lemma_sole_region_found(k, addr, 0x320, (addr + 0xd0) as u64);
        m0.lemma_patched_value(m1, ws, 34, self.heap_decommit_total_free_threshold as nat, 8);
        after.lemma_sole_region_found(k, addr, 0x320, (addr + 0xd8) as u64);
        m0.lemma_patched_value(m1, ws, 35, self.heap_decommit_free_block_threshold as nat, 8);
        after.lemma_sole_region_found(k, addr, 0x320, (addr + 0xe0) as u64);
        m0.lemma_patched_value(m1, ws, 36, self.number_of_heaps as nat, 4);
        after.lemma_sole_region_found(k, addr, 0x320, (addr + 0xe8) as u64);
        m0.lemma_patched_value(m1, ws, 37, self.max_number_of_heaps as nat, 4);
        after.lemma_sole_region_found(k, addr, 0x320, (addr + 0xec) as u64);
        m0.lemma_patched_value(m1, ws, 38, self.process_heaps as nat, 8);
        after.lemma_sole_region_found(k, addr, 0x320, (addr + 0xf0) as u64);
        m0.lemma_patched_value(m1, ws, 39, self.gdi_share_handle_table as nat, 8);
        after.lemma_sole_region_found(k, addr, 0x320, (addr + 0xf8) as u64);
        m0.lemma_patched_value(m1, ws, 40, self.process_starter_helper as nat, 8);
        after.lemma_sole_region_found(k, addr, 0x320, (addr + 0x100) as u64);
        m0.lemma_patched_value(m1, ws, 41, self.gdi_dc_attribute_list as nat, 8);
        after.lemma_sole_region_found(k, addr, 0x320, (addr + 0x108) as u64);
        m0.lemma_patched_value(m1, ws, 42, self.loader_lock as nat, 8);
        after.lemma_sole_region_found(k, addr, 0x320, (addr + 0x110) as u64);
        m0.lemma_patched_value(m1, ws, 43, self.os_major_version as nat, 4);
        after.lemma_sole_region_found(k, addr, 0x320, (addr + 0x118) as u64);
        m0.lemma_patched_value(m1, ws, 44, self.os_minor_version as nat, 4);
        after.lemma_sole_region_found(k, addr, 0x320, (addr + 0x11c) as u64);
        m0.lemma_patched_value(m1, ws, 45, self.os_build_number as nat, 2);
        after.lemma_sole_region_found(k, addr, 0x320, (addr + 0x120) as u64);
        m0.lemma_patched_value(m1, ws, 46, self.oscsd_version as nat, 2);
        after.lemma_sole_region_found(k, addr, 0x320, (addr + 0x122) as u64);
        m0.lemma_patched_value(m1, ws, 47, self.os_platform_id as nat, 4);
        after.lemma_sole_region_found(k, addr, 0x320, (addr + 0x124) as u64);
        m0.lemma_patched_value(m1, ws, 48, self.image_subsystem as nat, 4);
        after.lemma_sole_region_found(k, addr, 0x320, (addr + 0x128) as u64);
        m0.lemma_patched_value(m1, ws, 49, self.image_subsystem_major_version as nat, 4);
        after.lemma_sole_region_found(k, addr, 0x320, (addr + 0x12c) as u64);
        m0.lemma_patched_value(m1, ws, 50, self.image_subsystem_minor_version as nat, 8);
        after.lemma_sole_region_found(k, addr, 0x320, (addr + 0x130) as u64);
        m0.lemma_patched_value(m1, ws, 51, self.active_process_afinity_mask as nat, 8);
        after.lemma_sole_region_found(k, addr, 0x320, (addr + 0x138) as u64);
        m0.lemma_patched_value(m1, ws, 82, self.post_process_init_routine as nat, 8);
        after.lemma_sole_region_found(k, addr, 0x320, (addr + 0x230) as u64);
        m0.lemma_patched_value(m1, ws, 83, self.tls_expansion_bitmap as nat, 8);
        after.lemma_sole_region_found(k, addr, 0x320, (addr + 0x238) as u64);
        m0.lemma_patched_value(m1, ws, 116, self.session_id as nat, 8);
        after.lemma_sole_region_found(k, addr, 0x320, (addr + 0x2c0) as u64);
        m0.lemma_patched_value(m1, ws, 117, self.app_compat_flags as nat, 8);
        after.lemma_sole_region_found(k, addr, 0x320, (addr + 0x2c8) as u64);
        m0.lemma_patched_value(m1, ws, 118, self.app_compat_flags_user as nat, 8);
        after.lemma_sole_region_found(k, addr, 0x320, (addr + 0x2d0) as u64);
        m0.lemma_patched_value(m1, ws, 119, self.p_shim_data as nat, 8);
        after.lemma_sole_region_found(k, addr, 0x320, (addr + 0x2d8) as u64);
        m0.lemma_patched_value(m1, ws, 120, self.app_compat_info as nat, 8);
        after.lemma_sole_region_found(k, addr, 0x320, (addr + 0x2e0) as u64);
        m0.lemma_patched_value(m1, ws, 121, self.csd_version[0] as nat, 8);
        after.lemma_sole_region_found(k, addr, 0x320, (addr + 0x2e8) as u64);
        m0.lemma_patched_value(m1, ws, 122, self.csd_version[1] as nat, 8);
        after.lemma_sole_region_found(k, addr, 0x320, (addr + 0x2f0) as u64);
        m0.lemma_patched_value(m1, ws, 123, self.activate_context_data as nat, 8);
        after.lemma_sole_region_found(k, addr, 0x320, (addr + 0x2f8) as u64);
        m0.lemma_patched_value(m1, ws, 124, self.process_assembly_storage_map as nat, 8);
        after.lemma_sole_region_found(k, addr, 0x320, (addr + 0x300) as u64);
        m0.lemma_patched_value(m1, ws, 125, self.system_default_activation_context_data as nat, 8);
        after.lemma_sole_region_found(k, addr, 0x320, (addr + 0x308) as u64);
        m0.lemma_patched_value(m1, ws, 126, self.system_assembly_storage_map as nat, 8);
        after.lemma_sole_region_found(k, addr, 0x320, (addr + 0x310) as u64);
        m0.lemma_patched_value(m1, ws, 127, self.minimum_stack_commit as nat, 8);
        after.lemma_sole_region_found(k, addr, 0x320, (addr + 0x318) as u64);
    }
}


impl PEB64 {
    /// The writes of `save` at `addr` for the block that `new` gives: the
    /// same list as `writes`, with the values `new` puts in each field.
    pub open spec fn fresh_writes(image_base_addr: u64, ldr: u64, process_parameters: u64, addr: u64) -> Seq<(u64, Seq<u8>)> {
        seq![
            (addr, seq![(0x0) as u8]),
            ((addr + 1) as u64, seq![(0x0) as u8]),
            ((addr + 2) as u64, seq![(0x0) as u8]),
            ((addr + 3) as u64, seq![(0x0) as u8]),
            ((addr + 4) as u64, le_bytes(((0x0)) as nat, 4)),
            ((addr + 8) as u64, le_bytes(((0xffffffffffffffff)) as nat, 8)),
            ((addr + 0x10) as u64, le_bytes(((image_base_addr)) as nat, 8)),
            ((addr + 0x18) as u64, le_bytes(((ldr)) as nat, 8)),
            ((addr + 0x20) as u64, le_bytes(((process_parameters)) as nat, 8)),
            ((addr + 0x28) as u64, le_bytes(((0x0)) as nat, 8)),
            ((addr + 0x30) as u64, le_bytes(((0x520000)) as nat, 8)),
            ((addr + 0x38) as u64, le_bytes(((0x7710a900)) as nat, 8)),
            ((addr + 0x40) as u64, le_bytes(((0x0)) as nat, 8)),
            ((addr + 0x48) as u64, le_bytes(((0x0)) as nat, 8)),
            ((addr + 0x50) as u64, le_bytes(((0x2)) as nat, 8)),
            ((addr + 0x58) as u64, le_bytes(((0x76f59500)) as nat, 8)),
            ((addr + 0x60) as u64, le_bytes(((0x0)) as nat, 4)),
            ((addr + 0x64) as u64, le_bytes(((0x0)) as nat, 4)),
            ((addr + 0x68) as u64, le_bytes(((0x7feff2f0000)) as nat, 8)),
            ((addr + 0x70) as u64, le_bytes(((0x0)) as nat, 8)),
            ((addr + 0x78) as u64, le_bytes(((0x77102590)) as nat, 8)),
            ((addr + 0x80) as u64, le_bytes(((0x1fff)) as nat, 4)),
            ((addr + 0x84) as u64, le_bytes(((0x0)) as nat, 4)),
            ((addr + 0x88) as u64, le_bytes(((0x7efe0000)) as nat, 8)),
            ((addr + 0x90) as u64, le_bytes(((0x0)) as nat, 8)),
            ((addr + 0x98) as u64, le_bytes(((0x7efe0a90)) as nat, 8)),
            ((addr + 0xa0) as u64, le_bytes(((0x7fffffb0000)) as nat, 8)),
            ((addr + 0xa8) as u64, le_bytes(((0x7fffffc0228)) as nat, 8)),
            ((addr + 0xb0) as u64, le_bytes(((0x7fffffd0650)) as nat, 8)),
            ((addr + 0xb8) as u64, le_bytes(((0x1)) as nat, 4)),
            ((addr + 0xbc) as u64, le_bytes(((0x70)) as nat, 4)),
            ((addr + 0xc0) as u64, le_bytes(((0xffffe86d079b8000)) as nat, 8)),
            ((addr + 0xc8) as u64, le_bytes(((0x100000)) as nat, 8)),
            ((addr + 0xd0) as u64, le_bytes(((0x2000)) as nat, 8)),
            ((addr + 0xd8) as u64, le_bytes(((0x10000)) as nat, 8)),
            ((addr + 0xe0) as u64, le_bytes(((0x10000)) as nat, 8)),
            ((addr + 0xe8) as u64, le_bytes(((0x4)) as nat, 4)),
            ((addr + 0xec) as u64, le_bytes(((0x10)) as nat, 4)),
            ((addr + 0xf0) as u64, le_bytes(((0x7710a6c0)) as nat, 8)),
            ((addr + 0xf8) as u64, le_bytes(((0x920000)) as nat, 8)),
            ((addr + 0x100) as u64, le_bytes(((0x0)) as nat, 8)),
            ((addr + 0x108) as u64, le_bytes(((0x14)) as nat, 8)),
            ((addr + 0x110) as u64, le_bytes(((0x77107490)) as nat, 8)),
            ((addr + 0x118) as u64, le_bytes(((0x6)) as nat, 4)),
            ((addr + 0x11c) as u64, le_bytes(((0x1)) as nat, 4)),
            ((addr + 0x120) as u64, le_bytes(((0x1db1)) as nat, 2)),
            ((addr + 0x122) as u64, le_bytes(((0x100)) as nat, 2)),
            ((addr + 0x124) as u64, le_bytes(((0x2)) as nat, 4)),
            ((addr + 0x128) as u64, le_bytes(((0x3)) as nat, 4)),
            ((addr + 0x12c) as u64, le_bytes(((0x5)) as nat, 4)),
            ((addr + 0x130) as u64, le_bytes(((0x2)) as nat, 8)),
            ((addr + 0x138) as u64, le_bytes(((0x1)) as nat, 8)),
        ]
            + Seq::new(30, |i: int| (((addr + 0x140) + 8 * i) as u64, le_bytes((0) as nat, 8)))
            + seq![
            ((addr + 0x230) as u64, le_bytes(((0x0)) as nat, 8)),
            ((addr + 0x238) as u64, le_bytes(((0x77102580)) as nat, 8)),
        ]
            + Seq::new(32, |i: int| (((addr + 0x240) + 4 * i) as u64, le_bytes((0) as nat, 4)))
            + seq![
            ((addr + 0x2c0) as u64, le_bytes(((0x1)) as nat, 8)),
            ((addr + 0x2c8) as u64, le_bytes(((0x0)) as nat, 8)),
            ((addr + 0x2d0) as u64, le_bytes(((0x0)) as nat, 8)),
            ((addr + 0x2d8) as u64, le_bytes(((0x0)) as nat, 8)),
            ((addr + 0x2e0) as u64, le_bytes(((0x0)) as nat, 8)),
            ((addr + 0x2e8) as u64, le_bytes(((0x1e001c)) as nat, 8)),
            ((addr + 0x2f0) as u64, le_bytes(((0x7efe0afa)) as nat, 8)),
            ((addr + 0x2f8) as u64, le_bytes(((0x0)) as nat, 8)),
            ((addr + 0x300) as u64, le_bytes(((0x0)) as nat, 8)),
            ((addr + 0x308) as u64, le_bytes(((0x230000)) as nat, 8)),
            ((addr + 0x310) as u64, le_bytes(((0x0)) as nat, 8)),
            ((addr + 0x318) as u64, le_bytes(((0x0)) as nat, 8)),
        ]
    }

    /// A block as `new` gives it is written as `fresh_writes` lists.
    pub proof fn lemma_fresh_writes(self, image_base_addr: u64, ldr: u64, process_parameters: u64, addr: u64)
        requires
            self.is_fresh(image_base_addr, ldr, process_parameters),
        ensures
            self.writes(addr) == Self::fresh_writes(image_base_addr, ldr, process_parameters, addr),
    {
        assert(self.writes(addr) =~= Self::fresh_writes(image_base_addr, ldr, process_parameters, addr));
    }

    /// The writes of `save` at `addr` lie one after the other, from `addr`
    /// to `addr + 0x320`, each of at least one byte.
    pub proof fn lemma_writes_ordered(self, addr: u64)
        requires
            addr + 0x320 <= u64::MAX,
        ensures
            self.writes(addr).len() == 128,
            writes_ordered(self.writes(addr), 0),
            self.writes(addr)[0].0 == addr,
            self.writes(addr)[127].0 + self.writes(addr)[127].1.len() == addr + 0x320,
            forall|i: int| 0 <= i < 128 ==> (#[trigger] self.writes(addr)[i]).1.len() > 0,
    {
        let ws = self.writes(addr);
        assert(ws.len() == 128);
        assert(writes_ordered(ws, 127));
        assert(writes_ordered(ws, 126));
        assert(writes_ordered(ws, 125));
        assert(writes_ordered(ws, 124));
        assert(writes_ordered(ws, 123));
        assert(writes_ordered(ws, 122));
        assert(writes_ordered(ws, 121));
        assert(writes_ordered(ws, 120));
        assert(writes_ordered(ws, 119));
        assert(writes_ordered(ws, 118));
        assert(writes_ordered(ws, 117));
        assert(writes_ordered(ws, 116));
        assert(writes_ordered(ws, 115));
        assert(writes_ordered(ws, 114));
        assert(writes_ordered(ws, 113));
        assert(writes_ordered(ws, 112));
        assert(writes_ordered(ws, 111));
        assert(writes_ordered(ws, 110));
        assert(writes_ordered(ws, 109));
        assert(writes_ordered(ws, 108));
        assert(writes_ordered(ws, 107));
        assert(writes_ordered(ws, 106));
        assert(writes_ordered(ws, 105));
        assert(writes_ordered(ws, 104));
        assert(writes_ordered(ws, 103));
        assert(writes_ordered(ws, 102));
        assert(writes_ordered(ws, 101));
        assert(writes_ordered(ws, 100));
        assert(writes_ordered(ws, 99));
        assert(writes_ordered(ws, 98));
        assert(writes_ordered(ws, 97));
        assert(writes_ordered(ws, 96));
        assert(writes_ordered(ws, 95));
        assert(writes_ordered(ws, 94));
        assert(writes_ordered(ws, 93));
        assert(writes_ordered(ws, 92));
        assert(writes_ordered(ws, 91));
        assert(writes_ordered(ws, 90));
        assert(writes_ordered(ws, 89));
        assert(writes_ordered(ws, 88));
        assert(writes_ordered(ws, 87));
        assert(writes_ordered(ws, 86));
        assert(writes_ordered(ws, 85));
        assert(writes_ordered(ws, 84));
        assert(writes_ordered(ws, 83));
        assert(writes_ordered(ws, 82));
        assert(writes_ordered(ws, 81));
        assert(writes_ordered(ws, 80));
        assert(writes_ordered(ws, 79));
        assert(writes_ordered(ws, 78));
        assert(writes_ordered(ws, 77));
        assert(writes_ordered(ws, 76));
        assert(writes_ordered(ws, 75));
        assert(writes_ordered(ws, 74));
        assert(writes_ordered(ws, 73));
        assert(writes_ordered(ws, 72));
        assert(writes_ordered(ws, 71));
        assert(writes_ordered(ws, 70));
        assert(writes_ordered(ws, 69));
        assert(writes_ordered(ws, 68));
        assert(writes_ordered(ws, 67));
        assert(writes_ordered(ws, 66));
        assert(writes_ordered(ws, 65));
        assert(writes_ordered(ws, 64));
        assert(writes_ordered(ws, 63));
        assert(writes_ordered(ws, 62));
        assert(writes_ordered(ws, 61));
        assert(writes_ordered(ws, 60));
        assert(writes_ordered(ws, 59));
        assert(writes_ordered(ws, 58));
        assert(writes_ordered(ws, 57));
        assert(writes_ordered(ws, 56));
        assert(writes_ordered(ws, 55));
        assert(writes_ordered(ws, 54));
        assert(writes_ordered(ws, 53));
        assert(writes_ordered(ws, 52));
        assert(writes_ordered(ws, 51));
        assert(writes_ordered(ws, 50));
        assert(writes_ordered(ws, 49));
        assert(writes_ordered(ws, 48));
        assert(writes_ordered(ws, 47));
        assert(writes_ordered(ws, 46));
        assert(writes_ordered(ws, 45));
        assert(writes_ordered(ws, 44));
        assert(writes_ordered(ws, 43));
        assert(writes_ordered(ws, 42));
        assert(writes_ordered(ws, 41));
        assert(writes_ordered(ws, 40));
        assert(writes_ordered(ws, 39));
        assert(writes_ordered(ws, 38));
        assert(writes_ordered(ws, 37));
        assert(writes_ordered(ws, 36));
        assert(writes_ordered(ws, 35));
        assert(writes_ordered(ws, 34));
        assert(writes_ordered(ws, 33));
        assert(writes_ordered(ws, 32));
        assert(writes_ordered(ws, 31));
        assert(writes_ordered(ws, 30));
        assert(writes_ordered(ws, 29));
        assert(writes_ordered(ws, 28));
        assert(writes_ordered(ws, 27));
        assert(writes_ordered(ws, 26));
        assert(writes_ordered(ws, 25));
        assert(writes_ordered(ws, 24));
        assert(writes_ordered(ws, 23));
        assert(writes_ordered(ws, 22));
        assert(writes_ordered(ws, 21));
        assert(writes_ordered(ws, 20));
        assert(writes_ordered(ws, 19));
        assert(writes_ordered(ws, 18));
        assert(writes_ordered(ws, 17));
        assert(writes_ordered(ws, 16));
        assert(writes_ordered(ws, 15));
        assert(writes_ordered(ws, 14));
        assert(writes_ordered(ws, 13));
        assert(writes_ordered(ws, 12));
        assert(writes_ordered(ws, 11));
        assert(writes_ordered(ws, 10));
        assert(writes_ordered(ws, 9));
        assert(writes_ordered(ws, 8));
        assert(writes_ordered(ws, 7));
        assert(writes_ordered(ws, 6));
        assert(writes_ordered(ws, 5));
        assert(writes_ordered(ws, 4));
        assert(writes_ordered(ws, 3));
        assert(writes_ordered(ws, 2));
        assert(writes_ordered(ws, 1));
        assert(writes_ordered(ws, 0));
        assert forall|i: int| 0 <= i < 128 implies (#[trigger] ws[i]).1.len() > 0 by {
            assert(0 <= i < 128);
        }
    }
}

} // verus!
