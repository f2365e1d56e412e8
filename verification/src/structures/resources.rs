use vstd::prelude::*;
use crate::maps::Maps;
use crate::maps::mem64::le_bytes;
use crate::structures::{store_dword, store_qword};

verus! {

/// The top bit of a 32 bit value tells its two halves apart, and the low
/// 31 bits are the value below that bit.
proof fn lemma_top_bit(x: u32)
    ensures
        (x & 0x8000_0000 != 0) == (x >= 0x8000_0000),
        x & 0x7FFF_FFFF == x % 0x8000_0000,
{
    assert((x & 0x8000_0000 != 0) == (x >= 0x8000_0000)) by (bit_vector);
    assert(x & 0x7FFF_FFFF == x % 0x8000_0000) by (bit_vector);
}

/// The header of a directory of the resource tree of an image.
#[derive(Debug)]
pub struct ImageResourceDirectory {
    pub characteristics: u32,
    pub time_date_stamp: u32,
    pub major_version: u16,
    pub minor_version: u16,
    pub number_of_named_entries: u16,
    pub number_of_id_entries: u16,
}

impl ImageResourceDirectory {
    /// The values that `new` gives.
    pub open spec fn is_fresh(self) -> bool {
        &&& self.characteristics == 0
        &&& self.time_date_stamp == 0
        &&& self.major_version == 0
        &&& self.minor_version == 0
        &&& self.number_of_named_entries == 0
        &&& self.number_of_id_entries == 0
    }

    /// The structure with its initial values (see `is_fresh`).
    pub fn new() -> (r: ImageResourceDirectory)
        ensures
            r.is_fresh(),
    {
        ImageResourceDirectory {
            characteristics: 0,
            time_date_stamp: 0,
            major_version: 0,
            minor_version: 0,
            number_of_named_entries: 0,
            number_of_id_entries: 0,
        }
    }

    /// The size of the structure in emulated memory.
    pub fn size() -> (r: usize)
        ensures
            r == 16,
    {
        16
    }
}

/// An entry of a resource directory: a name or identifier, and the
/// offset of its data or subdirectory, each with a flag in its top bit.
#[derive(Debug)]
pub struct ImageResourceDirectoryEntry {
    pub name_or_id: u32,
    pub data_or_directory: u32,
}

impl ImageResourceDirectoryEntry {
    /// The values that `new` gives.
    pub open spec fn is_fresh(self) -> bool {
        &&& self.name_or_id == 0
        &&& self.data_or_directory == 0
    }

    /// The structure with its initial values (see `is_fresh`).
    pub fn new() -> (r: ImageResourceDirectoryEntry)
        ensures
            r.is_fresh(),
    {
        ImageResourceDirectoryEntry {
            name_or_id: 0,
            data_or_directory: 0,
        }
    }

    /// The size of the structure in emulated memory.
    pub fn size() -> (r: usize)
        ensures
            r == 8,
    {
        8
    }

    /// The entry is named: the top bit of `name_or_id` is set.
    pub fn is_name(&self) -> (r: bool)
        ensures
            r == (self.name_or_id >= 0x8000_0000),
    {
        proof {
            lemma_top_bit(self.name_or_id);
        }
        self.name_or_id & 0x8000_0000 != 0
    }

    /// The entry has a numeric identifier: the top bit of `name_or_id` is
    /// clear.
    pub fn is_id(&self) -> (r: bool)
        ensures
            r == (self.name_or_id < 0x8000_0000),
    {
        proof {
            lemma_top_bit(self.name_or_id);
        }
        self.name_or_id & 0x8000_0000 == 0
    }

    /// The name offset or identifier: `name_or_id` without its top bit.
    pub fn get_name_or_id(&self) -> (r: u32)
        ensures
            r == self.name_or_id % 0x8000_0000,
    {
        proof {
            lemma_top_bit(self.name_or_id);
        }
        self.name_or_id & 0x7FFF_FFFF
    }

    /// The entry leads to a subdirectory: the top bit of
    /// `data_or_directory` is set.
    pub fn is_directory(&self) -> (r: bool)
        ensures
            r == (self.data_or_directory >= 0x8000_0000),
    {
        proof {
            lemma_top_bit(self.data_or_directory);
        }
        self.data_or_directory & 0x8000_0000 != 0
    }

    /// The offset of the data or subdirectory: `data_or_directory` without
    /// its top bit.
    pub fn get_offset(&self) -> (r: u32)
        ensures
            r == self.data_or_directory % 0x8000_0000,
    {
        proof {
            lemma_top_bit(self.data_or_directory);
        }
        self.data_or_directory & 0x7FFF_FFFF
    }
}

/// A resource data entry of a 32 bit image.
#[derive(Debug)]
pub struct ImageResourceDataEntry32 {
    pub offset_to_data: u32,
    pub size: u32,
    pub code_page: u32,
    pub reserved: u32,
}

impl ImageResourceDataEntry32 {
    /// The values that `new` gives.
    pub open spec fn is_fresh(self) -> bool {
        &&& self.offset_to_data == 0
        &&& self.size == 0
        &&& self.code_page == 0
        &&& self.reserved == 0
    }

    /// The structure with its initial values (see `is_fresh`).
    pub fn new() -> (r: ImageResourceDataEntry32)
        ensures
            r.is_fresh(),
    {
        ImageResourceDataEntry32 {
            offset_to_data: 0,
            size: 0,
            code_page: 0,
            reserved: 0,
        }
    }
}

/// A resource data entry of a 64 bit image.
#[derive(Debug)]
pub struct ImageResourceDataEntry64 {
    pub offset_to_data: u64,
    pub size: u64,
    pub code_page: u64,
    pub reserved: u64,
}

impl ImageResourceDataEntry64 {
    /// The values that `new` gives.
    pub open spec fn is_fresh(self) -> bool {
        &&& self.offset_to_data == 0
        &&& self.size == 0
        &&& self.code_page == 0
        &&& self.reserved == 0
    }

    /// The structure with its initial values (see `is_fresh`).
    pub fn new() -> (r: ImageResourceDataEntry64)
        ensures
            r.is_fresh(),
    {
        ImageResourceDataEntry64 {
            offset_to_data: 0,
            size: 0,
            code_page: 0,
            reserved: 0,
        }
    }
}

/// The data of an activation context section found by key, for a 32 bit
/// process.
#[derive(Debug)]
pub struct ActCtxSectionKeyedData32 {
    pub cb_size: u32,
    pub ul_data_format_version: u32,
    pub lp_data: u32,
    pub ul_length: u32,
    pub lp_section_global_data: u32,
    pub ul_section_global_data_length: u32,
    pub lp_section_base: u32,
    pub ul_section_total_length: u32,
    pub h_act_ctx: u32,
    pub ul_assembly_roster_index: u32,
    pub ul_flags: u32,
    pub assembly_metadata: [u8; 64],
}

impl ActCtxSectionKeyedData32 {
    /// The values that `new` gives.
    pub open spec fn is_fresh(self) -> bool {
        &&& self.cb_size == 0
        &&& self.ul_data_format_version == 0
        &&& self.lp_data == 0
        &&& self.ul_length == 0
        &&& self.lp_section_global_data == 0
        &&& self.ul_section_global_data_length == 0
        &&& self.lp_section_base == 0
        &&& self.ul_section_total_length == 0
        &&& self.h_act_ctx == 0
        &&& self.ul_assembly_roster_index == 0
        &&& self.ul_flags == 0
        &&& forall|i: int| 0 <= i < 64 ==> #[trigger] self.assembly_metadata@[i] == 0
    }

    /// Every field that `save` writes at `addr` fits in the region that a
    /// lookup of its address finds, whatever the lookup cache holds.
    pub open spec fn fits_in(maps: Maps, addr: u64) -> bool {
        &&& maps.fits_anyhow(addr, 4)
        &&& maps.fits_anyhow((addr + 4) as u64, 4)
        &&& maps.fits_anyhow((addr + 8) as u64, 4)
        &&& maps.fits_anyhow((addr + 0xc) as u64, 4)
        &&& maps.fits_anyhow((addr + 0x10) as u64, 4)
        &&& maps.fits_anyhow((addr + 0x14) as u64, 4)
        &&& maps.fits_anyhow((addr + 0x18) as u64, 4)
        &&& maps.fits_anyhow((addr + 0x1c) as u64, 4)
        &&& maps.fits_anyhow((addr + 0x20) as u64, 4)
        &&& maps.fits_anyhow((addr + 0x24) as u64, 4)
        &&& maps.fits_anyhow((addr + 0x28) as u64, 4)
        &&& maps.floor_region((addr + 0x2c) as u64) is Some
    }

    /// The bytes of `assembly_metadata`, which `save` writes last, at once.
    pub open spec fn assembly_metadata_bytes(self) -> Seq<u8> {
        self.assembly_metadata@
    }

    /// The writes of `save` at `addr`, in order: address and little endian
    /// bytes of each field.
    pub open spec fn writes(self, addr: u64) -> Seq<(u64, Seq<u8>)> {
        seq![
            (addr, le_bytes((self.cb_size) as nat, 4)),
            ((addr + 4) as u64, le_bytes((self.ul_data_format_version) as nat, 4)),
            ((addr + 8) as u64, le_bytes((self.lp_data) as nat, 4)),
            ((addr + 0xc) as u64, le_bytes((self.ul_length) as nat, 4)),
            ((addr + 0x10) as u64, le_bytes((self.lp_section_global_data) as nat, 4)),
            ((addr + 0x14) as u64, le_bytes((self.ul_section_global_data_length) as nat, 4)),
            ((addr + 0x18) as u64, le_bytes((self.lp_section_base) as nat, 4)),
            ((addr + 0x1c) as u64, le_bytes((self.ul_section_total_length) as nat, 4)),
            ((addr + 0x20) as u64, le_bytes((self.h_act_ctx) as nat, 4)),
            ((addr + 0x24) as u64, le_bytes((self.ul_assembly_roster_index) as nat, 4)),
            ((addr + 0x28) as u64, le_bytes((self.ul_flags) as nat, 4)),
        ]
    }

    /// The structure with its initial values (see `is_fresh`).
    pub fn new() -> (r: ActCtxSectionKeyedData32)
        ensures
            r.is_fresh(),
    {
        ActCtxSectionKeyedData32 {
            cb_size: 0,
            ul_data_format_version: 0,
            lp_data: 0,
            ul_length: 0,
            lp_section_global_data: 0,
            ul_section_global_data_length: 0,
            lp_section_base: 0,
            ul_section_total_length: 0,
            h_act_ctx: 0,
            ul_assembly_roster_index: 0,
            ul_flags: 0,
            assembly_metadata: [0; 64],
        }
    }

    /// Writes the fields at `addr`, one after the other (an unmapped field
    /// is tolerated only in banzai mode, and left unwritten).
    pub fn save(&self, addr: u64, maps: &mut Maps)
        requires
            old(maps).wf(),
            addr + 0x6c <= u64::MAX,
            !old(maps).banzai_view() ==> Self::fits_in(*old(maps), addr),
        ensures
            exists|mid: Maps|
                old(maps).wrote_values(mid, self.writes(addr)) && #[trigger] mid.bytes_written(
                    *final(maps),
                    (addr + 0x2c) as u64,
                    self.assembly_metadata_bytes(),
                ),
    {
        let ghost m0 = *maps;
        let ghost mut done: Seq<(u64, Seq<u8>)> = Seq::empty();
        proof {
            m0.lemma_run_start();
        }
        store_dword(maps, Ghost(m0), Ghost(done), addr, self.cb_size);
        proof {
            done = done.push((addr, le_bytes((self.cb_size) as nat, 4)));
        }
        store_dword(maps, Ghost(m0), Ghost(done), addr + 4, self.ul_data_format_version);
        proof {
            done = done.push(((addr + 4) as u64, le_bytes((self.ul_data_format_version) as nat, 4)));
        }
        store_dword(maps, Ghost(m0), Ghost(done), addr + 8, self.lp_data);
        proof {
            done = done.push(((addr + 8) as u64, le_bytes((self.lp_data) as nat, 4)));
        }
        store_dword(maps, Ghost(m0), Ghost(done), addr + 0xc, self.ul_length);
        proof {
            done = done.push(((addr + 0xc) as u64, le_bytes((self.ul_length) as nat, 4)));
        }
        store_dword(maps, Ghost(m0), Ghost(done), addr + 0x10, self.lp_section_global_data);
        proof {
            done = done.push(((addr + 0x10) as u64, le_bytes((self.lp_section_global_data) as nat, 4)));
        }
        store_dword(maps, Ghost(m0), Ghost(done), addr + 0x14, self.ul_section_global_data_length);
        proof {
            done = done.push(((addr + 0x14) as u64, le_bytes((self.ul_section_global_data_length) as nat, 4)));
        }
        store_dword(maps, Ghost(m0), Ghost(done), addr + 0x18, self.lp_section_base);
        proof {
            done = done.push(((addr + 0x18) as u64, le_bytes((self.lp_section_base) as nat, 4)));
        }
        store_dword(maps, Ghost(m0), Ghost(done), addr + 0x1c, self.ul_section_total_length);
        proof {
            done = done.push(((addr + 0x1c) as u64, le_bytes((self.ul_section_total_length) as nat, 4)));
        }
        store_dword(maps, Ghost(m0), Ghost(done), addr + 0x20, self.h_act_ctx);
        proof {
            done = done.push(((addr + 0x20) as u64, le_bytes((self.h_act_ctx) as nat, 4)));
        }
        store_dword(maps, Ghost(m0), Ghost(done), addr + 0x24, self.ul_assembly_roster_index);
        proof {
            done = done.push(((addr + 0x24) as u64, le_bytes((self.ul_assembly_roster_index) as nat, 4)));
        }
        store_dword(maps, Ghost(m0), Ghost(done), addr + 0x28, self.ul_flags);
        proof {
            done = done.push(((addr + 0x28) as u64, le_bytes((self.ul_flags) as nat, 4)));
        }
        assert(done =~= self.writes(addr));
        let ghost prev = *maps;
        proof {
            m0.lemma_same_layout_wf(prev);
            if !m0.banzai_view() {
                m0.lemma_found_anyhow(prev, (addr + 0x2c) as u64);
            }
        }
        maps.write_bytes(addr + 44, vstd::slice::slice_to_vec(self.assembly_metadata.as_slice()));
        assert(prev.bytes_written(*maps, (addr + 0x2c) as u64, self.assembly_metadata_bytes()));
    }
}

/// The data of an activation context section found by key, for a 64 bit
/// process.
#[derive(Debug)]
pub struct ActCtxSectionKeyedData64 {
    pub cb_size: u32,
    pub ul_data_format_version: u32,
    pub lp_data: u64,
    pub ul_length: u32,
    pub lp_section_global_data: u64,
    pub ul_section_global_data_length: u32,
    pub lp_section_base: u64,
    pub ul_section_total_length: u32,
    pub h_act_ctx: u64,
    pub ul_assembly_roster_index: u32,
    pub ul_flags: u32,
    pub assembly_metadata: [u8; 64],
}

impl ActCtxSectionKeyedData64 {
    /// The values that `new` gives.
    pub open spec fn is_fresh(self) -> bool {
        &&& self.cb_size == 0
        &&& self.ul_data_format_version == 0
        &&& self.lp_data == 0
        &&& self.ul_length == 0
        &&& self.lp_section_global_data == 0
        &&& self.ul_section_global_data_length == 0
        &&& self.lp_section_base == 0
        &&& self.ul_section_total_length == 0
        &&& self.h_act_ctx == 0
        &&& self.ul_assembly_roster_index == 0
        &&& self.ul_flags == 0
        &&& forall|i: int| 0 <= i < 64 ==> #[trigger] self.assembly_metadata@[i] == 0
    }

    /// Every field that `save` writes at `addr` fits in the region that a
    /// lookup of its address finds, whatever the lookup cache holds.
    pub open spec fn fits_in(maps: Maps, addr: u64) -> bool {
        &&& maps.fits_anyhow(addr, 4)
        &&& maps.fits_anyhow((addr + 4) as u64, 4)
        &&& maps.fits_anyhow((addr + 8) as u64, 8)
        &&& maps.fits_anyhow((addr + 0x10) as u64, 4)
        &&& maps.fits_anyhow((addr + 0x18) as u64, 8)
        &&& maps.fits_anyhow((addr + 0x20) as u64, 4)
        &&& maps.fits_anyhow((addr + 0x28) as u64, 8)
        &&& maps.fits_anyhow((addr + 0x30) as u64, 4)
        &&& maps.fits_anyhow((addr + 0x38) as u64, 8)
        &&& maps.fits_anyhow((addr + 0x40) as u64, 4)
        &&& maps.fits_anyhow((addr + 0x44) as u64, 4)
        &&& maps.floor_region((addr + 0x48) as u64) is Some
    }

    /// The bytes of `assembly_metadata`, which `save` writes last, at once.
    pub open spec fn assembly_metadata_bytes(self) -> Seq<u8> {
        self.assembly_metadata@
    }

    /// The writes of `save` at `addr`, in order: address and little endian
    /// bytes of each field.
    pub open spec fn writes(self, addr: u64) -> Seq<(u64, Seq<u8>)> {
        seq![
            (addr, le_bytes((self.cb_size) as nat, 4)),
            ((addr + 4) as u64, le_bytes((self.ul_data_format_version) as nat, 4)),
            ((addr + 8) as u64, le_bytes((self.lp_data) as nat, 8)),
            ((addr + 0x10) as u64, le_bytes((self.ul_length) as nat, 4)),
            ((addr + 0x18) as u64, le_bytes((self.lp_section_global_data) as nat, 8)),
            ((addr + 0x20) as u64, le_bytes((self.ul_section_global_data_length) as nat, 4)),
            ((addr + 0x28) as u64, le_bytes((self.lp_section_base) as nat, 8)),
            ((addr + 0x30) as u64, le_bytes((self.ul_section_total_length) as nat, 4)),
            ((addr + 0x38) as u64, le_bytes((self.h_act_ctx) as nat, 8)),
            ((addr + 0x40) as u64, le_bytes((self.ul_assembly_roster_index) as nat, 4)),
            ((addr + 0x44) as u64, le_bytes((self.ul_flags) as nat, 4)),
        ]
    }

    /// The structure with its initial values (see `is_fresh`).
    pub fn new() -> (r: ActCtxSectionKeyedData64)
        ensures
            r.is_fresh(),
    {
        ActCtxSectionKeyedData64 {
            cb_size: 0,
            ul_data_format_version: 0,
            lp_data: 0,
            ul_length: 0,
            lp_section_global_data: 0,
            ul_section_global_data_length: 0,
            lp_section_base: 0,
            ul_section_total_length: 0,
            h_act_ctx: 0,
            ul_assembly_roster_index: 0,
            ul_flags: 0,
            assembly_metadata: [0; 64],
        }
    }

    /// Writes the fields at `addr`, one after the other (an unmapped field
    /// is tolerated only in banzai mode, and left unwritten).
    pub fn save(&self, addr: u64, maps: &mut Maps)
        requires
            old(maps).wf(),
            addr + 0x88 <= u64::MAX,
            !old(maps).banzai_view() ==> Self::fits_in(*old(maps), addr),
        ensures
            exists|mid: Maps|
                old(maps).wrote_values(mid, self.writes(addr)) && #[trigger] mid.bytes_written(
                    *final(maps),
                    (addr + 0x48) as u64,
                    self.assembly_metadata_bytes(),
                ),
    {
        let ghost m0 = *maps;
        let ghost mut done: Seq<(u64, Seq<u8>)> = Seq::empty();
        proof {
            m0.lemma_run_start();
        }
        store_dword(maps, Ghost(m0), Ghost(done), addr, self.cb_size);
        proof {
            done = done.push((addr, le_bytes((self.cb_size) as nat, 4)));
        }
        store_dword(maps, Ghost(m0), Ghost(done), addr + 4, self.ul_data_format_version);
        proof {
            done = done.push(((addr + 4) as u64, le_bytes((self.ul_data_format_version) as nat, 4)));
        }
        store_qword(maps, Ghost(m0), Ghost(done), addr + 8, self.lp_data);
        proof {
            done = done.push(((addr + 8) as u64, le_bytes((self.lp_data) as nat, 8)));
        }
        store_dword(maps, Ghost(m0), Ghost(done), addr + 0x10, self.ul_length);
        proof {
            done = done.push(((addr + 0x10) as u64, le_bytes((self.ul_length) as nat, 4)));
        }
        store_qword(maps, Ghost(m0), Ghost(done), addr + 0x18, self.lp_section_global_data);
        proof {
            done = done.push(((addr + 0x18) as u64, le_bytes((self.lp_section_global_data) as nat, 8)));
        }
        store_dword(maps, Ghost(m0), Ghost(done), addr + 0x20, self.ul_section_global_data_length);
        proof {
            done = done.push(((addr + 0x20) as u64, le_bytes((self.ul_section_global_data_length) as nat, 4)));
        }
        store_qword(maps, Ghost(m0), Ghost(done), addr + 0x28, self.lp_section_base);
        proof {
            done = done.push(((addr + 0x28) as u64, le_bytes((self.lp_section_base) as nat, 8)));
        }
        store_dword(maps, Ghost(m0), Ghost(done), addr + 0x30, self.ul_section_total_length);
        proof {
            done = done.push(((addr + 0x30) as u64, le_bytes((self.ul_section_total_length) as nat, 4)));
        }
        store_qword(maps, Ghost(m0), Ghost(done), addr + 0x38, self.h_act_ctx);
        proof {
            done = done.push(((addr + 0x38) as u64, le_bytes((self.h_act_ctx) as nat, 8)));
        }
        store_dword(maps, Ghost(m0), Ghost(done), addr + 0x40, self.ul_assembly_roster_index);
        proof {
            done = done.push(((addr + 0x40) as u64, le_bytes((self.ul_assembly_roster_index) as nat, 4)));
        }
        store_dword(maps, Ghost(m0), Ghost(done), addr + 0x44, self.ul_flags);
        proof {
            done = done.push(((addr + 0x44) as u64, le_bytes((self.ul_flags) as nat, 4)));
        }
        assert(done =~= self.writes(addr));
        let ghost prev = *maps;
        proof {
            m0.lemma_same_layout_wf(prev);
            if !m0.banzai_view() {
                m0.lemma_found_anyhow(prev, (addr + 0x48) as u64);
            }
        }
        maps.write_bytes(addr + 72, vstd::slice::slice_to_vec(self.assembly_metadata.as_slice()));
        assert(prev.bytes_written(*maps, (addr + 0x48) as u64, self.assembly_metadata_bytes()));
    }
}

} // verus!
