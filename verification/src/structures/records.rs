use vstd::prelude::*;
use crate::maps::Maps;
use crate::maps::mem64::{Mem64, le_bytes};
use crate::structures::{store_word, store_dword};

verus! {

/// The export directory of a portable executable image.
#[derive(Debug)]
pub struct ImageExportDirectory {
    characteristics: u32,
    time_date_stamp: u32,
    major_version: u16,
    minor_version: u16,
    name: u32,
    base: u32,
    number_of_functions: u32,
    number_of_names: u32,
    address_of_functions: u32,
    address_of_names: u32,
    address_of_ordinals: u32,
}

impl ImageExportDirectory {
    /// Every field that `load` reads at `addr` lies in the region that a
    /// lookup of its address finds.
    pub open spec fn readable(maps: &Maps, addr: u64) -> bool {
        &&& maps.wf()
        &&& addr + 0x28 <= u64::MAX
        &&& maps.fits(addr, 4)
        &&& maps.fits((addr + 4) as u64, 4)
        &&& maps.fits((addr + 8) as u64, 2)
        &&& maps.fits((addr + 0xa) as u64, 2)
        &&& maps.fits((addr + 0xc) as u64, 4)
        &&& maps.fits((addr + 0x10) as u64, 4)
        &&& maps.fits((addr + 0x14) as u64, 4)
        &&& maps.fits((addr + 0x18) as u64, 4)
        &&& maps.fits((addr + 0x1c) as u64, 4)
        &&& maps.fits((addr + 0x20) as u64, 4)
        &&& maps.fits((addr + 0x24) as u64, 4)
    }

    /// `self` holds the values that `load` reads at `addr`.
    pub closed spec fn loaded_from(self, maps: &Maps, addr: u64) -> bool {
        &&& self.characteristics == maps.value_at(addr, 4)
        &&& self.time_date_stamp == maps.value_at((addr + 4) as u64, 4)
        &&& self.major_version == maps.value_at((addr + 8) as u64, 2)
        &&& self.minor_version == maps.value_at((addr + 0xa) as u64, 2)
        &&& self.name == maps.value_at((addr + 0xc) as u64, 4)
        &&& self.base == maps.value_at((addr + 0x10) as u64, 4)
        &&& self.number_of_functions == maps.value_at((addr + 0x14) as u64, 4)
        &&& self.number_of_names == maps.value_at((addr + 0x18) as u64, 4)
        &&& self.address_of_functions == maps.value_at((addr + 0x1c) as u64, 4)
        &&& self.address_of_names == maps.value_at((addr + 0x20) as u64, 4)
        &&& self.address_of_ordinals == maps.value_at((addr + 0x24) as u64, 4)
    }

    /// Reads the structure at `addr`.
    pub fn load(addr: u64, maps: &Maps) -> (r: ImageExportDirectory)
        requires
            Self::readable(maps, addr),
        ensures
            r.loaded_from(maps, addr),
    {
        ImageExportDirectory {
            characteristics: maps.read_dword(addr).unwrap(),
            time_date_stamp: maps.read_dword(addr + 4).unwrap(),
            major_version: maps.read_word(addr + 8).unwrap(),
            minor_version: maps.read_word(addr + 0xa).unwrap(),
            name: maps.read_dword(addr + 0xc).unwrap(),
            base: maps.read_dword(addr + 0x10).unwrap(),
            number_of_functions: maps.read_dword(addr + 0x14).unwrap(),
            number_of_names: maps.read_dword(addr + 0x18).unwrap(),
            address_of_functions: maps.read_dword(addr + 0x1c).unwrap(),
            address_of_names: maps.read_dword(addr + 0x20).unwrap(),
            address_of_ordinals: maps.read_dword(addr + 0x24).unwrap(),
        }
    }
}

/// An entry of the scope table of a structured exception handler frame.
#[derive(Debug)]
pub struct PScopeTableEntry {
    enclosing_level: u32,
    filter_func: u32,
    handler_func: u32,
}

impl PScopeTableEntry {
    /// Every field that `load` reads at `addr` lies in the region that a
    /// lookup of its address finds.
    pub open spec fn readable(maps: &Maps, addr: u64) -> bool {
        &&& maps.wf()
        &&& addr + 0xc <= u64::MAX
        &&& maps.fits(addr, 4)
        &&& maps.fits((addr + 4) as u64, 4)
        &&& maps.fits((addr + 8) as u64, 4)
    }

    /// `self` holds the values that `load` reads at `addr`.
    pub closed spec fn loaded_from(self, maps: &Maps, addr: u64) -> bool {
        &&& self.enclosing_level == maps.value_at(addr, 4)
        &&& self.filter_func == maps.value_at((addr + 4) as u64, 4)
        &&& self.handler_func == maps.value_at((addr + 8) as u64, 4)
    }

    /// The size of the structure in emulated memory.
    pub fn size() -> (r: u64)
        ensures
            r == 12,
    {
        12
    }

    /// Reads the structure at `addr`.
    pub fn load(addr: u64, maps: &Maps) -> (r: PScopeTableEntry)
        requires
            Self::readable(maps, addr),
        ensures
            r.loaded_from(maps, addr),
    {
        PScopeTableEntry {
            enclosing_level: maps.read_dword(addr).unwrap(),
            filter_func: maps.read_dword(addr + 4).unwrap(),
            handler_func: maps.read_dword(addr + 8).unwrap(),
        }
    }
}

/// The exception registration record that compiled C++ code keeps on the
/// stack.
#[derive(Debug)]
pub struct CppEhRecord {
    old_esp: u32,
    exc_ptr: u32,
    next: u32,
    exception_handler: u32,
    scope_table: PScopeTableEntry,
    try_level: u32,
}

impl CppEhRecord {
    /// Every field that `load` reads at `addr` lies in the region that a
    /// lookup of its address finds.
    pub open spec fn readable(maps: &Maps, addr: u64) -> bool {
        &&& maps.wf()
        &&& addr + 0x20 <= u64::MAX
        &&& maps.fits(addr, 4)
        &&& maps.fits((addr + 4) as u64, 4)
        &&& maps.fits((addr + 8) as u64, 4)
        &&& maps.fits((addr + 0xc) as u64, 4)
        &&& PScopeTableEntry::readable(maps, (addr + 0x10) as u64)
        &&& maps.fits((addr + 0x1c) as u64, 4)
    }

    /// `self` holds the values that `load` reads at `addr`.
    pub closed spec fn loaded_from(self, maps: &Maps, addr: u64) -> bool {
        &&& self.old_esp == maps.value_at(addr, 4)
        &&& self.exc_ptr == maps.value_at((addr + 4) as u64, 4)
        &&& self.next == maps.value_at((addr + 8) as u64, 4)
        &&& self.exception_handler == maps.value_at((addr + 0xc) as u64, 4)
        &&& self.scope_table.loaded_from(maps, (addr + 0x10) as u64)
        &&& self.try_level == maps.value_at((addr + 0x1c) as u64, 4)
    }

    /// Reads the structure at `addr`.
    pub fn load(addr: u64, maps: &Maps) -> (r: CppEhRecord)
        requires
            Self::readable(maps, addr),
        ensures
            r.loaded_from(maps, addr),
    {
        CppEhRecord {
            old_esp: maps.read_dword(addr).unwrap(),
            exc_ptr: maps.read_dword(addr + 4).unwrap(),
            next: maps.read_dword(addr + 8).unwrap(),
            exception_handler: maps.read_dword(addr + 0xc).unwrap(),
            scope_table: PScopeTableEntry::load(addr + 0x10, maps),
            try_level: maps.read_dword(addr + 16 + PScopeTableEntry::size()).unwrap(),
        }
    }
}

/// The pointers to an exception record and to the context it was raised in.
#[derive(Debug)]
pub struct ExceptionPointers {
    exception_record: u32,
    context_record: u32,
}

impl ExceptionPointers {
    /// Every field that `load` reads at `addr` lies in the region that a
    /// lookup of its address finds.
    pub open spec fn readable(maps: &Maps, addr: u64) -> bool {
        &&& maps.wf()
        &&& addr + 8 <= u64::MAX
        &&& maps.fits(addr, 4)
        &&& maps.fits((addr + 4) as u64, 4)
    }

    /// `self` holds the values that `load` reads at `addr`.
    pub closed spec fn loaded_from(self, maps: &Maps, addr: u64) -> bool {
        &&& self.exception_record == maps.value_at(addr, 4)
        &&& self.context_record == maps.value_at((addr + 4) as u64, 4)
    }

    /// The size of the structure in emulated memory.
    pub fn size() -> (r: u64)
        ensures
            r == 8,
    {
        8
    }

    /// Reads the structure at `addr`.
    pub fn load(addr: u64, maps: &Maps) -> (r: ExceptionPointers)
        requires
            Self::readable(maps, addr),
        ensures
            r.loaded_from(maps, addr),
    {
        ExceptionPointers {
            exception_record: maps.read_dword(addr).unwrap(),
            context_record: maps.read_dword(addr + 4).unwrap(),
        }
    }
}

/// An exception registration record of the third version of the
/// structured exception handler frames.
#[derive(Debug)]
pub struct Eh3ExceptionRegistration {
    next: u32,
    exception_handler: u32,
    scope_table: PScopeTableEntry,
    try_level: u32,
}

impl Eh3ExceptionRegistration {
    /// Every field that `load` reads at `addr` lies in the region that a
    /// lookup of its address finds.
    pub open spec fn readable(maps: &Maps, addr: u64) -> bool {
        &&& maps.wf()
        &&& addr + 0x18 <= u64::MAX
        &&& maps.fits(addr, 4)
        &&& maps.fits((addr + 4) as u64, 4)
        &&& PScopeTableEntry::readable(maps, (addr + 8) as u64)
        &&& maps.fits((addr + 0x14) as u64, 4)
    }

    /// `self` holds the values that `load` reads at `addr`.
    pub closed spec fn loaded_from(self, maps: &Maps, addr: u64) -> bool {
        &&& self.next == maps.value_at(addr, 4)
        &&& self.exception_handler == maps.value_at((addr + 4) as u64, 4)
        &&& self.scope_table.loaded_from(maps, (addr + 8) as u64)
        &&& self.try_level == maps.value_at((addr + 0x14) as u64, 4)
    }

    /// Reads the structure at `addr`.
    pub fn load(addr: u64, maps: &Maps) -> (r: Eh3ExceptionRegistration)
        requires
            Self::readable(maps, addr),
        ensures
            r.loaded_from(maps, addr),
    {
        Eh3ExceptionRegistration {
            next: maps.read_dword(addr).unwrap(),
            exception_handler: maps.read_dword(addr + 4).unwrap(),
            scope_table: PScopeTableEntry::load(addr + 8, maps),
            try_level: maps.read_dword(addr + 8 + PScopeTableEntry::size()).unwrap(),
        }
    }
}

/// A description of a range of pages of the emulated address space.
#[derive(Debug)]
pub struct MemoryBasicInformation {
    pub base_address: u32,
    pub allocation_base: u32,
    pub allocation_protect: u32,
    pub partition_id: u16,
    pub region_size: u32,
    pub state: u32,
    pub protect: u32,
    pub typ: u32,
}

impl MemoryBasicInformation {
    /// Every field that `load` reads at `addr` lies in the region that a
    /// lookup of its address finds.
    pub open spec fn readable(maps: &Maps, addr: u64) -> bool {
        &&& maps.wf()
        &&& addr + 0x1e <= u64::MAX
        &&& maps.fits(addr, 4)
        &&& maps.fits((addr + 4) as u64, 4)
        &&& maps.fits((addr + 8) as u64, 4)
        &&& maps.fits((addr + 0xc) as u64, 2)
        &&& maps.fits((addr + 0xe) as u64, 4)
        &&& maps.fits((addr + 0x12) as u64, 4)
        &&& maps.fits((addr + 0x16) as u64, 4)
        &&& maps.fits((addr + 0x1a) as u64, 4)
    }

    /// `self` holds the values that `load` reads at `addr`.
    pub open spec fn loaded_from(self, maps: &Maps, addr: u64) -> bool {
        &&& self.base_address == maps.value_at(addr, 4)
        &&& self.allocation_base == maps.value_at((addr + 4) as u64, 4)
        &&& self.allocation_protect == maps.value_at((addr + 8) as u64, 4)
        &&& self.partition_id == maps.value_at((addr + 0xc) as u64, 2)
        &&& self.region_size == maps.value_at((addr + 0xe) as u64, 4)
        &&& self.state == maps.value_at((addr + 0x12) as u64, 4)
        &&& self.protect == maps.value_at((addr + 0x16) as u64, 4)
        &&& self.typ == maps.value_at((addr + 0x1a) as u64, 4)
    }

    /// Every field that `save` writes at `addr` fits in the region that a
    /// lookup of its address finds, whatever the lookup cache holds.
    pub open spec fn fits_in(maps: Maps, addr: u64) -> bool {
        &&& maps.fits_anyhow(addr, 4)
        &&& maps.fits_anyhow((addr + 4) as u64, 4)
        &&& maps.fits_anyhow((addr + 8) as u64, 4)
        &&& maps.fits_anyhow((addr + 0xc) as u64, 2)
        &&& maps.fits_anyhow((addr + 0xe) as u64, 4)
        &&& maps.fits_anyhow((addr + 0x12) as u64, 4)
        &&& maps.fits_anyhow((addr + 0x16) as u64, 4)
        &&& maps.fits_anyhow((addr + 0x1a) as u64, 4)
    }

    /// The writes of `save` at `addr`, in order: address and little endian
    /// bytes of each field.
    pub open spec fn writes(self, addr: u64) -> Seq<(u64, Seq<u8>)> {
        seq![
            (addr, le_bytes((self.base_address) as nat, 4)),
            ((addr + 4) as u64, le_bytes((self.allocation_base) as nat, 4)),
            ((addr + 8) as u64, le_bytes((self.allocation_protect) as nat, 4)),
            ((addr + 0xc) as u64, le_bytes((self.partition_id) as nat, 2)),
            ((addr + 0xe) as u64, le_bytes((self.region_size) as nat, 4)),
            ((addr + 0x12) as u64, le_bytes((self.state) as nat, 4)),
            ((addr + 0x16) as u64, le_bytes((self.protect) as nat, 4)),
            ((addr + 0x1a) as u64, le_bytes((self.typ) as nat, 4)),
        ]
    }

    /// The size of the structure in emulated memory.
    pub fn size() -> (r: u64)
        ensures
            r == 30,
    {
        30
    }

    /// Reads the structure at `addr`.
    pub fn load(addr: u64, maps: &Maps) -> (r: MemoryBasicInformation)
        requires
            Self::readable(maps, addr),
        ensures
            r.loaded_from(maps, addr),
    {
        MemoryBasicInformation {
            base_address: maps.read_dword(addr).unwrap(),
            allocation_base: maps.read_dword(addr + 4).unwrap(),
            allocation_protect: maps.read_dword(addr + 8).unwrap(),
            partition_id: maps.read_word(addr + 0xc).unwrap(),
            region_size: maps.read_dword(addr + 0xe).unwrap(),
            state: maps.read_dword(addr + 0x12).unwrap(),
            protect: maps.read_dword(addr + 0x16).unwrap(),
            typ: maps.read_dword(addr + 0x1a).unwrap(),
        }
    }

    /// Writes the fields at `addr`, one after the other (an unmapped field
    /// is tolerated only in banzai mode, and left unwritten).
    pub fn save(&self, addr: u64, maps: &mut Maps)
        requires
            old(maps).wf(),
            addr + 0x1e <= u64::MAX,
            !old(maps).banzai_view() ==> Self::fits_in(*old(maps), addr),
        ensures
            old(maps).wrote_values(*final(maps), self.writes(addr)),
    {
        let ghost m0 = *maps;
        let ghost mut done: Seq<(u64, Seq<u8>)> = Seq::empty();
        proof {
            m0.lemma_run_start();
        }
        store_dword(maps, Ghost(m0), Ghost(done), addr, self.base_address);
        proof {
            done = done.push((addr, le_bytes((self.base_address) as nat, 4)));
        }
        store_dword(maps, Ghost(m0), Ghost(done), addr + 4, self.allocation_base);
        proof {
            done = done.push(((addr + 4) as u64, le_bytes((self.allocation_base) as nat, 4)));
        }
        store_dword(maps, Ghost(m0), Ghost(done), addr + 8, self.allocation_protect);
        proof {
            done = done.push(((addr + 8) as u64, le_bytes((self.allocation_protect) as nat, 4)));
        }
        store_word(maps, Ghost(m0), Ghost(done), addr + 0xc, self.partition_id);
        proof {
            done = done.push(((addr + 0xc) as u64, le_bytes((self.partition_id) as nat, 2)));
        }
        store_dword(maps, Ghost(m0), Ghost(done), addr + 0xe, self.region_size);
        proof {
            done = done.push(((addr + 0xe) as u64, le_bytes((self.region_size) as nat, 4)));
        }
        store_dword(maps, Ghost(m0), Ghost(done), addr + 0x12, self.state);
        proof {
            done = done.push(((addr + 0x12) as u64, le_bytes((self.state) as nat, 4)));
        }
        store_dword(maps, Ghost(m0), Ghost(done), addr + 0x16, self.protect);
        proof {
            done = done.push(((addr + 0x16) as u64, le_bytes((self.protect) as nat, 4)));
        }
        store_dword(maps, Ghost(m0), Ghost(done), addr + 0x1a, self.typ);
        proof {
            done = done.push(((addr + 0x1a) as u64, le_bytes((self.typ) as nat, 4)));
        }
        assert(done =~= self.writes(addr));
    }

    /// What `guess` answers when a lookup finds the region `m`, or none.
    pub open spec fn guessed(m: Option<Mem64>) -> MemoryBasicInformation {
        match m {
            Some(m) => MemoryBasicInformation {
                base_address: m.base_view() as u32,
                allocation_base: m.base_view() as u32,
                allocation_protect: 0xff,
                partition_id: 0,
                region_size: m.bytes().len() as u32,
                state: 0,
                protect: 0xff,
                typ: 0,
            },
            None => MemoryBasicInformation {
                base_address: 0,
                allocation_base: 0,
                allocation_protect: 0xff,
                partition_id: 0,
                region_size: 0,
                state: 0,
                protect: 0xff,
                typ: 0,
            },
        }
    }

    /// Describes the region that a lookup of `addr` finds: its base and
    /// size, cut to 32 bits, with full access; all zero but the access
    /// when no region spans `addr`.
    pub fn guess(addr: u64, maps: &mut Maps) -> (r: MemoryBasicInformation)
        requires
            old(maps).wf(),
        ensures
            r == Self::guessed(
                match old(maps).region_for(addr) {
                    Some(k) => Some(old(maps).regions()[k]),
                    None => None,
                },
            ),
            final(maps).regions() == old(maps).regions(),
            old(maps).looked_up(*final(maps), addr),
            final(maps).wf(),
    {
        let ghost before = *maps;
        let r = match maps.get_mem_by_addr_mut(addr) {
            Some(mem) => MemoryBasicInformation {
                base_address: mem.get_base() as u32,
                allocation_base: mem.get_base() as u32,
                allocation_protect: 0xff,
                partition_id: 0,
                region_size: mem.size() as u32,
                state: 0,
                protect: 0xff,
                typ: 0,
            },
            None => MemoryBasicInformation {
                base_address: 0,
                allocation_base: 0,
                allocation_protect: 0xff,
                partition_id: 0,
                region_size: 0,
                state: 0,
                protect: 0xff,
                typ: 0,
            },
        };
        proof {
            assert(maps.regions() =~= before.regions());
            before.lemma_lookup_keeps_wf(*maps, addr);
        }
        r
    }
}

/// The thread local storage directory of a 32 bit image.
#[derive(Debug)]
pub struct TlsDirectory32 {
    tls_data_start: u32,
    tls_data_end: u32,
    tls_index: u32,
    tls_callbacks: u32,
    zero_fill_size: u32,
    characteristic: u32,
}

impl TlsDirectory32 {
    /// Every field that `load` reads at `addr` lies in the region that a
    /// lookup of its address finds.
    pub open spec fn readable(maps: &Maps, addr: u64) -> bool {
        &&& maps.wf()
        &&& addr + 0x18 <= u64::MAX
        &&& maps.fits(addr, 4)
        &&& maps.fits((addr + 4) as u64, 4)
        &&& maps.fits((addr + 8) as u64, 4)
        &&& maps.fits((addr + 0xc) as u64, 4)
        &&& maps.fits((addr + 0x10) as u64, 4)
        &&& maps.fits((addr + 0x14) as u64, 4)
    }

    /// `self` holds the values that `load` reads at `addr`.
    pub closed spec fn loaded_from(self, maps: &Maps, addr: u64) -> bool {
        &&& self.tls_data_start == maps.value_at(addr, 4)
        &&& self.tls_data_end == maps.value_at((addr + 4) as u64, 4)
        &&& self.tls_index == maps.value_at((addr + 8) as u64, 4)
        &&& self.tls_callbacks == maps.value_at((addr + 0xc) as u64, 4)
        &&& self.zero_fill_size == maps.value_at((addr + 0x10) as u64, 4)
        &&& self.characteristic == maps.value_at((addr + 0x14) as u64, 4)
    }

    /// Reads the structure at `addr`.
    pub fn load(addr: u64, maps: &Maps) -> (r: TlsDirectory32)
        requires
            Self::readable(maps, addr),
        ensures
            r.loaded_from(maps, addr),
    {
        TlsDirectory32 {
            tls_data_start: maps.read_dword(addr).unwrap(),
            tls_data_end: maps.read_dword(addr + 4).unwrap(),
            tls_index: maps.read_dword(addr + 8).unwrap(),
            tls_callbacks: maps.read_dword(addr + 0xc).unwrap(),
            zero_fill_size: maps.read_dword(addr + 0x10).unwrap(),
            characteristic: maps.read_dword(addr + 0x14).unwrap(),
        }
    }
}

/// The thread local storage directory of a 64 bit image.
#[derive(Debug)]
pub struct TlsDirectory64 {
    tls_data_start: u64,
    tls_data_end: u64,
    tls_index: u64,
    tls_callbacks: u64,
    zero_fill_size: u32,
    characteristic: u32,
}

impl TlsDirectory64 {
    /// Every field that `load` reads at `addr` lies in the region that a
    /// lookup of its address finds.
    pub open spec fn readable(maps: &Maps, addr: u64) -> bool {
        &&& maps.wf()
        &&& addr + 0x26 <= u64::MAX
        &&& maps.fits(addr, 8)
        &&& maps.fits((addr + 8) as u64, 8)
        &&& maps.fits((addr + 0x10) as u64, 8)
        &&& maps.fits((addr + 0x18) as u64, 8)
        &&& maps.fits((addr + 0x20) as u64, 4)
        &&& maps.fits((addr + 0x22) as u64, 4)
    }

    /// `self` holds the values that `load` reads at `addr`.
    pub closed spec fn loaded_from(self, maps: &Maps, addr: u64) -> bool {
        &&& self.tls_data_start == maps.value_at(addr, 8)
        &&& self.tls_data_end == maps.value_at((addr + 8) as u64, 8)
        &&& self.tls_index == maps.value_at((addr + 0x10) as u64, 8)
        &&& self.tls_callbacks == maps.value_at((addr + 0x18) as u64, 8)
        &&& self.zero_fill_size == maps.value_at((addr + 0x20) as u64, 4)
        &&& self.characteristic == maps.value_at((addr + 0x22) as u64, 4)
    }

    /// Reads the structure at `addr`.
    pub fn load(addr: u64, maps: &Maps) -> (r: TlsDirectory64)
        requires
            Self::readable(maps, addr),
        ensures
            r.loaded_from(maps, addr),
    {
        TlsDirectory64 {
            tls_data_start: maps.read_qword(addr).unwrap(),
            tls_data_end: maps.read_qword(addr + 8).unwrap(),
            tls_index: maps.read_qword(addr + 0x10).unwrap(),
            tls_callbacks: maps.read_qword(addr + 0x18).unwrap(),
            zero_fill_size: maps.read_dword(addr + 0x20).unwrap(),
            characteristic: maps.read_dword(addr + 0x22).unwrap(),
        }
    }
}

/// The arguments every thread local storage callback gets.
#[derive(Debug)]
pub struct ImageTlsCallback {
    dll_handle: u32,
    reason: u32,
    reserved: u32,
}

impl MemoryBasicInformation {
    /// Saving the description at `addr`, where one region alone holds its bytes,
    /// and loading it back from there gives the description that was saved.
    pub proof fn lemma_load_after_save(self, before: Maps, after: Maps, addr: u64, k: usize)
        requires
            before.wf(),
            addr + 0x1e <= u64::MAX,
            before.sole_region(k, addr, 0x1e),
            before.wrote_values(after, self.writes(addr)),
        ensures
            MemoryBasicInformation::readable(&after, addr),
            self.loaded_from(&after, addr),
    {
        let ws = self.writes(addr);
        reveal_with_fuel(crate::fpu::f80::pow256, 9);
        assert(ws[0] == (addr, le_bytes(self.base_address as nat, 4)));
        assert(ws[1] == ((addr + 4) as u64, le_bytes(self.allocation_base as nat, 4)));
        assert(ws[2] == ((addr + 8) as u64, le_bytes(self.allocation_protect as nat, 4)));
        assert(ws[3] == ((addr + 0xc) as u64, le_bytes(self.partition_id as nat, 2)));
        assert(ws[4] == ((addr + 0xe) as u64, le_bytes(self.region_size as nat, 4)));
        assert(ws[5] == ((addr + 0x12) as u64, le_bytes(self.state as nat, 4)));
        assert(ws[6] == ((addr + 0x16) as u64, le_bytes(self.protect as nat, 4)));
        assert(ws[7] == ((addr + 0x1a) as u64, le_bytes(self.typ as nat, 4)));
        assert forall|i: int| 0 <= i < ws.len() implies addr <= (#[trigger] ws[i]).0 && ws[i].0 + ws[i].1.len()
            <= addr + 0x1e by {
            assert(0 <= i < 8);
        }
        assert forall|i: int| 0 <= i < ws.len() implies (#[trigger] ws[i]).1.len() > 0 by {
            assert(0 <= i < 8);
        }
        before.lemma_sole_run(after, ws, k, addr, 0x1e);
        before.lemma_same_layout_sole(after, k, addr, 0x1e);
        before.lemma_same_layout_wf(after);
        let m0 = before.regions()[k];
        let m1 = after.regions()[k];
        assert forall|i: int| 0 <= i < ws.len() implies #[trigger] m0.holds(ws[i].0, ws[i].1.len()) by {
            assert(0 <= i < 8);
        }
        assert forall|i: int| 0 < i < ws.len() implies #[trigger] m0.offset(ws[i].0) + ws[i].1.len()
            <= m0.offset(ws[0].0) || m0.offset(ws[0].0) + ws[0].1.len() <= m0.offset(ws[i].0) by {
            assert(0 < i < 8);
        }
        m0.lemma_patched_value(m1, ws, 0, self.base_address as nat, 4);
        after.lemma_sole_region_found(k, addr, 0x1e, addr);
        assert forall|i: int| 1 < i < ws.len() implies #[trigger] m0.offset(ws[i].0) + ws[i].1.len()
            <= m0.offset(ws[1].0) || m0.offset(ws[1].0) + ws[1].1.len() <= m0.offset(ws[i].0) by {
            assert(1 < i < 8);
        }
        m0.lemma_patched_value(m1, ws, 1, self.allocation_base as nat, 4);
        after.lemma_sole_region_found(k, addr, 0x1e, (addr + 4) as u64);
        assert forall|i: int| 2 < i < ws.len() implies #[trigger] m0.offset(ws[i].0) + ws[i].1.len()
            <= m0.offset(ws[2].0) || m0.offset(ws[2].0) + ws[2].1.len() <= m0.offset(ws[i].0) by {
            assert(2 < i < 8);
        }
        m0.lemma_patched_value(m1, ws, 2, self.allocation_protect as nat, 4);
        after.lemma_sole_region_found(k, addr, 0x1e, (addr + 8) as u64);
        assert forall|i: int| 3 < i < ws.len() implies #[trigger] m0.offset(ws[i].0) + ws[i].1.len()
            <= m0.offset(ws[3].0) || m0.offset(ws[3].0) + ws[3].1.len() <= m0.offset(ws[i].0) by {
            assert(3 < i < 8);
        }
        m0.lemma_patched_value(m1, ws, 3, self.partition_id as nat, 2);
        after.lemma_sole_region_found(k, addr, 0x1e, (addr + 0xc) as u64);
        assert forall|i: int| 4 < i < ws.len() implies #[trigger] m0.offset(ws[i].0) + ws[i].1.len()
            <= m0.offset(ws[4].0) || m0.offset(ws[4].0) + ws[4].1.len() <= m0.offset(ws[i].0) by {
            assert(4 < i < 8);
        }
        m0.lemma_patched_value(m1, ws, 4, self.region_size as nat, 4);
        after.lemma_sole_region_found(k, addr, 0x1e, (addr + 0xe) as u64);
        assert forall|i: int| 5 < i < ws.len() implies #[trigger] m0.offset(ws[i].0) + ws[i].1.len()
            <= m0.offset(ws[5].0) || m0.offset(ws[5].0) + ws[5].1.len() <= m0.offset(ws[i].0) by {
            assert(5 < i < 8);
        }
        m0.lemma_patched_value(m1, ws, 5, self.state as nat, 4);
        after.lemma_sole_region_found(k, addr, 0x1e, (addr + 0x12) as u64);
        assert forall|i: int| 6 < i < ws.len() implies #[trigger] m0.offset(ws[i].0) + ws[i].1.len()
            <= m0.offset(ws[6].0) || m0.offset(ws[6].0) + ws[6].1.len() <= m0.offset(ws[i].0) by {
            assert(6 < i < 8);
        }
        m0.lemma_patched_value(m1, ws, 6, self.protect as nat, 4);
        after.lemma_sole_region_found(k, addr, 0x1e, (addr + 0x16) as u64);
        assert forall|i: int| 7 < i < ws.len() implies #[trigger] m0.offset(ws[i].0) + ws[i].1.len()
            <= m0.offset(ws[7].0) || m0.offset(ws[7].0) + ws[7].1.len() <= m0.offset(ws[i].0) by {
            assert(7 < i < 8);
        }
        m0.lemma_patched_value(m1, ws, 7, self.typ as nat, 4);
        after.lemma_sole_region_found(k, addr, 0x1e, (addr + 0x1a) as u64);
    }
}

} // verus!
