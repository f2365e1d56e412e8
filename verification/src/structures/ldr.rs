use vstd::prelude::*;
use crate::maps::Maps;
use crate::maps::mem64::le_bytes;
use crate::structures::{store_word, store_dword, store_qword};

verus! {

/// A doubly linked list entry of a 32 bit process: forward and backward
/// links.
#[derive(Debug)]
pub struct ListEntry {
    pub flink: u32,
    pub blink: u32,
}

impl ListEntry {
    /// The values that `new` gives.
    pub open spec fn is_fresh(self) -> bool {
        &&& self.flink == 0
        &&& self.blink == 0
    }

    /// Every field that `load` reads at `addr` lies in the region that a
    /// lookup of its address finds.
    pub open spec fn readable(maps: &Maps, addr: u64) -> bool {
        &&& maps.wf()
        &&& addr + 8 <= u64::MAX
        &&& maps.fits(addr, 4)
        &&& maps.fits((addr + 4) as u64, 4)
    }

    /// `self` holds the values that `load` reads at `addr`.
    pub open spec fn loaded_from(self, maps: &Maps, addr: u64) -> bool {
        &&& self.flink == maps.value_at(addr, 4)
        &&& self.blink == maps.value_at((addr + 4) as u64, 4)
    }

    /// Every field that `save` writes at `addr` fits in the region that a
    /// lookup of its address finds, whatever the lookup cache holds.
    pub open spec fn fits_in(maps: Maps, addr: u64) -> bool {
        &&& maps.fits_anyhow(addr, 4)
        &&& maps.fits_anyhow((addr + 4) as u64, 4)
    }

    /// The writes of `save` at `addr`, in order: address and little endian
    /// bytes of each field.
    pub open spec fn writes(self, addr: u64) -> Seq<(u64, Seq<u8>)> {
        seq![
            (addr, le_bytes((self.flink) as nat, 4)),
            ((addr + 4) as u64, le_bytes((self.blink) as nat, 4)),
        ]
    }

    /// A state of the same layout lets the same writes fit.
    pub proof fn lemma_fits_in_layout(m0: Maps, m1: Maps, addr: u64)
        requires
            m0.same_layout(m1),
            Self::fits_in(m0, addr),
        ensures
            Self::fits_in(m1, addr),
    {
        m0.lemma_same_layout_fits(m1, addr, 4);
        m0.lemma_same_layout_fits(m1, (addr + 4) as u64, 4);
    }

    /// The structure with its initial values (see `is_fresh`).
    pub fn new() -> (r: ListEntry)
        ensures
            r.is_fresh(),
    {
        ListEntry {
            flink: 0,
            blink: 0,
        }
    }

    /// Reads the structure at `addr`.
    pub fn load(addr: u64, maps: &Maps) -> (r: ListEntry)
        requires
            Self::readable(maps, addr),
        ensures
            r.loaded_from(maps, addr),
    {
        ListEntry {
            flink: maps.read_dword(addr).unwrap(),
            blink: maps.read_dword(addr + 4).unwrap(),
        }
    }

    /// Writes the fields at `addr`, one after the other (an unmapped field
    /// is tolerated only in banzai mode, and left unwritten).
    pub fn save(&self, addr: u64, maps: &mut Maps)
        requires
            old(maps).wf(),
            addr + 8 <= u64::MAX,
            !old(maps).banzai_view() ==> Self::fits_in(*old(maps), addr),
        ensures
            old(maps).wrote_values(*final(maps), self.writes(addr)),
    {
        let ghost m0 = *maps;
        let ghost mut done: Seq<(u64, Seq<u8>)> = Seq::empty();
        proof {
            m0.lemma_run_start();
        }
        store_dword(maps, Ghost(m0), Ghost(done), addr, self.flink);
        proof {
            done = done.push((addr, le_bytes((self.flink) as nat, 4)));
        }
        store_dword(maps, Ghost(m0), Ghost(done), addr + 4, self.blink);
        proof {
            done = done.push(((addr + 4) as u64, le_bytes((self.blink) as nat, 4)));
        }
        assert(done =~= self.writes(addr));
    }
}

impl Default for ListEntry {
    fn default() -> (r: Self)
        ensures
            r.is_fresh(),
    {
        Self::new()
    }
}

/// A doubly linked list entry of a 64 bit process.
#[derive(Debug)]
pub struct ListEntry64 {
    pub flink: u64,
    pub blink: u64,
}

impl ListEntry64 {
    /// The values that `new` gives.
    pub open spec fn is_fresh(self) -> bool {
        &&& self.flink == 0
        &&& self.blink == 0
    }

    /// Every field that `load` reads at `addr` lies in the region that a
    /// lookup of its address finds.
    pub open spec fn readable(maps: &Maps, addr: u64) -> bool {
        &&& maps.wf()
        &&& addr + 0x10 <= u64::MAX
        &&& maps.fits(addr, 8)
        &&& maps.fits((addr + 8) as u64, 8)
    }

    /// `self` holds the values that `load` reads at `addr`.
    pub open spec fn loaded_from(self, maps: &Maps, addr: u64) -> bool {
        &&& self.flink == maps.value_at(addr, 8)
        &&& self.blink == maps.value_at((addr + 8) as u64, 8)
    }

    /// Every field that `save` writes at `addr` fits in the region that a
    /// lookup of its address finds, whatever the lookup cache holds.
    pub open spec fn fits_in(maps: Maps, addr: u64) -> bool {
        &&& maps.fits_anyhow(addr, 8)
        &&& maps.fits_anyhow((addr + 8) as u64, 8)
    }

    /// The writes of `save` at `addr`, in order: address and little endian
    /// bytes of each field.
    pub open spec fn writes(self, addr: u64) -> Seq<(u64, Seq<u8>)> {
        seq![
            (addr, le_bytes((self.flink) as nat, 8)),
            ((addr + 8) as u64, le_bytes((self.blink) as nat, 8)),
        ]
    }

    /// A state of the same layout lets the same writes fit.
    pub proof fn lemma_fits_in_layout(m0: Maps, m1: Maps, addr: u64)
        requires
            m0.same_layout(m1),
            Self::fits_in(m0, addr),
        ensures
            Self::fits_in(m1, addr),
    {
        m0.lemma_same_layout_fits(m1, addr, 8);
        m0.lemma_same_layout_fits(m1, (addr + 8) as u64, 8);
    }

    /// The structure with its initial values (see `is_fresh`).
    pub fn new() -> (r: ListEntry64)
        ensures
            r.is_fresh(),
    {
        ListEntry64 {
            flink: 0,
            blink: 0,
        }
    }

    /// Reads the structure at `addr`.
    pub fn load(addr: u64, maps: &Maps) -> (r: ListEntry64)
        requires
            Self::readable(maps, addr),
        ensures
            r.loaded_from(maps, addr),
    {
        ListEntry64 {
            flink: maps.read_qword(addr).unwrap(),
            blink: maps.read_qword(addr + 8).unwrap(),
        }
    }

    /// Writes the fields at `addr`, one after the other (an unmapped field
    /// is tolerated only in banzai mode, and left unwritten).
    pub fn save(&self, addr: u64, maps: &mut Maps)
        requires
            old(maps).wf(),
            addr + 0x10 <= u64::MAX,
            !old(maps).banzai_view() ==> Self::fits_in(*old(maps), addr),
        ensures
            old(maps).wrote_values(*final(maps), self.writes(addr)),
    {
        let ghost m0 = *maps;
        let ghost mut done: Seq<(u64, Seq<u8>)> = Seq::empty();
        proof {
            m0.lemma_run_start();
        }
        store_qword(maps, Ghost(m0), Ghost(done), addr, self.flink);
        proof {
            done = done.push((addr, le_bytes((self.flink) as nat, 8)));
        }
        store_qword(maps, Ghost(m0), Ghost(done), addr + 8, self.blink);
        proof {
            done = done.push(((addr + 8) as u64, le_bytes((self.blink) as nat, 8)));
        }
        assert(done =~= self.writes(addr));
    }
}

impl Default for ListEntry64 {
    fn default() -> (r: Self)
        ensures
            r.is_fresh(),
    {
        Self::new()
    }
}

/// A counted UTF-16 string of a 32 bit process: lengths in bytes and the
/// address of the buffer.
#[derive(Debug)]
pub struct UnicodeString {
    pub length: u16,
    pub maximum_length: u16,
    pub buffer: u32,
}

impl UnicodeString {
    /// The values that `new` gives.
    pub open spec fn is_fresh(self) -> bool {
        &&& self.length == 0
        &&& self.maximum_length == 0
        &&& self.buffer == 0
    }

    /// Every field that `load` reads at `addr` lies in the region that a
    /// lookup of its address finds.
    pub open spec fn readable(maps: &Maps, addr: u64) -> bool {
        &&& maps.wf()
        &&& addr + 8 <= u64::MAX
        &&& maps.fits(addr, 2)
        &&& maps.fits((addr + 2) as u64, 2)
        &&& maps.fits((addr + 4) as u64, 4)
    }

    /// `self` holds the values that `load` reads at `addr`.
    pub open spec fn loaded_from(self, maps: &Maps, addr: u64) -> bool {
        &&& self.length == maps.value_at(addr, 2)
        &&& self.maximum_length == maps.value_at((addr + 2) as u64, 2)
        &&& self.buffer == maps.value_at((addr + 4) as u64, 4)
    }

    /// Every field that `save` writes at `addr` fits in the region that a
    /// lookup of its address finds, whatever the lookup cache holds.
    pub open spec fn fits_in(maps: Maps, addr: u64) -> bool {
        &&& maps.fits_anyhow(addr, 2)
        &&& maps.fits_anyhow((addr + 2) as u64, 2)
        &&& maps.fits_anyhow((addr + 4) as u64, 4)
    }

    /// The writes of `save` at `addr`, in order: address and little endian
    /// bytes of each field.
    pub open spec fn writes(self, addr: u64) -> Seq<(u64, Seq<u8>)> {
        seq![
            (addr, le_bytes((self.length) as nat, 2)),
            ((addr + 2) as u64, le_bytes((self.maximum_length) as nat, 2)),
            ((addr + 4) as u64, le_bytes((self.buffer) as nat, 4)),
        ]
    }

    /// A state of the same layout lets the same writes fit.
    pub proof fn lemma_fits_in_layout(m0: Maps, m1: Maps, addr: u64)
        requires
            m0.same_layout(m1),
            Self::fits_in(m0, addr),
        ensures
            Self::fits_in(m1, addr),
    {
        m0.lemma_same_layout_fits(m1, addr, 2);
        m0.lemma_same_layout_fits(m1, (addr + 2) as u64, 2);
        m0.lemma_same_layout_fits(m1, (addr + 4) as u64, 4);
    }

    /// The structure with its initial values (see `is_fresh`).
    pub fn new() -> (r: UnicodeString)
        ensures
            r.is_fresh(),
    {
        UnicodeString {
            length: 0,
            maximum_length: 0,
            buffer: 0,
        }
    }

    /// The size of the structure in emulated memory.
    pub fn size() -> (r: u32)
        ensures
            r == 0x10,
    {
        0x10
    }

    /// Reads the structure at `addr`.
    pub fn load(addr: u64, maps: &Maps) -> (r: UnicodeString)
        requires
            Self::readable(maps, addr),
        ensures
            r.loaded_from(maps, addr),
    {
        UnicodeString {
            length: maps.read_word(addr).unwrap(),
            maximum_length: maps.read_word(addr + 2).unwrap(),
            buffer: maps.read_dword(addr + 4).unwrap(),
        }
    }

    /// Writes the fields at `addr`, one after the other (an unmapped field
    /// is tolerated only in banzai mode, and left unwritten).
    pub fn save(&self, addr: u64, maps: &mut Maps)
        requires
            old(maps).wf(),
            addr + 8 <= u64::MAX,
            !old(maps).banzai_view() ==> Self::fits_in(*old(maps), addr),
        ensures
            old(maps).wrote_values(*final(maps), self.writes(addr)),
    {
        let ghost m0 = *maps;
        let ghost mut done: Seq<(u64, Seq<u8>)> = Seq::empty();
        proof {
            m0.lemma_run_start();
        }
        store_word(maps, Ghost(m0), Ghost(done), addr, self.length);
        proof {
            done = done.push((addr, le_bytes((self.length) as nat, 2)));
        }
        store_word(maps, Ghost(m0), Ghost(done), addr + 2, self.maximum_length);
        proof {
            done = done.push(((addr + 2) as u64, le_bytes((self.maximum_length) as nat, 2)));
        }
        store_dword(maps, Ghost(m0), Ghost(done), addr + 4, self.buffer);
        proof {
            done = done.push(((addr + 4) as u64, le_bytes((self.buffer) as nat, 4)));
        }
        assert(done =~= self.writes(addr));
    }
}

impl Default for UnicodeString {
    fn default() -> (r: Self)
        ensures
            r.is_fresh(),
    {
        Self::new()
    }
}

/// A counted UTF-16 string of a 64 bit process.
#[derive(Debug)]
pub struct UnicodeString64 {
    pub length: u16,
    pub maximum_length: u16,
    pub padding: u32,
    pub buffer: u64,
}

impl UnicodeString64 {
    /// The values that `new` gives.
    pub open spec fn is_fresh(self) -> bool {
        &&& self.length == 0
        &&& self.maximum_length == 0
        &&& self.padding == 0
        &&& self.buffer == 0
    }

    /// Every field that `load` reads at `addr` lies in the region that a
    /// lookup of its address finds.
    pub open spec fn readable(maps: &Maps, addr: u64) -> bool {
        &&& maps.wf()
        &&& addr + 0x10 <= u64::MAX
        &&& maps.fits(addr, 2)
        &&& maps.fits((addr + 2) as u64, 2)
        &&& maps.fits((addr + 4) as u64, 4)
        &&& maps.fits((addr + 8) as u64, 8)
    }

    /// `self` holds the values that `load` reads at `addr`.
    pub open spec fn loaded_from(self, maps: &Maps, addr: u64) -> bool {
        &&& self.length == maps.value_at(addr, 2)
        &&& self.maximum_length == maps.value_at((addr + 2) as u64, 2)
        &&& self.padding == maps.value_at((addr + 4) as u64, 4)
        &&& self.buffer == maps.value_at((addr + 8) as u64, 8)
    }

    /// Every field that `save` writes at `addr` fits in the region that a
    /// lookup of its address finds, whatever the lookup cache holds.
    pub open spec fn fits_in(maps: Maps, addr: u64) -> bool {
        &&& maps.fits_anyhow(addr, 2)
        &&& maps.fits_anyhow((addr + 2) as u64, 2)
        &&& maps.fits_anyhow((addr + 4) as u64, 4)
        &&& maps.fits_anyhow((addr + 8) as u64, 8)
    }

    /// The writes of `save` at `addr`, in order: address and little endian
    /// bytes of each field.
    pub open spec fn writes(self, addr: u64) -> Seq<(u64, Seq<u8>)> {
        seq![
            (addr, le_bytes((self.length) as nat, 2)),
            ((addr + 2) as u64, le_bytes((self.maximum_length) as nat, 2)),
            ((addr + 4) as u64, le_bytes((self.padding) as nat, 4)),
            ((addr + 8) as u64, le_bytes((self.buffer) as nat, 8)),
        ]
    }

    /// A state of the same layout lets the same writes fit.
    pub proof fn lemma_fits_in_layout(m0: Maps, m1: Maps, addr: u64)
        requires
            m0.same_layout(m1),
            Self::fits_in(m0, addr),
        ensures
            Self::fits_in(m1, addr),
    {
        m0.lemma_same_layout_fits(m1, addr, 2);
        m0.lemma_same_layout_fits(m1, (addr + 2) as u64, 2);
        m0.lemma_same_layout_fits(m1, (addr + 4) as u64, 4);
        m0.lemma_same_layout_fits(m1, (addr + 8) as u64, 8);
    }

    /// The structure with its initial values (see `is_fresh`).
    pub fn new() -> (r: UnicodeString64)
        ensures
            r.is_fresh(),
    {
        UnicodeString64 {
            length: 0,
            maximum_length: 0,
            padding: 0,
            buffer: 0,
        }
    }

    /// The size of the structure in emulated memory.
    pub fn size() -> (r: u64)
        ensures
            r == 0x10,
    {
        0x10
    }

    /// Reads the structure at `addr`.
    pub fn load(addr: u64, maps: &Maps) -> (r: UnicodeString64)
        requires
            Self::readable(maps, addr),
        ensures
            r.loaded_from(maps, addr),
    {
        UnicodeString64 {
            length: maps.read_word(addr).unwrap(),
            maximum_length: maps.read_word(addr + 2).unwrap(),
            padding: maps.read_dword(addr + 4).unwrap(),
            buffer: maps.read_qword(addr + 8).unwrap(),
        }
    }

    /// Writes the fields at `addr`, one after the other (an unmapped field
    /// is tolerated only in banzai mode, and left unwritten).
    pub fn save(&self, addr: u64, maps: &mut Maps)
        requires
            old(maps).wf(),
            addr + 0x10 <= u64::MAX,
            !old(maps).banzai_view() ==> Self::fits_in(*old(maps), addr),
        ensures
            old(maps).wrote_values(*final(maps), self.writes(addr)),
    {
        let ghost m0 = *maps;
        let ghost mut done: Seq<(u64, Seq<u8>)> = Seq::empty();
        proof {
            m0.lemma_run_start();
        }
        store_word(maps, Ghost(m0), Ghost(done), addr, self.length);
        proof {
            done = done.push((addr, le_bytes((self.length) as nat, 2)));
        }
        store_word(maps, Ghost(m0), Ghost(done), addr + 2, self.maximum_length);
        proof {
            done = done.push(((addr + 2) as u64, le_bytes((self.maximum_length) as nat, 2)));
        }
        store_dword(maps, Ghost(m0), Ghost(done), addr + 4, self.padding);
        proof {
            done = done.push(((addr + 4) as u64, le_bytes((self.padding) as nat, 4)));
        }
        store_qword(maps, Ghost(m0), Ghost(done), addr + 8, self.buffer);
        proof {
            done = done.push(((addr + 8) as u64, le_bytes((self.buffer) as nat, 8)));
        }
        assert(done =~= self.writes(addr));
    }
}

impl Default for UnicodeString64 {
    fn default() -> (r: Self)
        ensures
            r.is_fresh(),
    {
        Self::new()
    }
}

/// A loaded module entry of a 32 bit process.
#[derive(Debug)]
pub struct LdrDataTableEntry {
    pub in_load_order_links: ListEntry,
    pub in_memory_order_links: ListEntry,
    pub in_initialization_order_links: ListEntry,
    pub dll_base: u32,
    pub entry_point: u32,
    pub size_of_image: u32,
    pub full_dll_name: UnicodeString,
    pub base_dll_name: UnicodeString,
    pub flags: u32,
    pub load_count: u16,
    pub tls_index: u16,
    pub hash_links: ListEntry,
    pub time_date_stamp: u32,
}

impl LdrDataTableEntry {
    /// The values that `new` gives.
    pub open spec fn is_fresh(self) -> bool {
        &&& self.in_load_order_links.is_fresh()
        &&& self.in_memory_order_links.is_fresh()
        &&& self.in_initialization_order_links.is_fresh()
        &&& self.dll_base == 0
        &&& self.entry_point == 0
        &&& self.size_of_image == 0
        &&& self.full_dll_name.is_fresh()
        &&& self.base_dll_name.is_fresh()
        &&& self.flags == 0
        &&& self.load_count == 0
        &&& self.tls_index == 0
        &&& self.hash_links.is_fresh()
        &&& self.time_date_stamp == 0
    }

    /// Every field that `load` reads at `addr` lies in the region that a
    /// lookup of its address finds.
    pub open spec fn readable(maps: &Maps, addr: u64) -> bool {
        &&& maps.wf()
        &&& addr + 0x48 <= u64::MAX
        &&& ListEntry::readable(maps, addr)
        &&& ListEntry::readable(maps, (addr + 8) as u64)
        &&& ListEntry::readable(maps, (addr + 0x10) as u64)
        &&& maps.fits((addr + 0x18) as u64, 4)
        &&& maps.fits((addr + 0x1c) as u64, 4)
        &&& maps.fits((addr + 0x20) as u64, 4)
        &&& UnicodeString::readable(maps, (addr + 0x24) as u64)
        &&& UnicodeString::readable(maps, (addr + 0x2c) as u64)
        &&& maps.fits((addr + 0x34) as u64, 4)
        &&& maps.fits((addr + 0x38) as u64, 2)
        &&& maps.fits((addr + 0x3a) as u64, 2)
        &&& ListEntry::readable(maps, (addr + 0x3c) as u64)
        &&& maps.fits((addr + 0x44) as u64, 4)
    }

    /// `self` holds the values that `load` reads at `addr`.
    pub open spec fn loaded_from(self, maps: &Maps, addr: u64) -> bool {
        &&& self.in_load_order_links.loaded_from(maps, addr)
        &&& self.in_memory_order_links.loaded_from(maps, (addr + 8) as u64)
        &&& self.in_initialization_order_links.loaded_from(maps, (addr + 0x10) as u64)
        &&& self.dll_base == maps.value_at((addr + 0x18) as u64, 4)
        &&& self.entry_point == maps.value_at((addr + 0x1c) as u64, 4)
        &&& self.size_of_image == maps.value_at((addr + 0x20) as u64, 4)
        &&& self.full_dll_name.loaded_from(maps, (addr + 0x24) as u64)
        &&& self.base_dll_name.loaded_from(maps, (addr + 0x2c) as u64)
        &&& self.flags == maps.value_at((addr + 0x34) as u64, 4)
        &&& self.load_count == maps.value_at((addr + 0x38) as u64, 2)
        &&& self.tls_index == maps.value_at((addr + 0x3a) as u64, 2)
        &&& self.hash_links.loaded_from(maps, (addr + 0x3c) as u64)
        &&& self.time_date_stamp == maps.value_at((addr + 0x44) as u64, 4)
    }

    /// Every field that `save` writes at `addr` fits in the region that a
    /// lookup of its address finds, whatever the lookup cache holds.
    pub open spec fn fits_in(maps: Maps, addr: u64) -> bool {
        &&& ListEntry::fits_in(maps, addr)
        &&& ListEntry::fits_in(maps, (addr + 8) as u64)
        &&& ListEntry::fits_in(maps, (addr + 0x10) as u64)
        &&& maps.fits_anyhow((addr + 0x18) as u64, 4)
        &&& maps.fits_anyhow((addr + 0x1c) as u64, 4)
        &&& maps.fits_anyhow((addr + 0x20) as u64, 4)
        &&& UnicodeString::fits_in(maps, (addr + 0x24) as u64)
        &&& UnicodeString::fits_in(maps, (addr + 0x2c) as u64)
        &&& maps.fits_anyhow((addr + 0x34) as u64, 4)
        &&& maps.fits_anyhow((addr + 0x38) as u64, 2)
        &&& maps.fits_anyhow((addr + 0x3a) as u64, 2)
        &&& ListEntry::fits_in(maps, (addr + 0x3c) as u64)
        &&& maps.fits_anyhow((addr + 0x44) as u64, 4)
    }

    /// The writes of `save` at `addr`, in order: address and little endian
    /// bytes of each field.
    pub open spec fn writes(self, addr: u64) -> Seq<(u64, Seq<u8>)> {
        self.in_load_order_links.writes(addr)
            + self.in_memory_order_links.writes((addr + 8) as u64)
            + self.in_initialization_order_links.writes((addr + 0x10) as u64)
            + seq![
            ((addr + 0x18) as u64, le_bytes((self.dll_base) as nat, 4)),
            ((addr + 0x1c) as u64, le_bytes((self.entry_point) as nat, 4)),
            ((addr + 0x20) as u64, le_bytes((self.size_of_image) as nat, 4)),
        ]
            + self.full_dll_name.writes((addr + 0x24) as u64)
            + self.base_dll_name.writes((addr + 0x2c) as u64)
            + seq![
            ((addr + 0x34) as u64, le_bytes((self.flags) as nat, 4)),
            ((addr + 0x38) as u64, le_bytes((self.load_count) as nat, 2)),
            ((addr + 0x3a) as u64, le_bytes((self.tls_index) as nat, 2)),
        ]
            + self.hash_links.writes((addr + 0x3c) as u64)
            + seq![
            ((addr + 0x44) as u64, le_bytes((self.time_date_stamp) as nat, 4)),
        ]
    }

    /// The structure with its initial values (see `is_fresh`).
    pub fn new() -> (r: LdrDataTableEntry)
        ensures
            r.is_fresh(),
    {
        LdrDataTableEntry {
            in_load_order_links: ListEntry::new(),
            in_memory_order_links: ListEntry::new(),
            in_initialization_order_links: ListEntry::new(),
            dll_base: 0,
            entry_point: 0,
            size_of_image: 0,
            full_dll_name: UnicodeString::new(),
            base_dll_name: UnicodeString::new(),
            flags: 0,
            load_count: 0,
            tls_index: 0,
            hash_links: ListEntry::new(),
            time_date_stamp: 0,
        }
    }

    /// The size of the structure in emulated memory.
    pub fn size() -> (r: usize)
        ensures
            r == 72,
    {
        72
    }

    /// Reads the structure at `addr`.
    pub fn load(addr: u64, maps: &Maps) -> (r: LdrDataTableEntry)
        requires
            Self::readable(maps, addr),
        ensures
            r.loaded_from(maps, addr),
    {
        LdrDataTableEntry {
            in_load_order_links: ListEntry::load(addr, maps),
            in_memory_order_links: ListEntry::load(addr + 8, maps),
            in_initialization_order_links: ListEntry::load(addr + 0x10, maps),
            dll_base: maps.read_dword(addr + 0x18).unwrap(),
            entry_point: maps.read_dword(addr + 0x1c).unwrap(),
            size_of_image: maps.read_dword(addr + 0x20).unwrap(),
            full_dll_name: UnicodeString::load(addr + 0x24, maps),
            base_dll_name: UnicodeString::load(addr + 0x2c, maps),
            flags: maps.read_dword(addr + 0x34).unwrap(),
            load_count: maps.read_word(addr + 0x38).unwrap(),
            tls_index: maps.read_word(addr + 0x3a).unwrap(),
            hash_links: ListEntry::load(addr + 0x3c, maps),
            time_date_stamp: maps.read_dword(addr + 0x44).unwrap(),
        }
    }

    /// Writes the fields at `addr`, one after the other (an unmapped field
    /// is tolerated only in banzai mode, and left unwritten).
    pub fn save(&self, addr: u64, maps: &mut Maps)
        requires
            old(maps).wf(),
            addr + 0x48 <= u64::MAX,
            !old(maps).banzai_view() ==> Self::fits_in(*old(maps), addr),
        ensures
            old(maps).wrote_values(*final(maps), self.writes(addr)),
    {
        let ghost m0 = *maps;
        let ghost mut done: Seq<(u64, Seq<u8>)> = Seq::empty();
        proof {
            m0.lemma_run_start();
        }
        let ghost prev = *maps;
        proof {
            m0.lemma_same_layout_wf(prev);
            if !m0.banzai_view() {
                ListEntry::lemma_fits_in_layout(m0, prev, addr);
            }
        }
        self.in_load_order_links.save(addr, maps);
        proof {
            prev.lemma_wrote_values_layout(*maps, self.in_load_order_links.writes(addr));
            m0.lemma_same_layout_trans(prev, *maps);
            m0.lemma_wrote_values_concat(prev, *maps, done, self.in_load_order_links.writes(addr));
            done = done + self.in_load_order_links.writes(addr);
        }
        let ghost prev = *maps;
        proof {
            m0.lemma_same_layout_wf(prev);
            if !m0.banzai_view() {
                ListEntry::lemma_fits_in_layout(m0, prev, (addr + 8) as u64);
            }
        }
        self.in_memory_order_links.save(addr + 8, maps);
        proof {
            prev.lemma_wrote_values_layout(*maps, self.in_memory_order_links.writes((addr + 8) as u64));
            m0.lemma_same_layout_trans(prev, *maps);
            m0.lemma_wrote_values_concat(prev, *maps, done, self.in_memory_order_links.writes((addr + 8) as u64));
            done = done + self.in_memory_order_links.writes((addr + 8) as u64);
        }
        let ghost prev = *maps;
        proof {
            m0.lemma_same_layout_wf(prev);
            if !m0.banzai_view() {
                ListEntry::lemma_fits_in_layout(m0, prev, (addr + 0x10) as u64);
            }
        }
        self.in_initialization_order_links.save(addr + 0x10, maps);
        proof {
            prev.lemma_wrote_values_layout(*maps, self.in_initialization_order_links.writes((addr + 0x10) as u64));
            m0.lemma_same_layout_trans(prev, *maps);
            m0.lemma_wrote_values_concat(prev, *maps, done, self.in_initialization_order_links.writes((addr + 0x10) as u64));
            done = done + self.in_initialization_order_links.writes((addr + 0x10) as u64);
        }
        store_dword(maps, Ghost(m0), Ghost(done), addr + 0x18, self.dll_base);
        proof {
            done = done.push(((addr + 0x18) as u64, le_bytes((self.dll_base) as nat, 4)));
        }
        store_dword(maps, Ghost(m0), Ghost(done), addr + 0x1c, self.entry_point);
        proof {
            done = done.push(((addr + 0x1c) as u64, le_bytes((self.entry_point) as nat, 4)));
        }
        store_dword(maps, Ghost(m0), Ghost(done), addr + 0x20, self.size_of_image);
        proof {
            done = done.push(((addr + 0x20) as u64, le_bytes((self.size_of_image) as nat, 4)));
        }
        let ghost prev = *maps;
        proof {
            m0.lemma_same_layout_wf(prev);
            if !m0.banzai_view() {
                UnicodeString::lemma_fits_in_layout(m0, prev, (addr + 0x24) as u64);
            }
        }
        self.full_dll_name.save(addr + 0x24, maps);
        proof {
            prev.lemma_wrote_values_layout(*maps, self.full_dll_name.writes((addr + 0x24) as u64));
            m0.lemma_same_layout_trans(prev, *maps);
            m0.lemma_wrote_values_concat(prev, *maps, done, self.full_dll_name.writes((addr + 0x24) as u64));
            done = done + self.full_dll_name.writes((addr + 0x24) as u64);
        }
        let ghost prev = *maps;
        proof {
            m0.lemma_same_layout_wf(prev);
            if !m0.banzai_view() {
                UnicodeString::lemma_fits_in_layout(m0, prev, (addr + 0x2c) as u64);
            }
        }
        self.base_dll_name.save(addr + 0x2c, maps);
        proof {
            prev.lemma_wrote_values_layout(*maps, self.base_dll_name.writes((addr + 0x2c) as u64));
            m0.lemma_same_layout_trans(prev, *maps);
            m0.lemma_wrote_values_concat(prev, *maps, done, self.base_dll_name.writes((addr + 0x2c) as u64));
            done = done + self.base_dll_name.writes((addr + 0x2c) as u64);
        }
        store_dword(maps, Ghost(m0), Ghost(done), addr + 0x34, self.flags);
        proof {
            done = done.push(((addr + 0x34) as u64, le_bytes((self.flags) as nat, 4)));
        }
        store_word(maps, Ghost(m0), Ghost(done), addr + 0x38, self.load_count);
        proof {
            done = done.push(((addr + 0x38) as u64, le_bytes((self.load_count) as nat, 2)));
        }
        store_word(maps, Ghost(m0), Ghost(done), addr + 0x3a, self.tls_index);
        proof {
            done = done.push(((addr + 0x3a) as u64, le_bytes((self.tls_index) as nat, 2)));
        }
        let ghost prev = *maps;
        proof {
            m0.lemma_same_layout_wf(prev);
            if !m0.banzai_view() {
                ListEntry::lemma_fits_in_layout(m0, prev, (addr + 0x3c) as u64);
            }
        }
        self.hash_links.save(addr + 0x3c, maps);
        proof {
            prev.lemma_wrote_values_layout(*maps, self.hash_links.writes((addr + 0x3c) as u64));
            m0.lemma_same_layout_trans(prev, *maps);
            m0.lemma_wrote_values_concat(prev, *maps, done, self.hash_links.writes((addr + 0x3c) as u64));
            done = done + self.hash_links.writes((addr + 0x3c) as u64);
        }
        store_dword(maps, Ghost(m0), Ghost(done), addr + 0x44, self.time_date_stamp);
        proof {
            done = done.push(((addr + 0x44) as u64, le_bytes((self.time_date_stamp) as nat, 4)));
        }
        assert(done =~= self.writes(addr));
    }
}

impl Default for LdrDataTableEntry {
    fn default() -> (r: Self)
        ensures
            r.is_fresh(),
    {
        Self::new()
    }
}

/// The loader data of a 32 bit process: the heads of its module lists.
#[derive(Debug)]
pub struct PebLdrData {
    pub length: u32,
    pub initializated: u32,
    pub sshandle: u32,
    pub in_load_order_module_list: ListEntry,
    pub in_memory_order_module_list: ListEntry,
    pub in_initialization_order_module_list: ListEntry,
    pub entry_in_progress: u32,
    pub shutdown_in_progress: u32,
    pub shutdown_thread_id: u32,
}

impl PebLdrData {
    /// The values that `new` gives.
    pub open spec fn is_fresh(self) -> bool {
        &&& self.length == 48
        &&& self.initializated == 0
        &&& self.sshandle == 0
        &&& self.in_load_order_module_list.is_fresh()
        &&& self.in_memory_order_module_list.is_fresh()
        &&& self.in_initialization_order_module_list.is_fresh()
        &&& self.entry_in_progress == 0
        &&& self.shutdown_in_progress == 0
        &&& self.shutdown_thread_id == 0
    }

    /// Every field that `load` reads at `addr` lies in the region that a
    /// lookup of its address finds.
    pub open spec fn readable(maps: &Maps, addr: u64) -> bool {
        &&& maps.wf()
        &&& addr + 0x30 <= u64::MAX
        &&& maps.fits(addr, 4)
        &&& maps.fits((addr + 4) as u64, 4)
        &&& maps.fits((addr + 8) as u64, 4)
        &&& ListEntry::readable(maps, (addr + 0xc) as u64)
        &&& ListEntry::readable(maps, (addr + 0x14) as u64)
        &&& ListEntry::readable(maps, (addr + 0x1c) as u64)
        &&& maps.fits((addr + 0x24) as u64, 4)
        &&& maps.fits((addr + 0x28) as u64, 4)
        &&& maps.fits((addr + 0x2c) as u64, 4)
    }

    /// `self` holds the values that `load` reads at `addr`.
    pub open spec fn loaded_from(self, maps: &Maps, addr: u64) -> bool {
        &&& self.length == maps.value_at(addr, 4)
        &&& self.initializated == maps.value_at((addr + 4) as u64, 4)
        &&& self.sshandle == maps.value_at((addr + 8) as u64, 4)
        &&& self.in_load_order_module_list.loaded_from(maps, (addr + 0xc) as u64)
        &&& self.in_memory_order_module_list.loaded_from(maps, (addr + 0x14) as u64)
        &&& self.in_initialization_order_module_list.loaded_from(maps, (addr + 0x1c) as u64)
        &&& self.entry_in_progress == maps.value_at((addr + 0x24) as u64, 4)
        &&& self.shutdown_in_progress == maps.value_at((addr + 0x28) as u64, 4)
        &&& self.shutdown_thread_id == maps.value_at((addr + 0x2c) as u64, 4)
    }

    /// Every field that `save` writes at `addr` fits in the region that a
    /// lookup of its address finds, whatever the lookup cache holds.
    pub open spec fn fits_in(maps: Maps, addr: u64) -> bool {
        &&& maps.fits_anyhow(addr, 4)
        &&& maps.fits_anyhow((addr + 4) as u64, 4)
        &&& maps.fits_anyhow((addr + 8) as u64, 4)
        &&& ListEntry::fits_in(maps, (addr + 0xc) as u64)
        &&& ListEntry::fits_in(maps, (addr + 0x14) as u64)
        &&& ListEntry::fits_in(maps, (addr + 0x1c) as u64)
        &&& maps.fits_anyhow((addr + 0x24) as u64, 4)
        &&& maps.fits_anyhow((addr + 0x28) as u64, 4)
        &&& maps.fits_anyhow((addr + 0x2c) as u64, 4)
    }

    /// The writes of `save` at `addr`, in order: address and little endian
    /// bytes of each field.
    pub open spec fn writes(self, addr: u64) -> Seq<(u64, Seq<u8>)> {
        seq![
            (addr, le_bytes((self.length) as nat, 4)),
            ((addr + 4) as u64, le_bytes((self.initializated) as nat, 4)),
            ((addr + 8) as u64, le_bytes((self.sshandle) as nat, 4)),
        ]
            + self.in_load_order_module_list.writes((addr + 0xc) as u64)
            + self.in_memory_order_module_list.writes((addr + 0x14) as u64)
            + self.in_initialization_order_module_list.writes((addr + 0x1c) as u64)
            + seq![
            ((addr + 0x24) as u64, le_bytes((self.entry_in_progress) as nat, 4)),
            ((addr + 0x28) as u64, le_bytes((self.shutdown_in_progress) as nat, 4)),
            ((addr + 0x2c) as u64, le_bytes((self.shutdown_thread_id) as nat, 4)),
        ]
    }

    /// The structure with its initial values (see `is_fresh`).
    pub fn new() -> (r: PebLdrData)
        ensures
            r.is_fresh(),
    {
        PebLdrData {
            length: 48,
            initializated: 0,
            sshandle: 0,
            in_load_order_module_list: ListEntry::new(),
            in_memory_order_module_list: ListEntry::new(),
            in_initialization_order_module_list: ListEntry::new(),
            entry_in_progress: 0,
            shutdown_in_progress: 0,
            shutdown_thread_id: 0,
        }
    }

    /// The size of the structure in emulated memory.
    pub fn size() -> (r: usize)
        ensures
            r == 48,
    {
        48
    }

    /// Reads the structure at `addr`.
    pub fn load(addr: u64, maps: &Maps) -> (r: PebLdrData)
        requires
            Self::readable(maps, addr),
        ensures
            r.loaded_from(maps, addr),
    {
        PebLdrData {
            length: maps.read_dword(addr).unwrap(),
            initializated: maps.read_dword(addr + 4).unwrap(),
            sshandle: maps.read_dword(addr + 8).unwrap(),
            in_load_order_module_list: ListEntry::load(addr + 0xc, maps),
            in_memory_order_module_list: ListEntry::load(addr + 0x14, maps),
            in_initialization_order_module_list: ListEntry::load(addr + 0x1c, maps),
            entry_in_progress: maps.read_dword(addr + 0x24).unwrap(),
            shutdown_in_progress: maps.read_dword(addr + 0x28).unwrap(),
            shutdown_thread_id: maps.read_dword(addr + 0x2c).unwrap(),
        }
    }

    /// Writes the fields at `addr`, one after the other (an unmapped field
    /// is tolerated only in banzai mode, and left unwritten).
    pub fn save(&self, addr: u64, maps: &mut Maps)
        requires
            old(maps).wf(),
            addr + 0x30 <= u64::MAX,
            !old(maps).banzai_view() ==> Self::fits_in(*old(maps), addr),
        ensures
            old(maps).wrote_values(*final(maps), self.writes(addr)),
    {
        let ghost m0 = *maps;
        let ghost mut done: Seq<(u64, Seq<u8>)> = Seq::empty();
        proof {
            m0.lemma_run_start();
        }
        store_dword(maps, Ghost(m0), Ghost(done), addr, self.length);
        proof {
            done = done.push((addr, le_bytes((self.length) as nat, 4)));
        }
        store_dword(maps, Ghost(m0), Ghost(done), addr + 4, self.initializated);
        proof {
            done = done.push(((addr + 4) as u64, le_bytes((self.initializated) as nat, 4)));
        }
        store_dword(maps, Ghost(m0), Ghost(done), addr + 8, self.sshandle);
        proof {
            done = done.push(((addr + 8) as u64, le_bytes((self.sshandle) as nat, 4)));
        }
        let ghost prev = *maps;
        proof {
            m0.lemma_same_layout_wf(prev);
            if !m0.banzai_view() {
                ListEntry::lemma_fits_in_layout(m0, prev, (addr + 0xc) as u64);
            }
        }
        self.in_load_order_module_list.save(addr + 0xc, maps);
        proof {
            prev.lemma_wrote_values_layout(*maps, self.in_load_order_module_list.writes((addr + 0xc) as u64));
            m0.lemma_same_layout_trans(prev, *maps);
            m0.lemma_wrote_values_concat(prev, *maps, done, self.in_load_order_module_list.writes((addr + 0xc) as u64));
            done = done + self.in_load_order_module_list.writes((addr + 0xc) as u64);
        }
        let ghost prev = *maps;
        proof {
            m0.lemma_same_layout_wf(prev);
            if !m0.banzai_view() {
                ListEntry::lemma_fits_in_layout(m0, prev, (addr + 0x14) as u64);
            }
        }
        self.in_memory_order_module_list.save(addr + 0x14, maps);
        proof {
            prev.lemma_wrote_values_layout(*maps, self.in_memory_order_module_list.writes((addr + 0x14) as u64));
            m0.lemma_same_layout_trans(prev, *maps);
            m0.lemma_wrote_values_concat(prev, *maps, done, self.in_memory_order_module_list.writes((addr + 0x14) as u64));
            done = done + self.in_memory_order_module_list.writes((addr + 0x14) as u64);
        }
        let ghost prev = *maps;
        proof {
            m0.lemma_same_layout_wf(prev);
            if !m0.banzai_view() {
                ListEntry::lemma_fits_in_layout(m0, prev, (addr + 0x1c) as u64);
            }
        }
        self.in_initialization_order_module_list.save(addr + 0x1c, maps);
        proof {
            prev.lemma_wrote_values_layout(*maps, self.in_initialization_order_module_list.writes((addr + 0x1c) as u64));
            m0.lemma_same_layout_trans(prev, *maps);
            m0.lemma_wrote_values_concat(prev, *maps, done, self.in_initialization_order_module_list.writes((addr + 0x1c) as u64));
            done = done + self.in_initialization_order_module_list.writes((addr + 0x1c) as u64);
        }
        store_dword(maps, Ghost(m0), Ghost(done), addr + 0x24, self.entry_in_progress);
        proof {
            done = done.push(((addr + 0x24) as u64, le_bytes((self.entry_in_progress) as nat, 4)));
        }
        store_dword(maps, Ghost(m0), Ghost(done), addr + 0x28, self.shutdown_in_progress);
        proof {
            done = done.push(((addr + 0x28) as u64, le_bytes((self.shutdown_in_progress) as nat, 4)));
        }
        store_dword(maps, Ghost(m0), Ghost(done), addr + 0x2c, self.shutdown_thread_id);
        proof {
            done = done.push(((addr + 0x2c) as u64, le_bytes((self.shutdown_thread_id) as nat, 4)));
        }
        assert(done =~= self.writes(addr));
    }
}

impl Default for PebLdrData {
    fn default() -> (r: Self)
        ensures
            r.is_fresh(),
    {
        Self::new()
    }
}

/// The loader data of a 64 bit process.
#[derive(Debug)]
pub struct PebLdrData64 {
    pub length: u32,
    pub initializated: u32,
    pub sshandle: u64,
    pub in_load_order_module_list: ListEntry64,
    pub in_memory_order_module_list: ListEntry64,
    pub in_initialization_order_module_list: ListEntry64,
    pub entry_in_progress: ListEntry64,
}

impl PebLdrData64 {
    /// The values that `new` gives.
    pub open spec fn is_fresh(self) -> bool {
        &&& self.length == 80
        &&& self.initializated == 0
        &&& self.sshandle == 0
        &&& self.in_load_order_module_list.is_fresh()
        &&& self.in_memory_order_module_list.is_fresh()
        &&& self.in_initialization_order_module_list.is_fresh()
        &&& self.entry_in_progress.is_fresh()
    }

    /// Every field that `load` reads at `addr` lies in the region that a
    /// lookup of its address finds.
    pub open spec fn readable(maps: &Maps, addr: u64) -> bool {
        &&& maps.wf()
        &&& addr + 0x50 <= u64::MAX
        &&& maps.fits(addr, 4)
        &&& maps.fits((addr + 4) as u64, 4)
        &&& maps.fits((addr + 8) as u64, 8)
        &&& ListEntry64::readable(maps, (addr + 0x10) as u64)
        &&& ListEntry64::readable(maps, (addr + 0x20) as u64)
        &&& ListEntry64::readable(maps, (addr + 0x30) as u64)
        &&& ListEntry64::readable(maps, (addr + 0x40) as u64)
    }

    /// `self` holds the values that `load` reads at `addr`.
    pub open spec fn loaded_from(self, maps: &Maps, addr: u64) -> bool {
        &&& self.length == maps.value_at(addr, 4)
        &&& self.initializated == maps.value_at((addr + 4) as u64, 4)
        &&& self.sshandle == maps.value_at((addr + 8) as u64, 8)
        &&& self.in_load_order_module_list.loaded_from(maps, (addr + 0x10) as u64)
        &&& self.in_memory_order_module_list.loaded_from(maps, (addr + 0x20) as u64)
        &&& self.in_initialization_order_module_list.loaded_from(maps, (addr + 0x30) as u64)
        &&& self.entry_in_progress.loaded_from(maps, (addr + 0x40) as u64)
    }

    /// Every field that `save` writes at `addr` fits in the region that a
    /// lookup of its address finds, whatever the lookup cache holds.
    pub open spec fn fits_in(maps: Maps, addr: u64) -> bool {
        &&& maps.fits_anyhow(addr, 4)
        &&& maps.fits_anyhow((addr + 4) as u64, 4)
        &&& maps.fits_anyhow((addr + 8) as u64, 8)
        &&& ListEntry64::fits_in(maps, (addr + 0x10) as u64)
        &&& ListEntry64::fits_in(maps, (addr + 0x20) as u64)
        &&& ListEntry64::fits_in(maps, (addr + 0x30) as u64)
        &&& ListEntry64::fits_in(maps, (addr + 0x40) as u64)
    }

    /// The writes of `save` at `addr`, in order: address and little endian
    /// bytes of each field.
    pub open spec fn writes(self, addr: u64) -> Seq<(u64, Seq<u8>)> {
        seq![
            (addr, le_bytes((self.length) as nat, 4)),
            ((addr + 4) as u64, le_bytes((self.initializated) as nat, 4)),
            ((addr + 8) as u64, le_bytes((self.sshandle) as nat, 8)),
        ]
            + self.in_load_order_module_list.writes((addr + 0x10) as u64)
            + self.in_memory_order_module_list.writes((addr + 0x20) as u64)
            + self.in_initialization_order_module_list.writes((addr + 0x30) as u64)
            + self.entry_in_progress.writes((addr + 0x40) as u64)
    }

    /// The structure with its initial values (see `is_fresh`).
    pub fn new() -> (r: PebLdrData64)
        ensures
            r.is_fresh(),
    {
        PebLdrData64 {
            length: 80,
            initializated: 0,
            sshandle: 0,
            in_load_order_module_list: ListEntry64::new(),
            in_memory_order_module_list: ListEntry64::new(),
            in_initialization_order_module_list: ListEntry64::new(),
            entry_in_progress: ListEntry64::new(),
        }
    }

    /// The size of the structure in emulated memory.
    pub fn size() -> (r: usize)
        ensures
            r == 80,
    {
        80
    }

    /// Reads the structure at `addr`.
    pub fn load(addr: u64, maps: &Maps) -> (r: PebLdrData64)
        requires
            Self::readable(maps, addr),
        ensures
            r.loaded_from(maps, addr),
    {
        PebLdrData64 {
            length: maps.read_dword(addr).unwrap(),
            initializated: maps.read_dword(addr + 4).unwrap(),
            sshandle: maps.read_qword(addr + 8).unwrap(),
            in_load_order_module_list: ListEntry64::load(addr + 0x10, maps),
            in_memory_order_module_list: ListEntry64::load(addr + 0x20, maps),
            in_initialization_order_module_list: ListEntry64::load(addr + 0x30, maps),
            entry_in_progress: ListEntry64::load(addr + 0x40, maps),
        }
    }

    /// Writes the fields at `addr`, one after the other (an unmapped field
    /// is tolerated only in banzai mode, and left unwritten).
    pub fn save(&self, addr: u64, maps: &mut Maps)
        requires
            old(maps).wf(),
            addr + 0x50 <= u64::MAX,
            !old(maps).banzai_view() ==> Self::fits_in(*old(maps), addr),
        ensures
            old(maps).wrote_values(*final(maps), self.writes(addr)),
    {
        let ghost m0 = *maps;
        let ghost mut done: Seq<(u64, Seq<u8>)> = Seq::empty();
        proof {
            m0.lemma_run_start();
        }
        store_dword(maps, Ghost(m0), Ghost(done), addr, self.length);
        proof {
            done = done.push((addr, le_bytes((self.length) as nat, 4)));
        }
        store_dword(maps, Ghost(m0), Ghost(done), addr + 4, self.initializated);
        proof {
            done = done.push(((addr + 4) as u64, le_bytes((self.initializated) as nat, 4)));
        }
        store_qword(maps, Ghost(m0), Ghost(done), addr + 8, self.sshandle);
        proof {
            done = done.push(((addr + 8) as u64, le_bytes((self.sshandle) as nat, 8)));
        }
        let ghost prev = *maps;
        proof {
            m0.lemma_same_layout_wf(prev);
            if !m0.banzai_view() {
                ListEntry64::lemma_fits_in_layout(m0, prev, (addr + 0x10) as u64);
            }
        }
        self.in_load_order_module_list.save(addr + 0x10, maps);
        proof {
            prev.lemma_wrote_values_layout(*maps, self.in_load_order_module_list.writes((addr + 0x10) as u64));
            m0.lemma_same_layout_trans(prev, *maps);
            m0.lemma_wrote_values_concat(prev, *maps, done, self.in_load_order_module_list.writes((addr + 0x10) as u64));
            done = done + self.in_load_order_module_list.writes((addr + 0x10) as u64);
        }
        let ghost prev = *maps;
        proof {
            m0.lemma_same_layout_wf(prev);
            if !m0.banzai_view() {
                ListEntry64::lemma_fits_in_layout(m0, prev, (addr + 0x20) as u64);
            }
        }
        self.in_memory_order_module_list.save(addr + 0x20, maps);
        proof {
            prev.lemma_wrote_values_layout(*maps, self.in_memory_order_module_list.writes((addr + 0x20) as u64));
            m0.lemma_same_layout_trans(prev, *maps);
            m0.lemma_wrote_values_concat(prev, *maps, done, self.in_memory_order_module_list.writes((addr + 0x20) as u64));
            done = done + self.in_memory_order_module_list.writes((addr + 0x20) as u64);
        }
        let ghost prev = *maps;
        proof {
            m0.lemma_same_layout_wf(prev);
            if !m0.banzai_view() {
                ListEntry64::lemma_fits_in_layout(m0, prev, (addr + 0x30) as u64);
            }
        }
        self.in_initialization_order_module_list.save(addr + 0x30, maps);
        proof {
            prev.lemma_wrote_values_layout(*maps, self.in_initialization_order_module_list.writes((addr + 0x30) as u64));
            m0.lemma_same_layout_trans(prev, *maps);
            m0.lemma_wrote_values_concat(prev, *maps, done, self.in_initialization_order_module_list.writes((addr + 0x30) as u64));
            done = done + self.in_initialization_order_module_list.writes((addr + 0x30) as u64);
        }
        let ghost prev = *maps;
        proof {
            m0.lemma_same_layout_wf(prev);
            if !m0.banzai_view() {
                ListEntry64::lemma_fits_in_layout(m0, prev, (addr + 0x40) as u64);
            }
        }
        self.entry_in_progress.save(addr + 0x40, maps);
        proof {
            prev.lemma_wrote_values_layout(*maps, self.entry_in_progress.writes((addr + 0x40) as u64));
            m0.lemma_same_layout_trans(prev, *maps);
            m0.lemma_wrote_values_concat(prev, *maps, done, self.entry_in_progress.writes((addr + 0x40) as u64));
            done = done + self.entry_in_progress.writes((addr + 0x40) as u64);
        }
        assert(done =~= self.writes(addr));
    }
}

impl Default for PebLdrData64 {
    fn default() -> (r: Self)
        ensures
            r.is_fresh(),
    {
        Self::new()
    }
}

/// A loaded module entry of a 64 bit process.
#[derive(Debug)]
pub struct LdrDataTableEntry64 {
    pub in_load_order_links: ListEntry64,
    pub in_memory_order_links: ListEntry64,
    pub in_initialization_order_links: ListEntry64,
    pub dll_base: u64,
    pub entry_point: u64,
    pub size_of_image: u64,
    pub full_dll_name: UnicodeString64,
    pub base_dll_name: UnicodeString64,
    pub flags: u32,
    pub load_count: u16,
    pub tls_index: u16,
    pub hash_links: ListEntry64,
    pub time_date_stamp: u32,
}

impl LdrDataTableEntry64 {
    /// The values that `new` gives.
    pub open spec fn is_fresh(self) -> bool {
        &&& self.in_load_order_links.is_fresh()
        &&& self.in_memory_order_links.is_fresh()
        &&& self.in_initialization_order_links.is_fresh()
        &&& self.dll_base == 0
        &&& self.entry_point == 0
        &&& self.size_of_image == 0
        &&& self.full_dll_name.is_fresh()
        &&& self.base_dll_name.is_fresh()
        &&& self.flags == 0
        &&& self.load_count == 0
        &&& self.tls_index == 0
        &&& self.hash_links.is_fresh()
        &&& self.time_date_stamp == 0
    }

    /// Every field that `load` reads at `addr` lies in the region that a
    /// lookup of its address finds.
    pub open spec fn readable(maps: &Maps, addr: u64) -> bool {
        &&& maps.wf()
        &&& addr + 0x93 <= u64::MAX
        &&& ListEntry64::readable(maps, addr)
        &&& ListEntry64::readable(maps, (addr + 0x10) as u64)
        &&& ListEntry64::readable(maps, (addr + 0x20) as u64)
        &&& maps.fits((addr + 0x30) as u64, 8)
        &&& maps.fits((addr + 0x38) as u64, 8)
        &&& maps.fits((addr + 0x40) as u64, 8)
        &&& UnicodeString64::readable(maps, (addr + 0x48) as u64)
        &&& UnicodeString64::readable(maps, (addr + 0x58) as u64)
        &&& maps.fits((addr + 0x68) as u64, 4)
        &&& maps.fits((addr + 0x7b) as u64, 2)
        &&& maps.fits((addr + 0x7d) as u64, 2)
        &&& ListEntry64::readable(maps, (addr + 0x7f) as u64)
        &&& maps.fits((addr + 0x8f) as u64, 4)
    }

    /// `self` holds the values that `load` reads at `addr`.
    pub open spec fn loaded_from(self, maps: &Maps, addr: u64) -> bool {
        &&& self.in_load_order_links.loaded_from(maps, addr)
        &&& self.in_memory_order_links.loaded_from(maps, (addr + 0x10) as u64)
        &&& self.in_initialization_order_links.loaded_from(maps, (addr + 0x20) as u64)
        &&& self.dll_base == maps.value_at((addr + 0x30) as u64, 8)
        &&& self.entry_point == maps.value_at((addr + 0x38) as u64, 8)
        &&& self.size_of_image == maps.value_at((addr + 0x40) as u64, 8)
        &&& self.full_dll_name.loaded_from(maps, (addr + 0x48) as u64)
        &&& self.base_dll_name.loaded_from(maps, (addr + 0x58) as u64)
        &&& self.flags == maps.value_at((addr + 0x68) as u64, 4)
        &&& self.load_count == maps.value_at((addr + 0x7b) as u64, 2)
        &&& self.tls_index == maps.value_at((addr + 0x7d) as u64, 2)
        &&& self.hash_links.loaded_from(maps, (addr + 0x7f) as u64)
        &&& self.time_date_stamp == maps.value_at((addr + 0x8f) as u64, 4)
    }

    /// Every field that `save` writes at `addr` fits in the region that a
    /// lookup of its address finds, whatever the lookup cache holds.
    pub open spec fn fits_in(maps: Maps, addr: u64) -> bool {
        &&& ListEntry64::fits_in(maps, addr)
        &&& ListEntry64::fits_in(maps, (addr + 0x10) as u64)
        &&& ListEntry64::fits_in(maps, (addr + 0x20) as u64)
        &&& maps.fits_anyhow((addr + 0x30) as u64, 8)
        &&& maps.fits_anyhow((addr + 0x38) as u64, 8)
        &&& maps.fits_anyhow((addr + 0x40) as u64, 8)
        &&& UnicodeString64::fits_in(maps, (addr + 0x48) as u64)
        &&& UnicodeString64::fits_in(maps, (addr + 0x58) as u64)
        &&& maps.fits_anyhow((addr + 0x68) as u64, 4)
        &&& maps.fits_anyhow((addr + 0x7b) as u64, 2)
        &&& maps.fits_anyhow((addr + 0x7d) as u64, 2)
        &&& ListEntry64::fits_in(maps, (addr + 0x7f) as u64)
        &&& maps.fits_anyhow((addr + 0x8f) as u64, 4)
    }

    /// The writes of `save` at `addr`, in order: address and little endian
    /// bytes of each field.
    pub open spec fn writes(self, addr: u64) -> Seq<(u64, Seq<u8>)> {
        self.in_load_order_links.writes(addr)
            + self.in_memory_order_links.writes((addr + 0x10) as u64)
            + self.in_initialization_order_links.writes((addr + 0x20) as u64)
            + seq![
            ((addr + 0x30) as u64, le_bytes((self.dll_base) as nat, 8)),
            ((addr + 0x38) as u64, le_bytes((self.entry_point) as nat, 8)),
            ((addr + 0x40) as u64, le_bytes((self.size_of_image) as nat, 8)),
        ]
            + self.full_dll_name.writes((addr + 0x48) as u64)
            + self.base_dll_name.writes((addr + 0x58) as u64)
            + seq![
            ((addr + 0x68) as u64, le_bytes((self.flags) as nat, 4)),
            ((addr + 0x7b) as u64, le_bytes((self.load_count) as nat, 2)),
            ((addr + 0x7d) as u64, le_bytes((self.tls_index) as nat, 2)),
        ]
            + self.hash_links.writes((addr + 0x7f) as u64)
            + seq![
            ((addr + 0x8f) as u64, le_bytes((self.time_date_stamp) as nat, 4)),
        ]
    }

    /// The structure with its initial values (see `is_fresh`).
    pub fn new() -> (r: LdrDataTableEntry64)
        ensures
            r.is_fresh(),
    {
        LdrDataTableEntry64 {
            in_load_order_links: ListEntry64::new(),
            in_memory_order_links: ListEntry64::new(),
            in_initialization_order_links: ListEntry64::new(),
            dll_base: 0,
            entry_point: 0,
            size_of_image: 0,
            full_dll_name: UnicodeString64::new(),
            base_dll_name: UnicodeString64::new(),
            flags: 0,
            load_count: 0,
            tls_index: 0,
            hash_links: ListEntry64::new(),
            time_date_stamp: 0,
        }
    }

    /// The size of the structure in emulated memory.
    pub fn size() -> (r: u64)
        ensures
            r == 0x100,
    {
        0x100
    }

    /// Reads the structure at `addr`.
    pub fn load(addr: u64, maps: &Maps) -> (r: LdrDataTableEntry64)
        requires
            Self::readable(maps, addr),
        ensures
            r.loaded_from(maps, addr),
    {
        LdrDataTableEntry64 {
            in_load_order_links: ListEntry64::load(addr, maps),
            in_memory_order_links: ListEntry64::load(addr + 0x10, maps),
            in_initialization_order_links: ListEntry64::load(addr + 0x20, maps),
            dll_base: maps.read_qword(addr + 0x30).unwrap(),
            entry_point: maps.read_qword(addr + 0x38).unwrap(),
            size_of_image: maps.read_qword(addr + 0x40).unwrap(),
            full_dll_name: UnicodeString64::load(addr + 0x48, maps),
            base_dll_name: UnicodeString64::load(addr + 0x58, maps),
            flags: maps.read_dword(addr + 0x68).unwrap(),
            load_count: maps.read_word(addr + 0x7b).unwrap(),
            tls_index: maps.read_word(addr + 0x7d).unwrap(),
            hash_links: ListEntry64::load(addr + 0x7f, maps),
            time_date_stamp: maps.read_dword(addr + 0x8f).unwrap(),
        }
    }

    /// Writes the fields at `addr`, one after the other (an unmapped field
    /// is tolerated only in banzai mode, and left unwritten).
    pub fn save(&self, addr: u64, maps: &mut Maps)
        requires
            old(maps).wf(),
            addr + 0x93 <= u64::MAX,
            !old(maps).banzai_view() ==> Self::fits_in(*old(maps), addr),
        ensures
            old(maps).wrote_values(*final(maps), self.writes(addr)),
    {
        let ghost m0 = *maps;
        let ghost mut done: Seq<(u64, Seq<u8>)> = Seq::empty();
        proof {
            m0.lemma_run_start();
        }
        let ghost prev = *maps;
        proof {
            m0.lemma_same_layout_wf(prev);
            if !m0.banzai_view() {
                ListEntry64::lemma_fits_in_layout(m0, prev, addr);
            }
        }
        self.in_load_order_links.save(addr, maps);
        proof {
            prev.lemma_wrote_values_layout(*maps, self.in_load_order_links.writes(addr));
            m0.lemma_same_layout_trans(prev, *maps);
            m0.lemma_wrote_values_concat(prev, *maps, done, self.in_load_order_links.writes(addr));
            done = done + self.in_load_order_links.writes(addr);
        }
        let ghost prev = *maps;
        proof {
            m0.lemma_same_layout_wf(prev);
            if !m0.banzai_view() {
                ListEntry64::lemma_fits_in_layout(m0, prev, (addr + 0x10) as u64);
            }
        }
        self.in_memory_order_links.save(addr + 0x10, maps);
        proof {
            prev.lemma_wrote_values_layout(*maps, self.in_memory_order_links.writes((addr + 0x10) as u64));
            m0.lemma_same_layout_trans(prev, *maps);
            m0.lemma_wrote_values_concat(prev, *maps, done, self.in_memory_order_links.writes((addr + 0x10) as u64));
            done = done + self.in_memory_order_links.writes((addr + 0x10) as u64);
        }
        let ghost prev = *maps;
        proof {
            m0.lemma_same_layout_wf(prev);
            if !m0.banzai_view() {
                ListEntry64::lemma_fits_in_layout(m0, prev, (addr + 0x20) as u64);
            }
        }
        self.in_initialization_order_links.save(addr + 0x20, maps);
        proof {
            prev.lemma_wrote_values_layout(*maps, self.in_initialization_order_links.writes((addr + 0x20) as u64));
            m0.lemma_same_layout_trans(prev, *maps);
            m0.lemma_wrote_values_concat(prev, *maps, done, self.in_initialization_order_links.writes((addr + 0x20) as u64));
            done = done + self.in_initialization_order_links.writes((addr + 0x20) as u64);
        }
        store_qword(maps, Ghost(m0), Ghost(done), addr + 0x30, self.dll_base);
        proof {
            done = done.push(((addr + 0x30) as u64, le_bytes((self.dll_base) as nat, 8)));
        }
        store_qword(maps, Ghost(m0), Ghost(done), addr + 0x38, self.entry_point);
        proof {
            done = done.push(((addr + 0x38) as u64, le_bytes((self.entry_point) as nat, 8)));
        }
        store_qword(maps, Ghost(m0), Ghost(done), addr + 0x40, self.size_of_image);
        proof {
            done = done.push(((addr + 0x40) as u64, le_bytes((self.size_of_image) as nat, 8)));
        }
        let ghost prev = *maps;
        proof {
            m0.lemma_same_layout_wf(prev);
            if !m0.banzai_view() {
                UnicodeString64::lemma_fits_in_layout(m0, prev, (addr + 0x48) as u64);
            }
        }
        self.full_dll_name.save(addr + 0x48, maps);
        proof {
            prev.lemma_wrote_values_layout(*maps, self.full_dll_name.writes((addr + 0x48) as u64));
            m0.lemma_same_layout_trans(prev, *maps);
            m0.lemma_wrote_values_concat(prev, *maps, done, self.full_dll_name.writes((addr + 0x48) as u64));
            done = done + self.full_dll_name.writes((addr + 0x48) as u64);
        }
        let ghost prev = *maps;
        proof {
            m0.lemma_same_layout_wf(prev);
            if !m0.banzai_view() {
                UnicodeString64::lemma_fits_in_layout(m0, prev, (addr + 0x58) as u64);
            }
        }
        self.base_dll_name.save(addr + 0x58, maps);
        proof {
            prev.lemma_wrote_values_layout(*maps, self.base_dll_name.writes((addr + 0x58) as u64));
            m0.lemma_same_layout_trans(prev, *maps);
            m0.lemma_wrote_values_concat(prev, *maps, done, self.base_dll_name.writes((addr + 0x58) as u64));
            done = done + self.base_dll_name.writes((addr + 0x58) as u64);
        }
        store_dword(maps, Ghost(m0), Ghost(done), addr + 0x68, self.flags);
        proof {
            done = done.push(((addr + 0x68) as u64, le_bytes((self.flags) as nat, 4)));
        }
        store_word(maps, Ghost(m0), Ghost(done), addr + 0x7b, self.load_count);
        proof {
            done = done.push(((addr + 0x7b) as u64, le_bytes((self.load_count) as nat, 2)));
        }
        store_word(maps, Ghost(m0), Ghost(done), addr + 0x7d, self.tls_index);
        proof {
            done = done.push(((addr + 0x7d) as u64, le_bytes((self.tls_index) as nat, 2)));
        }
        let ghost prev = *maps;
        proof {
            m0.lemma_same_layout_wf(prev);
            if !m0.banzai_view() {
                ListEntry64::lemma_fits_in_layout(m0, prev, (addr + 0x7f) as u64);
            }
        }
        self.hash_links.save(addr + 0x7f, maps);
        proof {
            prev.lemma_wrote_values_layout(*maps, self.hash_links.writes((addr + 0x7f) as u64));
            m0.lemma_same_layout_trans(prev, *maps);
            m0.lemma_wrote_values_concat(prev, *maps, done, self.hash_links.writes((addr + 0x7f) as u64));
            done = done + self.hash_links.writes((addr + 0x7f) as u64);
        }
        store_dword(maps, Ghost(m0), Ghost(done), addr + 0x8f, self.time_date_stamp);
        proof {
            done = done.push(((addr + 0x8f) as u64, le_bytes((self.time_date_stamp) as nat, 4)));
        }
        assert(done =~= self.writes(addr));
    }
}

impl Default for LdrDataTableEntry64 {
    fn default() -> (r: Self)
        ensures
            r.is_fresh(),
    {
        Self::new()
    }
}

/// A lookup in the export tables of an image: the function's name, the
/// ordinal and function address tables, and what was found in them.
#[derive(Debug)]
pub struct OrdinalTable {
    pub func_name: String,
    pub ordinal_tbl_rva: u64,
    pub ordinal_tbl: u64,
    pub ordinal: u64,
    pub func_addr_tbl_rva: u64,
    pub func_addr_tbl: u64,
    pub func_rva: u64,
    pub func_va: u64,
}

impl OrdinalTable {
    /// The values that `new` gives: an empty name and zeros.
    pub open spec fn is_fresh(self) -> bool {
        &&& self.func_name@ == Seq::<char>::empty()
        &&& self.ordinal_tbl_rva == 0
        &&& self.ordinal_tbl == 0
        &&& self.ordinal == 0
        &&& self.func_addr_tbl_rva == 0
        &&& self.func_addr_tbl == 0
        &&& self.func_rva == 0
        &&& self.func_va == 0
    }

    /// An empty lookup (see `is_fresh`).
    pub fn new() -> (r: OrdinalTable)
        ensures
            r.is_fresh(),
    {
        OrdinalTable {
            func_name: String::new(),
            ordinal_tbl_rva: 0,
            ordinal_tbl: 0,
            ordinal: 0,
            func_addr_tbl_rva: 0,
            func_addr_tbl: 0,
            func_rva: 0,
            func_va: 0,
        }
    }
}

impl Default for OrdinalTable {
    fn default() -> (r: Self)
        ensures
            r.is_fresh(),
    {
        Self::new()
    }
}

impl ListEntry {
    /// Saving the entry at `addr`, where one region alone holds its bytes,
    /// and loading it back from there gives the entry that was saved.
    pub proof fn lemma_load_after_save(self, before: Maps, after: Maps, addr: u64, k: usize)
        requires
            before.wf(),
            addr + 8 <= u64::MAX,
            before.sole_region(k, addr, 8),
            before.wrote_values(after, self.writes(addr)),
        ensures
            ListEntry::readable(&after, addr),
            self.loaded_from(&after, addr),
    {
        let ws = self.writes(addr);
        reveal_with_fuel(crate::fpu::f80::pow256, 9);
        assert(ws[0] == (addr, le_bytes(self.flink as nat, 4)));
        assert(ws[1] == ((addr + 4) as u64, le_bytes(self.blink as nat, 4)));
        assert forall|i: int| 0 <= i < ws.len() implies addr <= (#[trigger] ws[i]).0 && ws[i].0 + ws[i].1.len()
            <= addr + 8 by {
            assert(0 <= i < 2);
        }
        assert forall|i: int| 0 <= i < ws.len() implies (#[trigger] ws[i]).1.len() > 0 by {
            assert(0 <= i < 2);
        }
        before.lemma_sole_run(after, ws, k, addr, 8);
        before.lemma_same_layout_sole(after, k, addr, 8);
        before.lemma_same_layout_wf(after);
        let m0 = before.regions()[k];
        let m1 = after.regions()[k];
        assert forall|i: int| 0 <= i < ws.len() implies #[trigger] m0.holds(ws[i].0, ws[i].1.len()) by {
            assert(0 <= i < 2);
        }
        assert forall|i: int| 0 < i < ws.len() implies #[trigger] m0.offset(ws[i].0) + ws[i].1.len()
            <= m0.offset(ws[0].0) || m0.offset(ws[0].0) + ws[0].1.len() <= m0.offset(ws[i].0) by {
            assert(0 < i < 2);
        }
        m0.lemma_patched_value(m1, ws, 0, self.flink as nat, 4);
        after.lemma_sole_region_found(k, addr, 8, addr);
        assert forall|i: int| 1 < i < ws.len() implies #[trigger] m0.offset(ws[i].0) + ws[i].1.len()
            <= m0.offset(ws[1].0) || m0.offset(ws[1].0) + ws[1].1.len() <= m0.offset(ws[i].0) by {
            assert(1 < i < 2);
        }
        m0.lemma_patched_value(m1, ws, 1, self.blink as nat, 4);
        after.lemma_sole_region_found(k, addr, 8, (addr + 4) as u64);
    }
}

impl ListEntry64 {
    /// Saving the entry at `addr`, where one region alone holds its bytes,
    /// and loading it back from there gives the entry that was saved.
    pub proof fn lemma_load_after_save(self, before: Maps, after: Maps, addr: u64, k: usize)
        requires
            before.wf(),
            addr + 0x10 <= u64::MAX,
            before.sole_region(k, addr, 0x10),
            before.wrote_values(after, self.writes(addr)),
        ensures
            ListEntry64::readable(&after, addr),
            self.loaded_from(&after, addr),
    {
        let ws = self.writes(addr);
        reveal_with_fuel(crate::fpu::f80::pow256, 9);
        assert(ws[0] == (addr, le_bytes(self.flink as nat, 8)));
        assert(ws[1] == ((addr + 8) as u64, le_bytes(self.blink as nat, 8)));
        assert forall|i: int| 0 <= i < ws.len() implies addr <= (#[trigger] ws[i]).0 && ws[i].0 + ws[i].1.len()
            <= addr + 0x10 by {
            assert(0 <= i < 2);
        }
        assert forall|i: int| 0 <= i < ws.len() implies (#[trigger] ws[i]).1.len() > 0 by {
            assert(0 <= i < 2);
        }
        before.lemma_sole_run(after, ws, k, addr, 0x10);
        before.lemma_same_layout_sole(after, k, addr, 0x10);
        before.lemma_same_layout_wf(after);
        let m0 = before.regions()[k];
        let m1 = after.regions()[k];
        assert forall|i: int| 0 <= i < ws.len() implies #[trigger] m0.holds(ws[i].0, ws[i].1.len()) by {
            assert(0 <= i < 2);
        }
        assert forall|i: int| 0 < i < ws.len() implies #[trigger] m0.offset(ws[i].0) + ws[i].1.len()
            <= m0.offset(ws[0].0) || m0.offset(ws[0].0) + ws[0].1.len() <= m0.offset(ws[i].0) by {
            assert(0 < i < 2);
        }
        m0.lemma_patched_value(m1, ws, 0, self.flink as nat, 8);
        after.lemma_sole_region_found(k, addr, 0x10, addr);
        assert forall|i: int| 1 < i < ws.len() implies #[trigger] m0.offset(ws[i].0) + ws[i].1.len()
            <= m0.offset(ws[1].0) || m0.offset(ws[1].0) + ws[1].1.len() <= m0.offset(ws[i].0) by {
            assert(1 < i < 2);
        }
        m0.lemma_patched_value(m1, ws, 1, self.blink as nat, 8);
        after.lemma_sole_region_found(k, addr, 0x10, (addr + 8) as u64);
    }
}

impl UnicodeString {
    /// Saving the string at `addr`, where one region alone holds its bytes,
    /// and loading it back from there gives the string that was saved.
    pub proof fn lemma_load_after_save(self, before: Maps, after: Maps, addr: u64, k: usize)
        requires
            before.wf(),
            addr + 8 <= u64::MAX,
            before.sole_region(k, addr, 8),
            before.wrote_values(after, self.writes(addr)),
        ensures
            UnicodeString::readable(&after, addr),
            self.loaded_from(&after, addr),
    {
        let ws = self.writes(addr);
        reveal_with_fuel(crate::fpu::f80::pow256, 9);
        assert(ws[0] == (addr, le_bytes(self.length as nat, 2)));
        assert(ws[1] == ((addr + 2) as u64, le_bytes(self.maximum_length as nat, 2)));
        assert(ws[2] == ((addr + 4) as u64, le_bytes(self.buffer as nat, 4)));
        assert forall|i: int| 0 <= i < ws.len() implies addr <= (#[trigger] ws[i]).0 && ws[i].0 + ws[i].1.len()
            <= addr + 8 by {
            assert(0 <= i < 3);
        }
        assert forall|i: int| 0 <= i < ws.len() implies (#[trigger] ws[i]).1.len() > 0 by {
            assert(0 <= i < 3);
        }
        before.lemma_sole_run(after, ws, k, addr, 8);
        before.lemma_same_layout_sole(after, k, addr, 8);
        before.lemma_same_layout_wf(after);
        let m0 = before.regions()[k];
        let m1 = after.regions()[k];
        assert forall|i: int| 0 <= i < ws.len() implies #[trigger] m0.holds(ws[i].0, ws[i].1.len()) by {
            assert(0 <= i < 3);
        }
        assert forall|i: int| 0 < i < ws.len() implies #[trigger] m0.offset(ws[i].0) + ws[i].1.len()
            <= m0.offset(ws[0].0) || m0.offset(ws[0].0) + ws[0].1.len() <= m0.offset(ws[i].0) by {
            assert(0 < i < 3);
        }
        m0.lemma_patched_value(m1, ws, 0, self.length as nat, 2);
        after.lemma_sole_region_found(k, addr, 8, addr);
        assert forall|i: int| 1 < i < ws.len() implies #[trigger] m0.offset(ws[i].0) + ws[i].1.len()
            <= m0.offset(ws[1].0) || m0.offset(ws[1].0) + ws[1].1.len() <= m0.offset(ws[i].0) by {
            assert(1 < i < 3);
        }
        m0.lemma_patched_value(m1, ws, 1, self.maximum_length as nat, 2);
        after.lemma_sole_region_found(k, addr, 8, (addr + 2) as u64);
        assert forall|i: int| 2 < i < ws.len() implies #[trigger] m0.offset(ws[i].0) + ws[i].1.len()
            <= m0.offset(ws[2].0) || m0.offset(ws[2].0) + ws[2].1.len() <= m0.offset(ws[i].0) by {
            assert(2 < i < 3);
        }
        m0.lemma_patched_value(m1, ws, 2, self.buffer as nat, 4);
        after.lemma_sole_region_found(k, addr, 8, (addr + 4) as u64);
    }
}

impl UnicodeString64 {
    /// Saving the string at `addr`, where one region alone holds its bytes,
    /// and loading it back from there gives the string that was saved.
    pub proof fn lemma_load_after_save(self, before: Maps, after: Maps, addr: u64, k: usize)
        requires
            before.wf(),
            addr + 0x10 <= u64::MAX,
            before.sole_region(k, addr, 0x10),
            before.wrote_values(after, self.writes(addr)),
        ensures
            UnicodeString64::readable(&after, addr),
            self.loaded_from(&after, addr),
    {
        let ws = self.writes(addr);
        reveal_with_fuel(crate::fpu::f80::pow256, 9);
        assert(ws[0] == (addr, le_bytes(self.length as nat, 2)));
        assert(ws[1] == ((addr + 2) as u64, le_bytes(self.maximum_length as nat, 2)));
        assert(ws[2] == ((addr + 4) as u64, le_bytes(self.padding as nat, 4)));
        assert(ws[3] == ((addr + 8) as u64, le_bytes(self.buffer as nat, 8)));
        assert forall|i: int| 0 <= i < ws.len() implies addr <= (#[trigger] ws[i]).0 && ws[i].0 + ws[i].1.len()
            <= addr + 0x10 by {
            assert(0 <= i < 4);
        }
        assert forall|i: int| 0 <= i < ws.len() implies (#[trigger] ws[i]).1.len() > 0 by {
            assert(0 <= i < 4);
        }
        before.lemma_sole_run(after, ws, k, addr, 0x10);
        before.lemma_same_layout_sole(after, k, addr, 0x10);
        before.lemma_same_layout_wf(after);
        let m0 = before.regions()[k];
        let m1 = after.regions()[k];
        assert forall|i: int| 0 <= i < ws.len() implies #[trigger] m0.holds(ws[i].0, ws[i].1.len()) by {
            assert(0 <= i < 4);
        }
        assert forall|i: int| 0 < i < ws.len() implies #[trigger] m0.offset(ws[i].0) + ws[i].1.len()
            <= m0.offset(ws[0].0) || m0.offset(ws[0].0) + ws[0].1.len() <= m0.offset(ws[i].0) by {
            assert(0 < i < 4);
        }
        m0.lemma_patched_value(m1, ws, 0, self.length as nat, 2);
        after.lemma_sole_region_found(k, addr, 0x10, addr);
        assert forall|i: int| 1 < i < ws.len() implies #[trigger] m0.offset(ws[i].0) + ws[i].1.len()
            <= m0.offset(ws[1].0) || m0.offset(ws[1].0) + ws[1].1.len() <= m0.offset(ws[i].0) by {
            assert(1 < i < 4);
        }
        m0.lemma_patched_value(m1, ws, 1, self.maximum_length as nat, 2);
        after.lemma_sole_region_found(k, addr, 0x10, (addr + 2) as u64);
        assert forall|i: int| 2 < i < ws.len() implies #[trigger] m0.offset(ws[i].0) + ws[i].1.len()
            <= m0.offset(ws[2].0) || m0.offset(ws[2].0) + ws[2].1.len() <= m0.offset(ws[i].0) by {
            assert(2 < i < 4);
        }
        m0.lemma_patched_value(m1, ws, 2, self.padding as nat, 4);
        after.lemma_sole_region_found(k, addr, 0x10, (addr + 4) as u64);
        assert forall|i: int| 3 < i < ws.len() implies #[trigger] m0.offset(ws[i].0) + ws[i].1.len()
            <= m0.offset(ws[3].0) || m0.offset(ws[3].0) + ws[3].1.len() <= m0.offset(ws[i].0) by {
            assert(3 < i < 4);
        }
        m0.lemma_patched_value(m1, ws, 3, self.buffer as nat, 8);
        after.lemma_sole_region_found(k, addr, 0x10, (addr + 8) as u64);
    }
}

impl LdrDataTableEntry {
    /// Saving the entry at `addr`, where one region alone holds its bytes,
    /// and loading it back from there gives the entry that was saved.
    #[verifier::rlimit(80)]
    pub proof fn lemma_load_after_save(self, before: Maps, after: Maps, addr: u64, k: usize)
        requires
            before.wf(),
            addr + 0x48 <= u64::MAX,
            before.sole_region(k, addr, 0x48),
            before.wrote_values(after, self.writes(addr)),
        ensures
            LdrDataTableEntry::readable(&after, addr),
            self.loaded_from(&after, addr),
    {
        let ws = self.writes(addr);
        reveal_with_fuel(crate::fpu::f80::pow256, 9);
        assert(ws[0] == (addr, le_bytes(self.in_load_order_links.flink as nat, 4)));
        assert(ws[1] == ((addr + 4) as u64, le_bytes(self.in_load_order_links.blink as nat, 4)));
        assert(ws[2] == ((addr + 8) as u64, le_bytes(self.in_memory_order_links.flink as nat, 4)));
        assert(ws[3] == ((addr + 0xc) as u64, le_bytes(self.in_memory_order_links.blink as nat, 4)));
        assert(ws[4] == ((addr + 0x10) as u64, le_bytes(self.in_initialization_order_links.flink as nat, 4)));
        assert(ws[5] == ((addr + 0x14) as u64, le_bytes(self.in_initialization_order_links.blink as nat, 4)));
        assert(ws[6] == ((addr + 0x18) as u64, le_bytes(self.dll_base as nat, 4)));
        assert(ws[7] == ((addr + 0x1c) as u64, le_bytes(self.entry_point as nat, 4)));
        assert(ws[8] == ((addr + 0x20) as u64, le_bytes(self.size_of_image as nat, 4)));
        assert(ws[9] == ((addr + 0x24) as u64, le_bytes(self.full_dll_name.length as nat, 2)));
        assert(ws[10] == ((addr + 0x26) as u64, le_bytes(self.full_dll_name.maximum_length as nat, 2)));
        assert(ws[11] == ((addr + 0x28) as u64, le_bytes(self.full_dll_name.buffer as nat, 4)));
        assert(ws[12] == ((addr + 0x2c) as u64, le_bytes(self.base_dll_name.length as nat, 2)));
        assert(ws[13] == ((addr + 0x2e) as u64, le_bytes(self.base_dll_name.maximum_length as nat, 2)));
        assert(ws[14] == ((addr + 0x30) as u64, le_bytes(self.base_dll_name.buffer as nat, 4)));
        assert(ws[15] == ((addr + 0x34) as u64, le_bytes(self.flags as nat, 4)));
        assert(ws[16] == ((addr + 0x38) as u64, le_bytes(self.load_count as nat, 2)));
        assert(ws[17] == ((addr + 0x3a) as u64, le_bytes(self.tls_index as nat, 2)));
        assert(ws[18] == ((addr + 0x3c) as u64, le_bytes(self.hash_links.flink as nat, 4)));
        assert(ws[19] == ((addr + 0x40) as u64, le_bytes(self.hash_links.blink as nat, 4)));
        assert(ws[20] == ((addr + 0x44) as u64, le_bytes(self.time_date_stamp as nat, 4)));
        assert forall|i: int| 0 <= i < ws.len() implies addr <= (#[trigger] ws[i]).0 && ws[i].0 + ws[i].1.len()
            <= addr + 0x48 by {
            assert(0 <= i < 21);
        }
        assert forall|i: int| 0 <= i < ws.len() implies (#[trigger] ws[i]).1.len() > 0 by {
            assert(0 <= i < 21);
        }
        before.lemma_sole_run(after, ws, k, addr, 0x48);
        before.lemma_same_layout_sole(after, k, addr, 0x48);
        before.lemma_same_layout_wf(after);
        let m0 = before.regions()[k];
        let m1 = after.regions()[k];
        assert forall|i: int| 0 <= i < ws.len() implies #[trigger] m0.holds(ws[i].0, ws[i].1.len()) by {
            assert(0 <= i < 21);
        }
        assert forall|i: int| 0 < i < ws.len() implies #[trigger] m0.offset(ws[i].0) + ws[i].1.len()
            <= m0.offset(ws[0].0) || m0.offset(ws[0].0) + ws[0].1.len() <= m0.offset(ws[i].0) by {
            assert(0 < i < 21);
        }
        m0.lemma_patched_value(m1, ws, 0, self.in_load_order_links.flink as nat, 4);
        after.lemma_sole_region_found(k, addr, 0x48, addr);
        assert forall|i: int| 1 < i < ws.len() implies #[trigger] m0.offset(ws[i].0) + ws[i].1.len()
            <= m0.offset(ws[1].0) || m0.offset(ws[1].0) + ws[1].1.len() <= m0.offset(ws[i].0) by {
            assert(1 < i < 21);
        }
        m0.lemma_patched_value(m1, ws, 1, self.in_load_order_links.blink as nat, 4);
        after.lemma_sole_region_found(k, addr, 0x48, (addr + 4) as u64);
        assert forall|i: int| 2 < i < ws.len() implies #[trigger] m0.offset(ws[i].0) + ws[i].1.len()
            <= m0.offset(ws[2].0) || m0.offset(ws[2].0) + ws[2].1.len() <= m0.offset(ws[i].0) by {
            assert(2 < i < 21);
        }
        m0.lemma_patched_value(m1, ws, 2, self.in_memory_order_links.flink as nat, 4);
        after.lemma_sole_region_found(k, addr, 0x48, (addr + 8) as u64);
        assert forall|i: int| 3 < i < ws.len() implies #[trigger] m0.offset(ws[i].0) + ws[i].1.len()
            <= m0.offset(ws[3].0) || m0.offset(ws[3].0) + ws[3].1.len() <= m0.offset(ws[i].0) by {
            assert(3 < i < 21);
        }
        m0.lemma_patched_value(m1, ws, 3, self.in_memory_order_links.blink as nat, 4);
        after.lemma_sole_region_found(k, addr, 0x48, (addr + 0xc) as u64);
        assert forall|i: int| 4 < i < ws.len() implies #[trigger] m0.offset(ws[i].0) + ws[i].1.len()
            <= m0.offset(ws[4].0) || m0.offset(ws[4].0) + ws[4].1.len() <= m0.offset(ws[i].0) by {
            assert(4 < i < 21);
        }
        m0.lemma_patched_value(m1, ws, 4, self.in_initialization_order_links.flink as nat, 4);
        after.lemma_sole_region_found(k, addr, 0x48, (addr + 0x10) as u64);
        assert forall|i: int| 5 < i < ws.len() implies #[trigger] m0.offset(ws[i].0) + ws[i].1.len()
            <= m0.offset(ws[5].0) || m0.offset(ws[5].0) + ws[5].1.len() <= m0.offset(ws[i].0) by {
            assert(5 < i < 21);
        }
        m0.lemma_patched_value(m1, ws, 5, self.in_initialization_order_links.blink as nat, 4);
        after.lemma_sole_region_found(k, addr, 0x48, (addr + 0x14) as u64);
        assert forall|i: int| 6 < i < ws.len() implies #[trigger] m0.offset(ws[i].0) + ws[i].1.len()
            <= m0.offset(ws[6].0) || m0.offset(ws[6].0) + ws[6].1.len() <= m0.offset(ws[i].0) by {
            assert(6 < i < 21);
        }
        m0.lemma_patched_value(m1, ws, 6, self.dll_base as nat, 4);
        after.lemma_sole_region_found(k, addr, 0x48, (addr + 0x18) as u64);
        assert forall|i: int| 7 < i < ws.len() implies #[trigger] m0.offset(ws[i].0) + ws[i].1.len()
            <= m0.offset(ws[7].0) || m0.offset(ws[7].0) + ws[7].1.len() <= m0.offset(ws[i].0) by {
            assert(7 < i < 21);
        }
        m0.lemma_patched_value(m1, ws, 7, self.entry_point as nat, 4);
        after.lemma_sole_region_found(k, addr, 0x48, (addr + 0x1c) as u64);
        assert forall|i: int| 8 < i < ws.len() implies #[trigger] m0.offset(ws[i].0) + ws[i].1.len()
            <= m0.offset(ws[8].0) || m0.offset(ws[8].0) + ws[8].1.len() <= m0.offset(ws[i].0) by {
            assert(8 < i < 21);
        }
        m0.lemma_patched_value(m1, ws, 8, self.size_of_image as nat, 4);
        after.lemma_sole_region_found(k, addr, 0x48, (addr + 0x20) as u64);
        assert forall|i: int| 9 < i < ws.len() implies #[trigger] m0.offset(ws[i].0) + ws[i].1.len()
            <= m0.offset(ws[9].0) || m0.offset(ws[9].0) + ws[9].1.len() <= m0.offset(ws[i].0) by {
            assert(9 < i < 21);
        }
        m0.lemma_patched_value(m1, ws, 9, self.full_dll_name.length as nat, 2);
        after.lemma_sole_region_found(k, addr, 0x48, (addr + 0x24) as u64);
        assert forall|i: int| 10 < i < ws.len() implies #[trigger] m0.offset(ws[i].0) + ws[i].1.len()
            <= m0.offset(ws[10].0) || m0.offset(ws[10].0) + ws[10].1.len() <= m0.offset(ws[i].0) by {
            assert(10 < i < 21);
        }
        m0.lemma_patched_value(m1, ws, 10, self.full_dll_name.maximum_length as nat, 2);
        after.lemma_sole_region_found(k, addr, 0x48, (addr + 0x26) as u64);
        assert forall|i: int| 11 < i < ws.len() implies #[trigger] m0.offset(ws[i].0) + ws[i].1.len()
            <= m0.offset(ws[11].0) || m0.offset(ws[11].0) + ws[11].1.len() <= m0.offset(ws[i].0) by {
            assert(11 < i < 21);
        }
        m0.lemma_patched_value(m1, ws, 11, self.full_dll_name.buffer as nat, 4);
        after.lemma_sole_region_found(k, addr, 0x48, (addr + 0x28) as u64);
        assert forall|i: int| 12 < i < ws.len() implies #[trigger] m0.offset(ws[i].0) + ws[i].1.len()
            <= m0.offset(ws[12].0) || m0.offset(ws[12].0) + ws[12].1.len() <= m0.offset(ws[i].0) by {
            assert(12 < i < 21);
        }
        m0.lemma_patched_value(m1, ws, 12, self.base_dll_name.length as nat, 2);
        after.lemma_sole_region_found(k, addr, 0x48, (addr + 0x2c) as u64);
        assert forall|i: int| 13 < i < ws.len() implies #[trigger] m0.offset(ws[i].0) + ws[i].1.len()
            <= m0.offset(ws[13].0) || m0.offset(ws[13].0) + ws[13].1.len() <= m0.offset(ws[i].0) by {
            assert(13 < i < 21);
        }
        m0.lemma_patched_value(m1, ws, 13, self.base_dll_name.maximum_length as nat, 2);
        after.lemma_sole_region_found(k, addr, 0x48, (addr + 0x2e) as u64);
        assert forall|i: int| 14 < i < ws.len() implies #[trigger] m0.offset(ws[i].0) + ws[i].1.len()
            <= m0.offset(ws[14].0) || m0.offset(ws[14].0) + ws[14].1.len() <= m0.offset(ws[i].0) by {
            assert(14 < i < 21);
        }
        m0.lemma_patched_value(m1, ws, 14, self.base_dll_name.buffer as nat, 4);
        after.lemma_sole_region_found(k, addr, 0x48, (addr + 0x30) as u64);
        assert forall|i: int| 15 < i < ws.len() implies #[trigger] m0.offset(ws[i].0) + ws[i].1.len()
            <= m0.offset(ws[15].0) || m0.offset(ws[15].0) + ws[15].1.len() <= m0.offset(ws[i].0) by {
            assert(15 < i < 21);
        }
        m0.lemma_patched_value(m1, ws, 15, self.flags as nat, 4);
        after.lemma_sole_region_found(k, addr, 0x48, (addr + 0x34) as u64);
        assert forall|i: int| 16 < i < ws.len() implies #[trigger] m0.offset(ws[i].0) + ws[i].1.len()
            <= m0.offset(ws[16].0) || m0.offset(ws[16].0) + ws[16].1.len() <= m0.offset(ws[i].0) by {
            assert(16 < i < 21);
        }
        m0.lemma_patched_value(m1, ws, 16, self.load_count as nat, 2);
        after.lemma_sole_region_found(k, addr, 0x48, (addr + 0x38) as u64);
        assert forall|i: int| 17 < i < ws.len() implies #[trigger] m0.offset(ws[i].0) + ws[i].1.len()
            <= m0.offset(ws[17].0) || m0.offset(ws[17].0) + ws[17].1.len() <= m0.offset(ws[i].0) by {
            assert(17 < i < 21);
        }
        m0.lemma_patched_value(m1, ws, 17, self.tls_index as nat, 2);
        after.lemma_sole_region_found(k, addr, 0x48, (addr + 0x3a) as u64);
        assert forall|i: int| 18 < i < ws.len() implies #[trigger] m0.offset(ws[i].0) + ws[i].1.len()
            <= m0.offset(ws[18].0) || m0.offset(ws[18].0) + ws[18].1.len() <= m0.offset(ws[i].0) by {
            assert(18 < i < 21);
        }
        m0.lemma_patched_value(m1, ws, 18, self.hash_links.flink as nat, 4);
        after.lemma_sole_region_found(k, addr, 0x48, (addr + 0x3c) as u64);
        assert forall|i: int| 19 < i < ws.len() implies #[trigger] m0.offset(ws[i].0) + ws[i].1.len()
            <= m0.offset(ws[19].0) || m0.offset(ws[19].0) + ws[19].1.len() <= m0.offset(ws[i].0) by {
            assert(19 < i < 21);
        }
        m0.lemma_patched_value(m1, ws, 19, self.hash_links.blink as nat, 4);
        after.lemma_sole_region_found(k, addr, 0x48, (addr + 0x40) as u64);
        assert forall|i: int| 20 < i < ws.len() implies #[trigger] m0.offset(ws[i].0) + ws[i].1.len()
            <= m0.offset(ws[20].0) || m0.offset(ws[20].0) + ws[20].1.len() <= m0.offset(ws[i].0) by {
            assert(20 < i < 21);
        }
        m0.lemma_patched_value(m1, ws, 20, self.time_date_stamp as nat, 4);
        after.lemma_sole_region_found(k, addr, 0x48, (addr + 0x44) as u64);
    }
}

impl LdrDataTableEntry64 {
    /// Saving the entry at `addr`, where one region alone holds its bytes,
    /// and loading it back from there gives the entry that was saved.
    #[verifier::rlimit(80)]
    pub proof fn lemma_load_after_save(self, before: Maps, after: Maps, addr: u64, k: usize)
        requires
            before.wf(),
            addr + 0x93 <= u64::MAX,
            before.sole_region(k, addr, 0x93),
            before.wrote_values(after, self.writes(addr)),
        ensures
            LdrDataTableEntry64::readable(&after, addr),
            self.loaded_from(&after, addr),
    {
        let ws = self.writes(addr);
        reveal_with_fuel(crate::fpu::f80::pow256, 9);
        assert(ws[0] == (addr, le_bytes(self.in_load_order_links.flink as nat, 8)));
        assert(ws[1] == ((addr + 8) as u64, le_bytes(self.in_load_order_links.blink as nat, 8)));
        assert(ws[2] == ((addr + 0x10) as u64, le_bytes(self.in_memory_order_links.flink as nat, 8)));
        assert(ws[3] == ((addr + 0x18) as u64, le_bytes(self.in_memory_order_links.blink as nat, 8)));
        assert(ws[4] == ((addr + 0x20) as u64, le_bytes(self.in_initialization_order_links.flink as nat, 8)));
        assert(ws[5] == ((addr + 0x28) as u64, le_bytes(self.in_initialization_order_links.blink as nat, 8)));
        assert(ws[6] == ((addr + 0x30) as u64, le_bytes(self.dll_base as nat, 8)));
        assert(ws[7] == ((addr + 0x38) as u64, le_bytes(self.entry_point as nat, 8)));
        assert(ws[8] == ((addr + 0x40) as u64, le_bytes(self.size_of_image as nat, 8)));
        assert(ws[9] == ((addr + 0x48) as u64, le_bytes(self.full_dll_name.length as nat, 2)));
        assert(ws[10] == ((addr + 0x4a) as u64, le_bytes(self.full_dll_name.maximum_length as nat, 2)));
        assert(ws[11] == ((addr + 0x4c) as u64, le_bytes(self.full_dll_name.padding as nat, 4)));
        assert(ws[12] == ((addr + 0x50) as u64, le_bytes(self.full_dll_name.buffer as nat, 8)));
        assert(ws[13] == ((addr + 0x58) as u64, le_bytes(self.base_dll_name.length as nat, 2)));
        assert(ws[14] == ((addr + 0x5a) as u64, le_bytes(self.base_dll_name.maximum_length as nat, 2)));
        assert(ws[15] == ((addr + 0x5c) as u64, le_bytes(self.base_dll_name.padding as nat, 4)));
        assert(ws[16] == ((addr + 0x60) as u64, le_bytes(self.base_dll_name.buffer as nat, 8)));
        assert(ws[17] == ((addr + 0x68) as u64, le_bytes(self.flags as nat, 4)));
        assert(ws[18] == ((addr + 0x7b) as u64, le_bytes(self.load_count as nat, 2)));
        assert(ws[19] == ((addr + 0x7d) as u64, le_bytes(self.tls_index as nat, 2)));
        assert(ws[20] == ((addr + 0x7f) as u64, le_bytes(self.hash_links.flink as nat, 8)));
        assert(ws[21] == ((addr + 0x87) as u64, le_bytes(self.hash_links.blink as nat, 8)));
        assert(ws[22] == ((addr + 0x8f) as u64, le_bytes(self.time_date_stamp as nat, 4)));
        assert forall|i: int| 0 <= i < ws.len() implies addr <= (#[trigger] ws[i]).0 && ws[i].0 + ws[i].1.len()
            <= addr + 0x93 by {
            assert(0 <= i < 23);
        }
        assert forall|i: int| 0 <= i < ws.len() implies (#[trigger] ws[i]).1.len() > 0 by {
            assert(0 <= i < 23);
        }
        before.lemma_sole_run(after, ws, k, addr, 0x93);
        before.lemma_same_layout_sole(after, k, addr, 0x93);
        before.lemma_same_layout_wf(after);
        let m0 = before.regions()[k];
        let m1 = after.regions()[k];
        assert forall|i: int| 0 <= i < ws.len() implies #[trigger] m0.holds(ws[i].0, ws[i].1.len()) by {
            assert(0 <= i < 23);
        }
        assert forall|i: int| 0 < i < ws.len() implies #[trigger] m0.offset(ws[i].0) + ws[i].1.len()
            <= m0.offset(ws[0].0) || m0.offset(ws[0].0) + ws[0].1.len() <= m0.offset(ws[i].0) by {
            assert(0 < i < 23);
        }
        m0.lemma_patched_value(m1, ws, 0, self.in_load_order_links.flink as nat, 8);
        after.lemma_sole_region_found(k, addr, 0x93, addr);
        assert forall|i: int| 1 < i < ws.len() implies #[trigger] m0.offset(ws[i].0) + ws[i].1.len()
            <= m0.offset(ws[1].0) || m0.offset(ws[1].0) + ws[1].1.len() <= m0.offset(ws[i].0) by {
            assert(1 < i < 23);
        }
        m0.lemma_patched_value(m1, ws, 1, self.in_load_order_links.blink as nat, 8);
        after.lemma_sole_region_found(k, addr, 0x93, (addr + 8) as u64);
        assert forall|i: int| 2 < i < ws.len() implies #[trigger] m0.offset(ws[i].0) + ws[i].1.len()
            <= m0.offset(ws[2].0) || m0.offset(ws[2].0) + ws[2].1.len() <= m0.offset(ws[i].0) by {
            assert(2 < i < 23);
        }
        m0.lemma_patched_value(m1, ws, 2, self.in_memory_order_links.flink as nat, 8);
        after.lemma_sole_region_found(k, addr, 0x93, (addr + 0x10) as u64);
        assert forall|i: int| 3 < i < ws.len() implies #[trigger] m0.offset(ws[i].0) + ws[i].1.len()
            <= m0.offset(ws[3].0) || m0.offset(ws[3].0) + ws[3].1.len() <= m0.offset(ws[i].0) by {
            assert(3 < i < 23);
        }
        m0.lemma_patched_value(m1, ws, 3, self.in_memory_order_links.blink as nat, 8);
        after.lemma_sole_region_found(k, addr, 0x93, (addr + 0x18) as u64);
        assert forall|i: int| 4 < i < ws.len() implies #[trigger] m0.offset(ws[i].0) + ws[i].1.len()
            <= m0.offset(ws[4].0) || m0.offset(ws[4].0) + ws[4].1.len() <= m0.offset(ws[i].0) by {
            assert(4 < i < 23);
        }
        m0.lemma_patched_value(m1, ws, 4, self.in_initialization_order_links.flink as nat, 8);
        after.lemma_sole_region_found(k, addr, 0x93, (addr + 0x20) as u64);
        assert forall|i: int| 5 < i < ws.len() implies #[trigger] m0.offset(ws[i].0) + ws[i].1.len()
            <= m0.offset(ws[5].0) || m0.offset(ws[5].0) + ws[5].1.len() <= m0.offset(ws[i].0) by {
            assert(5 < i < 23);
        }
        m0.lemma_patched_value(m1, ws, 5, self.in_initialization_order_links.blink as nat, 8);
        after.lemma_sole_region_found(k, addr, 0x93, (addr + 0x28) as u64);
        assert forall|i: int| 6 < i < ws.len() implies #[trigger] m0.offset(ws[i].0) + ws[i].1.len()
            <= m0.offset(ws[6].0) || m0.offset(ws[6].0) + ws[6].1.len() <= m0.offset(ws[i].0) by {
            assert(6 < i < 23);
        }
        m0.lemma_patched_value(m1, ws, 6, self.dll_base as nat, 8);
        after.lemma_sole_region_found(k, addr, 0x93, (addr + 0x30) as u64);
        assert forall|i: int| 7 < i < ws.len() implies #[trigger] m0.offset(ws[i].0) + ws[i].1.len()
            <= m0.offset(ws[7].0) || m0.offset(ws[7].0) + ws[7].1.len() <= m0.offset(ws[i].0) by {
            assert(7 < i < 23);
        }
        m0.lemma_patched_value(m1, ws, 7, self.entry_point as nat, 8);
        after.lemma_sole_region_found(k, addr, 0x93, (addr + 0x38) as u64);
        assert forall|i: int| 8 < i < ws.len() implies #[trigger] m0.offset(ws[i].0) + ws[i].1.len()
            <= m0.offset(ws[8].0) || m0.offset(ws[8].0) + ws[8].1.len() <= m0.offset(ws[i].0) by {
            assert(8 < i < 23);
        }
        m0.lemma_patched_value(m1, ws, 8, self.size_of_image as nat, 8);
        after.lemma_sole_region_found(k, addr, 0x93, (addr + 0x40) as u64);
        assert forall|i: int| 9 < i < ws.len() implies #[trigger] m0.offset(ws[i].0) + ws[i].1.len()
            <= m0.offset(ws[9].0) || m0.offset(ws[9].0) + ws[9].1.len() <= m0.offset(ws[i].0) by {
            assert(9 < i < 23);
        }
        m0.lemma_patched_value(m1, ws, 9, self.full_dll_name.length as nat, 2);
        after.lemma_sole_region_found(k, addr, 0x93, (addr + 0x48) as u64);
        assert forall|i: int| 10 < i < ws.len() implies #[trigger] m0.offset(ws[i].0) + ws[i].1.len()
            <= m0.offset(ws[10].0) || m0.offset(ws[10].0) + ws[10].1.len() <= m0.offset(ws[i].0) by {
            assert(10 < i < 23);
        }
        m0.lemma_patched_value(m1, ws, 10, self.full_dll_name.maximum_length as nat, 2);
        after.lemma_sole_region_found(k, addr, 0x93, (addr + 0x4a) as u64);
        assert forall|i: int| 11 < i < ws.len() implies #[trigger] m0.offset(ws[i].0) + ws[i].1.len()
            <= m0.offset(ws[11].0) || m0.offset(ws[11].0) + ws[11].1.len() <= m0.offset(ws[i].0) by {
            assert(11 < i < 23);
        }
        m0.lemma_patched_value(m1, ws, 11, self.full_dll_name.padding as nat, 4);
        after.lemma_sole_region_found(k, addr, 0x93, (addr + 0x4c) as u64);
        assert forall|i: int| 12 < i < ws.len() implies #[trigger] m0.offset(ws[i].0) + ws[i].1.len()
            <= m0.offset(ws[12].0) || m0.offset(ws[12].0) + ws[12].1.len() <= m0.offset(ws[i].0) by {
            assert(12 < i < 23);
        }
        m0.lemma_patched_value(m1, ws, 12, self.full_dll_name.buffer as nat, 8);
        after.lemma_sole_region_found(k, addr, 0x93, (addr + 0x50) as u64);
        assert forall|i: int| 13 < i < ws.len() implies #[trigger] m0.offset(ws[i].0) + ws[i].1.len()
            <= m0.offset(ws[13].0) || m0.offset(ws[13].0) + ws[13].1.len() <= m0.offset(ws[i].0) by {
            assert(13 < i < 23);
        }
        m0.lemma_patched_value(m1, ws, 13, self.base_dll_name.length as nat, 2);
        after.lemma_sole_region_found(k, addr, 0x93, (addr + 0x58) as u64);
        assert forall|i: int| 14 < i < ws.len() implies #[trigger] m0.offset(ws[i].0) + ws[i].1.len()
            <= m0.offset(ws[14].0) || m0.offset(ws[14].0) + ws[14].1.len() <= m0.offset(ws[i].0) by {
            assert(14 < i < 23);
        }
        m0.lemma_patched_value(m1, ws, 14, self.base_dll_name.maximum_length as nat, 2);
        after.lemma_sole_region_found(k, addr, 0x93, (addr + 0x5a) as u64);
        assert forall|i: int| 15 < i < ws.len() implies #[trigger] m0.offset(ws[i].0) + ws[i].1.len()
            <= m0.offset(ws[15].0) || m0.offset(ws[15].0) + ws[15].1.len() <= m0.offset(ws[i].0) by {
            assert(15 < i < 23);
        }
        m0.lemma_patched_value(m1, ws, 15, self.base_dll_name.padding as nat, 4);
        after.lemma_sole_region_found(k, addr, 0x93, (addr + 0x5c) as u64);
        assert forall|i: int| 16 < i < ws.len() implies #[trigger] m0.offset(ws[i].0) + ws[i].1.len()
            <= m0.offset(ws[16].0) || m0.offset(ws[16].0) + ws[16].1.len() <= m0.offset(ws[i].0) by {
            assert(16 < i < 23);
        }
        m0.lemma_patched_value(m1, ws, 16, self.base_dll_name.buffer as nat, 8);
        after.lemma_sole_region_found(k, addr, 0x93, (addr + 0x60) as u64);
        assert forall|i: int| 17 < i < ws.len() implies #[trigger] m0.offset(ws[i].0) + ws[i].1.len()
            <= m0.offset(ws[17].0) || m0.offset(ws[17].0) + ws[17].1.len() <= m0.offset(ws[i].0) by {
            assert(17 < i < 23);
        }
        m0.lemma_patched_value(m1, ws, 17, self.flags as nat, 4);
        after.lemma_sole_region_found(k, addr, 0x93, (addr + 0x68) as u64);
        assert forall|i: int| 18 < i < ws.len() implies #[trigger] m0.offset(ws[i].0) + ws[i].1.len()
            <= m0.offset(ws[18].0) || m0.offset(ws[18].0) + ws[18].1.len() <= m0.offset(ws[i].0) by {
            assert(18 < i < 23);
        }
        m0.lemma_patched_value(m1, ws, 18, self.load_count as nat, 2);
        after.lemma_sole_region_found(k, addr, 0x93, (addr + 0x7b) as u64);
        assert forall|i: int| 19 < i < ws.len() implies #[trigger] m0.offset(ws[i].0) + ws[i].1.len()
            <= m0.offset(ws[19].0) || m0.offset(ws[19].0) + ws[19].1.len() <= m0.offset(ws[i].0) by {
            assert(19 < i < 23);
        }
        m0.lemma_patched_value(m1, ws, 19, self.tls_index as nat, 2);
        after.lemma_sole_region_found(k, addr, 0x93, (addr + 0x7d) as u64);
        assert forall|i: int| 20 < i < ws.len() implies #[trigger] m0.offset(ws[i].0) + ws[i].1.len()
            <= m0.offset(ws[20].0) || m0.offset(ws[20].0) + ws[20].1.len() <= m0.offset(ws[i].0) by {
            assert(20 < i < 23);
        }
        m0.lemma_patched_value(m1, ws, 20, self.hash_links.flink as nat, 8);
        after.lemma_sole_region_found(k, addr, 0x93, (addr + 0x7f) as u64);
        assert forall|i: int| 21 < i < ws.len() implies #[trigger] m0.offset(ws[i].0) + ws[i].1.len()
            <= m0.offset(ws[21].0) || m0.offset(ws[21].0) + ws[21].1.len() <= m0.offset(ws[i].0) by {
            assert(21 < i < 23);
        }
        m0.lemma_patched_value(m1, ws, 21, self.hash_links.blink as nat, 8);
        after.lemma_sole_region_found(k, addr, 0x93, (addr + 0x87) as u64);
        assert forall|i: int| 22 < i < ws.len() implies #[trigger] m0.offset(ws[i].0) + ws[i].1.len()
            <= m0.offset(ws[22].0) || m0.offset(ws[22].0) + ws[22].1.len() <= m0.offset(ws[i].0) by {
            assert(22 < i < 23);
        }
        m0.lemma_patched_value(m1, ws, 22, self.time_date_stamp as nat, 4);
        after.lemma_sole_region_found(k, addr, 0x93, (addr + 0x8f) as u64);
    }
}

impl PebLdrData {
    /// Saving the loader data at `addr`, where one region alone holds its bytes,
    /// and loading it back from there gives the loader data that was saved.
    pub proof fn lemma_load_after_save(self, before: Maps, after: Maps, addr: u64, k: usize)
        requires
            before.wf(),
            addr + 0x30 <= u64::MAX,
            before.sole_region(k, addr, 0x30),
            before.wrote_values(after, self.writes(addr)),
        ensures
            PebLdrData::readable(&after, addr),
            self.loaded_from(&after, addr),
    {
        let ws = self.writes(addr);
        reveal_with_fuel(crate::fpu::f80::pow256, 9);
        assert(ws[0] == (addr, le_bytes(self.length as nat, 4)));
        assert(ws[1] == ((addr + 4) as u64, le_bytes(self.initializated as nat, 4)));
        assert(ws[2] == ((addr + 8) as u64, le_bytes(self.sshandle as nat, 4)));
        assert(ws[3] == ((addr + 0xc) as u64, le_bytes(self.in_load_order_module_list.flink as nat, 4)));
        assert(ws[4] == ((addr + 0x10) as u64, le_bytes(self.in_load_order_module_list.blink as nat, 4)));
        assert(ws[5] == ((addr + 0x14) as u64, le_bytes(self.in_memory_order_module_list.flink as nat, 4)));
        assert(ws[6] == ((addr + 0x18) as u64, le_bytes(self.in_memory_order_module_list.blink as nat, 4)));
        assert(ws[7] == ((addr + 0x1c) as u64, le_bytes(self.in_initialization_order_module_list.flink as nat, 4)));
        assert(ws[8] == ((addr + 0x20) as u64, le_bytes(self.in_initialization_order_module_list.blink as nat, 4)));
        assert(ws[9] == ((addr + 0x24) as u64, le_bytes(self.entry_in_progress as nat, 4)));
        assert(ws[10] == ((addr + 0x28) as u64, le_bytes(self.shutdown_in_progress as nat, 4)));
        assert(ws[11] == ((addr + 0x2c) as u64, le_bytes(self.shutdown_thread_id as nat, 4)));
        assert forall|i: int| 0 <= i < ws.len() implies addr <= (#[trigger] ws[i]).0 && ws[i].0 + ws[i].1.len()
            <= addr + 0x30 by {
            assert(0 <= i < 12);
        }
        assert forall|i: int| 0 <= i < ws.len() implies (#[trigger] ws[i]).1.len() > 0 by {
            assert(0 <= i < 12);
        }
        before.lemma_sole_run(after, ws, k, addr, 0x30);
        before.lemma_same_layout_sole(after, k, addr, 0x30);
        before.lemma_same_layout_wf(after);
        let m0 = before.regions()[k];
        let m1 = after.regions()[k];
        assert forall|i: int| 0 <= i < ws.len() implies #[trigger] m0.holds(ws[i].0, ws[i].1.len()) by {
            assert(0 <= i < 12);
        }
        assert forall|i: int| 0 < i < ws.len() implies #[trigger] m0.offset(ws[i].0) + ws[i].1.len()
            <= m0.offset(ws[0].0) || m0.offset(ws[0].0) + ws[0].1.len() <= m0.offset(ws[i].0) by {
            assert(0 < i < 12);
        }
        m0.lemma_patched_value(m1, ws, 0, self.length as nat, 4);
        after.lemma_sole_region_found(k, addr, 0x30, addr);
        assert forall|i: int| 1 < i < ws.len() implies #[trigger] m0.offset(ws[i].0) + ws[i].1.len()
            <= m0.offset(ws[1].0) || m0.offset(ws[1].0) + ws[1].1.len() <= m0.offset(ws[i].0) by {
            assert(1 < i < 12);
        }
        m0.lemma_patched_value(m1, ws, 1, self.initializated as nat, 4);
        after.lemma_sole_region_found(k, addr, 0x30, (addr + 4) as u64);
        assert forall|i: int| 2 < i < ws.len() implies #[trigger] m0.offset(ws[i].0) + ws[i].1.len()
            <= m0.offset(ws[2].0) || m0.offset(ws[2].0) + ws[2].1.len() <= m0.offset(ws[i].0) by {
            assert(2 < i < 12);
        }
        m0.lemma_patched_value(m1, ws, 2, self.sshandle as nat, 4);
        after.lemma_sole_region_found(k, addr, 0x30, (addr + 8) as u64);
        assert forall|i: int| 3 < i < ws.len() implies #[trigger] m0.offset(ws[i].0) + ws[i].1.len()
            <= m0.offset(ws[3].0) || m0.offset(ws[3].0) + ws[3].1.len() <= m0.offset(ws[i].0) by {
            assert(3 < i < 12);
        }
        m0.lemma_patched_value(m1, ws, 3, self.in_load_order_module_list.flink as nat, 4);
        after.lemma_sole_region_found(k, addr, 0x30, (addr + 0xc) as u64);
        assert forall|i: int| 4 < i < ws.len() implies #[trigger] m0.offset(ws[i].0) + ws[i].1.len()
            <= m0.offset(ws[4].0) || m0.offset(ws[4].0) + ws[4].1.len() <= m0.offset(ws[i].0) by {
            assert(4 < i < 12);
        }
        m0.lemma_patched_value(m1, ws, 4, self.in_load_order_module_list.blink as nat, 4);
        after.lemma_sole_region_found(k, addr, 0x30, (addr + 0x10) as u64);
        assert forall|i: int| 5 < i < ws.len() implies #[trigger] m0.offset(ws[i].0) + ws[i].1.len()
            <= m0.offset(ws[5].0) || m0.offset(ws[5].0) + ws[5].1.len() <= m0.offset(ws[i].0) by {
            assert(5 < i < 12);
        }
        m0.lemma_patched_value(m1, ws, 5, self.in_memory_order_module_list.flink as nat, 4);
        after.lemma_sole_region_found(k, addr, 0x30, (addr + 0x14) as u64);
        assert forall|i: int| 6 < i < ws.len() implies #[trigger] m0.offset(ws[i].0) + ws[i].1.len()
            <= m0.offset(ws[6].0) || m0.offset(ws[6].0) + ws[6].1.len() <= m0.offset(ws[i].0) by {
            assert(6 < i < 12);
        }
        m0.lemma_patched_value(m1, ws, 6, self.in_memory_order_module_list.blink as nat, 4);
        after.lemma_sole_region_found(k, addr, 0x30, (addr + 0x18) as u64);
        assert forall|i: int| 7 < i < ws.len() implies #[trigger] m0.offset(ws[i].0) + ws[i].1.len()
            <= m0.offset(ws[7].0) || m0.offset(ws[7].0) + ws[7].1.len() <= m0.offset(ws[i].0) by {
            assert(7 < i < 12);
        }
        m0.lemma_patched_value(m1, ws, 7, self.in_initialization_order_module_list.flink as nat, 4);
        after.lemma_sole_region_found(k, addr, 0x30, (addr + 0x1c) as u64);
        assert forall|i: int| 8 < i < ws.len() implies #[trigger] m0.offset(ws[i].0) + ws[i].1.len()
            <= m0.offset(ws[8].0) || m0.offset(ws[8].0) + ws[8].1.len() <= m0.offset(ws[i].0) by {
            assert(8 < i < 12);
        }
        m0.lemma_patched_value(m1, ws, 8, self.in_initialization_order_module_list.blink as nat, 4);
        after.lemma_sole_region_found(k, addr, 0x30, (addr + 0x20) as u64);
        assert forall|i: int| 9 < i < ws.len() implies #[trigger] m0.offset(ws[i].0) + ws[i].1.len()
            <= m0.offset(ws[9].0) || m0.offset(ws[9].0) + ws[9].1.len() <= m0.offset(ws[i].0) by {
            assert(9 < i < 12);
        }
        m0.lemma_patched_value(m1, ws, 9, self.entry_in_progress as nat, 4);
        after.lemma_sole_region_found(k, addr, 0x30, (addr + 0x24) as u64);
        assert forall|i: int| 10 < i < ws.len() implies #[trigger] m0.offset(ws[i].0) + ws[i].1.len()
            <= m0.offset(ws[10].0) || m0.offset(ws[10].0) + ws[10].1.len() <= m0.offset(ws[i].0) by {
            assert(10 < i < 12);
        }
        m0.lemma_patched_value(m1, ws, 10, self.shutdown_in_progress as nat, 4);
        after.lemma_sole_region_found(k, addr, 0x30, (addr + 0x28) as u64);
        assert forall|i: int| 11 < i < ws.len() implies #[trigger] m0.offset(ws[i].0) + ws[i].1.len()
            <= m0.offset(ws[11].0) || m0.offset(ws[11].0) + ws[11].1.len() <= m0.offset(ws[i].0) by {
            assert(11 < i < 12);
        }
        m0.lemma_patched_value(m1, ws, 11, self.shutdown_thread_id as nat, 4);
        after.lemma_sole_region_found(k, addr, 0x30, (addr + 0x2c) as u64);
    }
}

impl PebLdrData64 {
    /// Saving the loader data at `addr`, where one region alone holds its bytes,
    /// and loading it back from there gives the loader data that was saved.
    pub proof fn lemma_load_after_save(self, before: Maps, after: Maps, addr: u64, k: usize)
        requires
            before.wf(),
            addr + 0x50 <= u64::MAX,
            before.sole_region(k, addr, 0x50),
            before.wrote_values(after, self.writes(addr)),
        ensures
            PebLdrData64::readable(&after, addr),
            self.loaded_from(&after, addr),
    {
        let ws = self.writes(addr);
        reveal_with_fuel(crate::fpu::f80::pow256, 9);
        assert(ws[0] == (addr, le_bytes(self.length as nat, 4)));
        assert(ws[1] == ((addr + 4) as u64, le_bytes(self.initializated as nat, 4)));
        assert(ws[2] == ((addr + 8) as u64, le_bytes(self.sshandle as nat, 8)));
        assert(ws[3] == ((addr + 0x10) as u64, le_bytes(self.in_load_order_module_list.flink as nat, 8)));
        assert(ws[4] == ((addr + 0x18) as u64, le_bytes(self.in_load_order_module_list.blink as nat, 8)));
        assert(ws[5] == ((addr + 0x20) as u64, le_bytes(self.in_memory_order_module_list.flink as nat, 8)));
        assert(ws[6] == ((addr + 0x28) as u64, le_bytes(self.in_memory_order_module_list.blink as nat, 8)));
        assert(ws[7] == ((addr + 0x30) as u64, le_bytes(self.in_initialization_order_module_list.flink as nat, 8)));
        assert(ws[8] == ((addr + 0x38) as u64, le_bytes(self.in_initialization_order_module_list.blink as nat, 8)));
        assert(ws[9] == ((addr + 0x40) as u64, le_bytes(self.entry_in_progress.flink as nat, 8)));
        assert(ws[10] == ((addr + 0x48) as u64, le_bytes(self.entry_in_progress.blink as nat, 8)));
        assert forall|i: int| 0 <= i < ws.len() implies addr <= (#[trigger] ws[i]).0 && ws[i].0 + ws[i].1.len()
            <= addr + 0x50 by {
            assert(0 <= i < 11);
        }
        assert forall|i: int| 0 <= i < ws.len() implies (#[trigger] ws[i]).1.len() > 0 by {
            assert(0 <= i < 11);
        }
        before.lemma_sole_run(after, ws, k, addr, 0x50);
        before.lemma_same_layout_sole(after, k, addr, 0x50);
        before.lemma_same_layout_wf(after);
        let m0 = before.regions()[k];
        let m1 = after.regions()[k];
        assert forall|i: int| 0 <= i < ws.len() implies #[trigger] m0.holds(ws[i].0, ws[i].1.len()) by {
            assert(0 <= i < 11);
        }
        assert forall|i: int| 0 < i < ws.len() implies #[trigger] m0.offset(ws[i].0) + ws[i].1.len()
            <= m0.offset(ws[0].0) || m0.offset(ws[0].0) + ws[0].1.len() <= m0.offset(ws[i].0) by {
            assert(0 < i < 11);
        }
        m0.lemma_patched_value(m1, ws, 0, self.length as nat, 4);
        after.lemma_sole_region_found(k, addr, 0x50, addr);
        assert forall|i: int| 1 < i < ws.len() implies #[trigger] m0.offset(ws[i].0) + ws[i].1.len()
            <= m0.offset(ws[1].0) || m0.offset(ws[1].0) + ws[1].1.len() <= m0.offset(ws[i].0) by {
            assert(1 < i < 11);
        }
        m0.lemma_patched_value(m1, ws, 1, self.initializated as nat, 4);
        after.lemma_sole_region_found(k, addr, 0x50, (addr + 4) as u64);
        assert forall|i: int| 2 < i < ws.len() implies #[trigger] m0.offset(ws[i].0) + ws[i].1.len()
            <= m0.offset(ws[2].0) || m0.offset(ws[2].0) + ws[2].1.len() <= m0.offset(ws[i].0) by {
            assert(2 < i < 11);
        }
        m0.lemma_patched_value(m1, ws, 2, self.sshandle as nat, 8);
        after.lemma_sole_region_found(k, addr, 0x50, (addr + 8) as u64);
        assert forall|i: int| 3 < i < ws.len() implies #[trigger] m0.offset(ws[i].0) + ws[i].1.len()
            <= m0.offset(ws[3].0) || m0.offset(ws[3].0) + ws[3].1.len() <= m0.offset(ws[i].0) by {
            assert(3 < i < 11);
        }
        m0.lemma_patched_value(m1, ws, 3, self.in_load_order_module_list.flink as nat, 8);
        after.lemma_sole_region_found(k, addr, 0x50, (addr + 0x10) as u64);
        assert forall|i: int| 4 < i < ws.len() implies #[trigger] m0.offset(ws[i].0) + ws[i].1.len()
            <= m0.offset(ws[4].0) || m0.offset(ws[4].0) + ws[4].1.len() <= m0.offset(ws[i].0) by {
            assert(4 < i < 11);
        }
        m0.lemma_patched_value(m1, ws, 4, self.in_load_order_module_list.blink as nat, 8);
        after.lemma_sole_region_found(k, addr, 0x50, (addr + 0x18) as u64);
        assert forall|i: int| 5 < i < ws.len() implies #[trigger] m0.offset(ws[i].0) + ws[i].1.len()
            <= m0.offset(ws[5].0) || m0.offset(ws[5].0) + ws[5].1.len() <= m0.offset(ws[i].0) by {
            assert(5 < i < 11);
        }
        m0.lemma_patched_value(m1, ws, 5, self.in_memory_order_module_list.flink as nat, 8);
        after.lemma_sole_region_found(k, addr, 0x50, (addr + 0x20) as u64);
        assert forall|i: int| 6 < i < ws.len() implies #[trigger] m0.offset(ws[i].0) + ws[i].1.len()
            <= m0.offset(ws[6].0) || m0.offset(ws[6].0) + ws[6].1.len() <= m0.offset(ws[i].0) by {
            assert(6 < i < 11);
        }
        m0.lemma_patched_value(m1, ws, 6, self.in_memory_order_module_list.blink as nat, 8);
        after.lemma_sole_region_found(k, addr, 0x50, (addr + 0x28) as u64);
        assert forall|i: int| 7 < i < ws.len() implies #[trigger] m0.offset(ws[i].0) + ws[i].1.len()
            <= m0.offset(ws[7].0) || m0.offset(ws[7].0) + ws[7].1.len() <= m0.offset(ws[i].0) by {
            assert(7 < i < 11);
        }
        m0.lemma_patched_value(m1, ws, 7, self.in_initialization_order_module_list.flink as nat, 8);
        after.lemma_sole_region_found(k, addr, 0x50, (addr + 0x30) as u64);
        assert forall|i: int| 8 < i < ws.len() implies #[trigger] m0.offset(ws[i].0) + ws[i].1.len()
            <= m0.offset(ws[8].0) || m0.offset(ws[8].0) + ws[8].1.len() <= m0.offset(ws[i].0) by {
            assert(8 < i < 11);
        }
        m0.lemma_patched_value(m1, ws, 8, self.in_initialization_order_module_list.blink as nat, 8);
        after.lemma_sole_region_found(k, addr, 0x50, (addr + 0x38) as u64);
        assert forall|i: int| 9 < i < ws.len() implies #[trigger] m0.offset(ws[i].0) + ws[i].1.len()
            <= m0.offset(ws[9].0) || m0.offset(ws[9].0) + ws[9].1.len() <= m0.offset(ws[i].0) by {
            assert(9 < i < 11);
        }
        m0.lemma_patched_value(m1, ws, 9, self.entry_in_progress.flink as nat, 8);
        after.lemma_sole_region_found(k, addr, 0x50, (addr + 0x40) as u64);
        assert forall|i: int| 10 < i < ws.len() implies #[trigger] m0.offset(ws[i].0) + ws[i].1.len()
            <= m0.offset(ws[10].0) || m0.offset(ws[10].0) + ws[10].1.len() <= m0.offset(ws[i].0) by {
            assert(10 < i < 11);
        }
        m0.lemma_patched_value(m1, ws, 10, self.entry_in_progress.blink as nat, 8);
        after.lemma_sole_region_found(k, addr, 0x50, (addr + 0x48) as u64);
    }
}

} // verus!
