use vstd::prelude::*;
use crate::maps::Maps;
use crate::maps::mem64::le_bytes;
use crate::structures::{store_byte, store_word, store_dword, store_qword};

verus! {

/// A time stamp of the extended file status: seconds and nanoseconds.
#[derive(Debug)]
pub struct Statx64Timestamp {
    pub tv_sec: i64,
    pub tv_nsec: u32,
    pub reserved: i32,
}

/// The extended file status of a 64 bit Linux process.
#[derive(Debug)]
pub struct Statx64 {
    pub mask: u32,
    pub blksize: u32,
    pub attrib: u64,
    pub nlink: u32,
    pub uid: u32,
    pub gid: u32,
    pub mode: u16,
    pub spare0: u16,
    pub inode: u64,
    pub size: u64,
    pub blocks: u64,
    pub attrib_mask: u64,
    pub atime: Statx64Timestamp,
    pub btime: Statx64Timestamp,
    pub ctime: Statx64Timestamp,
    pub mtime: Statx64Timestamp,
    pub rdev_major: u32,
    pub rdev_minor: u32,
    pub dev_major: u32,
    pub dev_minor: u32,
    pub mnt_id: u64,
    pub spare2: u64,
    pub spare3: [u64; 12],
}

/// The file status that the fstat system call fills in.
#[derive(Debug)]
pub struct Stat {
    pub dev: u64,
    pub ino: u64,
    pub nlink: u64,
    pub mode: u32,
    pub uid: u32,
    pub gid: u32,
    pub pad0: u32,
    pub rdev: u64,
    pub size: i64,
    pub blksize: i64,
    pub blocks: i64,
    pub atime_sec: u64,
    pub atime_nsec: u64,
    pub mtime_sec: u64,
    pub mtime_nsec: u64,
    pub ctime_sec: u64,
    pub ctime_nsec: u64,
    pub reserved: [i64; 3],
}

impl Stat {
    /// The values that `new` gives.
    pub open spec fn is_fresh(self) -> bool {
        &&& self.dev == 64769
        &&& self.ino == 41946037
        &&& self.nlink == 1
        &&& self.mode == 33188
        &&& self.uid == 0
        &&& self.gid == 0
        &&& self.pad0 == 0
        &&& self.rdev == 0
        &&& self.size == 2794
        &&& self.blksize == 4096
        &&& self.blocks == 8
        &&& self.atime_sec == 1692634621
        &&& self.atime_nsec == 419117625
        &&& self.mtime_sec == 1690443336
        &&& self.mtime_nsec == 991482376
        &&& self.ctime_sec == 1690443336
        &&& self.ctime_nsec == 995482376
        &&& forall|i: int| 0 <= i < 3 ==> #[trigger] self.reserved@[i] == 0
    }

    /// Every field that `save` writes at `addr` fits in the region that a
    /// lookup of its address finds, whatever the lookup cache holds.
    pub open spec fn fits_in(maps: Maps, addr: u64) -> bool {
        &&& maps.fits_anyhow(addr, 8)
        &&& maps.fits_anyhow((addr + 8) as u64, 8)
        &&& maps.fits_anyhow((addr + 0x10) as u64, 8)
        &&& maps.fits_anyhow((addr + 0x18) as u64, 4)
        &&& maps.fits_anyhow((addr + 0x1c) as u64, 4)
        &&& maps.fits_anyhow((addr + 0x20) as u64, 4)
        &&& maps.fits_anyhow((addr + 0x24) as u64, 4)
        &&& maps.fits_anyhow((addr + 0x28) as u64, 8)
        &&& maps.fits_anyhow((addr + 0x30) as u64, 8)
        &&& maps.fits_anyhow((addr + 0x38) as u64, 8)
        &&& maps.fits_anyhow((addr + 0x40) as u64, 8)
        &&& maps.fits_anyhow((addr + 0x48) as u64, 8)
        &&& maps.fits_anyhow((addr + 0x50) as u64, 8)
        &&& maps.fits_anyhow((addr + 0x58) as u64, 8)
        &&& maps.fits_anyhow((addr + 0x60) as u64, 8)
        &&& maps.fits_anyhow((addr + 0x68) as u64, 8)
        &&& maps.fits_anyhow((addr + 0x70) as u64, 8)
        &&& maps.fits_anyhow((addr + 0x78) as u64, 8)
        &&& maps.fits_anyhow((addr + 0x80) as u64, 8)
        &&& maps.fits_anyhow((addr + 0x88) as u64, 8)
    }

    /// The writes of `save` at `addr`, in order: address and little endian
    /// bytes of each field.
    pub open spec fn writes(self, addr: u64) -> Seq<(u64, Seq<u8>)> {
        seq![
            (addr, le_bytes((self.dev) as nat, 8)),
            ((addr + 8) as u64, le_bytes((self.ino) as nat, 8)),
            ((addr + 0x10) as u64, le_bytes((self.nlink) as nat, 8)),
            ((addr + 0x18) as u64, le_bytes((self.mode) as nat, 4)),
            ((addr + 0x1c) as u64, le_bytes((self.uid) as nat, 4)),
            ((addr + 0x20) as u64, le_bytes((self.gid) as nat, 4)),
            ((addr + 0x24) as u64, le_bytes((self.pad0) as nat, 4)),
            ((addr + 0x28) as u64, le_bytes((self.rdev) as nat, 8)),
            ((addr + 0x30) as u64, le_bytes((self.size as u64) as nat, 8)),
            ((addr + 0x38) as u64, le_bytes((self.blksize as u64) as nat, 8)),
            ((addr + 0x40) as u64, le_bytes((self.blocks as u64) as nat, 8)),
            ((addr + 0x48) as u64, le_bytes((self.atime_sec) as nat, 8)),
            ((addr + 0x50) as u64, le_bytes((self.atime_nsec) as nat, 8)),
            ((addr + 0x58) as u64, le_bytes((self.mtime_sec) as nat, 8)),
            ((addr + 0x60) as u64, le_bytes((self.mtime_nsec) as nat, 8)),
            ((addr + 0x68) as u64, le_bytes((self.ctime_sec) as nat, 8)),
            ((addr + 0x70) as u64, le_bytes((self.ctime_nsec) as nat, 8)),
            ((addr + 0x78) as u64, le_bytes((self.reserved[0] as u64) as nat, 8)),
            ((addr + 0x80) as u64, le_bytes((self.reserved[1] as u64) as nat, 8)),
            ((addr + 0x88) as u64, le_bytes((self.reserved[2] as u64) as nat, 8)),
        ]
    }

    /// The structure with its initial values (see `is_fresh`).
    pub fn fake() -> (r: Stat)
        ensures
            r.is_fresh(),
    {
        Stat {
            dev: 64769,
            ino: 41946037,
            nlink: 1,
            mode: 33188,
            uid: 0,
            gid: 0,
            pad0: 0,
            rdev: 0,
            size: 2794,
            blksize: 4096,
            blocks: 8,
            atime_sec: 1692634621,
            atime_nsec: 419117625,
            mtime_sec: 1690443336,
            mtime_nsec: 991482376,
            ctime_sec: 1690443336,
            ctime_nsec: 995482376,
            reserved: [0; 3],
        }
    }

    /// The size of the structure in emulated memory.
    pub fn size() -> (r: usize)
        ensures
            r == 144,
    {
        144
    }

    /// Writes the fields at `addr`, one after the other (an unmapped field
    /// is tolerated only in banzai mode, and left unwritten).
    pub fn save(&self, addr: u64, maps: &mut Maps)
        requires
            old(maps).wf(),
            addr + 0x90 <= u64::MAX,
            !old(maps).banzai_view() ==> Self::fits_in(*old(maps), addr),
        ensures
            old(maps).wrote_values(*final(maps), self.writes(addr)),
    {
        let ghost m0 = *maps;
        let ghost mut done: Seq<(u64, Seq<u8>)> = Seq::empty();
        proof {
            m0.lemma_run_start();
        }
        store_qword(maps, Ghost(m0), Ghost(done), addr, self.dev);
        proof {
            done = done.push((addr, le_bytes((self.dev) as nat, 8)));
        }
        store_qword(maps, Ghost(m0), Ghost(done), addr + 8, self.ino);
        proof {
            done = done.push(((addr + 8) as u64, le_bytes((self.ino) as nat, 8)));
        }
        store_qword(maps, Ghost(m0), Ghost(done), addr + 0x10, self.nlink);
        proof {
            done = done.push(((addr + 0x10) as u64, le_bytes((self.nlink) as nat, 8)));
        }
        store_dword(maps, Ghost(m0), Ghost(done), addr + 0x18, self.mode);
        proof {
            done = done.push(((addr + 0x18) as u64, le_bytes((self.mode) as nat, 4)));
        }
        store_dword(maps, Ghost(m0), Ghost(done), addr + 0x1c, self.uid);
        proof {
            done = done.push(((addr + 0x1c) as u64, le_bytes((self.uid) as nat, 4)));
        }
        store_dword(maps, Ghost(m0), Ghost(done), addr + 0x20, self.gid);
        proof {
            done = done.push(((addr + 0x20) as u64, le_bytes((self.gid) as nat, 4)));
        }
        store_dword(maps, Ghost(m0), Ghost(done), addr + 0x24, self.pad0);
        proof {
            done = done.push(((addr + 0x24) as u64, le_bytes((self.pad0) as nat, 4)));
        }
        store_qword(maps, Ghost(m0), Ghost(done), addr + 0x28, self.rdev);
        proof {
            done = done.push(((addr + 0x28) as u64, le_bytes((self.rdev) as nat, 8)));
        }
        store_qword(maps, Ghost(m0), Ghost(done), addr + 0x30, self.size as u64);
        proof {
            done = done.push(((addr + 0x30) as u64, le_bytes((self.size as u64) as nat, 8)));
        }
        store_qword(maps, Ghost(m0), Ghost(done), addr + 0x38, self.blksize as u64);
        proof {
            done = done.push(((addr + 0x38) as u64, le_bytes((self.blksize as u64) as nat, 8)));
        }
        store_qword(maps, Ghost(m0), Ghost(done), addr + 0x40, self.blocks as u64);
        proof {
            done = done.push(((addr + 0x40) as u64, le_bytes((self.blocks as u64) as nat, 8)));
        }
        store_qword(maps, Ghost(m0), Ghost(done), addr + 0x48, self.atime_sec);
        proof {
            done = done.push(((addr + 0x48) as u64, le_bytes((self.atime_sec) as nat, 8)));
        }
        store_qword(maps, Ghost(m0), Ghost(done), addr + 0x50, self.atime_nsec);
        proof {
            done = done.push(((addr + 0x50) as u64, le_bytes((self.atime_nsec) as nat, 8)));
        }
        store_qword(maps, Ghost(m0), Ghost(done), addr + 0x58, self.mtime_sec);
        proof {
            done = done.push(((addr + 0x58) as u64, le_bytes((self.mtime_sec) as nat, 8)));
        }
        store_qword(maps, Ghost(m0), Ghost(done), addr + 0x60, self.mtime_nsec);
        proof {
            done = done.push(((addr + 0x60) as u64, le_bytes((self.mtime_nsec) as nat, 8)));
        }
        store_qword(maps, Ghost(m0), Ghost(done), addr + 0x68, self.ctime_sec);
        proof {
            done = done.push(((addr + 0x68) as u64, le_bytes((self.ctime_sec) as nat, 8)));
        }
        store_qword(maps, Ghost(m0), Ghost(done), addr + 0x70, self.ctime_nsec);
        proof {
            done = done.push(((addr + 0x70) as u64, le_bytes((self.ctime_nsec) as nat, 8)));
        }
        store_qword(maps, Ghost(m0), Ghost(done), addr + 0x78, self.reserved[0] as u64);
        proof {
            done = done.push(((addr + 0x78) as u64, le_bytes((self.reserved[0] as u64) as nat, 8)));
        }
        store_qword(maps, Ghost(m0), Ghost(done), addr + 0x80, self.reserved[1] as u64);
        proof {
            done = done.push(((addr + 0x80) as u64, le_bytes((self.reserved[1] as u64) as nat, 8)));
        }
        store_qword(maps, Ghost(m0), Ghost(done), addr + 0x88, self.reserved[2] as u64);
        proof {
            done = done.push(((addr + 0x88) as u64, le_bytes((self.reserved[2] as u64) as nat, 8)));
        }
        assert(done =~= self.writes(addr));
    }
}

/// A host entry of the resolver: name, aliases, address type and length,
/// and the address list.
#[derive(Debug)]
pub struct Hostent {
    pub hname: u64,
    pub alias_list: u64,
    pub addr_type: u16,
    pub length: u16,
    pub addr_list: u64,
}

impl Hostent {
    /// The values that `new` gives.
    pub open spec fn is_fresh(self) -> bool {
        &&& self.hname == 0
        &&& self.alias_list == 0
        &&& self.addr_type == 0
        &&& self.length == 4
        &&& self.addr_list == 0
    }

    /// Every field that `save` writes at `addr` fits in the region that a
    /// lookup of its address finds, whatever the lookup cache holds.
    pub open spec fn fits_in(maps: Maps, addr: u64) -> bool {
        &&& maps.fits_anyhow(addr, 8)
        &&& maps.fits_anyhow((addr + 8) as u64, 8)
        &&& maps.fits_anyhow((addr + 0x10) as u64, 2)
        &&& maps.fits_anyhow((addr + 0x14) as u64, 2)
        &&& maps.fits_anyhow((addr + 0x18) as u64, 8)
    }

    /// The writes of `save` at `addr`, in order: address and little endian
    /// bytes of each field.
    pub open spec fn writes(self, addr: u64) -> Seq<(u64, Seq<u8>)> {
        seq![
            (addr, le_bytes((self.hname) as nat, 8)),
            ((addr + 8) as u64, le_bytes((self.alias_list) as nat, 8)),
            ((addr + 0x10) as u64, le_bytes((self.addr_type) as nat, 2)),
            ((addr + 0x14) as u64, le_bytes((self.length) as nat, 2)),
            ((addr + 0x18) as u64, le_bytes((self.addr_list) as nat, 8)),
        ]
    }

    /// The structure with its initial values (see `is_fresh`).
    pub fn new() -> (r: Hostent)
        ensures
            r.is_fresh(),
    {
        Hostent {
            hname: 0,
            alias_list: 0,
            addr_type: 0,
            length: 4,
            addr_list: 0,
        }
    }

    /// The size of the structure in emulated memory.
    pub fn size() -> (r: usize)
        ensures
            r == 32,
    {
        32
    }

    /// Writes the fields at `addr`, one after the other (an unmapped field
    /// is tolerated only in banzai mode, and left unwritten).
    pub fn save(&self, addr: u64, maps: &mut Maps)
        requires
            old(maps).wf(),
            addr + 0x20 <= u64::MAX,
            !old(maps).banzai_view() ==> Self::fits_in(*old(maps), addr),
        ensures
            old(maps).wrote_values(*final(maps), self.writes(addr)),
    {
        let ghost m0 = *maps;
        let ghost mut done: Seq<(u64, Seq<u8>)> = Seq::empty();
        proof {
            m0.lemma_run_start();
        }
        store_qword(maps, Ghost(m0), Ghost(done), addr, self.hname);
        proof {
            done = done.push((addr, le_bytes((self.hname) as nat, 8)));
        }
        store_qword(maps, Ghost(m0), Ghost(done), addr + 8, self.alias_list);
        proof {
            done = done.push(((addr + 8) as u64, le_bytes((self.alias_list) as nat, 8)));
        }
        store_word(maps, Ghost(m0), Ghost(done), addr + 0x10, self.addr_type);
        proof {
            done = done.push(((addr + 0x10) as u64, le_bytes((self.addr_type) as nat, 2)));
        }
        store_word(maps, Ghost(m0), Ghost(done), addr + 0x14, self.length);
        proof {
            done = done.push(((addr + 0x14) as u64, le_bytes((self.length) as nat, 2)));
        }
        store_qword(maps, Ghost(m0), Ghost(done), addr + 0x18, self.addr_list);
        proof {
            done = done.push(((addr + 0x18) as u64, le_bytes((self.addr_list) as nat, 8)));
        }
        assert(done =~= self.writes(addr));
    }
}

impl Default for Hostent {
    fn default() -> (r: Self)
        ensures
            r.is_fresh(),
    {
        Self::new()
    }
}

/// The information about a code page: the longest character, the default
/// character and the lead byte ranges.
#[derive(Debug)]
pub struct CpInfo {
    pub max_char_size: u32,
    pub default_char: [u8; 2],
    pub lead_byte: [u8; 12],
}

impl CpInfo {
    /// The values that `new` gives.
    pub open spec fn is_fresh(self) -> bool {
        &&& self.max_char_size == 1
        &&& self.default_char[0] == 0x3F
        &&& self.default_char[1] == 0
        &&& forall|i: int| 0 <= i < 12 ==> #[trigger] self.lead_byte@[i] == 0
    }

    /// Every field that `load` reads at `addr` lies in the region that a
    /// lookup of its address finds.
    pub open spec fn readable(maps: &Maps, addr: u64) -> bool {
        &&& maps.wf()
        &&& addr + 0x12 <= u64::MAX
        &&& maps.fits(addr, 4)
        &&& maps.fits((addr + 4) as u64, 1)
        &&& maps.fits((addr + 5) as u64, 1)
        &&& maps.fits((addr + 6) as u64, 1)
        &&& maps.fits((addr + 7) as u64, 1)
        &&& maps.fits((addr + 8) as u64, 1)
        &&& maps.fits((addr + 9) as u64, 1)
        &&& maps.fits((addr + 0xa) as u64, 1)
        &&& maps.fits((addr + 0xb) as u64, 1)
        &&& maps.fits((addr + 0xc) as u64, 1)
        &&& maps.fits((addr + 0xd) as u64, 1)
        &&& maps.fits((addr + 0xe) as u64, 1)
        &&& maps.fits((addr + 0xf) as u64, 1)
        &&& maps.fits((addr + 0x10) as u64, 1)
        &&& maps.fits((addr + 0x11) as u64, 1)
    }

    /// `self` holds the values that `load` reads at `addr`.
    pub open spec fn loaded_from(self, maps: &Maps, addr: u64) -> bool {
        &&& self.max_char_size == maps.value_at(addr, 4)
        &&& maps.byte_at((addr + 4) as u64) == Some(self.default_char[0])
        &&& maps.byte_at((addr + 5) as u64) == Some(self.default_char[1])
        &&& maps.byte_at((addr + 6) as u64) == Some(self.lead_byte[0])
        &&& maps.byte_at((addr + 7) as u64) == Some(self.lead_byte[1])
        &&& maps.byte_at((addr + 8) as u64) == Some(self.lead_byte[2])
        &&& maps.byte_at((addr + 9) as u64) == Some(self.lead_byte[3])
        &&& maps.byte_at((addr + 0xa) as u64) == Some(self.lead_byte[4])
        &&& maps.byte_at((addr + 0xb) as u64) == Some(self.lead_byte[5])
        &&& maps.byte_at((addr + 0xc) as u64) == Some(self.lead_byte[6])
        &&& maps.byte_at((addr + 0xd) as u64) == Some(self.lead_byte[7])
        &&& maps.byte_at((addr + 0xe) as u64) == Some(self.lead_byte[8])
        &&& maps.byte_at((addr + 0xf) as u64) == Some(self.lead_byte[9])
        &&& maps.byte_at((addr + 0x10) as u64) == Some(self.lead_byte[10])
        &&& maps.byte_at((addr + 0x11) as u64) == Some(self.lead_byte[11])
    }

    /// Every field that `save` writes at `addr` fits in the region that a
    /// lookup of its address finds, whatever the lookup cache holds.
    pub open spec fn fits_in(maps: Maps, addr: u64) -> bool {
        &&& maps.fits_anyhow(addr, 4)
        &&& maps.fits_anyhow((addr + 4) as u64, 1)
        &&& maps.fits_anyhow((addr + 5) as u64, 1)
        &&& maps.fits_anyhow((addr + 6) as u64, 1)
        &&& maps.fits_anyhow((addr + 7) as u64, 1)
        &&& maps.fits_anyhow((addr + 8) as u64, 1)
        &&& maps.fits_anyhow((addr + 9) as u64, 1)
        &&& maps.fits_anyhow((addr + 0xa) as u64, 1)
        &&& maps.fits_anyhow((addr + 0xb) as u64, 1)
        &&& maps.fits_anyhow((addr + 0xc) as u64, 1)
        &&& maps.fits_anyhow((addr + 0xd) as u64, 1)
        &&& maps.fits_anyhow((addr + 0xe) as u64, 1)
        &&& maps.fits_anyhow((addr + 0xf) as u64, 1)
        &&& maps.fits_anyhow((addr + 0x10) as u64, 1)
        &&& maps.fits_anyhow((addr + 0x11) as u64, 1)
    }

    /// The writes of `save` at `addr`, in order: address and little endian
    /// bytes of each field.
    pub open spec fn writes(self, addr: u64) -> Seq<(u64, Seq<u8>)> {
        seq![
            (addr, le_bytes((self.max_char_size) as nat, 4)),
            ((addr + 4) as u64, seq![self.default_char[0]]),
            ((addr + 5) as u64, seq![self.default_char[1]]),
            ((addr + 6) as u64, seq![self.lead_byte[0]]),
            ((addr + 7) as u64, seq![self.lead_byte[1]]),
            ((addr + 8) as u64, seq![self.lead_byte[2]]),
            ((addr + 9) as u64, seq![self.lead_byte[3]]),
            ((addr + 0xa) as u64, seq![self.lead_byte[4]]),
            ((addr + 0xb) as u64, seq![self.lead_byte[5]]),
            ((addr + 0xc) as u64, seq![self.lead_byte[6]]),
            ((addr + 0xd) as u64, seq![self.lead_byte[7]]),
            ((addr + 0xe) as u64, seq![self.lead_byte[8]]),
            ((addr + 0xf) as u64, seq![self.lead_byte[9]]),
            ((addr + 0x10) as u64, seq![self.lead_byte[10]]),
            ((addr + 0x11) as u64, seq![self.lead_byte[11]]),
        ]
    }

    /// The structure with its initial values (see `is_fresh`).
    pub fn new() -> (r: CpInfo)
        ensures
            r.is_fresh(),
    {
        CpInfo {
            max_char_size: 1,
            default_char: [0x3F, 0],
            lead_byte: [0; 12],
        }
    }

    /// The size of the structure in emulated memory.
    pub fn size() -> (r: usize)
        ensures
            r == 18,
    {
        18
    }

    /// Reads the structure at `addr`.
    pub fn load(addr: u64, maps: &Maps) -> (r: CpInfo)
        requires
            Self::readable(maps, addr),
        ensures
            r.loaded_from(maps, addr),
    {
        CpInfo {
            max_char_size: maps.read_dword(addr).unwrap(),
            default_char: [
                maps.read_byte(addr + 4).unwrap(),
                maps.read_byte(addr + 5).unwrap(),
            ],
            lead_byte: [
                maps.read_byte(addr + 6).unwrap(),
                maps.read_byte(addr + 7).unwrap(),
                maps.read_byte(addr + 8).unwrap(),
                maps.read_byte(addr + 9).unwrap(),
                maps.read_byte(addr + 0xa).unwrap(),
                maps.read_byte(addr + 0xb).unwrap(),
                maps.read_byte(addr + 0xc).unwrap(),
                maps.read_byte(addr + 0xd).unwrap(),
                maps.read_byte(addr + 0xe).unwrap(),
                maps.read_byte(addr + 0xf).unwrap(),
                maps.read_byte(addr + 0x10).unwrap(),
                maps.read_byte(addr + 0x11).unwrap(),
            ],
        }
    }

    /// Writes the fields at `addr`, one after the other (an unmapped field
    /// is tolerated only in banzai mode, and left unwritten).
    pub fn save(&self, addr: u64, maps: &mut Maps)
        requires
            old(maps).wf(),
            addr + 0x12 <= u64::MAX,
            !old(maps).banzai_view() ==> Self::fits_in(*old(maps), addr),
        ensures
            old(maps).wrote_values(*final(maps), self.writes(addr)),
    {
        let ghost m0 = *maps;
        let ghost mut done: Seq<(u64, Seq<u8>)> = Seq::empty();
        proof {
            m0.lemma_run_start();
        }
        store_dword(maps, Ghost(m0), Ghost(done), addr, self.max_char_size);
        proof {
            done = done.push((addr, le_bytes((self.max_char_size) as nat, 4)));
        }
        store_byte(maps, Ghost(m0), Ghost(done), addr + 4, self.default_char[0]);
        proof {
            done = done.push(((addr + 4) as u64, seq![self.default_char[0]]));
        }
        store_byte(maps, Ghost(m0), Ghost(done), addr + 5, self.default_char[1]);
        proof {
            done = done.push(((addr + 5) as u64, seq![self.default_char[1]]));
        }
        store_byte(maps, Ghost(m0), Ghost(done), addr + 6, self.lead_byte[0]);
        proof {
            done = done.push(((addr + 6) as u64, seq![self.lead_byte[0]]));
        }
        store_byte(maps, Ghost(m0), Ghost(done), addr + 7, self.lead_byte[1]);
        proof {
            done = done.push(((addr + 7) as u64, seq![self.lead_byte[1]]));
        }
        store_byte(maps, Ghost(m0), Ghost(done), addr + 8, self.lead_byte[2]);
        proof {
            done = done.push(((addr + 8) as u64, seq![self.lead_byte[2]]));
        }
        store_byte(maps, Ghost(m0), Ghost(done), addr + 9, self.lead_byte[3]);
        proof {
            done = done.push(((addr + 9) as u64, seq![self.lead_byte[3]]));
        }
        store_byte(maps, Ghost(m0), Ghost(done), addr + 0xa, self.lead_byte[4]);
        proof {
            done = done.push(((addr + 0xa) as u64, seq![self.lead_byte[4]]));
        }
        store_byte(maps, Ghost(m0), Ghost(done), addr + 0xb, self.lead_byte[5]);
        proof {
            done = done.push(((addr + 0xb) as u64, seq![self.lead_byte[5]]));
        }
        store_byte(maps, Ghost(m0), Ghost(done), addr + 0xc, self.lead_byte[6]);
        proof {
            done = done.push(((addr + 0xc) as u64, seq![self.lead_byte[6]]));
        }
        store_byte(maps, Ghost(m0), Ghost(done), addr + 0xd, self.lead_byte[7]);
        proof {
            done = done.push(((addr + 0xd) as u64, seq![self.lead_byte[7]]));
        }
        store_byte(maps, Ghost(m0), Ghost(done), addr + 0xe, self.lead_byte[8]);
        proof {
            done = done.push(((addr + 0xe) as u64, seq![self.lead_byte[8]]));
        }
        store_byte(maps, Ghost(m0), Ghost(done), addr + 0xf, self.lead_byte[9]);
        proof {
            done = done.push(((addr + 0xf) as u64, seq![self.lead_byte[9]]));
        }
        store_byte(maps, Ghost(m0), Ghost(done), addr + 0x10, self.lead_byte[10]);
        proof {
            done = done.push(((addr + 0x10) as u64, seq![self.lead_byte[10]]));
        }
        store_byte(maps, Ghost(m0), Ghost(done), addr + 0x11, self.lead_byte[11]);
        proof {
            done = done.push(((addr + 0x11) as u64, seq![self.lead_byte[11]]));
        }
        assert(done =~= self.writes(addr));
    }
}

impl Default for CpInfo {
    fn default() -> (r: Self)
        ensures
            r.is_fresh(),
    {
        Self::new()
    }
}

/// One memory access of the emulation: where and when it happened, its
/// size in bits, the values before and after, and the region it touched.
#[derive(Debug, Clone)]
pub struct MemoryOperation {
    pub pos: u64,
    pub rip: u64,
    pub op: String,
    pub bits: u32,
    pub address: u64,
    pub old_value: u64,
    pub new_value: u64,
    pub name: String,
}

impl CpInfo {
    /// Saving the code page record at `addr`, where one region alone holds
    /// its bytes, and loading it back from there gives the record that was
    /// saved.
    pub proof fn lemma_load_after_save(self, before: Maps, after: Maps, addr: u64, k: usize)
        requires
            before.wf(),
            addr + 0x12 <= u64::MAX,
            before.sole_region(k, addr, 0x12),
            before.wrote_values(after, self.writes(addr)),
        ensures
            CpInfo::readable(&after, addr),
            self.loaded_from(&after, addr),
    {
        let ws = self.writes(addr);
        reveal_with_fuel(crate::fpu::f80::pow256, 5);
        assert(ws[0] == (addr, le_bytes(self.max_char_size as nat, 4)));
        assert(ws[1] == ((addr + 0x4) as u64, seq![self.default_char[0]]));
        assert(ws[2] == ((addr + 0x5) as u64, seq![self.default_char[1]]));
        assert(ws[3] == ((addr + 0x6) as u64, seq![self.lead_byte[0]]));
        assert(ws[4] == ((addr + 0x7) as u64, seq![self.lead_byte[1]]));
        assert(ws[5] == ((addr + 0x8) as u64, seq![self.lead_byte[2]]));
        assert(ws[6] == ((addr + 0x9) as u64, seq![self.lead_byte[3]]));
        assert(ws[7] == ((addr + 0xa) as u64, seq![self.lead_byte[4]]));
        assert(ws[8] == ((addr + 0xb) as u64, seq![self.lead_byte[5]]));
        assert(ws[9] == ((addr + 0xc) as u64, seq![self.lead_byte[6]]));
        assert(ws[10] == ((addr + 0xd) as u64, seq![self.lead_byte[7]]));
        assert(ws[11] == ((addr + 0xe) as u64, seq![self.lead_byte[8]]));
        assert(ws[12] == ((addr + 0xf) as u64, seq![self.lead_byte[9]]));
        assert(ws[13] == ((addr + 0x10) as u64, seq![self.lead_byte[10]]));
        assert(ws[14] == ((addr + 0x11) as u64, seq![self.lead_byte[11]]));
        assert forall|i: int| 0 <= i < ws.len() implies addr <= (#[trigger] ws[i]).0 && ws[i].0 + ws[i].1.len()
            <= addr + 0x12 by {
            assert(0 <= i < 15);
        }
        assert forall|i: int| 0 <= i < ws.len() implies (#[trigger] ws[i]).1.len() > 0 by {
            assert(0 <= i < 15);
        }
        before.lemma_sole_run(after, ws, k, addr, 0x12);
        before.lemma_same_layout_sole(after, k, addr, 0x12);
        before.lemma_same_layout_wf(after);
        let m0 = before.regions()[k];
        let m1 = after.regions()[k];
        assert forall|i: int| 0 <= i < ws.len() implies #[trigger] m0.holds(ws[i].0, ws[i].1.len()) by {
            assert(0 <= i < 15);
        }
        assert forall|i: int| 0 < i < ws.len() implies #[trigger] m0.offset(ws[i].0) + ws[i].1.len()
            <= m0.offset(ws[0].0) || m0.offset(ws[0].0) + ws[0].1.len() <= m0.offset(ws[i].0) by {
            assert(0 < i < 15);
        }
        m0.lemma_patched_value(m1, ws, 0, self.max_char_size as nat, 4);
        after.lemma_sole_region_found(k, addr, 0x12, addr);
        assert forall|i: int| 1 < i < ws.len() implies #[trigger] m0.offset(ws[i].0) + ws[i].1.len()
            <= m0.offset(ws[1].0) || m0.offset(ws[1].0) + ws[1].1.len() <= m0.offset(ws[i].0) by {
            assert(1 < i < 15);
        }
        m0.lemma_patched_read(ws, 1);
        assert(m1.bytes()[m1.offset((addr + 0x4) as u64)] == self.default_char[0]) by {
            assert(m0.patched(ws).subrange(m0.offset(ws[1].0), m0.offset(ws[1].0) + 1)[0] == ws[1].1[0]);
        }
        after.lemma_sole_region_found(k, addr, 0x12, (addr + 0x4) as u64);
        assert forall|i: int| 2 < i < ws.len() implies #[trigger] m0.offset(ws[i].0) + ws[i].1.len()
            <= m0.offset(ws[2].0) || m0.offset(ws[2].0) + ws[2].1.len() <= m0.offset(ws[i].0) by {
            assert(2 < i < 15);
        }
        m0.lemma_patched_read(ws, 2);
        assert(m1.bytes()[m1.offset((addr + 0x5) as u64)] == self.default_char[1]) by {
            assert(m0.patched(ws).subrange(m0.offset(ws[2].0), m0.offset(ws[2].0) + 1)[0] == ws[2].1[0]);
        }
        after.lemma_sole_region_found(k, addr, 0x12, (addr + 0x5) as u64);
        assert forall|i: int| 3 < i < ws.len() implies #[trigger] m0.offset(ws[i].0) + ws[i].1.len()
            <= m0.offset(ws[3].0) || m0.offset(ws[3].0) + ws[3].1.len() <= m0.offset(ws[i].0) by {
            assert(3 < i < 15);
        }
        m0.lemma_patched_read(ws, 3);
        assert(m1.bytes()[m1.offset((addr + 0x6) as u64)] == self.lead_byte[0]) by {
            assert(m0.patched(ws).subrange(m0.offset(ws[3].0), m0.offset(ws[3].0) + 1)[0] == ws[3].1[0]);
        }
        after.lemma_sole_region_found(k, addr, 0x12, (addr + 0x6) as u64);
        assert forall|i: int| 4 < i < ws.len() implies #[trigger] m0.offset(ws[i].0) + ws[i].1.len()
            <= m0.offset(ws[4].0) || m0.offset(ws[4].0) + ws[4].1.len() <= m0.offset(ws[i].0) by {
            assert(4 < i < 15);
        }
        m0.lemma_patched_read(ws, 4);
        assert(m1.bytes()[m1.offset((addr + 0x7) as u64)] == self.lead_byte[1]) by {
            assert(m0.patched(ws).subrange(m0.offset(ws[4].0), m0.offset(ws[4].0) + 1)[0] == ws[4].1[0]);
        }
        after.lemma_sole_region_found(k, addr, 0x12, (addr + 0x7) as u64);
        assert forall|i: int| 5 < i < ws.len() implies #[trigger] m0.offset(ws[i].0) + ws[i].1.len()
            <= m0.offset(ws[5].0) || m0.offset(ws[5].0) + ws[5].1.len() <= m0.offset(ws[i].0) by {
            assert(5 < i < 15);
        }
        m0.lemma_patched_read(ws, 5);
        assert(m1.bytes()[m1.offset((addr + 0x8) as u64)] == self.lead_byte[2]) by {
            assert(m0.patched(ws).subrange(m0.offset(ws[5].0), m0.offset(ws[5].0) + 1)[0] == ws[5].1[0]);
        }
        after.lemma_sole_region_found(k, addr, 0x12, (addr + 0x8) as u64);
        assert forall|i: int| 6 < i < ws.len() implies #[trigger] m0.offset(ws[i].0) + ws[i].1.len()
            <= m0.offset(ws[6].0) || m0.offset(ws[6].0) + ws[6].1.len() <= m0.offset(ws[i].0) by {
            assert(6 < i < 15);
        }
        m0.lemma_patched_read(ws, 6);
        assert(m1.bytes()[m1.offset((addr + 0x9) as u64)] == self.lead_byte[3]) by {
            assert(m0.patched(ws).subrange(m0.offset(ws[6].0), m0.offset(ws[6].0) + 1)[0] == ws[6].1[0]);
        }
        after.lemma_sole_region_found(k, addr, 0x12, (addr + 0x9) as u64);
        assert forall|i: int| 7 < i < ws.len() implies #[trigger] m0.offset(ws[i].0) + ws[i].1.len()
            <= m0.offset(ws[7].0) || m0.offset(ws[7].0) + ws[7].1.len() <= m0.offset(ws[i].0) by {
            assert(7 < i < 15);
        }
        m0.lemma_patched_read(ws, 7);
        assert(m1.bytes()[m1.offset((addr + 0xa) as u64)] == self.lead_byte[4]) by {
            assert(m0.patched(ws).subrange(m0.offset(ws[7].0), m0.offset(ws[7].0) + 1)[0] == ws[7].1[0]);
        }
        after.lemma_sole_region_found(k, addr, 0x12, (addr + 0xa) as u64);
        assert forall|i: int| 8 < i < ws.len() implies #[trigger] m0.offset(ws[i].0) + ws[i].1.len()
            <= m0.offset(ws[8].0) || m0.offset(ws[8].0) + ws[8].1.len() <= m0.offset(ws[i].0) by {
            assert(8 < i < 15);
        }
        m0.lemma_patched_read(ws, 8);
        assert(m1.bytes()[m1.offset((addr + 0xb) as u64)] == self.lead_byte[5]) by {
            assert(m0.patched(ws).subrange(m0.offset(ws[8].0), m0.offset(ws[8].0) + 1)[0] == ws[8].1[0]);
        }
        after.lemma_sole_region_found(k, addr, 0x12, (addr + 0xb) as u64);
        assert forall|i: int| 9 < i < ws.len() implies #[trigger] m0.offset(ws[i].0) + ws[i].1.len()
            <= m0.offset(ws[9].0) || m0.offset(ws[9].0) + ws[9].1.len() <= m0.offset(ws[i].0) by {
            assert(9 < i < 15);
        }
        m0.lemma_patched_read(ws, 9);
        assert(m1.bytes()[m1.offset((addr + 0xc) as u64)] == self.lead_byte[6]) by {
            assert(m0.patched(ws).subrange(m0.offset(ws[9].0), m0.offset(ws[9].0) + 1)[0] == ws[9].1[0]);
        }
        after.lemma_sole_region_found(k, addr, 0x12, (addr + 0xc) as u64);
        assert forall|i: int| 10 < i < ws.len() implies #[trigger] m0.offset(ws[i].0) + ws[i].1.len()
            <= m0.offset(ws[10].0) || m0.offset(ws[10].0) + ws[10].1.len() <= m0.offset(ws[i].0) by {
            assert(10 < i < 15);
        }
        m0.lemma_patched_read(ws, 10);
        assert(m1.bytes()[m1.offset((addr + 0xd) as u64)] == self.lead_byte[7]) by {
            assert(m0.patched(ws).subrange(m0.offset(ws[10].0), m0.offset(ws[10].0) + 1)[0] == ws[10].1[0]);
        }
        after.lemma_sole_region_found(k, addr, 0x12, (addr + 0xd) as u64);
        assert forall|i: int| 11 < i < ws.len() implies #[trigger] m0.offset(ws[i].0) + ws[i].1.len()
            <= m0.offset(ws[11].0) || m0.offset(ws[11].0) + ws[11].1.len() <= m0.offset(ws[i].0) by {
            assert(11 < i < 15);
        }
        m0.lemma_patched_read(ws, 11);
        assert(m1.bytes()[m1.offset((addr + 0xe) as u64)] == self.lead_byte[8]) by {
            assert(m0.patched(ws).subrange(m0.offset(ws[11].0), m0.offset(ws[11].0) + 1)[0] == ws[11].1[0]);
        }
        after.lemma_sole_region_found(k, addr, 0x12, (addr + 0xe) as u64);
        assert forall|i: int| 12 < i < ws.len() implies #[trigger] m0.offset(ws[i].0) + ws[i].1.len()
            <= m0.offset(ws[12].0) || m0.offset(ws[12].0) + ws[12].1.len() <= m0.offset(ws[i].0) by {
            assert(12 < i < 15);
        }
        m0.lemma_patched_read(ws, 12);
        assert(m1.bytes()[m1.offset((addr + 0xf) as u64)] == self.lead_byte[9]) by {
            assert(m0.patched(ws).subrange(m0.offset(ws[12].0), m0.offset(ws[12].0) + 1)[0] == ws[12].1[0]);
        }
        after.lemma_sole_region_found(k, addr, 0x12, (addr + 0xf) as u64);
        assert forall|i: int| 13 < i < ws.len() implies #[trigger] m0.offset(ws[i].0) + ws[i].1.len()
            <= m0.offset(ws[13].0) || m0.offset(ws[13].0) + ws[13].1.len() <= m0.offset(ws[i].0) by {
            assert(13 < i < 15);
        }
        m0.lemma_patched_read(ws, 13);
        assert(m1.bytes()[m1.offset((addr + 0x10) as u64)] == self.lead_byte[10]) by {
            assert(m0.patched(ws).subrange(m0.offset(ws[13].0), m0.offset(ws[13].0) + 1)[0] == ws[13].1[0]);
        }
        after.lemma_sole_region_found(k, addr, 0x12, (addr + 0x10) as u64);
        m0.lemma_patched_read(ws, 14);
        assert(m1.bytes()[m1.offset((addr + 0x11) as u64)] == self.lead_byte[11]) by {
            assert(m0.patched(ws).subrange(m0.offset(ws[14].0), m0.offset(ws[14].0) + 1)[0] == ws[14].1[0]);
        }
        after.lemma_sole_region_found(k, addr, 0x12, (addr + 0x11) as u64);
    }
}


} // verus!
