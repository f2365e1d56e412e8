use vstd::prelude::*;
use crate::maps::Maps;
use crate::maps::mem64::{le_bytes, writes_ordered};
use crate::structures::{store_word, store_dword, store_qword};

verus! {

/// The version information that the emulated system reports.
#[derive(Debug)]
pub struct OsVersionInfo {
    version_info_size: u32,
    major_version: u32,
    minor_version: u32,
    build_number: u32,
    platform_id: u32,
    version: [u8; 128],
}

impl OsVersionInfo {
    /// Every field that `save` writes at `addr` fits in the region that a
    /// lookup of its address finds, whatever the lookup cache holds.
    pub open spec fn fits_in(maps: Maps, addr: u64) -> bool {
        &&& maps.fits_anyhow(addr, 4)
        &&& maps.fits_anyhow((addr + 4) as u64, 4)
        &&& maps.fits_anyhow((addr + 8) as u64, 4)
        &&& maps.fits_anyhow((addr + 0xc) as u64, 4)
        &&& maps.fits_anyhow((addr + 0x10) as u64, 4)
        &&& maps.floor_region((addr + 0x14) as u64) is Some
    }

    /// The bytes of `version`, which `save` writes last, at once.
    pub closed spec fn version_bytes(self) -> Seq<u8> {
        self.version@
    }

    /// The writes of `save` at `addr`, in order: address and little endian
    /// bytes of each field.
    pub closed spec fn writes(self, addr: u64) -> Seq<(u64, Seq<u8>)> {
        seq![
            (addr, le_bytes((self.version_info_size) as nat, 4)),
            ((addr + 4) as u64, le_bytes((self.major_version) as nat, 4)),
            ((addr + 8) as u64, le_bytes((self.minor_version) as nat, 4)),
            ((addr + 0xc) as u64, le_bytes((self.build_number) as nat, 4)),
            ((addr + 0x10) as u64, le_bytes((self.platform_id) as nat, 4)),
        ]
    }

    /// Writes the fields at `addr`, one after the other (an unmapped field
    /// is tolerated only in banzai mode, and left unwritten).
    pub fn save(&self, addr: u64, maps: &mut Maps)
        requires
            old(maps).wf(),
            addr + 0x94 <= u64::MAX,
            !old(maps).banzai_view() ==> Self::fits_in(*old(maps), addr),
        ensures
            exists|mid: Maps|
                old(maps).wrote_values(mid, self.writes(addr)) && #[trigger] mid.bytes_written(
                    *final(maps),
                    (addr + 0x14) as u64,
                    self.version_bytes(),
                ),
    {
        let ghost m0 = *maps;
        let ghost mut done: Seq<(u64, Seq<u8>)> = Seq::empty();
        proof {
            m0.lemma_run_start();
        }
        store_dword(maps, Ghost(m0), Ghost(done), addr, self.version_info_size);
        proof {
            done = done.push((addr, le_bytes((self.version_info_size) as nat, 4)));
        }
        store_dword(maps, Ghost(m0), Ghost(done), addr + 4, self.major_version);
        proof {
            done = done.push(((addr + 4) as u64, le_bytes((self.major_version) as nat, 4)));
        }
        store_dword(maps, Ghost(m0), Ghost(done), addr + 8, self.minor_version);
        proof {
            done = done.push(((addr + 8) as u64, le_bytes((self.minor_version) as nat, 4)));
        }
        store_dword(maps, Ghost(m0), Ghost(done), addr + 0xc, self.build_number);
        proof {
            done = done.push(((addr + 0xc) as u64, le_bytes((self.build_number) as nat, 4)));
        }
        store_dword(maps, Ghost(m0), Ghost(done), addr + 0x10, self.platform_id);
        proof {
            done = done.push(((addr + 0x10) as u64, le_bytes((self.platform_id) as nat, 4)));
        }
        assert(done =~= self.writes(addr));
        let ghost prev = *maps;
        proof {
            m0.lemma_same_layout_wf(prev);
            if !m0.banzai_view() {
                m0.lemma_found_anyhow(prev, (addr + 0x14) as u64);
            }
        }
        maps.write_buffer(addr + 20, &self.version);
        assert(prev.bytes_written(*maps, (addr + 0x14) as u64, self.version_bytes()));
    }

    /// The text of the service pack, as bytes.
    pub open spec fn service_pack_text() -> Seq<u8> {
        "Service Pack 0"@.map_values(|c: char| c as u8)
    }

    /// The values that `new` gives: Windows 10 build 19042 on the NT
    /// platform, with the service pack text at the start of the version
    /// buffer and zeros after it.
    pub closed spec fn is_fresh(self) -> bool {
        &&& self.version_info_size == 284
        &&& self.major_version == 10
        &&& self.minor_version == 0
        &&& self.build_number == 19042
        &&& self.platform_id == 2
        &&& self.version@ == Self::service_pack_text() + Seq::new(114, |i: int| 0u8)
    }

    /// The version information of the emulated system.
    pub fn new() -> (r: OsVersionInfo)
        ensures
            r.is_fresh(),
    {
        let mut ovi = OsVersionInfo {
            version_info_size: 284,
            major_version: 10,
            minor_version: 0,
            build_number: 19042,
            platform_id: 2,
            version: [0; 128],
        };
        let text = "Service Pack 0";
        proof {
            reveal_strlit("Service Pack 0");
            vstd::string::is_ascii_spec_bytes(text);
        }
        let bytes = text.as_bytes();
        assert(bytes@ == Self::service_pack_text());
        let mut i: usize = 0;
        while i < bytes.len()
            invariant
                bytes@ == Self::service_pack_text(),
                bytes@.len() == 14,
                i <= 14,
                ovi.version_info_size == 284,
                ovi.major_version == 10,
                ovi.minor_version == 0,
                ovi.build_number == 19042,
                ovi.platform_id == 2,
                forall|j: int| 0 <= j < i ==> ovi.version@[j] == bytes@[j],
                forall|j: int| i <= j < 128 ==> ovi.version@[j] == 0,
            decreases 14 - i,
        {
            ovi.version[i] = bytes[i];
            i = i + 1;
        }
        assert(ovi.version@ =~= Self::service_pack_text() + Seq::new(114, |i: int| 0u8));
        ovi
    }
}

/// A calendar date and time of day.
#[derive(Debug)]
pub struct SystemTime {
    year: u16,
    month: u16,
    day_of_week: u16,
    day: u16,
    hour: u16,
    minute: u16,
    second: u16,
    millis: u16,
}

impl SystemTime {
    /// The values that `new` gives.
    pub closed spec fn is_fresh(self, year: u16, month: u16, day_of_week: u16, day: u16, hour: u16, minute: u16, second: u16, millis: u16) -> bool {
        &&& self.year == year
        &&& self.month == month
        &&& self.day_of_week == day_of_week
        &&& self.day == day
        &&& self.hour == hour
        &&& self.minute == minute
        &&& self.second == second
        &&& self.millis == millis
    }

    /// Every field that `save` writes at `addr` fits in the region that a
    /// lookup of its address finds, whatever the lookup cache holds.
    pub open spec fn fits_in(maps: Maps, addr: u64) -> bool {
        &&& maps.fits_anyhow(addr, 2)
        &&& maps.fits_anyhow((addr + 2) as u64, 2)
        &&& maps.fits_anyhow((addr + 4) as u64, 2)
        &&& maps.fits_anyhow((addr + 6) as u64, 2)
        &&& maps.fits_anyhow((addr + 8) as u64, 2)
        &&& maps.fits_anyhow((addr + 0xa) as u64, 2)
        &&& maps.fits_anyhow((addr + 0xc) as u64, 2)
        &&& maps.fits_anyhow((addr + 0xe) as u64, 2)
    }

    /// The writes of `save` at `addr`, in order: address and little endian
    /// bytes of each field.
    pub closed spec fn writes(self, addr: u64) -> Seq<(u64, Seq<u8>)> {
        seq![
            (addr, le_bytes((self.year) as nat, 2)),
            ((addr + 2) as u64, le_bytes((self.month) as nat, 2)),
            ((addr + 4) as u64, le_bytes((self.day_of_week) as nat, 2)),
            ((addr + 6) as u64, le_bytes((self.day) as nat, 2)),
            ((addr + 8) as u64, le_bytes((self.hour) as nat, 2)),
            ((addr + 0xa) as u64, le_bytes((self.minute) as nat, 2)),
            ((addr + 0xc) as u64, le_bytes((self.second) as nat, 2)),
            ((addr + 0xe) as u64, le_bytes((self.millis) as nat, 2)),
        ]
    }

    /// The structure with its initial values (see `is_fresh`).
    pub fn new(year: u16, month: u16, day_of_week: u16, day: u16, hour: u16, minute: u16, second: u16, millis: u16) -> (r: SystemTime)
        ensures
            r.is_fresh(year, month, day_of_week, day, hour, minute, second, millis),
    {
        SystemTime {
            year,
            month,
            day_of_week,
            day,
            hour,
            minute,
            second,
            millis,
        }
    }

    /// Writes the fields at `addr`, one after the other (an unmapped field
    /// is tolerated only in banzai mode, and left unwritten).
    pub fn save(&self, addr: u64, maps: &mut Maps)
        requires
            old(maps).wf(),
            addr + 0x10 <= u64::MAX,
            !old(maps).banzai_view() ==> Self::fits_in(*old(maps), addr),
        ensures
            old(maps).wrote_values(*final(maps), self.writes(addr)),
    {
        let ghost m0 = *maps;
        let ghost mut done: Seq<(u64, Seq<u8>)> = Seq::empty();
        proof {
            m0.lemma_run_start();
        }
        store_word(maps, Ghost(m0), Ghost(done), addr, self.year);
        proof {
            done = done.push((addr, le_bytes((self.year) as nat, 2)));
        }
        store_word(maps, Ghost(m0), Ghost(done), addr + 2, self.month);
        proof {
            done = done.push(((addr + 2) as u64, le_bytes((self.month) as nat, 2)));
        }
        store_word(maps, Ghost(m0), Ghost(done), addr + 4, self.day_of_week);
        proof {
            done = done.push(((addr + 4) as u64, le_bytes((self.day_of_week) as nat, 2)));
        }
        store_word(maps, Ghost(m0), Ghost(done), addr + 6, self.day);
        proof {
            done = done.push(((addr + 6) as u64, le_bytes((self.day) as nat, 2)));
        }
        store_word(maps, Ghost(m0), Ghost(done), addr + 8, self.hour);
        proof {
            done = done.push(((addr + 8) as u64, le_bytes((self.hour) as nat, 2)));
        }
        store_word(maps, Ghost(m0), Ghost(done), addr + 0xa, self.minute);
        proof {
            done = done.push(((addr + 0xa) as u64, le_bytes((self.minute) as nat, 2)));
        }
        store_word(maps, Ghost(m0), Ghost(done), addr + 0xc, self.second);
        proof {
            done = done.push(((addr + 0xc) as u64, le_bytes((self.second) as nat, 2)));
        }
        store_word(maps, Ghost(m0), Ghost(done), addr + 0xe, self.millis);
        proof {
            done = done.push(((addr + 0xe) as u64, le_bytes((self.millis) as nat, 2)));
        }
        assert(done =~= self.writes(addr));
    }
}

/// The startup information of a 32 bit process.
#[derive(Debug)]
pub struct StartupInfo32 {
    cb: u32,
    reserved: u32,
    desktop: u32,
    title: u32,
    x: u32,
    y: u32,
    x_size: u32,
    y_size: u32,
    x_count_chars: u32,
    y_count_chars: u32,
    fill_attribute: u32,
    flags: u32,
    show_window: u16,
    cb_reserved2: u16,
    lp_reserved2: u32,
    std_input: u32,
    std_output: u32,
    std_error: u32,
}

impl StartupInfo32 {
    /// The values that `new` gives.
    pub closed spec fn is_fresh(self) -> bool {
        &&& self.cb == 68
        &&& self.reserved == 0
        &&& self.desktop == 0
        &&& self.title == 0
        &&& self.x == 10
        &&& self.y == 10
        &&& self.x_size == 300
        &&& self.y_size == 200
        &&& self.x_count_chars == 0
        &&& self.y_count_chars == 0
        &&& self.fill_attribute == 0
        &&& self.flags == 0
        &&& self.show_window == 1
        &&& self.cb_reserved2 == 0
        &&& self.lp_reserved2 == 0
        &&& self.std_input == 0
        &&& self.std_output == 0
        &&& self.std_error == 0
    }

    /// Every field that `save` writes at `addr` fits in the region that a
    /// lookup of its address finds, whatever the lookup cache holds.
    pub open spec fn fits_in(maps: Maps, addr: u64) -> bool {
        &&& maps.fits_anyhow(addr, 4)
        &&& maps.fits_anyhow((addr + 4) as u64, 4)
        &&& maps.fits_anyhow((addr + 8) as u64, 4)
        &&& maps.fits_anyhow((addr + 0xc) as u64, 4)
        &&& maps.fits_anyhow((addr + 0x10) as u64, 4)
        &&& maps.fits_anyhow((addr + 0x14) as u64, 4)
        &&& maps.fits_anyhow((addr + 0x18) as u64, 4)
        &&& maps.fits_anyhow((addr + 0x1c) as u64, 4)
        &&& maps.fits_anyhow((addr + 0x20) as u64, 4)
        &&& maps.fits_anyhow((addr + 0x24) as u64, 4)
        &&& maps.fits_anyhow((addr + 0x28) as u64, 4)
        &&& maps.fits_anyhow((addr + 0x2c) as u64, 4)
        &&& maps.fits_anyhow((addr + 0x30) as u64, 2)
        &&& maps.fits_anyhow((addr + 0x32) as u64, 2)
        &&& maps.fits_anyhow((addr + 0x34) as u64, 4)
        &&& maps.fits_anyhow((addr + 0x38) as u64, 4)
        &&& maps.fits_anyhow((addr + 0x3c) as u64, 4)
        &&& maps.fits_anyhow((addr + 0x40) as u64, 4)
    }

    /// The writes of `save` at `addr`, in order: address and little endian
    /// bytes of each field.
    pub closed spec fn writes(self, addr: u64) -> Seq<(u64, Seq<u8>)> {
        seq![
            (addr, le_bytes((self.cb) as nat, 4)),
            ((addr + 4) as u64, le_bytes((self.reserved) as nat, 4)),
            ((addr + 8) as u64, le_bytes((self.desktop) as nat, 4)),
            ((addr + 0xc) as u64, le_bytes((self.title) as nat, 4)),
            ((addr + 0x10) as u64, le_bytes((self.x) as nat, 4)),
            ((addr + 0x14) as u64, le_bytes((self.y) as nat, 4)),
            ((addr + 0x18) as u64, le_bytes((self.x_size) as nat, 4)),
            ((addr + 0x1c) as u64, le_bytes((self.y_size) as nat, 4)),
            ((addr + 0x20) as u64, le_bytes((self.x_count_chars) as nat, 4)),
            ((addr + 0x24) as u64, le_bytes((self.y_count_chars) as nat, 4)),
            ((addr + 0x28) as u64, le_bytes((self.fill_attribute) as nat, 4)),
            ((addr + 0x2c) as u64, le_bytes((self.flags) as nat, 4)),
            ((addr + 0x30) as u64, le_bytes((self.show_window) as nat, 2)),
            ((addr + 0x32) as u64, le_bytes((self.cb_reserved2) as nat, 2)),
            ((addr + 0x34) as u64, le_bytes((self.lp_reserved2) as nat, 4)),
            ((addr + 0x38) as u64, le_bytes((self.std_input) as nat, 4)),
            ((addr + 0x3c) as u64, le_bytes((self.std_output) as nat, 4)),
            ((addr + 0x40) as u64, le_bytes((self.std_error) as nat, 4)),
        ]
    }

    /// The structure with its initial values (see `is_fresh`).
    pub fn new() -> (r: StartupInfo32)
        ensures
            r.is_fresh(),
    {
        StartupInfo32 {
            cb: 68,
            reserved: 0,
            desktop: 0,
            title: 0,
            x: 10,
            y: 10,
            x_size: 300,
            y_size: 200,
            x_count_chars: 0,
            y_count_chars: 0,
            fill_attribute: 0,
            flags: 0,
            show_window: 1,
            cb_reserved2: 0,
            lp_reserved2: 0,
            std_input: 0,
            std_output: 0,
            std_error: 0,
        }
    }

    /// Writes the fields at `addr`, one after the other (an unmapped field
    /// is tolerated only in banzai mode, and left unwritten).
    pub fn save(&self, addr: u64, maps: &mut Maps)
        requires
            old(maps).wf(),
            addr + 0x44 <= u64::MAX,
            !old(maps).banzai_view() ==> Self::fits_in(*old(maps), addr),
        ensures
            old(maps).wrote_values(*final(maps), self.writes(addr)),
    {
        let ghost m0 = *maps;
        let ghost mut done: Seq<(u64, Seq<u8>)> = Seq::empty();
        proof {
            m0.lemma_run_start();
        }
        store_dword(maps, Ghost(m0), Ghost(done), addr, self.cb);
        proof {
            done = done.push((addr, le_bytes((self.cb) as nat, 4)));
        }
        store_dword(maps, Ghost(m0), Ghost(done), addr + 4, self.reserved);
        proof {
            done = done.push(((addr + 4) as u64, le_bytes((self.reserved) as nat, 4)));
        }
        store_dword(maps, Ghost(m0), Ghost(done), addr + 8, self.desktop);
        proof {
            done = done.push(((addr + 8) as u64, le_bytes((self.desktop) as nat, 4)));
        }
        store_dword(maps, Ghost(m0), Ghost(done), addr + 0xc, self.title);
        proof {
            done = done.push(((addr + 0xc) as u64, le_bytes((self.title) as nat, 4)));
        }
        store_dword(maps, Ghost(m0), Ghost(done), addr + 0x10, self.x);
        proof {
            done = done.push(((addr + 0x10) as u64, le_bytes((self.x) as nat, 4)));
        }
        store_dword(maps, Ghost(m0), Ghost(done), addr + 0x14, self.y);
        proof {
            done = done.push(((addr + 0x14) as u64, le_bytes((self.y) as nat, 4)));
        }
        store_dword(maps, Ghost(m0), Ghost(done), addr + 0x18, self.x_size);
        proof {
            done = done.push(((addr + 0x18) as u64, le_bytes((self.x_size) as nat, 4)));
        }
        store_dword(maps, Ghost(m0), Ghost(done), addr + 0x1c, self.y_size);
        proof {
            done = done.push(((addr + 0x1c) as u64, le_bytes((self.y_size) as nat, 4)));
        }
        store_dword(maps, Ghost(m0), Ghost(done), addr + 0x20, self.x_count_chars);
        proof {
            done = done.push(((addr + 0x20) as u64, le_bytes((self.x_count_chars) as nat, 4)));
        }
        store_dword(maps, Ghost(m0), Ghost(done), addr + 0x24, self.y_count_chars);
        proof {
            done = done.push(((addr + 0x24) as u64, le_bytes((self.y_count_chars) as nat, 4)));
        }
        store_dword(maps, Ghost(m0), Ghost(done), addr + 0x28, self.fill_attribute);
        proof {
            done = done.push(((addr + 0x28) as u64, le_bytes((self.fill_attribute) as nat, 4)));
        }
        store_dword(maps, Ghost(m0), Ghost(done), addr + 0x2c, self.flags);
        proof {
            done = done.push(((addr + 0x2c) as u64, le_bytes((self.flags) as nat, 4)));
        }
        store_word(maps, Ghost(m0), Ghost(done), addr + 0x30, self.show_window);
        proof {
            done = done.push(((addr + 0x30) as u64, le_bytes((self.show_window) as nat, 2)));
        }
        store_word(maps, Ghost(m0), Ghost(done), addr + 0x32, self.cb_reserved2);
        proof {
            done = done.push(((addr + 0x32) as u64, le_bytes((self.cb_reserved2) as nat, 2)));
        }
        store_dword(maps, Ghost(m0), Ghost(done), addr + 0x34, self.lp_reserved2);
        proof {
            done = done.push(((addr + 0x34) as u64, le_bytes((self.lp_reserved2) as nat, 4)));
        }
        store_dword(maps, Ghost(m0), Ghost(done), addr + 0x38, self.std_input);
        proof {
            done = done.push(((addr + 0x38) as u64, le_bytes((self.std_input) as nat, 4)));
        }
        store_dword(maps, Ghost(m0), Ghost(done), addr + 0x3c, self.std_output);
        proof {
            done = done.push(((addr + 0x3c) as u64, le_bytes((self.std_output) as nat, 4)));
        }
        store_dword(maps, Ghost(m0), Ghost(done), addr + 0x40, self.std_error);
        proof {
            done = done.push(((addr + 0x40) as u64, le_bytes((self.std_error) as nat, 4)));
        }
        assert(done =~= self.writes(addr));
    }
}

impl Default for StartupInfo32 {
    fn default() -> (r: Self)
        ensures
            r.is_fresh(),
    {
        Self::new()
    }
}

/// The startup information of a 64 bit process.
#[derive(Debug)]
pub struct StartupInfo64 {
    cb: u32,
    reserved: u64,
    desktop: u64,
    title: u64,
    x: u32,
    y: u32,
    x_size: u32,
    y_size: u32,
    x_count_chars: u32,
    y_count_chars: u32,
    fill_attribute: u32,
    flags: u32,
    show_window: u16,
    cb_reserved2: u16,
    lp_reserved2: u64,
    std_input: u32,
    std_output: u32,
    std_error: u32,
}

impl StartupInfo64 {
    /// The values that `new` gives.
    pub closed spec fn is_fresh(self) -> bool {
        &&& self.cb == 84
        &&& self.reserved == 0
        &&& self.desktop == 0
        &&& self.title == 0
        &&& self.x == 10
        &&& self.y == 10
        &&& self.x_size == 300
        &&& self.y_size == 200
        &&& self.x_count_chars == 0
        &&& self.y_count_chars == 0
        &&& self.fill_attribute == 0
        &&& self.flags == 0
        &&& self.show_window == 1
        &&& self.cb_reserved2 == 0
        &&& self.lp_reserved2 == 0
        &&& self.std_input == 0
        &&& self.std_output == 0
        &&& self.std_error == 0
    }

    /// Every field that `save` writes at `addr` fits in the region that a
    /// lookup of its address finds, whatever the lookup cache holds.
    pub open spec fn fits_in(maps: Maps, addr: u64) -> bool {
        &&& maps.fits_anyhow(addr, 4)
        &&& maps.fits_anyhow((addr + 4) as u64, 8)
        &&& maps.fits_anyhow((addr + 0xc) as u64, 8)
        &&& maps.fits_anyhow((addr + 0x14) as u64, 8)
        &&& maps.fits_anyhow((addr + 0x1c) as u64, 4)
        &&& maps.fits_anyhow((addr + 0x20) as u64, 4)
        &&& maps.fits_anyhow((addr + 0x24) as u64, 4)
        &&& maps.fits_anyhow((addr + 0x28) as u64, 4)
        &&& maps.fits_anyhow((addr + 0x2c) as u64, 4)
        &&& maps.fits_anyhow((addr + 0x30) as u64, 4)
        &&& maps.fits_anyhow((addr + 0x34) as u64, 4)
        &&& maps.fits_anyhow((addr + 0x38) as u64, 4)
        &&& maps.fits_anyhow((addr + 0x3c) as u64, 2)
        &&& maps.fits_anyhow((addr + 0x3e) as u64, 2)
        &&& maps.fits_anyhow((addr + 0x40) as u64, 8)
        &&& maps.fits_anyhow((addr + 0x48) as u64, 4)
        &&& maps.fits_anyhow((addr + 0x4c) as u64, 4)
        &&& maps.fits_anyhow((addr + 0x50) as u64, 4)
    }

    /// The writes of `save` at `addr`, in order: address and little endian
    /// bytes of each field.
    pub closed spec fn writes(self, addr: u64) -> Seq<(u64, Seq<u8>)> {
        seq![
            (addr, le_bytes((self.cb) as nat, 4)),
            ((addr + 4) as u64, le_bytes((self.reserved) as nat, 8)),
            ((addr + 0xc) as u64, le_bytes((self.desktop) as nat, 8)),
            ((addr + 0x14) as u64, le_bytes((self.title) as nat, 8)),
            ((addr + 0x1c) as u64, le_bytes((self.x) as nat, 4)),
            ((addr + 0x20) as u64, le_bytes((self.y) as nat, 4)),
            ((addr + 0x24) as u64, le_bytes((self.x_size) as nat, 4)),
            ((addr + 0x28) as u64, le_bytes((self.y_size) as nat, 4)),
            ((addr + 0x2c) as u64, le_bytes((self.x_count_chars) as nat, 4)),
            ((addr + 0x30) as u64, le_bytes((self.y_count_chars) as nat, 4)),
            ((addr + 0x34) as u64, le_bytes((self.fill_attribute) as nat, 4)),
            ((addr + 0x38) as u64, le_bytes((self.flags) as nat, 4)),
            ((addr + 0x3c) as u64, le_bytes((self.show_window) as nat, 2)),
            ((addr + 0x3e) as u64, le_bytes((self.cb_reserved2) as nat, 2)),
            ((addr + 0x40) as u64, le_bytes((self.lp_reserved2) as nat, 8)),
            ((addr + 0x48) as u64, le_bytes((self.std_input) as nat, 4)),
            ((addr + 0x4c) as u64, le_bytes((self.std_output) as nat, 4)),
            ((addr + 0x50) as u64, le_bytes((self.std_error) as nat, 4)),
        ]
    }

    /// The structure with its initial values (see `is_fresh`).
    pub fn new() -> (r: StartupInfo64)
        ensures
            r.is_fresh(),
    {
        StartupInfo64 {
            cb: 84,
            reserved: 0,
            desktop: 0,
            title: 0,
            x: 10,
            y: 10,
            x_size: 300,
            y_size: 200,
            x_count_chars: 0,
            y_count_chars: 0,
            fill_attribute: 0,
            flags: 0,
            show_window: 1,
            cb_reserved2: 0,
            lp_reserved2: 0,
            std_input: 0,
            std_output: 0,
            std_error: 0,
        }
    }

    /// Writes the fields at `addr`, one after the other (an unmapped field
    /// is tolerated only in banzai mode, and left unwritten).
    pub fn save(&self, addr: u64, maps: &mut Maps)
        requires
            old(maps).wf(),
            addr + 0x54 <= u64::MAX,
            !old(maps).banzai_view() ==> Self::fits_in(*old(maps), addr),
        ensures
            old(maps).wrote_values(*final(maps), self.writes(addr)),
    {
        let ghost m0 = *maps;
        let ghost mut done: Seq<(u64, Seq<u8>)> = Seq::empty();
        proof {
            m0.lemma_run_start();
        }
        store_dword(maps, Ghost(m0), Ghost(done), addr, self.cb);
        proof {
            done = done.push((addr, le_bytes((self.cb) as nat, 4)));
        }
        store_qword(maps, Ghost(m0), Ghost(done), addr + 4, self.reserved);
        proof {
            done = done.push(((addr + 4) as u64, le_bytes((self.reserved) as nat, 8)));
        }
        store_qword(maps, Ghost(m0), Ghost(done), addr + 0xc, self.desktop);
        proof {
            done = done.push(((addr + 0xc) as u64, le_bytes((self.desktop) as nat, 8)));
        }
        store_qword(maps, Ghost(m0), Ghost(done), addr + 0x14, self.title);
        proof {
            done = done.push(((addr + 0x14) as u64, le_bytes((self.title) as nat, 8)));
        }
        store_dword(maps, Ghost(m0), Ghost(done), addr + 0x1c, self.x);
        proof {
            done = done.push(((addr + 0x1c) as u64, le_bytes((self.x) as nat, 4)));
        }
        store_dword(maps, Ghost(m0), Ghost(done), addr + 0x20, self.y);
        proof {
            done = done.push(((addr + 0x20) as u64, le_bytes((self.y) as nat, 4)));
        }
        store_dword(maps, Ghost(m0), Ghost(done), addr + 0x24, self.x_size);
        proof {
            done = done.push(((addr + 0x24) as u64, le_bytes((self.x_size) as nat, 4)));
        }
        store_dword(maps, Ghost(m0), Ghost(done), addr + 0x28, self.y_size);
        proof {
            done = done.push(((addr + 0x28) as u64, le_bytes((self.y_size) as nat, 4)));
        }
        store_dword(maps, Ghost(m0), Ghost(done), addr + 0x2c, self.x_count_chars);
        proof {
            done = done.push(((addr + 0x2c) as u64, le_bytes((self.x_count_chars) as nat, 4)));
        }
        store_dword(maps, Ghost(m0), Ghost(done), addr + 0x30, self.y_count_chars);
        proof {
            done = done.push(((addr + 0x30) as u64, le_bytes((self.y_count_chars) as nat, 4)));
        }
        store_dword(maps, Ghost(m0), Ghost(done), addr + 0x34, self.fill_attribute);
        proof {
            done = done.push(((addr + 0x34) as u64, le_bytes((self.fill_attribute) as nat, 4)));
        }
        store_dword(maps, Ghost(m0), Ghost(done), addr + 0x38, self.flags);
        proof {
            done = done.push(((addr + 0x38) as u64, le_bytes((self.flags) as nat, 4)));
        }
        store_word(maps, Ghost(m0), Ghost(done), addr + 0x3c, self.show_window);
        proof {
            done = done.push(((addr + 0x3c) as u64, le_bytes((self.show_window) as nat, 2)));
        }
        store_word(maps, Ghost(m0), Ghost(done), addr + 0x3e, self.cb_reserved2);
        proof {
            done = done.push(((addr + 0x3e) as u64, le_bytes((self.cb_reserved2) as nat, 2)));
        }
        store_qword(maps, Ghost(m0), Ghost(done), addr + 0x40, self.lp_reserved2);
        proof {
            done = done.push(((addr + 0x40) as u64, le_bytes((self.lp_reserved2) as nat, 8)));
        }
        store_dword(maps, Ghost(m0), Ghost(done), addr + 0x48, self.std_input);
        proof {
            done = done.push(((addr + 0x48) as u64, le_bytes((self.std_input) as nat, 4)));
        }
        store_dword(maps, Ghost(m0), Ghost(done), addr + 0x4c, self.std_output);
        proof {
            done = done.push(((addr + 0x4c) as u64, le_bytes((self.std_output) as nat, 4)));
        }
        store_dword(maps, Ghost(m0), Ghost(done), addr + 0x50, self.std_error);
        proof {
            done = done.push(((addr + 0x50) as u64, le_bytes((self.std_error) as nat, 4)));
        }
        assert(done =~= self.writes(addr));
    }
}

impl Default for StartupInfo64 {
    fn default() -> (r: Self)
        ensures
            r.is_fresh(),
    {
        Self::new()
    }
}

/// The system information that a 32 bit process gets.
#[derive(Debug)]
pub struct SystemInfo32 {
    oem_id: u32,
    processor_architecture: u32,
    reserved: u16,
    page_size: u32,
    min_app_addr: u32,
    max_app_addr: u32,
    active_processor_mask: u32,
    number_of_processors: u32,
    processor_type: u32,
    alloc_granularity: u32,
    processor_level: u16,
    processor_revision: u16,
}

impl SystemInfo32 {
    /// The values that `new` gives.
    pub closed spec fn is_fresh(self) -> bool {
        &&& self.oem_id == 0x1337
        &&& self.processor_architecture == 9
        &&& self.reserved == 0
        &&& self.page_size == 4090
        &&& self.min_app_addr == 0
        &&& self.max_app_addr == 0
        &&& self.active_processor_mask == 1
        &&& self.number_of_processors == 4
        &&& self.processor_type == 586
        &&& self.alloc_granularity == 65536
        &&& self.processor_level == 5
        &&& self.processor_revision == 255
    }

    /// Every field that `save` writes at `addr` fits in the region that a
    /// lookup of its address finds, whatever the lookup cache holds.
    pub open spec fn fits_in(maps: Maps, addr: u64) -> bool {
        &&& maps.fits_anyhow(addr, 4)
        &&& maps.fits_anyhow((addr + 4) as u64, 4)
        &&& maps.fits_anyhow((addr + 8) as u64, 2)
        &&& maps.fits_anyhow((addr + 0xa) as u64, 4)
        &&& maps.fits_anyhow((addr + 0xe) as u64, 4)
        &&& maps.fits_anyhow((addr + 0x12) as u64, 4)
        &&& maps.fits_anyhow((addr + 0x16) as u64, 4)
        &&& maps.fits_anyhow((addr + 0x1a) as u64, 4)
        &&& maps.fits_anyhow((addr + 0x1e) as u64, 4)
        &&& maps.fits_anyhow((addr + 0x22) as u64, 4)
        &&& maps.fits_anyhow((addr + 0x26) as u64, 2)
        &&& maps.fits_anyhow((addr + 0x28) as u64, 2)
    }

    /// The writes of `save` at `addr`, in order: address and little endian
    /// bytes of each field.
    pub closed spec fn writes(self, addr: u64) -> Seq<(u64, Seq<u8>)> {
        seq![
            (addr, le_bytes((self.oem_id) as nat, 4)),
            ((addr + 4) as u64, le_bytes((self.processor_architecture) as nat, 4)),
            ((addr + 8) as u64, le_bytes((self.reserved) as nat, 2)),
            ((addr + 0xa) as u64, le_bytes((self.page_size) as nat, 4)),
            ((addr + 0xe) as u64, le_bytes((self.min_app_addr) as nat, 4)),
            ((addr + 0x12) as u64, le_bytes((self.max_app_addr) as nat, 4)),
            ((addr + 0x16) as u64, le_bytes((self.active_processor_mask) as nat, 4)),
            ((addr + 0x1a) as u64, le_bytes((self.number_of_processors) as nat, 4)),
            ((addr + 0x1e) as u64, le_bytes((self.processor_type) as nat, 4)),
            ((addr + 0x22) as u64, le_bytes((self.alloc_granularity) as nat, 4)),
            ((addr + 0x26) as u64, le_bytes((self.processor_level) as nat, 2)),
            ((addr + 0x28) as u64, le_bytes((self.processor_revision) as nat, 2)),
        ]
    }

    /// The structure with its initial values (see `is_fresh`).
    pub fn new() -> (r: SystemInfo32)
        ensures
            r.is_fresh(),
    {
        SystemInfo32 {
            oem_id: 0x1337,
            processor_architecture: 9,
            reserved: 0,
            page_size: 4090,
            min_app_addr: 0,
            max_app_addr: 0,
            active_processor_mask: 1,
            number_of_processors: 4,
            processor_type: 586,
            alloc_granularity: 65536,
            processor_level: 5,
            processor_revision: 255,
        }
    }

    /// The size of the structure in emulated memory.
    pub fn size(&self) -> (r: usize)
        ensures
            r == 42,
    {
        42
    }

    /// Writes the fields at `addr`, one after the other (an unmapped field
    /// is tolerated only in banzai mode, and left unwritten).
    pub fn save(&mut self, addr: u64, maps: &mut Maps)
        requires
            old(maps).wf(),
            addr + 0x2a <= u64::MAX,
            !old(maps).banzai_view() ==> Self::fits_in(*old(maps), addr),
        ensures
            old(maps).wrote_values(*final(maps), old(self).writes(addr)),
            *final(self) == *old(self),
    {
        let ghost m0 = *maps;
        let ghost mut done: Seq<(u64, Seq<u8>)> = Seq::empty();
        proof {
            m0.lemma_run_start();
        }
        store_dword(maps, Ghost(m0), Ghost(done), addr, self.oem_id);
        proof {
            done = done.push((addr, le_bytes((self.oem_id) as nat, 4)));
        }
        store_dword(maps, Ghost(m0), Ghost(done), addr + 4, self.processor_architecture);
        proof {
            done = done.push(((addr + 4) as u64, le_bytes((self.processor_architecture) as nat, 4)));
        }
        store_word(maps, Ghost(m0), Ghost(done), addr + 8, self.reserved);
        proof {
            done = done.push(((addr + 8) as u64, le_bytes((self.reserved) as nat, 2)));
        }
        store_dword(maps, Ghost(m0), Ghost(done), addr + 0xa, self.page_size);
        proof {
            done = done.push(((addr + 0xa) as u64, le_bytes((self.page_size) as nat, 4)));
        }
        store_dword(maps, Ghost(m0), Ghost(done), addr + 0xe, self.min_app_addr);
        proof {
            done = done.push(((addr + 0xe) as u64, le_bytes((self.min_app_addr) as nat, 4)));
        }
        store_dword(maps, Ghost(m0), Ghost(done), addr + 0x12, self.max_app_addr);
        proof {
            done = done.push(((addr + 0x12) as u64, le_bytes((self.max_app_addr) as nat, 4)));
        }
        store_dword(maps, Ghost(m0), Ghost(done), addr + 0x16, self.active_processor_mask);
        proof {
            done = done.push(((addr + 0x16) as u64, le_bytes((self.active_processor_mask) as nat, 4)));
        }
        store_dword(maps, Ghost(m0), Ghost(done), addr + 0x1a, self.number_of_processors);
        proof {
            done = done.push(((addr + 0x1a) as u64, le_bytes((self.number_of_processors) as nat, 4)));
        }
        store_dword(maps, Ghost(m0), Ghost(done), addr + 0x1e, self.processor_type);
        proof {
            done = done.push(((addr + 0x1e) as u64, le_bytes((self.processor_type) as nat, 4)));
        }
        store_dword(maps, Ghost(m0), Ghost(done), addr + 0x22, self.alloc_granularity);
        proof {
            done = done.push(((addr + 0x22) as u64, le_bytes((self.alloc_granularity) as nat, 4)));
        }
        store_word(maps, Ghost(m0), Ghost(done), addr + 0x26, self.processor_level);
        proof {
            done = done.push(((addr + 0x26) as u64, le_bytes((self.processor_level) as nat, 2)));
        }
        store_word(maps, Ghost(m0), Ghost(done), addr + 0x28, self.processor_revision);
        proof {
            done = done.push(((addr + 0x28) as u64, le_bytes((self.processor_revision) as nat, 2)));
        }
        assert(done =~= self.writes(addr));
    }
}

impl Default for SystemInfo32 {
    fn default() -> (r: Self)
        ensures
            r.is_fresh(),
    {
        Self::new()
    }
}

/// The system information that a 64 bit process gets: the architecture
/// first, as a word, then the page size and the address range.
#[derive(Debug)]
pub struct SystemInfo64 {
    oem_id: u32,
    processor_architecture: u32,
    reserved: u16,
    page_size: u32,
    min_app_addr: u64,
    max_app_addr: u64,
    active_processor_mask: u64,
    number_of_processors: u32,
    processor_type: u32,
    alloc_granularity: u32,
    processor_level: u16,
    processor_revision: u16,
}

impl SystemInfo64 {
    /// The values that `new` gives.
    pub closed spec fn is_fresh(self) -> bool {
        &&& self.oem_id == 0
        &&& self.processor_architecture == 9
        &&& self.reserved == 0
        &&& self.page_size == 4096
        &&& self.min_app_addr == 0x10000
        &&& self.max_app_addr == 0x7FFFFFFEFFFF
        &&& self.active_processor_mask == 0xFF
        &&& self.number_of_processors == 8
        &&& self.processor_type == 8664
        &&& self.alloc_granularity == 65536
        &&& self.processor_level == 6
        &&& self.processor_revision == 0xA201
    }

    /// Every field that `save` writes at `addr` fits in the region that a
    /// lookup of its address finds, whatever the lookup cache holds.
    pub open spec fn fits_in(maps: Maps, addr: u64) -> bool {
        &&& maps.fits_anyhow(addr, 2)
        &&& maps.fits_anyhow((addr + 2) as u64, 2)
        &&& maps.fits_anyhow((addr + 4) as u64, 4)
        &&& maps.fits_anyhow((addr + 8) as u64, 8)
        &&& maps.fits_anyhow((addr + 0x10) as u64, 8)
        &&& maps.fits_anyhow((addr + 0x18) as u64, 8)
        &&& maps.fits_anyhow((addr + 0x20) as u64, 4)
        &&& maps.fits_anyhow((addr + 0x24) as u64, 4)
        &&& maps.fits_anyhow((addr + 0x28) as u64, 4)
        &&& maps.fits_anyhow((addr + 0x2c) as u64, 2)
        &&& maps.fits_anyhow((addr + 0x2e) as u64, 2)
    }

    /// The writes of `save` at `addr`, in order: address and little endian
    /// bytes of each field.
    pub closed spec fn writes(self, addr: u64) -> Seq<(u64, Seq<u8>)> {
        seq![
            (addr, le_bytes((self.processor_architecture as u16) as nat, 2)),
            ((addr + 2) as u64, le_bytes((self.reserved) as nat, 2)),
            ((addr + 4) as u64, le_bytes((self.page_size) as nat, 4)),
            ((addr + 8) as u64, le_bytes((self.min_app_addr) as nat, 8)),
            ((addr + 0x10) as u64, le_bytes((self.max_app_addr) as nat, 8)),
            ((addr + 0x18) as u64, le_bytes((self.active_processor_mask) as nat, 8)),
            ((addr + 0x20) as u64, le_bytes((self.number_of_processors) as nat, 4)),
            ((addr + 0x24) as u64, le_bytes((self.processor_type) as nat, 4)),
            ((addr + 0x28) as u64, le_bytes((self.alloc_granularity) as nat, 4)),
            ((addr + 0x2c) as u64, le_bytes((self.processor_level) as nat, 2)),
            ((addr + 0x2e) as u64, le_bytes((self.processor_revision) as nat, 2)),
        ]
    }

    /// The structure with its initial values (see `is_fresh`).
    pub fn new() -> (r: SystemInfo64)
        ensures
            r.is_fresh(),
    {
        SystemInfo64 {
            oem_id: 0,
            processor_architecture: 9,
            reserved: 0,
            page_size: 4096,
            min_app_addr: 0x10000,
            max_app_addr: 0x7FFFFFFEFFFF,
            active_processor_mask: 0xFF,
            number_of_processors: 8,
            processor_type: 8664,
            alloc_granularity: 65536,
            processor_level: 6,
            processor_revision: 0xA201,
        }
    }

    /// The size of the structure in emulated memory.
    pub fn size(&self) -> (r: usize)
        ensures
            r == 48,
    {
        48
    }

    /// Writes the fields at `addr`, one after the other (an unmapped field
    /// is tolerated only in banzai mode, and left unwritten).
    pub fn save(&mut self, addr: u64, maps: &mut Maps)
        requires
            old(maps).wf(),
            addr + 0x30 <= u64::MAX,
            !old(maps).banzai_view() ==> Self::fits_in(*old(maps), addr),
        ensures
            old(maps).wrote_values(*final(maps), old(self).writes(addr)),
            *final(self) == *old(self),
    {
        let ghost m0 = *maps;
        let ghost mut done: Seq<(u64, Seq<u8>)> = Seq::empty();
        proof {
            m0.lemma_run_start();
        }
        store_word(maps, Ghost(m0), Ghost(done), addr, self.processor_architecture as u16);
        proof {
            done = done.push((addr, le_bytes((self.processor_architecture as u16) as nat, 2)));
        }
        store_word(maps, Ghost(m0), Ghost(done), addr + 2, self.reserved);
        proof {
            done = done.push(((addr + 2) as u64, le_bytes((self.reserved) as nat, 2)));
        }
        store_dword(maps, Ghost(m0), Ghost(done), addr + 4, self.page_size);
        proof {
            done = done.push(((addr + 4) as u64, le_bytes((self.page_size) as nat, 4)));
        }
        store_qword(maps, Ghost(m0), Ghost(done), addr + 8, self.min_app_addr);
        proof {
            done = done.push(((addr + 8) as u64, le_bytes((self.min_app_addr) as nat, 8)));
        }
        store_qword(maps, Ghost(m0), Ghost(done), addr + 0x10, self.max_app_addr);
        proof {
            done = done.push(((addr + 0x10) as u64, le_bytes((self.max_app_addr) as nat, 8)));
        }
        store_qword(maps, Ghost(m0), Ghost(done), addr + 0x18, self.active_processor_mask);
        proof {
            done = done.push(((addr + 0x18) as u64, le_bytes((self.active_processor_mask) as nat, 8)));
        }
        store_dword(maps, Ghost(m0), Ghost(done), addr + 0x20, self.number_of_processors);
        proof {
            done = done.push(((addr + 0x20) as u64, le_bytes((self.number_of_processors) as nat, 4)));
        }
        store_dword(maps, Ghost(m0), Ghost(done), addr + 0x24, self.processor_type);
        proof {
            done = done.push(((addr + 0x24) as u64, le_bytes((self.processor_type) as nat, 4)));
        }
        store_dword(maps, Ghost(m0), Ghost(done), addr + 0x28, self.alloc_granularity);
        proof {
            done = done.push(((addr + 0x28) as u64, le_bytes((self.alloc_granularity) as nat, 4)));
        }
        store_word(maps, Ghost(m0), Ghost(done), addr + 0x2c, self.processor_level);
        proof {
            done = done.push(((addr + 0x2c) as u64, le_bytes((self.processor_level) as nat, 2)));
        }
        store_word(maps, Ghost(m0), Ghost(done), addr + 0x2e, self.processor_revision);
        proof {
            done = done.push(((addr + 0x2e) as u64, le_bytes((self.processor_revision) as nat, 2)));
        }
        assert(done =~= self.writes(addr));
    }
}

impl Default for SystemInfo64 {
    fn default() -> (r: Self)
        ensures
            r.is_fresh(),
    {
        Self::new()
    }
}

impl Default for OsVersionInfo {
    fn default() -> (r: Self)
        ensures
            r.is_fresh(),
    {
        Self::new()
    }
}

impl OsVersionInfo {
    /// A block as `new` gives it writes the service pack text and zeros as
    /// its version bytes.
    pub proof fn lemma_fresh_version(self)
        requires
            self.is_fresh(),
        ensures
            self.version_bytes() == Self::service_pack_text() + Seq::new(114, |i: int| 0u8),
    {
    }

    /// The writes of `save` at `addr` for the block that `new` gives: the
    /// same list as `writes`, with the values `new` puts in each field.
    pub open spec fn fresh_writes(addr: u64) -> Seq<(u64, Seq<u8>)> {
        seq![
            (addr, le_bytes(((284)) as nat, 4)),
            ((addr + 4) as u64, le_bytes(((10)) as nat, 4)),
            ((addr + 8) as u64, le_bytes(((0)) as nat, 4)),
            ((addr + 0xc) as u64, le_bytes(((19042)) as nat, 4)),
            ((addr + 0x10) as u64, le_bytes(((2)) as nat, 4)),
        ]
    }

    /// A block as `new` gives it is written as `fresh_writes` lists.
    pub proof fn lemma_fresh_writes(self, addr: u64)
        requires
            self.is_fresh(),
        ensures
            self.writes(addr) == Self::fresh_writes(addr),
    {
        assert(self.writes(addr) =~= Self::fresh_writes(addr));
    }

    /// The writes of `save` at `addr` lie one after the other, from `addr`
    /// to `addr + 0x14`, each of at least one byte.
    pub proof fn lemma_writes_ordered(self, addr: u64)
        requires
            addr + 0x14 <= u64::MAX,
        ensures
            self.writes(addr).len() == 5,
            writes_ordered(self.writes(addr), 0),
            self.writes(addr)[0].0 == addr,
            self.writes(addr)[4].0 + self.writes(addr)[4].1.len() == addr + 0x14,
            forall|i: int| 0 <= i < 5 ==> (#[trigger] self.writes(addr)[i]).1.len() > 0,
    {
        let ws = self.writes(addr);
        assert(ws.len() == 5);
        assert(writes_ordered(ws, 4));
        assert(writes_ordered(ws, 3));
        assert(writes_ordered(ws, 2));
        assert(writes_ordered(ws, 1));
        assert(writes_ordered(ws, 0));
        assert forall|i: int| 0 <= i < 5 implies (#[trigger] ws[i]).1.len() > 0 by {
            assert(0 <= i < 5);
        }
    }
}

impl SystemTime {
    /// The writes of `save` at `addr` for the block that `new` gives: the
    /// same list as `writes`, with the values `new` puts in each field.
    pub open spec fn fresh_writes(year: u16, month: u16, day_of_week: u16, day: u16, hour: u16, minute: u16, second: u16, millis: u16, addr: u64) -> Seq<(u64, Seq<u8>)> {
        seq![
            (addr, le_bytes(((year)) as nat, 2)),
            ((addr + 2) as u64, le_bytes(((month)) as nat, 2)),
            ((addr + 4) as u64, le_bytes(((day_of_week)) as nat, 2)),
            ((addr + 6) as u64, le_bytes(((day)) as nat, 2)),
            ((addr + 8) as u64, le_bytes(((hour)) as nat, 2)),
            ((addr + 0xa) as u64, le_bytes(((minute)) as nat, 2)),
            ((addr + 0xc) as u64, le_bytes(((second)) as nat, 2)),
            ((addr + 0xe) as u64, le_bytes(((millis)) as nat, 2)),
        ]
    }

    /// A block as `new` gives it is written as `fresh_writes` lists.
    pub proof fn lemma_fresh_writes(self, year: u16, month: u16, day_of_week: u16, day: u16, hour: u16, minute: u16, second: u16, millis: u16, addr: u64)
        requires
            self.is_fresh(year, month, day_of_week, day, hour, minute, second, millis),
        ensures
            self.writes(addr) == Self::fresh_writes(year, month, day_of_week, day, hour, minute, second, millis, addr),
    {
        assert(self.writes(addr) =~= Self::fresh_writes(year, month, day_of_week, day, hour, minute, second, millis, addr));
    }

    /// The writes of `save` at `addr` lie one after the other, from `addr`
    /// to `addr + 0x10`, each of at least one byte.
    pub proof fn lemma_writes_ordered(self, addr: u64)
        requires
            addr + 0x10 <= u64::MAX,
        ensures
            self.writes(addr).len() == 8,
            writes_ordered(self.writes(addr), 0),
            self.writes(addr)[0].0 == addr,
            self.writes(addr)[7].0 + self.writes(addr)[7].1.len() == addr + 0x10,
            forall|i: int| 0 <= i < 8 ==> (#[trigger] self.writes(addr)[i]).1.len() > 0,
    {
        let ws = self.writes(addr);
        assert(ws.len() == 8);
        assert(writes_ordered(ws, 7));
        assert(writes_ordered(ws, 6));
        assert(writes_ordered(ws, 5));
        assert(writes_ordered(ws, 4));
        assert(writes_ordered(ws, 3));
        assert(writes_ordered(ws, 2));
        assert(writes_ordered(ws, 1));
        assert(writes_ordered(ws, 0));
        assert forall|i: int| 0 <= i < 8 implies (#[trigger] ws[i]).1.len() > 0 by {
            assert(0 <= i < 8);
        }
    }
}

impl StartupInfo32 {
    /// The writes of `save` at `addr` for the block that `new` gives: the
    /// same list as `writes`, with the values `new` puts in each field.
    pub open spec fn fresh_writes(addr: u64) -> Seq<(u64, Seq<u8>)> {
        seq![
            (addr, le_bytes(((68)) as nat, 4)),
            ((addr + 4) as u64, le_bytes(((0)) as nat, 4)),
            ((addr + 8) as u64, le_bytes(((0)) as nat, 4)),
            ((addr + 0xc) as u64, le_bytes(((0)) as nat, 4)),
            ((addr + 0x10) as u64, le_bytes(((10)) as nat, 4)),
            ((addr + 0x14) as u64, le_bytes(((10)) as nat, 4)),
            ((addr + 0x18) as u64, le_bytes(((300)) as nat, 4)),
            ((addr + 0x1c) as u64, le_bytes(((200)) as nat, 4)),
            ((addr + 0x20) as u64, le_bytes(((0)) as nat, 4)),
            ((addr + 0x24) as u64, le_bytes(((0)) as nat, 4)),
            ((addr + 0x28) as u64, le_bytes(((0)) as nat, 4)),
            ((addr + 0x2c) as u64, le_bytes(((0)) as nat, 4)),
            ((addr + 0x30) as u64, le_bytes(((1)) as nat, 2)),
            ((addr + 0x32) as u64, le_bytes(((0)) as nat, 2)),
            ((addr + 0x34) as u64, le_bytes(((0)) as nat, 4)),
            ((addr + 0x38) as u64, le_bytes(((0)) as nat, 4)),
            ((addr + 0x3c) as u64, le_bytes(((0)) as nat, 4)),
            ((addr + 0x40) as u64, le_bytes(((0)) as nat, 4)),
        ]
    }

    /// A block as `new` gives it is written as `fresh_writes` lists.
    pub proof fn lemma_fresh_writes(self, addr: u64)
        requires
            self.is_fresh(),
        ensures
            self.writes(addr) == Self::fresh_writes(addr),
    {
        assert(self.writes(addr) =~= Self::fresh_writes(addr));
    }

    /// The writes of `save` at `addr` lie one after the other, from `addr`
    /// to `addr + 0x44`, each of at least one byte.
    pub proof fn lemma_writes_ordered(self, addr: u64)
        requires
            addr + 0x44 <= u64::MAX,
        ensures
            self.writes(addr).len() == 18,
            writes_ordered(self.writes(addr), 0),
            self.writes(addr)[0].0 == addr,
            self.writes(addr)[17].0 + self.writes(addr)[17].1.len() == addr + 0x44,
            forall|i: int| 0 <= i < 18 ==> (#[trigger] self.writes(addr)[i]).1.len() > 0,
    {
        let ws = self.writes(addr);
        assert(ws.len() == 18);
        assert(writes_ordered(ws, 17));
        assert(writes_ordered(ws, 16));
        assert(writes_ordered(ws, 15));
        assert(writes_ordered(ws, 14));
        assert(writes_ordered(ws, 13));
        assert(writes_ordered(ws, 12));
        assert(writes_ordered(ws, 11));
        assert(writes_ordered(ws, 10));
        assert(writes_ordered(ws, 9));
        assert(writes_ordered(ws, 8));
        assert(writes_ordered(ws, 7));
        assert(writes_ordered(ws, 6));
        assert(writes_ordered(ws, 5));
        assert(writes_ordered(ws, 4));
        assert(writes_ordered(ws, 3));
        assert(writes_ordered(ws, 2));
        assert(writes_ordered(ws, 1));
        assert(writes_ordered(ws, 0));
        assert forall|i: int| 0 <= i < 18 implies (#[trigger] ws[i]).1.len() > 0 by {
            assert(0 <= i < 18);
        }
    }
}

impl StartupInfo64 {
    /// The writes of `save` at `addr` for the block that `new` gives: the
    /// same list as `writes`, with the values `new` puts in each field.
    pub open spec fn fresh_writes(addr: u64) -> Seq<(u64, Seq<u8>)> {
        seq![
            (addr, le_bytes(((84)) as nat, 4)),
            ((addr + 4) as u64, le_bytes(((0)) as nat, 8)),
            ((addr + 0xc) as u64, le_bytes(((0)) as nat, 8)),
            ((addr + 0x14) as u64, le_bytes(((0)) as nat, 8)),
            ((addr + 0x1c) as u64, le_bytes(((10)) as nat, 4)),
            ((addr + 0x20) as u64, le_bytes(((10)) as nat, 4)),
            ((addr + 0x24) as u64, le_bytes(((300)) as nat, 4)),
            ((addr + 0x28) as u64, le_bytes(((200)) as nat, 4)),
            ((addr + 0x2c) as u64, le_bytes(((0)) as nat, 4)),
            ((addr + 0x30) as u64, le_bytes(((0)) as nat, 4)),
            ((addr + 0x34) as u64, le_bytes(((0)) as nat, 4)),
            ((addr + 0x38) as u64, le_bytes(((0)) as nat, 4)),
            ((addr + 0x3c) as u64, le_bytes(((1)) as nat, 2)),
            ((addr + 0x3e) as u64, le_bytes(((0)) as nat, 2)),
            ((addr + 0x40) as u64, le_bytes(((0)) as nat, 8)),
            ((addr + 0x48) as u64, le_bytes(((0)) as nat, 4)),
            ((addr + 0x4c) as u64, le_bytes(((0)) as nat, 4)),
            ((addr + 0x50) as u64, le_bytes(((0)) as nat, 4)),
        ]
    }

    /// A block as `new` gives it is written as `fresh_writes` lists.
    pub proof fn lemma_fresh_writes(self, addr: u64)
        requires
            self.is_fresh(),
        ensures
            self.writes(addr) == Self::fresh_writes(addr),
    {
        assert(self.writes(addr) =~= Self::fresh_writes(addr));
    }

    /// The writes of `save` at `addr` lie one after the other, from `addr`
    /// to `addr + 0x54`, each of at least one byte.
    pub proof fn lemma_writes_ordered(self, addr: u64)
        requires
            addr + 0x54 <= u64::MAX,
        ensures
            self.writes(addr).len() == 18,
            writes_ordered(self.writes(addr), 0),
            self.writes(addr)[0].0 == addr,
            self.writes(addr)[17].0 + self.writes(addr)[17].1.len() == addr + 0x54,
            forall|i: int| 0 <= i < 18 ==> (#[trigger] self.writes(addr)[i]).1.len() > 0,
    {
        let ws = self.writes(addr);
        assert(ws.len() == 18);
        assert(writes_ordered(ws, 17));
        assert(writes_ordered(ws, 16));
        assert(writes_ordered(ws, 15));
        assert(writes_ordered(ws, 14));
        assert(writes_ordered(ws, 13));
        assert(writes_ordered(ws, 12));
        assert(writes_ordered(ws, 11));
        assert(writes_ordered(ws, 10));
        assert(writes_ordered(ws, 9));
        assert(writes_ordered(ws, 8));
        assert(writes_ordered(ws, 7));
        assert(writes_ordered(ws, 6));
        assert(writes_ordered(ws, 5));
        assert(writes_ordered(ws, 4));
        assert(writes_ordered(ws, 3));
        assert(writes_ordered(ws, 2));
        assert(writes_ordered(ws, 1));
        assert(writes_ordered(ws, 0));
        assert forall|i: int| 0 <= i < 18 implies (#[trigger] ws[i]).1.len() > 0 by {
            assert(0 <= i < 18);
        }
    }
}

impl SystemInfo32 {
    /// The writes of `save` at `addr` for the block that `new` gives: the
    /// same list as `writes`, with the values `new` puts in each field.
    pub open spec fn fresh_writes(addr: u64) -> Seq<(u64, Seq<u8>)> {
        seq![
            (addr, le_bytes(((0x1337)) as nat, 4)),
            ((addr + 4) as u64, le_bytes(((9)) as nat, 4)),
            ((addr + 8) as u64, le_bytes(((0)) as nat, 2)),
            ((addr + 0xa) as u64, le_bytes(((4090)) as nat, 4)),
            ((addr + 0xe) as u64, le_bytes(((0)) as nat, 4)),
            ((addr + 0x12) as u64, le_bytes(((0)) as nat, 4)),
            ((addr + 0x16) as u64, le_bytes(((1)) as nat, 4)),
            ((addr + 0x1a) as u64, le_bytes(((4)) as nat, 4)),
            ((addr + 0x1e) as u64, le_bytes(((586)) as nat, 4)),
            ((addr + 0x22) as u64, le_bytes(((65536)) as nat, 4)),
            ((addr + 0x26) as u64, le_bytes(((5)) as nat, 2)),
            ((addr + 0x28) as u64, le_bytes(((255)) as nat, 2)),
        ]
    }

    /// A block as `new` gives it is written as `fresh_writes` lists.
    pub proof fn lemma_fresh_writes(self, addr: u64)
        requires
            self.is_fresh(),
        ensures
            self.writes(addr) == Self::fresh_writes(addr),
    {
        assert(self.writes(addr) =~= Self::fresh_writes(addr));
    }

    /// The writes of `save` at `addr` lie one after the other, from `addr`
    /// to `addr + 0x2a`, each of at least one byte.
    pub proof fn lemma_writes_ordered(self, addr: u64)
        requires
            addr + 0x2a <= u64::MAX,
        ensures
            self.writes(addr).len() == 12,
            writes_ordered(self.writes(addr), 0),
            self.writes(addr)[0].0 == addr,
            self.writes(addr)[11].0 + self.writes(addr)[11].1.len() == addr + 0x2a,
            forall|i: int| 0 <= i < 12 ==> (#[trigger] self.writes(addr)[i]).1.len() > 0,
    {
        let ws = self.writes(addr);
        assert(ws.len() == 12);
        assert(writes_ordered(ws, 11));
        assert(writes_ordered(ws, 10));
        assert(writes_ordered(ws, 9));
        assert(writes_ordered(ws, 8));
        assert(writes_ordered(ws, 7));
        assert(writes_ordered(ws, 6));
        assert(writes_ordered(ws, 5));
        assert(writes_ordered(ws, 4));
        assert(writes_ordered(ws, 3));
        assert(writes_ordered(ws, 2));
        assert(writes_ordered(ws, 1));
        assert(writes_ordered(ws, 0));
        assert forall|i: int| 0 <= i < 12 implies (#[trigger] ws[i]).1.len() > 0 by {
            assert(0 <= i < 12);
        }
    }
}

impl SystemInfo64 {
    /// The writes of `save` at `addr` for the block that `new` gives: the
    /// same list as `writes`, with the values `new` puts in each field.
    pub open spec fn fresh_writes(addr: u64) -> Seq<(u64, Seq<u8>)> {
        seq![
            (addr, le_bytes(((9) as u16) as nat, 2)),
            ((addr + 2) as u64, le_bytes(((0)) as nat, 2)),
            ((addr + 4) as u64, le_bytes(((4096)) as nat, 4)),
            ((addr + 8) as u64, le_bytes(((0x10000)) as nat, 8)),
            ((addr + 0x10) as u64, le_bytes(((0x7FFFFFFEFFFF)) as nat, 8)),
            ((addr + 0x18) as u64, le_bytes(((0xFF)) as nat, 8)),
            ((addr + 0x20) as u64, le_bytes(((8)) as nat, 4)),
            ((addr + 0x24) as u64, le_bytes(((8664)) as nat, 4)),
            ((addr + 0x28) as u64, le_bytes(((65536)) as nat, 4)),
            ((addr + 0x2c) as u64, le_bytes(((6)) as nat, 2)),
            ((addr + 0x2e) as u64, le_bytes(((0xA201)) as nat, 2)),
        ]
    }

    /// A block as `new` gives it is written as `fresh_writes` lists.
    pub proof fn lemma_fresh_writes(self, addr: u64)
        requires
            self.is_fresh(),
        ensures
            self.writes(addr) == Self::fresh_writes(addr),
    {
        assert(self.writes(addr) =~= Self::fresh_writes(addr));
    }

    /// The writes of `save` at `addr` lie one after the other, from `addr`
    /// to `addr + 0x30`, each of at least one byte.
    pub proof fn lemma_writes_ordered(self, addr: u64)
        requires
            addr + 0x30 <= u64::MAX,
        ensures
            self.writes(addr).len() == 11,
            writes_ordered(self.writes(addr), 0),
            self.writes(addr)[0].0 == addr,
            self.writes(addr)[10].0 + self.writes(addr)[10].1.len() == addr + 0x30,
            forall|i: int| 0 <= i < 11 ==> (#[trigger] self.writes(addr)[i]).1.len() > 0,
    {
        let ws = self.writes(addr);
        assert(ws.len() == 11);
        assert(writes_ordered(ws, 10));
        assert(writes_ordered(ws, 9));
        assert(writes_ordered(ws, 8));
        assert(writes_ordered(ws, 7));
        assert(writes_ordered(ws, 6));
        assert(writes_ordered(ws, 5));
        assert(writes_ordered(ws, 4));
        assert(writes_ordered(ws, 3));
        assert(writes_ordered(ws, 2));
        assert(writes_ordered(ws, 1));
        assert(writes_ordered(ws, 0));
        assert forall|i: int| 0 <= i < 11 implies (#[trigger] ws[i]).1.len() > 0 by {
            assert(0 <= i < 11);
        }
    }
}

} // verus!
