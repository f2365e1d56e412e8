pub mod ldr;
pub mod linux;
pub mod peb;
pub mod peb64;
pub mod records;
pub mod resources;
pub mod sysinfo;
pub mod teb;

pub use ldr::{
    LdrDataTableEntry, LdrDataTableEntry64, ListEntry, ListEntry64, OrdinalTable, PebLdrData, PebLdrData64, UnicodeString,
    UnicodeString64,
};
pub use linux::{CpInfo, Hostent, MemoryOperation, Stat, Statx64, Statx64Timestamp};
pub use peb::PEB;
pub use peb64::PEB64;
pub use records::{
    CppEhRecord, Eh3ExceptionRegistration, ExceptionPointers, ImageExportDirectory, ImageTlsCallback,
    MemoryBasicInformation, PScopeTableEntry, TlsDirectory32, TlsDirectory64,
};
pub use resources::{
    ActCtxSectionKeyedData32, ActCtxSectionKeyedData64, ImageResourceDataEntry32, ImageResourceDataEntry64,
    ImageResourceDirectory, ImageResourceDirectoryEntry,
};
pub use sysinfo::{OsVersionInfo, StartupInfo32, StartupInfo64, SystemInfo32, SystemInfo64, SystemTime};
pub use teb::{NtTib32, NtTib64, TEB, TEB64};

use vstd::prelude::*;
use crate::maps::Maps;
use crate::maps::mem64::{Mem64, le_bytes};

verus! {

/// One field of a save run into the address space: `m0` is the state
/// before the run and `done` the writes so far; the byte goes to `addr`.
pub(crate) fn store_byte(maps: &mut Maps, Ghost(m0): Ghost<Maps>, Ghost(done): Ghost<Seq<(u64, Seq<u8>)>>, addr: u64, v: u8)
    requires
        m0.same_layout(*old(maps)),
        m0.wrote_values(*old(maps), done),
        !m0.banzai_view() ==> m0.fits_anyhow(addr, 1),
    ensures
        m0.same_layout(*final(maps)),
        m0.wrote_values(*final(maps), done.push((addr, seq![v]))),
{
    let ghost prev = *maps;
    proof {
        m0.lemma_same_layout_wf(prev);
        if !m0.banzai_view() {
            m0.lemma_field_fits(prev, addr, 1);
        }
    }
    maps.write_byte(addr, v);
    proof {
        m0.lemma_field_written(prev, *maps, done, addr, seq![v]);
    }
}

/// One word of a save run into the address space (see `store_byte`).
pub(crate) fn store_word(maps: &mut Maps, Ghost(m0): Ghost<Maps>, Ghost(done): Ghost<Seq<(u64, Seq<u8>)>>, addr: u64, v: u16)
    requires
        m0.same_layout(*old(maps)),
        m0.wrote_values(*old(maps), done),
        addr + 2 <= u64::MAX,
        !m0.banzai_view() ==> m0.fits_anyhow(addr, 2),
    ensures
        m0.same_layout(*final(maps)),
        m0.wrote_values(*final(maps), done.push((addr, le_bytes(v as nat, 2)))),
{
    let ghost prev = *maps;
    proof {
        m0.lemma_same_layout_wf(prev);
        if !m0.banzai_view() {
            m0.lemma_field_fits(prev, addr, 2);
        }
    }
    maps.write_word(addr, v);
    proof {
        m0.lemma_field_written(prev, *maps, done, addr, le_bytes(v as nat, 2));
    }
}

/// One double word of a save run into the address space (see `store_byte`).
pub(crate) fn store_dword(maps: &mut Maps, Ghost(m0): Ghost<Maps>, Ghost(done): Ghost<Seq<(u64, Seq<u8>)>>, addr: u64, v: u32)
    requires
        m0.same_layout(*old(maps)),
        m0.wrote_values(*old(maps), done),
        addr + 4 <= u64::MAX,
        !m0.banzai_view() ==> m0.fits_anyhow(addr, 4),
    ensures
        m0.same_layout(*final(maps)),
        m0.wrote_values(*final(maps), done.push((addr, le_bytes(v as nat, 4)))),
{
    let ghost prev = *maps;
    proof {
        m0.lemma_same_layout_wf(prev);
        if !m0.banzai_view() {
            m0.lemma_field_fits(prev, addr, 4);
        }
    }
    maps.write_dword(addr, v);
    proof {
        m0.lemma_field_written(prev, *maps, done, addr, le_bytes(v as nat, 4));
    }
}

/// One quad word of a save run into the address space (see `store_byte`).
pub(crate) fn store_qword(maps: &mut Maps, Ghost(m0): Ghost<Maps>, Ghost(done): Ghost<Seq<(u64, Seq<u8>)>>, addr: u64, v: u64)
    requires
        m0.same_layout(*old(maps)),
        m0.wrote_values(*old(maps), done),
        addr + 8 <= u64::MAX,
        !m0.banzai_view() ==> m0.fits_anyhow(addr, 8),
    ensures
        m0.same_layout(*final(maps)),
        m0.wrote_values(*final(maps), done.push((addr, le_bytes(v as nat, 8)))),
{
    let ghost prev = *maps;
    proof {
        m0.lemma_same_layout_wf(prev);
        if !m0.banzai_view() {
            m0.lemma_field_fits(prev, addr, 8);
        }
    }
    maps.write_qword(addr, v);
    proof {
        m0.lemma_field_written(prev, *maps, done, addr, le_bytes(v as nat, 8));
    }
}

/// One byte of a save run into a region: `m0` is the region before
/// the run and `done` the writes so far.
pub(crate) fn put_byte(mem: &mut Mem64, Ghost(m0): Ghost<Mem64>, Ghost(done): Ghost<Seq<(u64, Seq<u8>)>>, addr: u64, v: u8)
    requires
        m0.wrote_all(*old(mem), done),
        old(mem).bytes().len() == m0.bytes().len(),
        m0.holds(addr, 1),
    ensures
        m0.wrote_all(*final(mem), done.push((addr, seq![v]))),
        final(mem).bytes().len() == m0.bytes().len(),
{
    let ghost prev = *mem;
    mem.write_byte(addr, v);
    proof {
        m0.lemma_field_put(prev, *mem, done, addr, seq![v]);
    }
}

/// One word of a save run into a region: `m0` is the region before
/// the run and `done` the writes so far.
pub(crate) fn put_word(mem: &mut Mem64, Ghost(m0): Ghost<Mem64>, Ghost(done): Ghost<Seq<(u64, Seq<u8>)>>, addr: u64, v: u16)
    requires
        m0.wrote_all(*old(mem), done),
        old(mem).bytes().len() == m0.bytes().len(),
        m0.holds(addr, 2),
    ensures
        m0.wrote_all(*final(mem), done.push((addr, le_bytes(v as nat, 2)))),
        final(mem).bytes().len() == m0.bytes().len(),
{
    let ghost prev = *mem;
    mem.write_word(addr, v);
    proof {
        m0.lemma_field_put(prev, *mem, done, addr, le_bytes(v as nat, 2));
    }
}

/// One dword of a save run into a region: `m0` is the region before
/// the run and `done` the writes so far.
pub(crate) fn put_dword(mem: &mut Mem64, Ghost(m0): Ghost<Mem64>, Ghost(done): Ghost<Seq<(u64, Seq<u8>)>>, addr: u64, v: u32)
    requires
        m0.wrote_all(*old(mem), done),
        old(mem).bytes().len() == m0.bytes().len(),
        m0.holds(addr, 4),
    ensures
        m0.wrote_all(*final(mem), done.push((addr, le_bytes(v as nat, 4)))),
        final(mem).bytes().len() == m0.bytes().len(),
{
    let ghost prev = *mem;
    mem.write_dword(addr, v);
    proof {
        m0.lemma_field_put(prev, *mem, done, addr, le_bytes(v as nat, 4));
    }
}

/// One qword of a save run into a region: `m0` is the region before
/// the run and `done` the writes so far.
pub(crate) fn put_qword(mem: &mut Mem64, Ghost(m0): Ghost<Mem64>, Ghost(done): Ghost<Seq<(u64, Seq<u8>)>>, addr: u64, v: u64)
    requires
        m0.wrote_all(*old(mem), done),
        old(mem).bytes().len() == m0.bytes().len(),
        m0.holds(addr, 8),
    ensures
        m0.wrote_all(*final(mem), done.push((addr, le_bytes(v as nat, 8)))),
        final(mem).bytes().len() == m0.bytes().len(),
{
    let ghost prev = *mem;
    mem.write_qword(addr, v);
    proof {
        m0.lemma_field_put(prev, *mem, done, addr, le_bytes(v as nat, 8));
    }
}

} // verus!
