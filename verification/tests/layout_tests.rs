use libmwemu::maps::Maps;
use libmwemu::structures::{
    ActCtxSectionKeyedData32, ActCtxSectionKeyedData64, CpInfo, CppEhRecord, Eh3ExceptionRegistration,
    ExceptionPointers, Hostent, ImageExportDirectory, ImageResourceDataEntry32, ImageResourceDataEntry64,
    ImageResourceDirectory, ImageResourceDirectoryEntry, LdrDataTableEntry, LdrDataTableEntry64, ListEntry,
    ListEntry64, MemoryBasicInformation, NtTib32, NtTib64, OrdinalTable, OsVersionInfo, PEB, PScopeTableEntry,
    PebLdrData, PebLdrData64, StartupInfo32, StartupInfo64, Stat, SystemInfo32, SystemInfo64, SystemTime,
    TlsDirectory32, TlsDirectory64, UnicodeString, UnicodeString64, TEB, TEB64,
};

fn maps_with(name: &str, base: u64, size: u64) -> Maps {
    let mut maps = Maps::new();
    maps.create_map(name, base, size).unwrap();
    maps
}

#[test]
fn list_entry_save_then_load() {
    let mut maps = maps_with("ldr", 0x1000, 0x1000);
    let e = ListEntry { flink: 0x11223344, blink: 0x55667788 };
    e.save(0x1010, &mut maps);
    assert_eq!(maps.read_dword(0x1010), Some(0x11223344));
    assert_eq!(maps.read_dword(0x1014), Some(0x55667788));
    let back = ListEntry::load(0x1010, &maps);
    assert_eq!(back.flink, 0x11223344);
    assert_eq!(back.blink, 0x55667788);
    let z = ListEntry::new();
    assert_eq!((z.flink, z.blink), (0, 0));
    let d = ListEntry::default();
    assert_eq!((d.flink, d.blink), (0, 0));
}

#[test]
fn list_entry64_save_then_load() {
    let mut maps = maps_with("ldr", 0x1000, 0x1000);
    let e = ListEntry64 { flink: 0x1122334455667788, blink: 0x99 };
    e.save(0x1100, &mut maps);
    assert_eq!(maps.read_qword(0x1100), Some(0x1122334455667788));
    let back = ListEntry64::load(0x1100, &maps);
    assert_eq!((back.flink, back.blink), (0x1122334455667788, 0x99));
}

#[test]
fn unicode_strings_save_then_load() {
    let mut maps = maps_with("ldr", 0x1000, 0x1000);
    let s = UnicodeString { length: 10, maximum_length: 12, buffer: 0x2000 };
    s.save(0x1000, &mut maps);
    assert_eq!(maps.read_word(0x1000), Some(10));
    assert_eq!(maps.read_word(0x1002), Some(12));
    assert_eq!(maps.read_dword(0x1004), Some(0x2000));
    let back = UnicodeString::load(0x1000, &maps);
    assert_eq!((back.length, back.maximum_length, back.buffer), (10, 12, 0x2000));
    assert_eq!(UnicodeString::size(), 0x10);
    let s64 = UnicodeString64 { length: 8, maximum_length: 10, padding: 0, buffer: 0x7ff000 };
    s64.save(0x1040, &mut maps);
    let back64 = UnicodeString64::load(0x1040, &maps);
    assert_eq!((back64.length, back64.maximum_length, back64.buffer), (8, 10, 0x7ff000));
    assert_eq!(UnicodeString64::size(), 0x10);
}

#[test]
fn ldr_entry_save_then_load() {
    let mut maps = maps_with("ldr", 0x1000, 0x1000);
    let mut e = LdrDataTableEntry::new();
    e.in_load_order_links.flink = 0x1100;
    e.dll_base = 0x400000;
    e.size_of_image = 0x3000;
    e.base_dll_name.length = 16;
    e.load_count = 0xffff;
    e.time_date_stamp = 0x5f5e100;
    e.save(0x1000, &mut maps);
    assert_eq!(maps.read_dword(0x1000 + 24), Some(0x400000));
    assert_eq!(maps.read_word(0x1000 + 44), Some(16));
    let back = LdrDataTableEntry::load(0x1000, &maps);
    assert_eq!(back.in_load_order_links.flink, 0x1100);
    assert_eq!(back.dll_base, 0x400000);
    assert_eq!(back.size_of_image, 0x3000);
    assert_eq!(back.base_dll_name.length, 16);
    assert_eq!(back.load_count, 0xffff);
    assert_eq!(back.time_date_stamp, 0x5f5e100);
    assert_eq!(LdrDataTableEntry::size(), 72);
}

#[test]
fn ldr_entry64_save_then_load() {
    let mut maps = maps_with("ldr", 0x1000, 0x1000);
    let mut e = LdrDataTableEntry64::new();
    e.in_memory_order_links.blink = 0x2222;
    e.dll_base = 0x180000000;
    e.full_dll_name.buffer = 0x3000;
    e.flags = 0xcc22;
    e.tls_index = 0xffff;
    e.hash_links.flink = 0x4444;
    e.time_date_stamp = 7;
    e.save(0x1000, &mut maps);
    // the odd offsets of the entry: load count at 0x7b, links at 0x7f
    assert_eq!(maps.read_word(0x1000 + 0x7d), Some(0xffff));
    assert_eq!(maps.read_qword(0x1000 + 0x7f), Some(0x4444));
    let back = LdrDataTableEntry64::load(0x1000, &maps);
    assert_eq!(back.in_memory_order_links.blink, 0x2222);
    assert_eq!(back.dll_base, 0x180000000);
    assert_eq!(back.full_dll_name.buffer, 0x3000);
    assert_eq!(back.flags, 0xcc22);
    assert_eq!(back.tls_index, 0xffff);
    assert_eq!(back.hash_links.flink, 0x4444);
    assert_eq!(back.time_date_stamp, 7);
    assert_eq!(LdrDataTableEntry64::size(), 0x100);
}

#[test]
fn peb_ldr_data_save_then_load() {
    let mut maps = maps_with("ldr", 0x1000, 0x1000);
    let mut d = PebLdrData::new();
    assert_eq!(d.length, 48);
    d.in_load_order_module_list.flink = 0x1234;
    d.shutdown_thread_id = 9;
    d.save(0x1000, &mut maps);
    let back = PebLdrData::load(0x1000, &maps);
    assert_eq!(back.length, 48);
    assert_eq!(back.in_load_order_module_list.flink, 0x1234);
    assert_eq!(back.shutdown_thread_id, 9);
    assert_eq!(PebLdrData::size(), 48);
    let mut d64 = PebLdrData64::new();
    assert_eq!(d64.length, 80);
    d64.entry_in_progress.blink = 0x55;
    d64.sshandle = 0x66;
    d64.save(0x1100, &mut maps);
    let back64 = PebLdrData64::load(0x1100, &maps);
    assert_eq!(back64.length, 80);
    assert_eq!(back64.sshandle, 0x66);
    assert_eq!(back64.entry_in_progress.blink, 0x55);
    assert_eq!(PebLdrData64::size(), 80);
}

#[test]
fn save_in_banzai_mode_skips_unmapped_fields() {
    let mut maps = maps_with("ldr", 0x1000, 0x10);
    maps.set_banzai(true);
    let e = ListEntry64 { flink: 1, blink: 2 };
    // the first quad word fits, the second lies past the region
    e.save(0x1008, &mut maps);
    assert_eq!(maps.read_qword(0x1008), Some(1));
    assert_eq!(maps.read_qword(0x1010), None);
}

#[test]
fn nt_tib_and_teb_save_then_load() {
    let mut maps = maps_with("teb", 0x3000, 0x1000);
    let mut tib = NtTib32::new();
    tib.stack_base = 0x30000;
    tib.self_pointer = 0x3000;
    tib.save(0x3000, maps.get_mem("teb"));
    let back = NtTib32::load(0x3000, &maps);
    assert_eq!(back.stack_base, 0x30000);
    assert_eq!(back.self_pointer, 0x3000);
    let back2 = NtTib32::load_map(0x3000, maps.get_mem("teb"));
    assert_eq!(back2.self_pointer, 0x3000);
    assert_eq!(NtTib32::size(), 28);

    let mut teb = TEB::new(0x7000);
    assert_eq!(teb.process_id, 3240);
    assert_eq!(teb.thread_id, 1);
    assert_eq!(teb.process_environment_block, 0x7000);
    teb.set_last_error(5);
    assert_eq!(teb.last_error_value, 5);
    teb.nt_tib.stack_limit = 0x20000;
    teb.save(maps.get_mem("teb"));
    assert_eq!(maps.read_dword(0x3000 + 48), Some(0x7000));
    let back = TEB::load(0x3000, &maps);
    assert_eq!(back.process_environment_block, 0x7000);
    assert_eq!(back.last_error_value, 5);
    assert_eq!(back.nt_tib.stack_limit, 0x20000);
    assert_eq!(back.user32_reserved, [0; 26]);
    let back2 = TEB::load_map(0x3000, maps.get_mem("teb"));
    assert_eq!(back2.process_id, 3240);
    assert_eq!(TEB::size(), 1000);
}

#[test]
fn teb64_save_then_load() {
    let mut maps = maps_with("teb", 0x3000, 0x1000);
    let mut teb = TEB64::new(0x7ff7000);
    teb.nt_tib.self_pointer = 0x3000;
    teb.user32_reserved[0] = 0xaaaa;
    teb.user_reserved[5] = 0xbbbb;
    teb.wow32_reserved = 0x1234;
    teb.activation_context_stack_pointer = 0x4444;
    teb.save(maps.get_mem("teb"));
    // the reserved words are written, then the fields over them
    assert_eq!(maps.read_qword(0x3000 + 0x100), Some(0x1234));
    assert_eq!(maps.read_dword(0x3000 + 0x108 + 20), Some(0xbbbb));
    let back = TEB64::load(0x3000, &maps);
    assert_eq!(back.nt_tib.self_pointer, 0x3000);
    assert_eq!(back.process_environment_block, 0x7ff7000);
    assert_eq!(back.wow32_reserved, 0x1234);
    assert_eq!(back.activation_context_stack_pointer, 0x4444);
    let back2 = TEB64::load_map(0x3000, maps.get_mem("teb"));
    assert_eq!(back2.process_id, 3240);
    let tib = NtTib64::load_map(0x3000, maps.get_mem("teb"));
    assert_eq!(tib.self_pointer, 0x3000);
    assert_eq!(TEB64::size(), 0x2d0);
    assert_eq!(NtTib64::size(), 56);
}

#[test]
fn peb32_save_then_load() {
    let mut maps = maps_with("peb", 0x7000, 0x1000);
    let mut peb = PEB::new(0x400000, 0x8000, 0x9000);
    assert_eq!(peb.image_base_addr, 0x400000);
    peb.set_image_base(0x500000);
    assert_eq!(peb.image_base_addr, 0x500000);
    peb.save(maps.get_mem("peb"));
    assert_eq!(maps.read_dword(0x7008), Some(0x500000));
    assert_eq!(maps.read_dword(0x700c), Some(0x8000));
    assert_eq!(maps.read_dword(0x7010), Some(0x9000));
    let back = PEB::load(0x7000, &maps);
    assert_eq!(back.image_base_addr, 0x500000);
    assert_eq!(back.ldr, 0x8000);
    assert_eq!(format!("{:?}", back), format!("{:?}", peb));
    assert_eq!(PEB::size(), 800);
}

#[test]
fn exception_records_load() {
    let mut maps = maps_with("stack", 0x2000, 0x100);
    for i in 0..8u64 {
        maps.write_dword(0x2000 + 4 * i, (i + 1) as u32);
    }
    let rec = CppEhRecord::load(0x2000, &maps);
    let s = format!("{:?}", rec);
    assert!(s.contains("old_esp: 1"));
    assert!(s.contains("enclosing_level: 5"));
    assert!(s.contains("try_level: 8"));
    let eh3 = Eh3ExceptionRegistration::load(0x2000, &maps);
    let s = format!("{:?}", eh3);
    assert!(s.contains("next: 1"));
    assert!(s.contains("enclosing_level: 3"));
    assert!(s.contains("try_level: 6"));
    let p = ExceptionPointers::load(0x2004, &maps);
    assert!(format!("{:?}", p).contains("context_record: 3"));
    assert_eq!(ExceptionPointers::size(), 8);
    assert_eq!(PScopeTableEntry::size(), 12);
    let e = PScopeTableEntry::load(0x2000, &maps);
    assert!(format!("{:?}", e).contains("handler_func: 3"));
}

#[test]
fn export_directory_and_tls_load() {
    let mut maps = maps_with("img", 0x2000, 0x100);
    maps.write_dword(0x2000 + 12, 0x3333);
    maps.write_word(0x2000 + 8, 2);
    maps.write_dword(0x2000 + 36, 0x4444);
    let d = ImageExportDirectory::load(0x2000, &maps);
    let s = format!("{:?}", d);
    assert!(s.contains("name: 13107"));
    assert!(s.contains("major_version: 2"));
    assert!(s.contains("address_of_ordinals: 17476"));
    maps.write_qword(0x2040, 0x10);
    maps.write_dword(0x2040 + 32, 0x20);
    let t = TlsDirectory64::load(0x2040, &maps);
    assert!(format!("{:?}", t).contains("tls_data_start: 16"));
    let t32 = TlsDirectory32::load(0x2040, &maps);
    assert!(format!("{:?}", t32).contains("tls_data_start: 16"));
}

#[test]
fn memory_basic_information() {
    let mut maps = maps_with("code", 0x400000, 0x2000);
    let mbi = MemoryBasicInformation::guess(0x401000, &mut maps);
    assert_eq!(mbi.base_address, 0x400000);
    assert_eq!(mbi.allocation_base, 0x400000);
    assert_eq!(mbi.region_size, 0x2000);
    assert_eq!(mbi.protect, 0xff);
    let none = MemoryBasicInformation::guess(0x10, &mut maps);
    assert_eq!(none.base_address, 0);
    assert_eq!(none.region_size, 0);
    assert_eq!(none.allocation_protect, 0xff);
    mbi.save(0x400100, &mut maps);
    assert_eq!(maps.read_word(0x400100 + 12), Some(0));
    assert_eq!(maps.read_dword(0x400100 + 14), Some(0x2000));
    let back = MemoryBasicInformation::load(0x400100, &maps);
    assert_eq!(back.region_size, 0x2000);
    assert_eq!(back.base_address, 0x400000);
    assert_eq!(MemoryBasicInformation::size(), 30);
}

#[test]
fn system_information_saves() {
    let mut maps = maps_with("out", 0x5000, 0x1000);
    let ovi = OsVersionInfo::new();
    ovi.save(0x5000, &mut maps);
    assert_eq!(maps.read_dword(0x5000), Some(284));
    assert_eq!(maps.read_dword(0x5004), Some(10));
    assert_eq!(maps.read_dword(0x500c), Some(19042));
    assert_eq!(maps.read_string(0x5000 + 20), "Service Pack 0");
    let st = SystemTime::new(2024, 5, 3, 17, 12, 30, 45, 500);
    st.save(0x5100, &mut maps);
    assert_eq!(maps.read_word(0x5100), Some(2024));
    assert_eq!(maps.read_word(0x5100 + 14), Some(500));
    let si = StartupInfo32::new();
    si.save(0x5200, &mut maps);
    assert_eq!(maps.read_dword(0x5200), Some(68));
    assert_eq!(maps.read_dword(0x5200 + 24), Some(300));
    assert_eq!(maps.read_word(0x5200 + 48), Some(1));
    let si64 = StartupInfo64::default();
    si64.save(0x5300, &mut maps);
    assert_eq!(maps.read_dword(0x5300), Some(84));
    assert_eq!(maps.read_dword(0x5300 + 36), Some(300));
    assert_eq!(maps.read_word(0x5300 + 60), Some(1));
    let mut sys = SystemInfo32::new();
    sys.save(0x5400, &mut maps);
    assert_eq!(maps.read_dword(0x5400), Some(0x1337));
    assert_eq!(maps.read_dword(0x5400 + 10), Some(4090));
    assert_eq!(maps.read_word(0x5400 + 40), Some(255));
    assert_eq!(sys.size(), 42);
    let mut sys64 = SystemInfo64::new();
    sys64.save(0x5500, &mut maps);
    assert_eq!(maps.read_word(0x5500), Some(9));
    assert_eq!(maps.read_dword(0x5500 + 4), Some(4096));
    assert_eq!(maps.read_qword(0x5500 + 16), Some(0x7FFFFFFEFFFF));
    assert_eq!(maps.read_word(0x5500 + 46), Some(0xA201));
    assert_eq!(sys64.size(), 48);
}

#[test]
fn linux_structures() {
    let mut maps = maps_with("out", 0x5000, 0x1000);
    let st = Stat::fake();
    assert_eq!(st.size, 2794);
    st.save(0x5000, &mut maps);
    assert_eq!(maps.read_qword(0x5000), Some(64769));
    assert_eq!(maps.read_dword(0x5000 + 24), Some(33188));
    assert_eq!(maps.read_qword(0x5000 + 48), Some(2794));
    assert_eq!(maps.read_qword(0x5000 + 112), Some(995482376));
    assert_eq!(Stat::size(), 144);
    let h = Hostent::new();
    assert_eq!(h.length, 4);
    h.save(0x5100, &mut maps);
    assert_eq!(maps.read_word(0x5100 + 20), Some(4));
    assert_eq!(Hostent::size(), 32);
    let mut cp = CpInfo::new();
    assert_eq!(cp.default_char, [0x3F, 0]);
    cp.lead_byte[3] = 0x81;
    cp.save(0x5200, &mut maps);
    assert_eq!(maps.read_byte(0x5204), Some(0x3F));
    assert_eq!(maps.read_byte(0x5209), Some(0x81));
    let back = CpInfo::load(0x5200, &maps);
    assert_eq!(back.max_char_size, 1);
    assert_eq!(back.default_char, [0x3F, 0]);
    assert_eq!(back.lead_byte[3], 0x81);
    assert_eq!(CpInfo::size(), 18);
}

#[test]
fn resource_entries() {
    let mut e = ImageResourceDirectoryEntry::new();
    e.name_or_id = 0x8000_0010;
    e.data_or_directory = 0x0000_0020;
    assert!(e.is_name());
    assert!(!e.is_id());
    assert_eq!(e.get_name_or_id(), 0x10);
    assert!(!e.is_directory());
    assert_eq!(e.get_offset(), 0x20);
    e.data_or_directory = 0x8000_0100;
    assert!(e.is_directory());
    assert_eq!(e.get_offset(), 0x100);
    assert_eq!(ImageResourceDirectoryEntry::size(), 8);
    assert_eq!(ImageResourceDirectory::size(), 16);
    assert_eq!(ImageResourceDirectory::new().number_of_id_entries, 0);
    assert_eq!(ImageResourceDataEntry32::new().size, 0);
    assert_eq!(ImageResourceDataEntry64::new().code_page, 0);
}

#[test]
fn activation_context_data_saves() {
    let mut maps = maps_with("out", 0x5000, 0x1000);
    let mut a = ActCtxSectionKeyedData32::new();
    a.cb_size = 0x40;
    a.ul_flags = 3;
    a.assembly_metadata[0] = 0xaa;
    a.assembly_metadata[63] = 0xbb;
    a.save(0x5000, &mut maps);
    assert_eq!(maps.read_dword(0x5000), Some(0x40));
    assert_eq!(maps.read_dword(0x5000 + 40), Some(3));
    assert_eq!(maps.read_byte(0x5000 + 44), Some(0xaa));
    assert_eq!(maps.read_byte(0x5000 + 107), Some(0xbb));
    let mut b = ActCtxSectionKeyedData64::new();
    b.h_act_ctx = 0x1122334455;
    b.assembly_metadata[1] = 0xcc;
    b.save(0x5100, &mut maps);
    assert_eq!(maps.read_qword(0x5100 + 56), Some(0x1122334455));
    assert_eq!(maps.read_byte(0x5100 + 73), Some(0xcc));
}

#[test]
fn ordinal_table_starts_empty() {
    let t = OrdinalTable::new();
    assert_eq!(t.func_name, "");
    assert_eq!(t.func_va, 0);
    let d = OrdinalTable::default();
    assert_eq!(d.ordinal, 0);
}
