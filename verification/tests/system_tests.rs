use libmwemu::kuser_shared::{init_kuser_shared_data, AlternativeArchitectureType, NtProductType, USER_KUSER_SHARED_ADDR};
use libmwemu::maps::Maps;
use libmwemu::winapi64::kernelbase::{kernelbase_call, GetTokenInformation, IsCharAlphaNumericA, PathCombineA, PathCombineW};
use libmwemu::winapi64::shlwapi::{shlwapi_call, PathFindSuffixArrayA, PathIsContentTypeW};

#[test]
fn kuser_shared_data_is_mapped_with_its_fields() {
    let mut maps = Maps::new();
    let addr = init_kuser_shared_data(&mut maps);
    assert_eq!(addr, 0x7FFE0000);
    assert_eq!(addr, USER_KUSER_SHARED_ADDR);
    assert!(maps.exists_mapname("KuserSharedData"));
    assert_eq!(maps.get_mem_size(addr), Some(0x1000));
    assert_eq!(maps.read_dword(addr + 0x4), Some(0x0fa00000));
    assert_eq!(maps.read_dword(addr + 0x24), Some(0xffffffef));
    assert_eq!(maps.read_dword(addr + 0x260), Some(0x6c51));
    assert_eq!(maps.read_dword(addr + 0x264), Some(1));
    assert_eq!(maps.read_byte(addr + 0x268), Some(1));
    assert_eq!(maps.read_word(addr + 0x26a), Some(9));
    assert_eq!(maps.read_qword(addr + 0x2c8), Some(0x01dc26860a9ff300));
    assert_eq!(maps.read_byte(addr + 0x2d5), Some(0x0a));
    assert_eq!(maps.read_qword(addr + 0x320), Some(0x1f7f05));
    assert_eq!(maps.read_dword(addr + 0x330), Some(0x1c3471da));
    assert_eq!(maps.read_word(addr + 0x3c6), Some(0x83));
    assert_eq!(maps.read_qword(addr + 0x3b8), Some(0x000000159530c4af));
    assert_eq!(maps.read_dword(addr + 0x3e8), Some(0x3c0));
    // the bytes between the fields and after the block stay zero
    assert_eq!(maps.read_dword(addr + 0x30), Some(0));
    assert_eq!(maps.read_qword(addr + 0xff8), Some(0));
}

#[test]
fn path_combine_ansi() {
    let mut maps = Maps::new();
    maps.create_map("data", 0x1000, 0x1000).unwrap();
    maps.write_string(0x1000, "C:\\Windows");
    maps.write_string(0x1100, "notepad.exe");
    assert_eq!(PathCombineA(&mut maps, 0x1200, 0x1000, 0x1100), 0x1200);
    assert_eq!(maps.read_string(0x1200), "C:\\Windows\\notepad.exe");
    // an empty file name leaves the destination alone
    assert_eq!(PathCombineA(&mut maps, 0x1300, 0x1000, 0), 0x1300);
    assert_eq!(maps.read_string(0x1300), "");
    // a null destination is answered as it is
    assert_eq!(PathCombineA(&mut maps, 0, 0x1000, 0x1100), 0);
}

#[test]
fn path_combine_wide() {
    let mut maps = Maps::new();
    maps.create_map("data", 0x1000, 0x1000).unwrap();
    maps.write_wide_string(0x1000, "C:\\Temp");
    maps.write_wide_string(0x1100, "a.txt");
    assert_eq!(PathCombineW(&mut maps, 0x1200, 0x1000, 0x1100), 0x1200);
    assert_eq!(maps.read_wide_string(0x1200), "C:\\Temp\\a.txt");
    assert_eq!(PathCombineW(&mut maps, 0x1400, 0, 0x1100), 0x1400);
    assert_eq!(maps.read_wide_string(0x1400), "");
}

#[test]
fn char_alpha_numeric() {
    assert_eq!(IsCharAlphaNumericA('a' as u64), 1);
    assert_eq!(IsCharAlphaNumericA('Z' as u64), 1);
    assert_eq!(IsCharAlphaNumericA('7' as u64), 1);
    assert_eq!(IsCharAlphaNumericA('-' as u64), 0);
    assert_eq!(IsCharAlphaNumericA(0x100 + 'q' as u64), 1);
    assert_eq!(IsCharAlphaNumericA(0xe9), 0);
}

#[test]
fn shell_path_queries() {
    let mut maps = Maps::new();
    maps.create_map("data", 0x1000, 0x1000).unwrap();
    maps.write_wide_string(0x1000, "a.txt");
    maps.write_string(0x1100, "b.txt");
    assert_eq!(PathIsContentTypeW(&maps, 0x1000, 0), 1);
    assert_eq!(PathFindSuffixArrayA(&maps, 0x1100, 0x1800), 0x1800);
    assert_eq!(GetTokenInformation(&maps, 0x1000), 1);
}

#[test]
fn kuser_shared_data_over_an_empty_region() {
    let mut maps = libmwemu::maps::Maps::new();
    maps.create_map("empty", USER_KUSER_SHARED_ADDR, 0).unwrap();
    let addr = init_kuser_shared_data(&mut maps);
    assert_eq!(addr, USER_KUSER_SHARED_ADDR);
    assert_eq!(maps.read_dword(USER_KUSER_SHARED_ADDR + 4), Some(0x0fa00000));
    assert_eq!(maps.read_dword(USER_KUSER_SHARED_ADDR + 0x260), Some(0x6c51));
}

#[test]
fn kuser_kinds_have_their_numbers() {
    assert_eq!(NtProductType::WinNt.value(), 1);
    assert_eq!(NtProductType::Server.value(), 3);
    assert_eq!(AlternativeArchitectureType::StandardDesign.value(), 0);
    assert_eq!(AlternativeArchitectureType::EndAlternatives.value(), 2);
}

#[test]
fn kernelbase_calls_by_name() {
    let mut maps = Maps::new();
    maps.create_map("data", 0x1000, 0x1000).unwrap();
    maps.create_map("lib", 0x100000, 0x1000).unwrap();
    maps.write_string(0x1000, "c:\\dir");
    maps.write_string(0x1100, "file.txt");
    assert_eq!(kernelbase_call("PathCombineA", &mut maps, 0x1200, 0x1000, 0x1100, 0x1800, 0x100000), Some(0x1200));
    assert_eq!(maps.read_string(0x1200), "c:\\dir\\file.txt");
    assert_eq!(kernelbase_call("IsCharAlphaNumericA", &mut maps, 0x41, 0, 0, 0x1800, 0x100000), Some(1));
    assert_eq!(kernelbase_call("GetTokenInformation", &mut maps, 0, 0, 0, 0x1800, 0x100000), Some(1));
    assert_eq!(kernelbase_call("GetFileVersionInfoSizeA", &mut maps, 0, 0, 0, 0x1800, 0x100000), Some(0x100));
    assert_eq!(kernelbase_call("GetFileVersionInfoA", &mut maps, 0, 0, 0, 0x1800, 0x100000), Some(1));
    assert_eq!(kernelbase_call("_initterm_e", &mut maps, 0, 0, 0, 0x1800, 0x100000), Some(0));
    assert_eq!(kernelbase_call("_initterm", &mut maps, 0, 0, 0, 0x1800, 0x100000), Some(0));
    assert_eq!(kernelbase_call("atexit", &mut maps, 0, 0, 0, 0x1800, 0x100000), Some(0));
    // the version block is allocated in the first room from the bottom
    assert_eq!(kernelbase_call("VerQueryValueA", &mut maps, 0x1400, 0, 0x1408, 0x1800, 0x100000), Some(1));
    let block = maps.read_qword(0x1400).unwrap();
    assert_eq!(block, 0x2000);
    assert_eq!(maps.read_qword(0x1408), Some(0x100));
    assert_eq!(kernelbase_call("NoSuchApi", &mut maps, 0, 0, 0, 0x1800, 0x100000), None);
}

#[test]
fn shlwapi_calls_by_name() {
    let mut maps = Maps::new();
    maps.create_map("data", 0x1000, 0x1000).unwrap();
    maps.write_string(0x1000, "file.txt");
    maps.write_string(0x1100, ".txt");
    assert_eq!(shlwapi_call("PathFindSuffixArrayA", &maps, 0x1000, 0x1100), Some(0x1100));
    assert_eq!(shlwapi_call("PathIsContentTypeW", &maps, 0, 0), Some(1));
    assert_eq!(shlwapi_call("PathUnknown", &maps, 0, 0), None);
}
