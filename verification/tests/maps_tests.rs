use libmwemu::maps::Maps;

#[test]
fn maps_memory_operations() {
    let mut maps = Maps::new();

    let base = 0x10000;
    let size = 0x1000;
    let result = maps.create_map("test_map", base, size);
    assert!(result.is_ok());

    assert!(maps.is_allocated(base));
    assert!(maps.exists_mapname("test_map"));

    assert!(maps.write_dword(base, 0xDEADBEEF));
    assert_eq!(maps.read_dword(base).unwrap(), 0xDEADBEEF);

    assert!(maps.write_qword(base + 8, 0x123456789ABCDEF0));
    assert_eq!(maps.read_qword(base + 8).unwrap(), 0x123456789ABCDEF0);

    assert!(maps.write_byte(base + 16, 0xAB));
    assert_eq!(maps.read_byte(base + 16).unwrap(), 0xAB);

    assert!(maps.write_word(base + 18, 0x1234));
    assert_eq!(maps.read_word(base + 18).unwrap(), 0x1234);

    maps.set_banzai(true);
    assert!(!maps.write_dword(base + size, 0x12345678));
    assert!(maps.read_dword(base + size).is_none());

    let test_str = "Hello World";
    maps.write_string(base + 32, test_str);
    assert_eq!(maps.read_string(base + 32), test_str);

    let result2 = maps.create_map("test_map", base, size);
    assert!(result2.is_err());

    let result3 = maps.create_map("test_map2", base + 0x500, size);
    assert!(result3.is_err());
}

#[test]
fn error_conditions() {
    let mut maps = Maps::new();

    maps.set_banzai(true);
    assert!(maps.read_dword(0x999999).is_none());
    assert!(!maps.write_dword(0x999999, 0x12345678));

    assert!(maps.read_qword(0x123456789).is_none());
    assert!(!maps.write_qword(0x123456789, 0xDEADBEEF));

    let base = 0x20000;
    maps.create_map("zero_test", base, 0x1000).unwrap();

    assert!(maps.write_dword(base + 0x1000 - 4, 0x12345678));
    assert!(maps.read_dword(base + 0x1000 - 4).is_some());

    assert!(!maps.write_dword(base + 0x1000 - 3, 0x12345678));

    let long_string = "A".repeat(100);
    maps.write_string(base, &long_string);
    let read_string = maps.read_string(base);
    assert_eq!(read_string, long_string);
}

#[test]
fn memory_map_operations() {
    let mut maps = Maps::new();

    maps.create_map("map1", 0x10000, 0x1000).unwrap();
    maps.create_map("map2", 0x20000, 0x2000).unwrap();
    maps.create_map("map3", 0x30000, 0x1000).unwrap();

    assert!(maps.exists_mapname("map1"));
    assert!(maps.exists_mapname("map2"));
    assert!(maps.exists_mapname("map3"));
    assert!(!maps.exists_mapname("nonexistent"));

    assert!(maps.is_allocated(0x10000));
    assert!(maps.is_allocated(0x10500));
    assert!(maps.is_allocated(0x10FFF));
    assert!(!maps.is_allocated(0x11000));

    assert!(maps.is_allocated(0x20000));
    assert!(maps.is_allocated(0x21FFF));
    assert!(!maps.is_allocated(0x22000));

    let map1 = maps.get_map_by_name("map1");
    assert!(map1.is_some());
    assert_eq!(map1.unwrap().get_base(), 0x10000);

    let nonexistent = maps.get_map_by_name("nonexistent");
    assert!(nonexistent.is_none());

    let size1 = maps.get_mem_size(0x10000);
    assert!(size1.is_some());

    let size_invalid = maps.get_mem_size(0x99999);
    assert!(size_invalid.is_none());

    assert!(maps.write_dword(0x10000, 0x11111111));
    assert!(maps.write_dword(0x20000, 0x22222222));
    assert!(maps.write_dword(0x30000, 0x33333333));

    assert_eq!(maps.read_dword(0x10000).unwrap(), 0x11111111);
    assert_eq!(maps.read_dword(0x20000).unwrap(), 0x22222222);
    assert_eq!(maps.read_dword(0x30000).unwrap(), 0x33333333);
}

#[test]
fn create_map_error_messages() {
    let mut maps = Maps::new();
    maps.create_map("a", 0x4000, 0x100).unwrap();
    match maps.create_map("b", 0x4010, 0x10) {
        Err(e) => assert_eq!(e, "this map address 0x4010 already exists!"),
        Ok(_) => panic!("overlap accepted"),
    }
    match maps.create_map("a", 0x9000, 0x10) {
        Err(e) => assert_eq!(e, "this map name a already exists!"),
        Ok(_) => panic!("duplicate name accepted"),
    }
}

#[test]
fn lookups_by_address_and_name() {
    let mut maps = Maps::new();
    maps.create_map("code.pe", 0x400000, 0x2000).unwrap();
    maps.create_map("stack", 0x100000, 0x1000).unwrap();
    assert_eq!(maps.get_addr_base(0x401234), Some(0x400000));
    assert_eq!(maps.get_addr_name(0x100010), Some("stack"));
    assert_eq!(maps.get_addr_name(0x50), None);
    assert!(maps.is_mapped(0x100fff));
    assert!(!maps.is_mapped(0x101000));
    assert_eq!(maps.get_base(), Some(0x400000));
    assert_eq!(maps.get_mem_size(0x100800), Some(0x1000));
    assert_eq!(maps.size(), 0x3000);
    assert!(maps.overlaps(0xff000, 0x1001));
    assert!(!maps.overlaps(0xff000, 0x1000));
    assert!(maps.mem_test());
    assert_eq!(maps.get_mem_ref("stack").get_bottom(), 0x101000);
}

#[test]
fn bytes_and_copies() {
    let mut maps = Maps::new();
    maps.create_map("m", 0x1000, 0x100).unwrap();
    maps.write_bytes(0x1010, vec![1, 2, 3, 4]);
    assert_eq!(maps.read_bytes(0x1010, 4), &[1, 2, 3, 4]);
    assert_eq!(maps.read_bytes_option(0x10fe, 4), Some(&[0u8, 0u8][..]));
    assert_eq!(maps.read_bytes_option(0x2000, 4), None);
    assert!(maps.memcpy(0x1020, 0x1010, 4));
    assert_eq!(maps.read_buffer(0x1020, 4), vec![1, 2, 3, 4]);
    maps.memset(0x1030, 0xaa, 3);
    assert_eq!(maps.read_buffer(0x1030, 4), vec![0xaa, 0xaa, 0xaa, 0]);
    maps.write_buffer(0x1040, &[9, 9]);
    assert_eq!(maps.read_word(0x1040), Some(0x0909));
    // a write that runs past the end of its region writes nothing
    maps.set_banzai(true);
    maps.write_bytes(0x10ff, vec![7, 7]);
    assert_eq!(maps.read_byte(0x10ff), Some(0));
    assert_eq!(maps.read_128bits_le(0x1010), Some(0x04030201));
    assert_eq!(maps.read_128bits_be(0x1010), Some(0x04030201));
}

#[test]
fn search_and_filters() {
    let mut maps = Maps::new();
    maps.create_map("data", 0x3000, 0x10).unwrap();
    maps.write_bytes(0x3002, vec![0xde, 0xad, 0xde, 0xad]);
    assert_eq!(maps.search_bytes(vec![0xde, 0xad], "data"), vec![0x3002, 0x3004]);
    assert_eq!(maps.search_bytes(vec![0xad, 0x00, 0x00], "data"), vec![0x3005]);
    assert_eq!(maps.search_bytes(vec![0xde], "nothere"), Vec::<u64>::new());
    assert_eq!(maps.filter_replace_bytes(&[0x41, 0x00, 0x7e, 0x20]), vec![0x41, 0x2e, 0x7e, 0x2e]);
    assert_eq!(maps.filter_replace_string("a b\tc"), "a.b.c");
}

#[test]
fn wide_strings() {
    let mut maps = Maps::new();
    maps.create_map("w", 0x5000, 0x40).unwrap();
    maps.write_wide_string(0x5000, "hi!");
    assert_eq!(maps.read_wide_string(0x5000), "hi!");
    assert_eq!(maps.read_wide_string(0), "");
    assert_eq!(maps.read_string(0), "");
}

#[test]
fn free_and_dealloc() {
    let mut maps = Maps::new();
    maps.create_map("a", 0x1000, 0x1000).unwrap();
    maps.create_map("b", 0x8000, 0x1000).unwrap();
    assert!(maps.is_mapped(0x8004));
    maps.dealloc(0x8000);
    assert!(!maps.is_mapped(0x8004));
    assert!(!maps.exists_mapname("b"));
    maps.free("a");
    assert!(!maps.exists_mapname("a"));
    assert!(maps.get_map_by_name("a").is_none());
    maps.clear();
    assert_eq!(maps.size(), 0);
}

#[test]
fn alloc_finds_the_first_gap() {
    let mut maps = Maps::new();
    maps.create_map("one", 0x10000, 0x1000).unwrap();
    maps.create_map("two", 0x12000, 0x1000).unwrap();
    // the gap below the first region is taken first
    assert_eq!(maps._alloc(0x100, 0x1000, 0x100000, false), Some(0x1000));
    // a gap must be larger than the page rounded size
    assert_eq!(maps._alloc(0x1000, 0x10000, 0x100000, false), Some(0x13000));
    // a gap of exactly the rounded size is not taken
    assert_eq!(maps._alloc(0x800, 0x10000, 0x100000, false), Some(0x13000));
    // nothing fits below the top
    assert_eq!(maps._alloc(0x1000, 0x10000, 0x13800, false), None);
    maps.create_map("three", 0x16000, 0x1000).unwrap();
    assert_eq!(maps._alloc(0x1000, 0x10000, 0x100000, false), Some(0x13000));
    // a library search passes over the regions below its bottom
    assert_eq!(maps._alloc(0x1000, 0x12000, 0x100000, true), Some(0x13000));
}

#[test]
fn mem_test_finds_overlaps() {
    let mut maps = Maps::new();
    maps.create_map("x", 0x2000, 0x1000).unwrap();
    maps.create_map("y", 0x1000, 0x1800).unwrap();
    assert!(!maps.mem_test());
}
