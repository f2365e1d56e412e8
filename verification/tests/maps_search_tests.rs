use libmwemu::maps::Maps;

fn maps_with(name: &str, base: u64, size: u64) -> Maps {
    let mut maps = Maps::new();
    maps.create_map(name, base, size).unwrap();
    maps
}

#[test]
fn search_string_finds_every_start() {
    let mut maps = maps_with("data", 0x1000, 0x100);
    maps.write_string(0x1010, "abcab");
    let found = maps.search_string("ab", "data").unwrap();
    assert_eq!(found, vec![0x1010, 0x1013]);
    assert!(maps.search_string("xyz", "data").is_none());
    assert!(maps.search_string("ab", "nomap").is_none());
}

#[test]
fn read_string_of_bytes_spaces_hex() {
    let mut maps = maps_with("data", 0x1000, 0x100);
    maps.write_bytes(0x1000, vec![0xde, 0xad, 0x0f]);
    assert_eq!(maps.read_string_of_bytes(0x1000, 3), "de ad 0f ");
    // the read stops at the end of the region
    assert_eq!(maps.read_string_of_bytes(0x10fe, 4), "00 00 ");
}

#[test]
fn sizeof_wide_counts_units() {
    let mut maps = maps_with("data", 0x1000, 0x100);
    maps.write_wide_string(0x1000, "hello");
    assert_eq!(maps.sizeof_wide(0x1000), 5);
    assert_eq!(maps.sizeof_wide(0x1080), 0);
}

#[test]
fn spaced_bytes_parse_and_write() {
    let mut maps = maps_with("code", 0x1000, 0x100);
    assert_eq!(maps.spaced_bytes_to_bytes("90 c3 ff"), vec![0x90, 0xc3, 0xff]);
    // parsing stops at the first piece that is no byte
    assert_eq!(maps.spaced_bytes_to_bytes("90 zz c3"), vec![0x90]);
    assert!(maps.write_spaced_bytes(0x1010, "55 48 89 e5"));
    assert_eq!(maps.read_dword(0x1010), Some(0xe5894855));
    assert_eq!(maps.search_spaced_bytes("48 89", "code"), vec![0x1011]);
    assert_eq!(maps.search_spaced_bytes_in_all("89 e5"), vec![0x1012]);
    // the search runs from the base of the region up to the given address
    assert_eq!(maps.search_spaced_bytes_from("89 e5", 0x1050), 0x1012);
    assert_eq!(maps.search_spaced_bytes_from("89 e5", 0x1011), 0);
    assert_eq!(maps.search_spaced_bytes_from_bw("55 48", 0x1050), 0x1010);
    assert_eq!(maps.search_spaced_bytes_from("11 22", 0x1000), 0);
    assert_eq!(maps.search_spaced_bytes_from("55", 0x9000), 0);
}

#[test]
fn write_spaced_bytes_stops_at_the_end_in_banzai_mode() {
    let mut maps = maps_with("code", 0x1000, 0x10);
    maps.set_banzai(true);
    assert!(!maps.write_spaced_bytes(0x100e, "01 02 03 04"));
    assert_eq!(maps.read_byte(0x100e), Some(1));
    assert_eq!(maps.read_byte(0x100f), Some(2));
}

#[test]
fn filter_string_keeps_printable_text() {
    let maps = Maps::new();
    let mut s = String::from("ab\u{1}c d\u{7f}é!");
    maps.filter_string(&mut s);
    assert_eq!(s, "abc d!");
}

#[test]
fn get_mem2_by_name() {
    let mut maps = maps_with("stack", 0x2000, 0x100);
    assert!(maps.get_mem2("stack").is_some());
    assert!(maps.get_mem2("heap").is_none());
    maps.show_addr_names(0x2000);
}

#[test]
fn search_string_in_all_skips_high_regions() {
    let mut maps = maps_with("low", 0x1000, 0x100);
    maps.create_map("other", 0x3000, 0x100).unwrap();
    maps.create_map("high", 0x7000000, 0x100).unwrap();
    maps.write_string(0x1020, "key");
    maps.write_string(0x3005, "key key");
    maps.write_string(0x7000010, "key");
    // regions in creation order, the high one left out
    assert_eq!(maps.search_string_in_all("key".to_string()), vec![0x1020, 0x3005, 0x3009]);
    assert!(maps.search_string_in_all("none".to_string()).is_empty());
}
