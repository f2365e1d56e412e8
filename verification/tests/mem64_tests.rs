use libmwemu::maps::mem64::Mem64;

fn hex(d: &[u8; 16]) -> String {
    let mut s = String::new();
    for b in d.iter() {
        s.push_str(&format!("{:02x}", b));
    }
    s
}

#[test]
fn mem64_test() {
    let mut mem = Mem64::new();
    mem.set_name("memtest");
    assert_eq!(mem.get_name(), "memtest");

    mem.set_base(0x400000);
    mem.set_size(1024);
    assert_eq!(mem.get_base(), 0x400000);
    assert_eq!(mem.size(), 1024);

    mem.write_bytes(0x400010, &[1, 2, 3, 4]);
    assert_eq!(mem.read_bytes(0x400010, 4), &[1, 2, 3, 4]);

    mem.write_byte(0x400010, 0x12);
    assert_eq!(mem.read_byte(0x400010), 0x12);

    mem.write_word(0x400010, 0x1234);
    assert_eq!(mem.read_word(0x400010), 0x1234);

    mem.write_dword(0x400010, 0x12345678);
    assert_eq!(mem.read_dword(0x400010), 0x12345678);

    mem.write_qword(0x400010, 0x123456789ABCDEF0);
    assert_eq!(mem.read_qword(0x400010), 0x123456789ABCDEF0);

    mem.write_oword(0x400010, 0x123456789ABCDEF0123456789ABCDEF0);
    assert_eq!(mem.read_oword(0x400010), 0x123456789ABCDEF0123456789ABCDEF0);

    mem.write_wide_string(0x400010, "Hello, world!");
    assert_eq!(mem.read_wide_string(0x400010), "Hello, world!");

    mem.write_string(0x400010, "Hello, world!");
    assert_eq!(mem.read_string(0x400010), "Hello, world!");

    mem.write_string(0x400010, "Hello, ");
    mem.write_string(0x400010 + 7, "world!");
    assert_eq!(mem.read_string(0x400010), "Hello, world!");

    assert_eq!(mem.inside(0x4000ab), true);
    assert_eq!(mem.inside(0x400000 + 1024), false);

    mem.clear();
}

#[test]
fn md5_of_known_contents() {
    let empty = Mem64::new();
    assert_eq!(hex(&empty.md5()), "d41d8cd98f00b204e9800998ecf8427e");
    let mut m = Mem64::new();
    m.set_base(0x1000);
    m.set_size(3);
    m.write_bytes(0x1000, b"abc");
    assert_eq!(hex(&m.md5()), "900150983cd24fb0d6963f7d28e17f72");
}

#[test]
fn little_endian_layout() {
    let mut m = Mem64::new();
    m.set_base(0x100);
    m.set_size(16);
    m.write_dword(0x100, 0x11223344);
    assert_eq!(m.read_bytes(0x100, 4), &[0x44, 0x33, 0x22, 0x11]);
    assert_eq!(m.read_word(0x102), 0x1122);
    assert_eq!(m.read_byte(0x103), 0x11);
    m.write_qword(0x108, 0x0102030405060708);
    assert_eq!(m.read_dword(0x108), 0x05060708);
    assert_eq!(m.read_dword(0x10c), 0x01020304);
    // a write leaves the neighbouring bytes alone
    m.write_word(0x104, 0xbeef);
    assert_eq!(m.read_dword(0x100), 0x11223344);
    assert_eq!(m.read_word(0x104), 0xbeef);
    assert_eq!(m.read_word(0x106), 0);
}

#[test]
fn read_bytes_is_cut_at_the_end() {
    let mut m = Mem64::new();
    m.set_base(0x10);
    m.set_size(4);
    m.write_bytes(0x10, &[9, 8, 7, 6]);
    assert_eq!(m.read_bytes(0x12, 10), &[7, 6]);
    assert_eq!(m.read_bytes(0x14, 1), &[] as &[u8]);
    assert_eq!(m.read_bytes(0x0f, 1), &[] as &[u8]);
    assert_eq!(m.read_from(0x11), &[8, 7, 6]);
}

#[test]
fn bases_and_bottoms() {
    let mut m = Mem64::new();
    m.set_base(0x2000);
    assert_eq!(m.get_bottom(), 0x2000);
    m.set_bottom(0x2010);
    assert_eq!(m.size(), 0x10);
    assert!(m.inside(0x200f));
    assert!(!m.inside(0x2010));
    m.update_base(0x3000);
    assert_eq!(m.get_base(), 0x3000);
    assert_eq!(m.get_bottom(), 0x2010);
    m.update_bottom(0x3010);
    assert_eq!(m.get_bottom(), 0x3010);
    m.extend(0x10);
    assert_eq!(m.size(), 0x20);
    assert_eq!(m.get_bottom(), 0x3020);
    m.alloc_zeroed(4);
    assert_eq!(m.get_mem(), vec![0, 0, 0, 0]);
}

#[test]
fn memcpy_copies_to_the_start() {
    let mut m = Mem64::new();
    m.set_base(0);
    m.set_size(6);
    m.memcpy(&[1, 2, 3, 4], 3);
    assert_eq!(m.get_mem(), vec![1, 2, 3, 0, 0, 0]);
}

#[test]
fn build_addresses_repeats_the_address() {
    let m = Mem64::new();
    assert_eq!(m.build_addresses(2, 1), vec![2, 2, 2]);
}

#[test]
fn strings_stop_at_the_terminator() {
    let mut m = Mem64::new();
    m.set_base(0x500);
    m.set_size(64);
    m.write_string(0x500, "abc");
    assert_eq!(m.read_bytes(0x500, 4), &[b'a', b'b', b'c', 0]);
    assert_eq!(m.read_string(0x500), "abc");
    assert_eq!(m.read_string(0x501), "bc");
    m.write_string(0x500, "");
    assert_eq!(m.read_string(0x500), "");
    m.write_string(0x510, "héllo");
    assert_eq!(m.read_string(0x510), "héllo");
    m.write_wide_string(0x520, "A\u{1F600}");
    assert_eq!(m.read_bytes(0x520, 6), &[0x41, 0x00, 0x3d, 0xd8, 0x00, 0xde]);
    assert_eq!(m.read_wide_string(0x520), "A\u{1F600}");
}

#[test]
fn save_range_checks_the_size() {
    let mut m = Mem64::new();
    m.set_base(0x40);
    m.set_size(8);
    m.write_bytes(0x44, &[5, 6]);
    assert_eq!(m.save_range(0x44, 2), Some(&[5u8, 6u8][..]));
    assert_eq!(m.save_range(0x44, 4), Some(&[5u8, 6u8, 0, 0][..]));
    assert_eq!(m.save_range(0x44, 5), None);
}
