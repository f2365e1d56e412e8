use libmwemu::maps::Maps;
use libmwemu::structures::PEB64;

#[test]
fn peb64_save_then_load() {
    let mut maps = Maps::new();
    maps.create_map("peb", 0x7000, 0x1000).unwrap();
    let peb = PEB64::new(0x140000000, 0x7ff00000, 0x20000);
    assert_eq!(peb.image_base_addr, 0x140000000);
    assert_eq!(peb.ldr, 0x7ff00000);
    assert_eq!(peb.being_debugged, 0);
    peb.save(maps.get_mem("peb"));
    assert_eq!(maps.read_qword(0x7000 + 0x8), Some(0xffffffffffffffff));
    assert_eq!(maps.read_qword(0x7000 + 0x10), Some(0x140000000));
    assert_eq!(maps.read_qword(0x7000 + 0x18), Some(0x7ff00000));
    assert_eq!(maps.read_qword(0x7000 + 0x20), Some(0x20000));
    assert_eq!(maps.read_dword(0x7000 + 0x80), Some(0x1fff));
    assert_eq!(maps.read_word(0x7000 + 0x120), Some(0x1db1));
    // every field lands at its offset of the 64 bit layout
    assert_eq!(maps.read_qword(0x7000 + 0x238), Some(0x77102580));
    assert_eq!(maps.read_dword(0x7000 + 0x240), Some(0));
    assert_eq!(maps.read_qword(0x7000 + 0x2c0), Some(1));
    assert_eq!(maps.read_qword(0x7000 + 0x2e8), Some(0x1e001c));
    assert_eq!(maps.read_qword(0x7000 + 0x2f0), Some(0x7efe0afa));
    assert_eq!(maps.read_qword(0x7000 + 0xe0), Some(0x10000));
    let back = PEB64::load(0x7000, &maps);
    assert_eq!(back.image_base_addr, 0x140000000);
    assert_eq!(back.ldr, 0x7ff00000);
    assert_eq!(back.being_debugged, 0);
    // loading what was saved gives the same block
    assert_eq!(format!("{:?}", back), format!("{:?}", peb));
    assert_eq!(PEB64::size(), 800);
}
