use libmwemu::maps::tlb::{TLBEntry, INVALID_TLB_ENTRY, LPF_OF, TLB};

#[test]
fn page_frame_clears_low_bits() {
    assert_eq!(LPF_OF(0x1234_5678), 0x1234_5000);
    assert_eq!(LPF_OF(0xfff), 0);
    assert_eq!(LPF_OF(u64::MAX), 0xffff_ffff_ffff_f000);
}

#[test]
fn index_uses_bits_12_to_22() {
    let t = TLB::new();
    assert_eq!(t.get_index_of(0x1000, 0), 1);
    assert_eq!(t.get_index_of(0x7ff000, 0), 2047);
    assert_eq!(t.get_index_of(0x800000, 0), 0);
    assert_eq!(t.get_index_of(0x1000, 0x1000), 2);
}

#[test]
fn entries_start_empty_and_flush_empties() {
    let mut t = TLB::new();
    assert_eq!(t.get_entry_of(0x5000, 0).lpf, INVALID_TLB_ENTRY);
    t.get_entry_of_mut(0x5123, 0).set_mem(LPF_OF(0x5123), 7);
    assert_eq!(t.get_entry_of(0x5000, 0).lpf, 0x5000);
    assert_eq!(t.get_entry_of(0x5fff, 0).get_mem(), 7);
    t.flush();
    assert_eq!(t.get_entry_of(0x5000, 0).lpf, INVALID_TLB_ENTRY);
    assert_eq!(t.get_entry_of(0x5000, 0).mem64, 7);
}

#[test]
fn invlpg_forgets_only_its_page() {
    let mut t = TLB::new();
    t.get_entry_of_mut(0x5000, 0).set_mem(0x5000, 1);
    t.get_entry_of_mut(0x6000, 0).set_mem(0x6000, 2);
    // a page that shares the entry of 0x5000 but is not cached
    t.invlpg(0x805000);
    assert_eq!(t.get_entry_of(0x5000, 0).lpf, 0x5000);
    t.invlpg(0x5abc);
    assert_eq!(t.get_entry_of(0x5000, 0).lpf, INVALID_TLB_ENTRY);
    assert_eq!(t.get_entry_of(0x6000, 0).lpf, 0x6000);
}

#[test]
fn entry_set_get_invalidate() {
    let mut e = TLBEntry { lpf: 0, mem64: 0 };
    e.set_mem(0x9000, 3);
    assert_eq!(e.get_mem(), 3);
    assert_eq!(e.lpf, 0x9000);
    e.invalidate();
    assert_eq!(e.lpf, INVALID_TLB_ENTRY);
    assert_eq!(e.get_mem(), 3);
}
