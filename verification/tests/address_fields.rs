use cachesim::address::Address;

#[test]
fn splits_an_address_into_fields() {
    let a = Address::new(8, 8);
    let x: u64 = 0xdead_beef_1234_5678;
    assert_eq!(a.tag(x), 0xde);
    assert_eq!(a.index(x), 0xad);
    assert_eq!(a._offset(x), 0xbeef_1234_5678);
}

#[test]
fn tag_and_index_recover_the_top_bits() {
    let a = Address::new(40, 12);
    let x: u64 = 0x0123_4567_89ab_cdef;
    assert_eq!((a.tag(x) << 12) | a.index(x), x >> 12);
}

#[test]
fn all_bits_in_the_tag() {
    let a = Address::new(64, 0);
    let x: u64 = 0x8000_0000_0000_0001;
    assert_eq!(a.tag(x), x);
    assert_eq!(a.index(x), 0);
    assert_eq!(a._offset(x), 0);
}

#[test]
fn no_tag_bits_at_all() {
    let a = Address::new(0, 64);
    let x: u64 = 0xffff_0000_ffff_0000;
    assert_eq!(a.tag(x), 0);
    assert_eq!(a.index(x), x);
}

#[test]
fn fields_use_the_top_of_the_address() {
    // With offset bits present, two addresses differing only below the
    // index field have the same tag and index.
    let a = Address::new(56, 4);
    assert_eq!(a.tag(0x123), a.tag(0x12f));
    assert_eq!(a.index(0x123), a.index(0x12f));
    assert_ne!(a.index(0x123), a.index(0x1f3));
}
