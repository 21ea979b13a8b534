use qvod::types::Bitfield;

#[test]
fn bitfield_set_outside_leaves_bytes() {
    let mut b = Bitfield::new(10);
    b.set(3, true);
    let before = b.to_bytes().to_vec();
    b.set(10, true);
    b.set(400, false);
    assert_eq!(b.to_bytes(), &before[..]);
    let mut short = Bitfield::from_bytes(vec![0u8], 20);
    short.set(12, true);
    assert_eq!(short.to_bytes(), &[0u8][..]);
    assert!(!short.has(12));
}

#[test]
fn bitfield_set_changes_one_bit() {
    let mut b = Bitfield::new(12);
    b.set(0, true);
    b.set(9, true);
    assert_eq!(b.to_bytes(), &[0x80u8, 0x40u8][..]);
    b.set(0, false);
    assert_eq!(b.to_bytes(), &[0x00u8, 0x40u8][..]);
    assert!(b.has(9));
    assert!(!b.has(0));
}

#[test]
fn bitfield_count_matches_pieces_present() {
    let mut b = Bitfield::new(13);
    for i in [0u32, 4, 7, 8, 12] {
        b.set(i, true);
    }
    b.set(4, false);
    let present = (0..13).filter(|&i| b.has(i)).count() as u32;
    assert_eq!(present, 4);
    assert_eq!(b.count(), present);
    b.set_all(false);
    assert_eq!(b.count(), 0);
    assert!(b.is_empty());
}

#[test]
fn bitfield_count_includes_padding_after_fill() {
    let mut b = Bitfield::new(4);
    b.set_all(true);
    b.set(0, false);
    assert_eq!(b.count(), 4);
    assert_eq!((0..4).filter(|&i| b.has(i)).count(), 3);
}
