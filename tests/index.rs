use citadel::index::{UnhardenedIndex, LARGEST_UNHARDENED};

#[test]
fn zero_and_largest() {
    assert_eq!(UnhardenedIndex::zero().index(), 0);
    assert_eq!(UnhardenedIndex::largest().index(), 0x7fff_ffff);
    assert_eq!(LARGEST_UNHARDENED, (1u32 << 31) - 1);
}

#[test]
fn hardened_numbers_are_refused() {
    assert!(UnhardenedIndex::from_index(0x8000_0000).is_none());
    assert_eq!(UnhardenedIndex::from_index(0x7fff_ffff).unwrap().index(), 0x7fff_ffff);
    assert_eq!(UnhardenedIndex::from_u8(200).index(), 200);
}

#[test]
fn checked_add_stops_at_boundary() {
    let i = UnhardenedIndex::from_index(0x7fff_fff0).unwrap();
    assert_eq!(i.checked_add(15).unwrap().index(), 0x7fff_ffff);
    assert!(i.checked_add(16).is_none());
    assert!(UnhardenedIndex::largest().checked_inc().is_none());
    assert_eq!(UnhardenedIndex::zero().checked_inc().unwrap().index(), 1);
}

#[test]
fn saturating_add_gives_largest() {
    let i = UnhardenedIndex::from_index(0x7fff_fff0).unwrap();
    assert_eq!(i.saturating_add(100).index(), LARGEST_UNHARDENED);
    assert_eq!(UnhardenedIndex::from_u8(5).saturating_add(20).index(), 25);
}
