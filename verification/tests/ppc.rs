use nasty_dx_dumper::ppc::{branch, rewrite, ImmKind, ImmRef, Scan};
use nasty_dx_dumper::sorted_map::SortedMap;

#[test]
fn addi_low_half_borrows_from_the_high_half() {
    // lis r5,0x8025 / addi r5,r5,0x5ee4
    let (hi, lo) = rewrite(0x3ca08025, 0x38a55ee4, ImmKind::Addi, 0x802d0698);
    assert_eq!(hi, 0x3ca0802d);
    assert_eq!(lo, 0x38a50698);
    // bit 15 set: the addi subtracts 0x10000, so the lis must add it back
    let (hi, lo) = rewrite(0x3ca08025, 0x38a55ee4, ImmKind::Addi, 0x802dfedc);
    assert_eq!(hi, 0x3ca0802e);
    assert_eq!(lo, 0x38a5fedc);
    assert_eq!((0x802eu32 << 16).wrapping_add(0xfedcu16 as i16 as u32), 0x802dfedc);
}

#[test]
fn ori_low_half_does_not() {
    let (hi, lo) = rewrite(0x3ca08025, 0x60a55ee4, ImmKind::Ori, 0x802dfedc);
    assert_eq!(hi, 0x3ca0802d);
    assert_eq!(lo, 0x60a5fedc);
}

#[test]
fn a_rewritten_pair_builds_its_address_for_every_carry() {
    for addr in [0x8000_0000u32, 0x8000_7fff, 0x8000_8000, 0x802f_ffff, 0x8030_8000, 0x0000_8000] {
        let (hi, lo) = rewrite(0x3c60_0000, 0x3863_0000, ImmKind::Addi, addr);
        let built = (hi << 16).wrapping_add((lo & 0xffff) as u16 as i16 as u32);
        assert_eq!(built, addr);
        assert_eq!(hi & 0xffff_0000, 0x3c60_0000);
        assert_eq!(lo & 0xffff_0000, 0x3863_0000);
        let (hi, lo) = rewrite(0x3c60_0000, 0x6063_0000, ImmKind::Ori, addr);
        assert_eq!((hi << 16) | (lo & 0xffff), addr);
    }
}

#[test]
fn a_branch_encodes_its_displacement() {
    assert_eq!(branch(0x8000_0000, 0x8000_0010).unwrap(), 0x4800_0010);
    assert_eq!(branch(0x8000_0010, 0x8000_0000).unwrap(), 0x4bff_fff0);
    assert_eq!(branch(0x8000_0000, 0x8000_0000).unwrap(), 0x4800_0000);
    assert!(branch(0x8000_0000, 0x8000_0002).is_err());
    assert!(branch(0x8000_0000, 0x8400_0000).is_err());
}

/// Each group of usable pairs comes sorted by low half, whatever the keys
/// the pairs are held under.
#[test]
fn usable_pairs_come_sorted_by_low_half() {
    let pair = |lo_off: u32| ImmRef { hi_off: 0, hi_ram: 0, lo_off, lo_ram: 0, target_off: 7, target_ram: 0x8000_0007, kind: ImmKind::Addi };
    let mut refs = SortedMap::new();
    refs.insert(1, pair(10));
    refs.insert(2, pair(5));
    let sc = Scan { refs, rejected: SortedMap::new() };
    let usable = sc.usable();
    let group = usable.get(7).unwrap();
    assert_eq!(group.iter().map(|r| r.lo_off).collect::<Vec<_>>(), [5, 10]);
    assert!(usable.get(8).is_none());
}

/// A pair rewritten to the address it already builds keeps both words.
#[test]
fn rewriting_a_pair_to_its_own_target_changes_nothing() {
    // lis r3,0x802e / addi r3,r3,-0x8000 builds 0x802d8000
    assert_eq!(rewrite(0x3c60802e, 0x38638000, ImmKind::Addi, 0x802d_8000), (0x3c60802e, 0x38638000));
    // lis r3,0x8025 / ori r3,r3,0x5ee4 builds 0x80255ee4
    assert_eq!(rewrite(0x3c608025, 0x60635ee4, ImmKind::Ori, 0x8025_5ee4), (0x3c608025, 0x60635ee4));
}
