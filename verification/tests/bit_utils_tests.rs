use ringstack::bit_utils::Canonicalizable;
use ringstack::bit_utils::HotBitIter;
use ringstack::bit_utils::PackedRing;

#[test]
fn hot_bits_come_lowest_first() {
    let mut it = HotBitIter::from(0b1010_0100u32);
    assert_eq!(it.next(), Some(0b100));
    assert_eq!(it.next(), Some(0b10_0000));
    assert_eq!(it.next(), Some(0b1000_0000));
    assert_eq!(it.next(), None);
    assert_eq!(it.next(), None);
}

#[test]
fn hot_bits_of_zero_are_none() {
    let mut it = HotBitIter::from(0u32);
    assert_eq!(it.next(), None);
}

#[test]
fn hot_bits_reach_the_highest_bit() {
    let mut it = HotBitIter::from(0x8000_0001u32);
    assert_eq!(it.next(), Some(1));
    assert_eq!(it.next(), Some(0x8000_0000));
    assert_eq!(it.next(), None);
}

#[test]
fn rotate_turns_by_one_field() {
    assert_eq!(0x1234_5678u32.rotate(), 0x2345_6781);
    assert_eq!(0b11_00_00_00_00_00_00_01u16.rotate(), 0b00_00_00_00_00_00_01_11);
}

#[test]
fn eight_rotations_restore_the_value() {
    let mut x = 0x1357_9bdfu32;
    let mut y = 0x9c31u16;
    for _ in 0..8 {
        x = x.rotate();
        y = y.rotate();
    }
    assert_eq!(x, 0x1357_9bdf);
    assert_eq!(y, 0x9c31);
}

#[test]
fn reverse_inverts_the_order_of_the_fields() {
    assert_eq!(0x1234_5678u32.reverse(), 0x8765_4321);
    assert_eq!(0b11_10_01_00_00_00_00_01u16.reverse(), 0b01_00_00_00_00_01_10_11);
    assert_eq!(0x1234_5678u32.reverse().reverse(), 0x1234_5678);
}

#[test]
fn canonicalize_takes_the_least_image() {
    assert_eq!(0x2111_1111u32.canonicalize(), 0x1111_1112);
    assert_eq!(0x1111_1111u32.canonicalize(), 0x1111_1111);
    assert_eq!(0x1321_1111u32.canonicalize(), 0x1111_1123);
    assert_eq!(0b01_00_00_00_00_00_00_00u16.canonicalize(), 1);
    assert_eq!(0b01_00_00_00_00_00_10_11u16.canonicalize(), 0x1e);
}

#[test]
fn canonicalize_finds_an_image_that_only_the_mirror_has() {
    // 1, 2, 3 in rising order is no turn of 3, 2, 1
    assert_eq!(0x1111_1321u32.canonicalize(), 0x1111_1123);
    assert_eq!(0x1111_1123u32.canonicalize(), 0x1111_1123);
}

#[test]
fn canonicalize_is_idempotent() {
    for x in [0u32, 1, 0x1234_5678, 0x8765_4321, 0xffff_ffff, 0x1111_131c, 0x8244_4483] {
        let c = x.canonicalize();
        assert_eq!(c.canonicalize(), c);
    }
    for y in [0u16, 1, 0x1e, 0x4001, 0xffff, 0x9c31] {
        let c = y.canonicalize();
        assert_eq!(c.canonicalize(), c);
    }
}

#[test]
fn all_sixteen_images_have_one_canonical_form() {
    for x in [0x1234_5678u32, 0x1111_131c, 0x8244_4483, 0x2444_444f] {
        let c = x.canonicalize();
        let mut turned = x;
        let mut mirrored = x.reverse();
        for _ in 0..8 {
            assert_eq!(turned.canonicalize(), c);
            assert_eq!(mirrored.canonicalize(), c);
            assert!(c <= turned && c <= mirrored);
            turned = turned.rotate();
            mirrored = mirrored.rotate();
        }
    }
    let y = 0x9c31u16;
    let c = y.canonicalize();
    let mut turned = y;
    let mut mirrored = y.reverse();
    for _ in 0..8 {
        assert_eq!(turned.canonicalize(), c);
        assert_eq!(mirrored.canonicalize(), c);
        turned = turned.rotate();
        mirrored = mirrored.rotate();
    }
}
