use ringstack::bit_utils::Canonicalizable;
use ringstack::board::Board;
use ringstack::enumeration::create_board_id;
use ringstack::enumeration::find_board_ids;
use ringstack::enumeration::find_shapes;
use ringstack::enumeration::make_repunit;
use ringstack::enumeration::reachable_ids;
use std::collections::HashSet;

#[test]
fn repunits_are_runs_of_ones() {
    assert_eq!(make_repunit(0), 0);
    assert_eq!(make_repunit(1), 1);
    assert_eq!(make_repunit(3), 0b111);
    assert_eq!(make_repunit(15), 0x7fff);
    assert_eq!(make_repunit(16), 0xffff);
    assert_eq!(make_repunit(20), 0xffff);
}

#[test]
fn shapes_are_canonical_and_counted() {
    assert_eq!(find_shapes(0), HashSet::from([0]));
    assert_eq!(find_shapes(1), HashSet::from([1]));
    assert_eq!(find_shapes(2), HashSet::from([0x2, 0x5, 0x11, 0x41, 0x101]));
    assert_eq!(find_shapes(3).len(), 10);
    assert_eq!(find_shapes(4).len(), 28);
    assert_eq!(find_shapes(16).len(), 265);
}

#[test]
fn board_id_takes_heights_from_the_shape_and_colours_from_the_pattern() {
    assert_eq!(create_board_id(0, 0), 0x1111_1111);
    assert_eq!(create_board_id(0b01_00_00_00_00_00_10_11, 0b101101), 0x3111_115d);
    assert_eq!(create_board_id(0b11, 0b111), 0x1111_111f);
    assert_eq!(create_board_id(0b11, 0), 0x1111_1118);
    assert_eq!(create_board_id(0xffff, 0xffff), 0x889f_ffff);
}

#[test]
fn empty_board_is_the_only_position_without_stones() {
    let ids = find_board_ids(0);
    assert_eq!(ids.len(), 1);
    assert!(ids.contains(&u32::from(Board::new()).canonicalize()));
    assert!(ids.contains(&0x1111_1111));
}

#[test]
fn board_ids_are_counted() {
    assert_eq!(find_board_ids(1), HashSet::from([0x1111_1113]));
    assert_eq!(
        find_board_ids(2),
        HashSet::from([0x1111_1115, 0x1111_1116, 0x1111_1123, 0x1111_1213, 0x1111_2113, 0x1112_1113])
    );
    assert_eq!(find_board_ids(3).len(), 27);
    assert_eq!(find_board_ids(4).len(), 139);
    assert_eq!(find_board_ids(5).len(), 478);
    assert_eq!(find_board_ids(8).len(), 16933);
}

#[test]
fn enumerated_boards_decode_and_encode_back() {
    for n in 0..5u16 {
        for id in find_board_ids(n) {
            let board = Board::try_from(id).unwrap();
            assert_eq!(board.num_stones(), n as u32);
            assert_eq!(u32::from(board), id);
            assert_eq!(id.canonicalize(), id);
        }
    }
}

#[test]
fn all_reachable_positions_are_counted() {
    assert_eq!(find_board_ids(16).len(), 3078229);
    assert_eq!(reachable_ids().len(), 8363027);
}

#[test]
fn shapes_are_as_many_as_counted() {
    let counts = [1, 1, 5, 10, 28, 52, 105, 167, 265, 352, 454, 506, 543, 506, 454, 352, 265];
    for (n, count) in counts.iter().enumerate() {
        assert_eq!(find_shapes(n as u16).len(), *count);
    }
}

#[test]
fn board_ids_are_as_many_as_counted() {
    let counts = [
        1, 1, 6, 27, 139, 478, 1826, 5487, 16933, 42192, 106332, 223700, 468444, 829912, 1444680,
        2144640, 3078229,
    ];
    for (n, count) in counts.iter().enumerate() {
        assert_eq!(find_board_ids(n as u16).len(), *count);
    }
}
