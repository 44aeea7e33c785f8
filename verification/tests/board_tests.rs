use ringstack::bit_utils::Canonicalizable;
use ringstack::bit_utils::PackedRing;
use ringstack::board::adjacency;
use ringstack::board::Action;
use ringstack::board::Board;
use ringstack::board::Color;
use ringstack::board::IllegalAction;
use ringstack::board::InvalidEncoding;

fn board_of(id: u32) -> Board {
    Board::try_from(id).unwrap()
}

fn put(player: Color, column: u32) -> Action {
    Action::Put { player, target: 1 << (4 * column) }
}

#[test]
fn colours_are_opposite() {
    assert_eq!(!Color::Black, Color::White);
    assert_eq!(!Color::White, Color::Black);
}

#[test]
fn new_board_is_empty() {
    let board = Board::new();
    assert_eq!(board.num_stones(), 0);
    assert_eq!(u32::from(board), 0x1111_1111);
    assert_eq!(board.canonical_player(), Color::Black);
    assert!(!board.lines_up(Color::Black));
    assert!(!board.lines_up(Color::White));
}

#[test]
fn encoding_has_a_stop_bit_above_the_colour_bits() {
    let mut board = Board::new();
    board.perform(put(Color::Black, 0));
    assert_eq!(u32::from(board), 0x1111_1113);
    board.perform(put(Color::White, 0));
    assert_eq!(u32::from(board), 0x1111_1116);
    board.perform(put(Color::Black, 2));
    assert_eq!(u32::from(board), 0x1111_1316);
    board.perform(put(Color::White, 0));
    assert_eq!(u32::from(board), 0x1111_131c);
    assert_eq!(board.num_stones(), 4);
}

#[test]
fn decoding_gives_the_encoded_board_back() {
    for id in [0x1111_1111u32, 0x1111_131c, 0x8244_4483, 0x2444_444f, 0x8888_888f, 0x9abc_def1] {
        assert_eq!(u32::from(board_of(id)), id);
    }
}

#[test]
fn decoding_rejects_a_zero_unit() {
    assert_eq!(Board::try_from(0).err(), Some(InvalidEncoding { column: 0 }));
    assert_eq!(Board::try_from(0x1111_1101).err(), Some(InvalidEncoding { column: 1 }));
    assert_eq!(Board::try_from(0x0111_1111).err(), Some(InvalidEncoding { column: 7 }));
    assert_eq!(Board::try_from(0x0101_1111).err(), Some(InvalidEncoding { column: 5 }));
    assert!(Board::try_from(0x1111_1111).is_ok());
}

#[test]
fn from_valid_id_decodes() {
    assert_eq!(u32::from(Board::from_valid_id(0x1111_131c)), 0x1111_131c);
}

#[test]
fn stones_are_counted() {
    assert_eq!(board_of(0x1111_131c).num_stones(), 4);
    assert_eq!(board_of(0x8244_4483).num_stones(), 16);
    assert_eq!(board_of(0x8888_888f).num_stones(), 24);
    assert_eq!(board_of(0x1111_1112).num_stones(), 1);
}

#[test]
fn player_to_move_follows_parity() {
    assert_eq!(board_of(0x1111_1111).canonical_player(), Color::Black);
    assert_eq!(board_of(0x1111_1113).canonical_player(), Color::White);
    assert_eq!(board_of(0x1111_1116).canonical_player(), Color::Black);
    assert_eq!(board_of(0x8244_4483).canonical_player(), Color::Black);
}

#[test]
fn placements_go_to_columns_with_room() {
    let board = board_of(0x1111_131c);
    let actions = board.legal_actions(Color::Black);
    let expected: Vec<Action> = (1..8).map(|c| put(Color::Black, c)).collect();
    assert_eq!(actions, expected);
    assert_eq!(board.legal_actions(Color::White), vec![]);
}

#[test]
fn empty_board_has_eight_placements_for_black_only() {
    let board = Board::new();
    let expected: Vec<Action> = (0..8).map(|c| put(Color::Black, c)).collect();
    assert_eq!(board.legal_actions(Color::Black), expected);
    assert_eq!(board.legal_actions(Color::White), vec![]);
}

#[test]
fn tower_lines_up() {
    let black = board_of(0x1111_111f);
    assert!(black.lines_up(Color::Black));
    assert!(!black.lines_up(Color::White));
    let white = board_of(0x1111_1118);
    assert!(white.lines_up(Color::White));
    assert!(!white.lines_up(Color::Black));
    for column in 0..8 {
        let id = 0x1111_1111 + (0xe << (4 * column));
        assert!(board_of(id).lines_up(Color::Black));
    }
    // two black stones under a white one are no tower
    assert!(!board_of(0x1111_111b).lines_up(Color::Black));
    assert!(!board_of(0x1111_111b).lines_up(Color::White));
}

#[test]
fn tower_moves_to_its_neighbours_and_the_column_opposite() {
    let board = board_of(0x2444_444f);
    assert_eq!(board.num_stones(), 16);
    assert!(board.lines_up(Color::Black));
    assert_eq!(
        board.legal_actions(Color::Black),
        vec![
            Action::Move { from: 0x1, to: 0x10 },
            Action::Move { from: 0x1, to: 0x1_0000 },
            Action::Move { from: 0x1, to: 0x1000_0000 },
        ]
    );
    assert_eq!(board.legal_actions(Color::White).len(), 18);
}

#[test]
fn ring_line_lines_up_at_every_turn() {
    let mut black = 0x1111_3333u32;
    let mut white = 0x1111_2222u32;
    for _ in 0..8 {
        assert!(board_of(black).lines_up(Color::Black));
        assert!(!board_of(black).lines_up(Color::White));
        assert!(board_of(white).lines_up(Color::White));
        assert!(!board_of(white).lines_up(Color::Black));
        black = black.rotate();
        white = white.rotate();
    }
}

#[test]
fn three_in_a_row_do_not_line_up() {
    assert!(!board_of(0x1111_1333).lines_up(Color::Black));
    assert!(board_of(0x3111_1333).lines_up(Color::Black));
    assert!(board_of(0x3311_1133).lines_up(Color::Black));
    // a white stone in front breaks the line
    assert!(!board_of(0x1111_3363).lines_up(Color::Black));
}

#[test]
fn movement_is_blocked_by_full_columns() {
    let board = board_of(0x8244_4483);
    assert_eq!(board.num_stones(), 16);
    assert_eq!(
        board.legal_actions(Color::Black),
        vec![Action::Move { from: 0x1, to: 0x1_0000 }]
    );
    assert_eq!(board.legal_actions(Color::White).len(), 17);
}

#[test]
fn movement_takes_the_front_stone_along() {
    let mut board = board_of(0x8244_4483);
    board.perform(Action::Move { from: 0x1, to: 0x1_0000 });
    assert_eq!(u32::from(board), 0x8249_4481);
    assert_eq!(board.num_stones(), 16);
}

#[test]
fn perform_copied_leaves_the_board_as_it_was() {
    let board = board_of(0x8244_4483);
    let next = board.perform_copied(Action::Move { from: 0x1, to: 0x1_0000 });
    assert_eq!(u32::from(next), 0x8249_4481);
    assert_eq!(u32::from(board), 0x8244_4483);
}

#[test]
fn swap_color_exchanges_every_stone() {
    let mut board = board_of(0x8249_4481);
    board.swap_color();
    assert_eq!(u32::from(board), 0xf37e_77f1);
    board.swap_color();
    assert_eq!(u32::from(board), 0x8249_4481);
}

#[test]
fn legal_actions_lead_to_boards_that_encode() {
    for id in [0x1111_1111u32, 0x1111_131c, 0x8244_4483, 0x2444_444f, 0x1176_9ada] {
        let board = board_of(id);
        for player in [Color::Black, Color::White] {
            for action in board.legal_actions(player) {
                let next = board.perform_copied(action);
                let expected = match action {
                    Action::Put { .. } => board.num_stones() + 1,
                    Action::Move { .. } => board.num_stones(),
                };
                assert_eq!(next.num_stones(), expected);
                let again = board_of(u32::from(next));
                assert_eq!(u32::from(again), u32::from(next));
            }
        }
    }
}

#[test]
fn adjacency_names_three_columns() {
    assert_eq!(adjacency(0x1), 0x1001_0010);
    assert_eq!(adjacency(0x10), 0x0010_0101);
    assert_eq!(adjacency(0x1_0000), 0x0010_1001);
    assert_eq!(adjacency(0x1000_0000), 0x0100_1001);
}

#[test]
fn render_writes_a_line_for_each_column() {
    assert_eq!(Board::new().render(), "0: \n1: \n2: \n3: \n4: \n5: \n6: \n7: ");
    assert_eq!(board_of(0x1111_131c).render(), "0: WWB\n1: \n2: B\n3: \n4: \n5: \n6: \n7: ");
    assert_eq!(
        board_of(0x8244_4483).render(),
        "0: B\n1: WWW\n2: WW\n3: WW\n4: WW\n5: WW\n6: W\n7: WWW"
    );
}

#[test]
fn symmetric_boards_have_one_canonical_encoding() {
    let id = 0x1111_131cu32;
    let turned = board_of(id.rotate());
    let mirrored = board_of(id.reverse());
    assert_eq!(turned.render(), "0: \n1: WWB\n2: \n3: B\n4: \n5: \n6: \n7: ");
    assert_eq!(mirrored.render(), "0: \n1: \n2: \n3: \n4: \n5: B\n6: \n7: WWB");
    assert_eq!(u32::from(turned).canonicalize(), id.canonicalize());
    assert_eq!(u32::from(mirrored).canonicalize(), id.canonicalize());
}

#[test]
fn illegal_actions_are_refused() {
    let mut board = board_of(0x1111_131c);
    // white is not to move
    let early = put(Color::White, 1);
    assert!(!board.allows(early));
    assert_eq!(board.try_perform(early), Err(IllegalAction { action: early }));
    // the column is full
    let full = put(Color::Black, 0);
    assert!(!board.allows(full));
    assert_eq!(board.try_perform(full), Err(IllegalAction { action: full }));
    // no word of a column
    let nowhere = Action::Put { player: Color::Black, target: 0x20 };
    assert_eq!(board.try_perform(nowhere), Err(IllegalAction { action: nowhere }));
    // stones move only once sixteen are on the board
    let hasty = Action::Move { from: 0x1, to: 0x10 };
    assert_eq!(board.try_perform(hasty), Err(IllegalAction { action: hasty }));
    assert_eq!(u32::from(board), 0x1111_131c);
}

#[test]
fn illegal_movements_are_refused() {
    let mut board = board_of(0x8244_4483);
    // not adjacent
    let far = Action::Move { from: 0x1, to: 0x100 };
    assert_eq!(board.try_perform(far), Err(IllegalAction { action: far }));
    // the column is full
    let full = Action::Move { from: 0x1, to: 0x10 };
    assert_eq!(board.try_perform(full), Err(IllegalAction { action: full }));
    // nothing is placed any more
    let late = put(Color::Black, 4);
    assert_eq!(board.try_perform(late), Err(IllegalAction { action: late }));
    assert_eq!(u32::from(board), 0x8244_4483);
}

#[test]
fn legal_actions_are_carried_out() {
    let mut board = board_of(0x8244_4483);
    let action = Action::Move { from: 0x1, to: 0x1_0000 };
    assert!(board.allows(action));
    assert_eq!(board.try_perform(action), Ok(()));
    assert_eq!(u32::from(board), 0x8249_4481);
    // a movement of white is legal too
    let mut other = board_of(0x8244_4483);
    let white = Action::Move { from: 0x10, to: 0x1 };
    assert_eq!(other.try_perform(white), Ok(()));
    assert_eq!(other.render(), "0: WB\n1: WW\n2: WW\n3: WW\n4: WW\n5: WW\n6: W\n7: WWW");
}
