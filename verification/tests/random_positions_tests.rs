use ringstack::analysis::classify_board;
use ringstack::analysis::successor_id;
use ringstack::analysis::BoardClass;
use ringstack::board::Action;
use ringstack::board::Board;
use ringstack::board::Color;

/// Encodings whose 4-bit units come from a linear congruential generator.
fn random_ids(count: usize, seed: u64) -> Vec<u32> {
    let mut x = seed;
    let mut ids = Vec::new();
    for _ in 0..count {
        let mut id = 0u32;
        for column in 0..8 {
            x = x.wrapping_mul(6364136223846793005).wrapping_add(1442695040888963407);
            id |= ((((x >> 33) % 15) + 1) as u32) << (4 * column);
        }
        ids.push(id);
    }
    ids
}

fn mix(h: u64, v: u64) -> u64 {
    h.wrapping_mul(1000003).wrapping_add(v)
}

#[test]
fn random_ids_start_as_expected() {
    let ids = random_ids(2, 12345);
    assert_eq!(ids, vec![0x541b_28e5, 0xeb6f_3fe9]);
}

#[test]
fn rules_agree_with_a_digest_over_random_positions() {
    let mut h = 0u64;
    let mut with_sixteen = 0;
    let mut actions_seen = 0;
    for id in random_ids(20000, 12345) {
        let board = Board::try_from(id).unwrap();
        assert_eq!(u32::from(board), id);
        h = mix(h, board.num_stones() as u64);
        h = mix(h, board.lines_up(Color::Black) as u64);
        h = mix(h, board.lines_up(Color::White) as u64);
        h = mix(
            h,
            match classify_board(board) {
                None => 0,
                Some(BoardClass::WinsDefinitely) => 1,
                Some(BoardClass::LosesDefinitely) => 2,
                Some(BoardClass::BothLineUp) => 3,
                Some(BoardClass::LosesPassively) => 4,
            },
        );
        if board.num_stones() == 16 {
            with_sixteen += 1;
        }
        for player in [Color::Black, Color::White] {
            for action in board.legal_actions(player) {
                actions_seen += 1;
                match action {
                    Action::Put { player, target } => {
                        h = mix(h, 1);
                        h = mix(h, (player == Color::White) as u64);
                        h = mix(h, target as u64);
                    }
                    Action::Move { from, to } => {
                        h = mix(h, 2);
                        h = mix(h, from as u64);
                        h = mix(h, to as u64);
                    }
                }
                h = mix(h, successor_id(&board, action, false) as u64);
                h = mix(h, successor_id(&board, action, true) as u64);
            }
        }
    }
    assert_eq!(with_sixteen, 1979);
    assert_eq!(actions_seen, 91028);
    assert_eq!(h, 0xb95b_728d_4991_e3e4);
}
