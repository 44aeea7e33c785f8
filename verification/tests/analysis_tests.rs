use fxhash::FxHashSet;
use ringstack::analysis::classify_board;
use ringstack::analysis::classify_ids;
use ringstack::analysis::judge;
use ringstack::analysis::propagate;
use ringstack::analysis::solve;
use ringstack::analysis::successor_id;
use ringstack::analysis::BoardClass;
use ringstack::analysis::Verdict;
use ringstack::analysis::ROUND_BUDGET;
use ringstack::board::Action;
use ringstack::board::Board;
use ringstack::board::Color;
use ringstack::id_set::add_ids;
use ringstack::id_set::ids_in;
use ringstack::id_set::no_ids;

fn board_of(id: u32) -> Board {
    Board::try_from(id).unwrap()
}

fn set_of(ids: &[u32]) -> FxHashSet<u32> {
    ids.iter().copied().collect()
}

/// Twenty-four positions with sixteen stones: one of them, what it leads to,
/// and what that leads to.
fn universe() -> FxHashSet<u32> {
    set_of(&[
        0x112a_edad, 0x114a_7dad, 0x1176_9ada, 0x117d_85da, 0x1185_ed5d, 0x1225_edad,
        0x123d_95da, 0x125d_a4d7, 0x125d_a9d3, 0x127d_45da, 0x12ad_a2d7, 0x12da_d754,
        0x133c_9ad5, 0x135d_a4c7, 0x1363_9ada, 0x13ad_5867, 0x13ad_a2c7, 0x13ad_a43e,
        0x13ad_a837, 0x1636_95da, 0x165d_a467, 0x16ad_a267, 0x2336_9ad5, 0x23ad_5467,
    ])
}

#[test]
fn id_sets_take_new_items() {
    let mut set = no_ids();
    assert!(set.is_empty());
    add_ids(&mut set, &vec![3, 5, 3]);
    assert_eq!(set, set_of(&[3, 5]));
    add_ids(&mut set, &vec![]);
    add_ids(&mut set, &vec![7]);
    assert_eq!(set, set_of(&[3, 5, 7]));
}

#[test]
fn id_sets_hand_out_each_item_once() {
    let mut ids = ids_in(&set_of(&[9, 4, 7, 4]));
    ids.sort();
    assert_eq!(ids, vec![4, 7, 9]);
    assert_eq!(ids_in(&no_ids()), vec![]);
}

#[test]
fn boards_are_classified() {
    assert_eq!(classify_board(Board::new()), None);
    // a black tower with white to move
    assert_eq!(classify_board(board_of(0x1111_111f)), Some(BoardClass::LosesDefinitely));
    // a white tower with white to move
    assert_eq!(classify_board(board_of(0x1111_1118)), Some(BoardClass::WinsDefinitely));
    assert_eq!(classify_board(board_of(0x2444_444f)), Some(BoardClass::BothLineUp));
    assert_eq!(classify_board(board_of(0x8888_888f)), Some(BoardClass::BothLineUp));
    assert_eq!(classify_board(board_of(0x1176_9ada)), None);
    assert_eq!(classify_board(board_of(0x123d_95da)), Some(BoardClass::WinsDefinitely));
}

#[test]
fn one_legal_action_loses_passively() {
    // nobody lines up, and black has a single stone in front, with one column to go to
    let board = board_of(0x11ce_da3a);
    assert!(!board.lines_up(Color::Black));
    assert!(!board.lines_up(Color::White));
    assert_eq!(board.num_stones(), 16);
    assert_eq!(board.legal_actions(Color::Black).len(), 1);
    assert_eq!(classify_board(board), Some(BoardClass::LosesPassively));
}

#[test]
fn ids_are_parted_by_class() {
    let ids = set_of(&[
        0x1111_1111, 0x1111_111f, 0x1111_1118, 0x2444_444f, 0x11ce_da3a, 0x1176_9ada, 0x123d_95da,
    ]);
    let (classes, residual) = classify_ids(&ids);
    assert_eq!(classes.wins_definitely, set_of(&[0x1111_1118, 0x123d_95da]));
    assert_eq!(classes.loses_definitely, set_of(&[0x1111_111f]));
    assert_eq!(classes.both_line_up, set_of(&[0x2444_444f]));
    assert_eq!(classes.loses_passively, set_of(&[0x11ce_da3a]));
    assert_eq!(residual, set_of(&[0x1111_1111, 0x1176_9ada]));
}

#[test]
fn successor_is_canonical_and_swapped_on_demand() {
    let board = board_of(0x8244_4483);
    let action = Action::Move { from: 0x1, to: 0x1_0000 };
    assert_eq!(successor_id(&board, action, true), 0x1f37_e77f);
    assert_eq!(successor_id(&board, action, false), 0x1824_9448);
    let start = Board::new();
    let first = Action::Put { player: Color::Black, target: 0x1000 };
    assert_eq!(successor_id(&start, first, false), 0x1111_1113);
}

#[test]
fn judge_counts_replies() {
    let wins = set_of(&[0x123d_95da]);
    let loses = set_of(&[0x117d_85da, 0x1185_ed5d, 0x13ad_5867, 0x13ad_a837]);
    let both = no_ids();
    // two actions, one of them to a position that the opponent wins
    assert_eq!(judge(0x112a_edad, &wins, &loses, &both), Verdict::Loses);
    // two of eight actions lead to positions that the opponent loses
    assert_eq!(judge(0x12da_d754, &wins, &loses, &both), Verdict::Wins);
    // one winning reply is not enough
    assert_eq!(judge(0x1176_9ada, &wins, &loses, &both), Verdict::Open);
    assert_eq!(judge(0x1225_edad, &wins, &loses, &both), Verdict::Open);
}

#[test]
fn judge_takes_both_for_a_win_and_wins_first() {
    let none = no_ids();
    let two = set_of(&[0x13ad_5867, 0x13ad_a837]);
    assert_eq!(judge(0x12da_d754, &none, &none, &two), Verdict::Wins);
    // what is known to be won by the opponent is no winning reply, whatever else holds it
    assert_eq!(judge(0x12da_d754, &two, &two, &two), Verdict::Open);
    assert_eq!(judge(0x12da_d754, &none, &none, &none), Verdict::Open);
    // all actions but one lose
    let seven = set_of(&[
        0x13ad_a43e, 0x13ad_a837, 0x13ad_a2c7, 0x16ad_a267, 0x13ad_5867, 0x23ad_5467, 0x135d_a4c7,
    ]);
    assert_eq!(judge(0x12da_d754, &seven, &none, &none), Verdict::Loses);
    let six = set_of(&[
        0x13ad_a43e, 0x13ad_a837, 0x13ad_a2c7, 0x16ad_a267, 0x13ad_5867, 0x23ad_5467,
    ]);
    assert_eq!(judge(0x12da_d754, &six, &none, &none), Verdict::Open);
}

#[test]
fn a_round_parts_the_residual() {
    let wins = set_of(&[0x123d_95da]);
    let loses = set_of(&[0x117d_85da, 0x1185_ed5d, 0x13ad_5867, 0x13ad_a837]);
    let both = no_ids();
    let residual = set_of(&[0x112a_edad, 0x12da_d754, 0x1176_9ada, 0x1225_edad]);
    let (wins_next, loses_next, rest) = propagate(&residual, &wins, &loses, &both);
    assert_eq!(wins_next, set_of(&[0x12da_d754]));
    assert_eq!(loses_next, set_of(&[0x112a_edad]));
    assert_eq!(rest, set_of(&[0x1176_9ada, 0x1225_edad]));
}

#[test]
fn solve_settles_round_by_round() {
    let (wins, loses, both) = solve(&universe(), 5, |_, _| {});
    assert_eq!(wins.len(), 6);
    assert_eq!(loses.len(), 6);
    assert_eq!(wins[0], set_of(&[0x123d_95da]));
    assert_eq!(loses[0], set_of(&[0x117d_85da, 0x1185_ed5d, 0x13ad_5867, 0x13ad_a837]));
    assert_eq!(wins[1], set_of(&[0x12da_d754]));
    assert_eq!(loses[1], set_of(&[0x112a_edad]));
    assert_eq!(wins[2], set_of(&[0x1176_9ada]));
    assert_eq!(loses[2], set_of(&[]));
    for n in 3..6 {
        assert!(wins[n].is_empty());
        assert!(loses[n].is_empty());
    }
    assert!(both.is_empty());
}

#[test]
fn solve_stops_at_its_budget() {
    let (wins, loses, _) = solve(&universe(), 1, |_, _| {});
    assert_eq!(wins.len(), 2);
    assert_eq!(loses.len(), 2);
    assert_eq!(wins[1], set_of(&[0x12da_d754]));
    let (wins, loses, _) = solve(&universe(), 0, |_, _| {});
    assert_eq!(wins.len(), 1);
    assert_eq!(loses.len(), 1);
}

#[test]
fn solve_stops_when_nothing_is_open() {
    let ids = set_of(&[0x1111_111f, 0x2444_444f]);
    let (wins, loses, both) = solve(&ids, 5, |_, _| {});
    assert_eq!(wins.len(), 1);
    assert!(wins[0].is_empty());
    assert_eq!(loses, vec![set_of(&[0x1111_111f])]);
    assert_eq!(both, set_of(&[0x2444_444f]));
}

#[test]
fn solve_tells_the_observer_each_round() {
    let seen = std::cell::RefCell::new(Vec::new());
    let _ = solve(&universe(), 3, |n, total| seen.borrow_mut().push((n, total)));
    assert_eq!(seen.into_inner(), vec![(1, 3), (2, 3), (3, 3)]);
}

#[test]
fn solved_sets_are_disjoint() {
    let (wins, loses, both) = solve(&universe(), 5, |_, _| {});
    let mut seen = no_ids();
    let mut count = both.len();
    for id in &both {
        seen.insert(*id);
    }
    for round in wins.iter().chain(loses.iter()) {
        count += round.len();
        for id in round {
            seen.insert(*id);
        }
    }
    assert_eq!(seen.len(), count);
    assert_eq!(count, 8);
}

#[test]
fn budget_is_one_hundred_and_forty_rounds() {
    assert_eq!(ROUND_BUDGET, 140);
}
