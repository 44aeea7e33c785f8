use fxhash::FxHashSet;
use ringstack::analysis::solve;
use ringstack::board::Action;
use ringstack::board::Board;
use ringstack::board::Color;
use ringstack::evaluator::find_round;
use ringstack::evaluator::Evaluator;

fn board_of(id: u32) -> Board {
    Board::try_from(id).unwrap()
}

fn set_of(ids: &[u32]) -> FxHashSet<u32> {
    ids.iter().copied().collect()
}

fn rounds_with(len: usize, n: usize, id: u32) -> Vec<FxHashSet<u32>> {
    (0..len).map(|k| if k == n { set_of(&[id]) } else { set_of(&[]) }).collect()
}

const ONLY_MOVE: Action = Action::Move { from: 0x1, to: 0x1_0000 };

#[test]
fn find_round_gives_the_first_round() {
    let rounds = vec![set_of(&[1, 2]), set_of(&[3]), set_of(&[2, 4])];
    assert_eq!(find_round(&rounds, 1), Some(0));
    assert_eq!(find_round(&rounds, 2), Some(0));
    assert_eq!(find_round(&rounds, 3), Some(1));
    assert_eq!(find_round(&rounds, 4), Some(2));
    assert_eq!(find_round(&rounds, 5), None);
    assert_eq!(find_round(&vec![], 5), None);
}

#[test]
fn score_follows_the_round() {
    let wins = vec![set_of(&[10]), set_of(&[11]), set_of(&[12]), set_of(&[]), set_of(&[14])];
    let loses = vec![set_of(&[20]), set_of(&[21]), set_of(&[]), set_of(&[23]), set_of(&[24])];
    let both = set_of(&[30]);
    let evaluator = Evaluator::from_analyzed(wins, loses, both);
    assert_eq!(evaluator.score(30), 5);
    assert_eq!(evaluator.score(10), -5);
    assert_eq!(evaluator.score(11), -4);
    assert_eq!(evaluator.score(12), -3);
    assert_eq!(evaluator.score(14), -1);
    assert_eq!(evaluator.score(20), 5);
    assert_eq!(evaluator.score(21), 4);
    assert_eq!(evaluator.score(23), 2);
    assert_eq!(evaluator.score(24), 1);
    assert_eq!(evaluator.score(99), 0);
}

#[test]
fn score_of_an_empty_analysis_is_zero() {
    let evaluator = Evaluator::from_analyzed(vec![], vec![], set_of(&[7]));
    assert_eq!(evaluator.score(7), 0);
    assert_eq!(evaluator.score(8), 0);
}

#[test]
fn depth_is_the_longer_history() {
    let evaluator = Evaluator::from_analyzed(vec![set_of(&[1])], rounds_with(3, 2, 2), set_of(&[3]));
    assert_eq!(evaluator.score(1), -3);
    assert_eq!(evaluator.score(2), 1);
    assert_eq!(evaluator.score(3), 3);
}

#[test]
fn both_comes_before_wins_and_wins_before_loses() {
    let evaluator = Evaluator::from_analyzed(rounds_with(2, 1, 5), rounds_with(2, 0, 5), set_of(&[5]));
    assert_eq!(evaluator.score(5), 2);
    let evaluator = Evaluator::from_analyzed(rounds_with(2, 1, 5), rounds_with(2, 0, 5), set_of(&[]));
    assert_eq!(evaluator.score(5), -1);
}

#[test]
fn single_action_is_scored_as_unknown() {
    let board = board_of(0x8244_4483);
    let evaluator = Evaluator::from_analyzed(rounds_with(5, 0, 1), rounds_with(5, 0, 2), set_of(&[]));
    assert_eq!(evaluator.evaluate(board, Color::Black), vec![(ONLY_MOVE, 0)]);
}

#[test]
fn single_action_is_scored_as_a_win_of_the_opponent() {
    let board = board_of(0x8244_4483);
    let evaluator =
        Evaluator::from_analyzed(rounds_with(5, 1, 0x1f37_e77f), rounds_with(5, 0, 2), set_of(&[]));
    assert_eq!(evaluator.evaluate(board, Color::Black), vec![(ONLY_MOVE, -4)]);
}

#[test]
fn single_action_is_scored_as_a_loss_of_the_opponent() {
    let board = board_of(0x8244_4483);
    let evaluator =
        Evaluator::from_analyzed(rounds_with(5, 0, 1), rounds_with(5, 2, 0x1f37_e77f), set_of(&[]));
    assert_eq!(evaluator.evaluate(board, Color::Black), vec![(ONLY_MOVE, 3)]);
}

#[test]
fn single_action_is_scored_as_both() {
    let board = board_of(0x8244_4483);
    let evaluator =
        Evaluator::from_analyzed(rounds_with(5, 0, 1), rounds_with(5, 0, 2), set_of(&[0x1f37_e77f]));
    assert_eq!(evaluator.evaluate(board, Color::Black), vec![(ONLY_MOVE, 5)]);
}

#[test]
fn colours_are_exchanged_after_a_move_of_black_only() {
    let board = board_of(0x8244_4483);
    // the position after the move as it stands, which is what white would leave
    let evaluator =
        Evaluator::from_analyzed(rounds_with(5, 0, 1), rounds_with(5, 2, 0x1824_9448), set_of(&[]));
    assert_eq!(evaluator.evaluate(board, Color::Black), vec![(ONLY_MOVE, 0)]);
    let values = evaluator.evaluate(board, Color::White);
    assert_eq!(values.len(), 17);
    assert_eq!(values[0].0, Action::Move { from: 0x10, to: 0x1 });
}

#[test]
fn placements_are_scored_for_the_player_to_move_only() {
    let evaluator =
        Evaluator::from_analyzed(rounds_with(3, 1, 0x1111_1113), rounds_with(3, 0, 2), set_of(&[]));
    let values = evaluator.evaluate(Board::new(), Color::Black);
    assert_eq!(values.len(), 8);
    for (k, (action, value)) in values.iter().enumerate() {
        assert_eq!(*action, Action::Put { player: Color::Black, target: 1 << (4 * k) });
        assert_eq!(*value, -2);
    }
    assert_eq!(evaluator.evaluate(Board::new(), Color::White), vec![]);
}

#[test]
fn evaluator_reads_a_solved_analysis() {
    let ids = set_of(&[
        0x112a_edad, 0x114a_7dad, 0x1176_9ada, 0x117d_85da, 0x1185_ed5d, 0x1225_edad,
        0x123d_95da, 0x125d_a4d7, 0x125d_a9d3, 0x127d_45da, 0x12ad_a2d7, 0x12da_d754,
        0x133c_9ad5, 0x135d_a4c7, 0x1363_9ada, 0x13ad_5867, 0x13ad_a2c7, 0x13ad_a43e,
        0x13ad_a837, 0x1636_95da, 0x165d_a467, 0x16ad_a267, 0x2336_9ad5, 0x23ad_5467,
    ]);
    let (wins, loses, both) = solve(&ids, 5, |_, _| {});
    let evaluator = Evaluator::from_analyzed(wins, loses, both);
    // the successors are 1185ed5d (lost at once), 114a7dad (open), 12dad754 (won in
    // round 1), 112aedad (lost in round 1) and 1225edad (open)
    let values = evaluator.evaluate(board_of(0x1176_9ada), Color::Black);
    let scores: Vec<i32> = values.iter().map(|(_, value)| *value).collect();
    assert_eq!(scores, vec![6, 0, -5, 5, 0]);
}
