//! Scores for the legal actions of a position, read off a finished analysis.

use crate::analysis::analyze_backward;
use crate::analysis::is_analysis;
use crate::analysis::sets_of;
use crate::analysis::ROUND_BUDGET;
use crate::enumeration::reachable;
use crate::analysis::successor_id;
use crate::analysis::successor_with;
use crate::board::Action;
use crate::board::Board;
use crate::board::Color;
use crate::id_set::contains_id;
use crate::position::legal_actions;
use crate::position::stone_count;
use fxhash::FxHashSet;
use vstd::prelude::*;

verus! {

/// The first round from `from` on whose set holds `id`; the number of rounds
/// where there is none.
pub open spec fn first_round_with(rounds: Seq<Set<u32>>, id: u32, from: int) -> int
    decreases rounds.len() - from,
{
    if from < 0 || from >= rounds.len() {
        rounds.len() as int
    } else if rounds[from].contains(id) {
        from
    } else {
        first_round_with(rounds, id, from + 1)
    }
}

/// The first round whose set holds `id`, if there is one.
pub fn find_round(rounds: &Vec<FxHashSet<u32>>, id: u32) -> (round: Option<usize>)
    ensures
        match round {
            Some(n) => n < rounds.len() && n == first_round_with(sets_of(rounds@), id, 0),
            None => first_round_with(sets_of(rounds@), id, 0) == rounds.len(),
        },
{
    let ghost sets = sets_of(rounds@);
    let mut n: usize = 0;
    while n < rounds.len()
        invariant
            sets == sets_of(rounds@),
            n <= rounds.len(),
            first_round_with(sets, id, 0) == first_round_with(sets, id, n as int),
        decreases rounds.len() - n,
    {
        if contains_id(&rounds[n], id) {
            return Some(n);
        }
        n += 1;
    }
    None
}

/// The depth of an analysis: the number of its rounds, round 0 among them.
pub open spec fn depth_of(wins: Seq<Set<u32>>, loses: Seq<Set<u32>>) -> int {
    if wins.len() >= loses.len() {
        wins.len() as int
    } else {
        loses.len() as int
    }
}

/// The score of a position for the player who moved to it. Where both line
/// up it is the depth; where the player to move there wins in round `n` it is
/// `n` less the depth, which is negative and worst for an early round; where
/// they lose in round `n` it is the depth less `n`, which is positive and
/// best for an early round; and where nothing is known it is 0.
pub open spec fn score_of(id: u32, wins: Seq<Set<u32>>, loses: Seq<Set<u32>>, both: Set<u32>) -> int {
    let depth = depth_of(wins, loses);
    if both.contains(id) {
        depth
    } else if first_round_with(wins, id, 0) < wins.len() {
        first_round_with(wins, id, 0) - depth
    } else if first_round_with(loses, id, 0) < loses.len() {
        depth - first_round_with(loses, id, 0)
    } else {
        0
    }
}

/// Whether an action taken by `next_player` from `p` exchanges the colours:
/// with sixteen stones on the board the analysis sees each position with the
/// player to move as black, so the colours are exchanged after a move of
/// black.
pub open spec fn swaps_after(p: Seq<Seq<Color>>, next_player: Color) -> bool {
    stone_count(p) == 16 && next_player == Color::Black
}

/// A finished analysis, kept to score actions.
pub struct Evaluator {
    wins: Vec<FxHashSet<u32>>,
    loses: Vec<FxHashSet<u32>>,
    both: FxHashSet<u32>,
    max_depth: i32,
}

impl Evaluator {
    /// The depth is that of the analysis, and it fits the scores.
    #[verifier::type_invariant]
    pub closed spec fn wf(self) -> bool {
        &&& self.wins.len() <= i32::MAX
        &&& self.loses.len() <= i32::MAX
        &&& self.max_depth == depth_of(sets_of(self.wins@), sets_of(self.loses@))
    }

    /// The sets of each round that hold the encodings found to win.
    pub closed spec fn wins(self) -> Seq<Set<u32>> {
        sets_of(self.wins@)
    }

    /// The sets of each round that hold the encodings found to lose.
    pub closed spec fn loses(self) -> Seq<Set<u32>> {
        sets_of(self.loses@)
    }

    /// The encodings where both players line up.
    pub closed spec fn both(self) -> Set<u32> {
        self.both@
    }

    /// An evaluator for the analysis that the three results of `solve` make.
    pub fn from_analyzed(
        wins_vec: Vec<FxHashSet<u32>>,
        loses_vec: Vec<FxHashSet<u32>>,
        both: FxHashSet<u32>,
    ) -> (evaluator: Evaluator)
        requires
            wins_vec.len() <= i32::MAX,
            loses_vec.len() <= i32::MAX,
        ensures
            evaluator.wf(),
            evaluator.wins() == sets_of(wins_vec@),
            evaluator.loses() == sets_of(loses_vec@),
            evaluator.both() == both@,
    {
        let rounds = if wins_vec.len() >= loses_vec.len() {
            wins_vec.len()
        } else {
            loses_vec.len()
        };
        let max_depth: i32 = rounds as i32;
        Evaluator { wins: wins_vec, loses: loses_vec, both, max_depth }
    }

    /// An evaluator for a fresh analysis of all positions of `reachable_ids`.
    pub fn new() -> (evaluator: Evaluator)
        ensures
            evaluator.wf(),
            is_analysis(
                reachable(),
                ROUND_BUDGET as nat,
                evaluator.wins(),
                evaluator.loses(),
                evaluator.both(),
            ),
    {
        let (wins_vec, loses_vec, both) = analyze_backward(|round: usize, total: usize| {});
        Evaluator::from_analyzed(wins_vec, loses_vec, both)
    }

    /// The score of the position that `id` encodes, for the player who moved
    /// to it.
    pub fn score(&self, id: u32) -> (score: i32)
        ensures
            score == score_of(id, self.wins(), self.loses(), self.both()),
    {
        proof {
            use_type_invariant(self);
        }
        if contains_id(&self.both, id) {
            return self.max_depth;
        }
        match find_round(&self.wins, id) {
            Some(n) => n as i32 - self.max_depth,
            None => match find_round(&self.loses, id) {
                Some(m) => self.max_depth - m as i32,
                None => 0,
            },
        }
    }

    /// The legal actions of `next_player` on `board`, in their order, each
    /// with the score of the position that it leads to.
    pub fn evaluate(&self, board: Board, next_player: Color) -> (values: Vec<(Action, i32)>)
        ensures
            values.len() == legal_actions(board@, next_player).len(),
            forall|i: int|
                0 <= i < values.len() ==> (#[trigger] values[i]).0 == legal_actions(
                    board@,
                    next_player,
                )[i],
            forall|i: int|
                0 <= i < values.len() ==> (#[trigger] values[i]).1 == score_of(
                    successor_with(
                        board@,
                        legal_actions(board@, next_player)[i],
                        swaps_after(board@, next_player),
                    ),
                    self.wins(),
                    self.loses(),
                    self.both(),
                ),
    {
        let actions = board.legal_actions(next_player);
        let swap = board.num_stones() == 16 && next_player == Color::Black;
        let mut values: Vec<(Action, i32)> = Vec::new();
        for i in 0..actions.len()
            invariant
                actions@ == legal_actions(board@, next_player),
                swap == swaps_after(board@, next_player),
                values.len() == i,
                forall|k: int| 0 <= k < i ==> (#[trigger] values[k]).0 == actions[k],
                forall|k: int|
                    0 <= k < i ==> (#[trigger] values[k]).1 == score_of(
                        successor_with(board@, actions[k], swap),
                        self.wins(),
                        self.loses(),
                        self.both(),
                    ),
        {
            let action = actions[i];
            proof {
                assert(legal_actions(board@, next_player).contains(action));
            }
            let next = successor_id(&board, action, swap);
            let value = self.score(next);
            values.push((action, value));
        }
        values
    }
}

} // verus!
