//! Backward analysis: which positions the player to move wins or loses, and
//! in how many rounds that is known.

use crate::bit_utils::canonical;
use crate::bit_utils::Canonicalizable;
use crate::bit_utils::PackedRing;
use crate::board::Action;
use crate::board::Board;
use crate::board::Color;
use crate::enumeration::reachable;
use crate::enumeration::reachable_ids;
use crate::id_set::add_ids;
use crate::id_set::contains_id;
use crate::id_set::ids_in;
use crate::id_set::insert_id;
use crate::id_set::no_ids;
use crate::position::after;
use crate::position::id_of;
use crate::position::legal_actions;
use crate::position::lines_up;
use crate::position::mover;
use crate::position::permits;
use crate::position::position_of;
use crate::position::stone_count;
use crate::position::swapped;
use crate::position::valid_id;
use fxhash::FxHashSet;
use std::ops::Not;
use vstd::prelude::*;

verus! {

/// What the position itself says of the player to move, before any look
/// ahead.
#[derive(Debug, Clone, Copy, PartialEq, Eq, Hash, Structural)]
pub enum BoardClass {
    /// Only the player to move lines up.
    WinsDefinitely,
    /// Only the opponent lines up.
    LosesDefinitely,
    /// Both players line up.
    BothLineUp,
    /// Nobody lines up, and the player to move has at most one legal action.
    LosesPassively,
}

/// The class of the position `p`, if it has one.
pub open spec fn class_of(p: Seq<Seq<Color>>) -> Option<BoardClass> {
    let player = mover(p);
    if lines_up(p, player) && lines_up(p, player.opposite()) {
        Some(BoardClass::BothLineUp)
    } else if lines_up(p, player) {
        Some(BoardClass::WinsDefinitely)
    } else if lines_up(p, player.opposite()) {
        Some(BoardClass::LosesDefinitely)
    } else if legal_actions(p, player).len() <= 1 {
        Some(BoardClass::LosesPassively)
    } else {
        None
    }
}

/// The class of the position on `board`, if it has one.
pub fn classify_board(board: Board) -> (class: Option<BoardClass>)
    ensures
        class == class_of(board@),
{
    let player = board.canonical_player();
    let own = board.lines_up(player);
    let other = board.lines_up(player.not());
    if own && other {
        return Some(BoardClass::BothLineUp);
    }
    if own {
        return Some(BoardClass::WinsDefinitely);
    }
    if other {
        return Some(BoardClass::LosesDefinitely);
    }
    if board.legal_actions(player).len() <= 1 {
        Some(BoardClass::LosesPassively)
    } else {
        None
    }
}

/// The encodings in `ids` whose position has the class `class`.
pub open spec fn ids_of_class(ids: Set<u32>, class: Option<BoardClass>) -> Set<u32> {
    Set::new(|id: u32| ids.contains(id) && class_of(position_of(id)) == class)
}

/// A set of encodings, parted by the class of their positions.
pub struct ClassifiedIds {
    pub wins_definitely: FxHashSet<u32>,
    pub loses_definitely: FxHashSet<u32>,
    pub both_line_up: FxHashSet<u32>,
    pub loses_passively: FxHashSet<u32>,
}

/// Parts `ids` by the class of their positions; the second result holds the
/// encodings whose position has no class.
pub fn classify_ids(ids: &FxHashSet<u32>) -> (parts: (ClassifiedIds, FxHashSet<u32>))
    requires
        forall|id: u32| ids@.contains(id) ==> valid_id(id),
    ensures
        parts.0.wins_definitely@ == ids_of_class(ids@, Some(BoardClass::WinsDefinitely)),
        parts.0.loses_definitely@ == ids_of_class(ids@, Some(BoardClass::LosesDefinitely)),
        parts.0.both_line_up@ == ids_of_class(ids@, Some(BoardClass::BothLineUp)),
        parts.0.loses_passively@ == ids_of_class(ids@, Some(BoardClass::LosesPassively)),
        parts.1@ == ids_of_class(ids@, None),
{
    let mut wins_definitely = no_ids();
    let mut loses_definitely = no_ids();
    let mut both_line_up = no_ids();
    let mut loses_passively = no_ids();
    let mut residual = no_ids();
    let all = ids_in(ids);
    for i in 0..all.len()
        invariant
            all@.to_set() == ids@,
            forall|id: u32| ids@.contains(id) ==> valid_id(id),
            wins_definitely@ == ids_of_class(
                all@.take(i as int).to_set(),
                Some(BoardClass::WinsDefinitely),
            ),
            loses_definitely@ == ids_of_class(
                all@.take(i as int).to_set(),
                Some(BoardClass::LosesDefinitely),
            ),
            both_line_up@ == ids_of_class(
                all@.take(i as int).to_set(),
                Some(BoardClass::BothLineUp),
            ),
            loses_passively@ == ids_of_class(
                all@.take(i as int).to_set(),
                Some(BoardClass::LosesPassively),
            ),
            residual@ == ids_of_class(all@.take(i as int).to_set(), None),
    {
        let id = all[i];
        proof {
            assert(all@.contains(id));
            crate::id_set::lemma_take_to_set(all@, i as int);
        }
        let board = Board::from_valid_id(id);
        match classify_board(board) {
            Some(BoardClass::WinsDefinitely) => {
                insert_id(&mut wins_definitely, id);
            },
            Some(BoardClass::LosesDefinitely) => {
                insert_id(&mut loses_definitely, id);
            },
            Some(BoardClass::BothLineUp) => {
                insert_id(&mut both_line_up, id);
            },
            Some(BoardClass::LosesPassively) => {
                insert_id(&mut loses_passively, id);
            },
            None => {
                insert_id(&mut residual, id);
            },
        }
    }
    proof {
        assert(all@.take(all.len() as int) =~= all@);
    }
    (ClassifiedIds { wins_definitely, loses_definitely, both_line_up, loses_passively }, residual)
}

/// The canonical encoding of the position that `action` leads to from `p`,
/// with the colours exchanged where `swap` says so.
#[verifier::opaque]
pub open spec fn successor_with(p: Seq<Seq<Color>>, action: Action, swap: bool) -> u32 {
    let q = after(p, action);
    canonical(
        id_of(
            if swap {
                swapped(q)
            } else {
                q
            },
        ),
    )
}

/// The canonical encoding of the position that `action` leads to from the
/// position that `id` encodes. When the action is taken with sixteen stones
/// on the board the colours are exchanged, so that the encoding is from the
/// point of view of the player who moves next.
pub open spec fn successor(id: u32, action: Action) -> u32 {
    successor_with(position_of(id), action, stone_count(position_of(id)) == 16)
}

/// The canonical encoding of the position that `action`, which has to be
/// legal for one of the players, leads to from the position on `board`, with
/// the colours exchanged where `swap` says so.
pub fn successor_id(board: &Board, action: Action, swap: bool) -> (next: u32)
    requires
        permits(board@, action),
    ensures
        next == successor_with(board@, action, swap),
{
    proof {
        reveal(successor_with);
    }
    let mut b1 = board.perform_copied(action);
    if swap {
        b1.swap_color();
    }
    u32::from(b1).canonicalize()
}

/// Whether the player who moves to `next` is known to lose there, or both
/// players line up there.
pub open spec fn is_winning_reply(
    next: u32,
    wins: Set<u32>,
    loses: Set<u32>,
    both: Set<u32>,
) -> bool {
    !wins.contains(next) && (loses.contains(next) || both.contains(next))
}

/// The number of `actions` that lead from `id` to a position where the
/// opponent, who moves next, is known to lose or both line up.
pub open spec fn winning_replies(
    id: u32,
    actions: Seq<Action>,
    wins: Set<u32>,
    loses: Set<u32>,
    both: Set<u32>,
) -> nat
    decreases actions.len(),
{
    if actions.len() == 0 {
        0
    } else {
        winning_replies(id, actions.drop_last(), wins, loses, both) + (if is_winning_reply(
            successor(id, actions.last()),
            wins,
            loses,
            both,
        ) {
            1nat
        } else {
            0nat
        })
    }
}

/// The number of `actions` that lead from `id` to a position where the
/// opponent, who moves next, is known to win.
pub open spec fn losing_replies(id: u32, actions: Seq<Action>, wins: Set<u32>) -> nat
    decreases actions.len(),
{
    if actions.len() == 0 {
        0
    } else {
        losing_replies(id, actions.drop_last(), wins) + (if wins.contains(
            successor(id, actions.last()),
        ) {
            1nat
        } else {
            0nat
        })
    }
}

/// What a round finds out about a position.
#[derive(Debug, Clone, Copy, PartialEq, Eq, Structural)]
pub enum Verdict {
    /// At least two actions are winning replies.
    Wins,
    /// All actions but at most one are losing replies.
    Loses,
    /// Neither.
    Open,
}

/// What is known of the position that `id` encodes once the positions in
/// `wins` are known to be won by their player to move, those in `loses` to be
/// lost, and those in `both` to line up for both players.
pub open spec fn verdict(id: u32, wins: Set<u32>, loses: Set<u32>, both: Set<u32>) -> Verdict {
    let p = position_of(id);
    let actions = legal_actions(p, mover(p));
    if winning_replies(id, actions, wins, loses, both) >= 2 {
        Verdict::Wins
    } else if losing_replies(id, actions, wins) + 1 >= actions.len() {
        Verdict::Loses
    } else {
        Verdict::Open
    }
}

/// Among more actions there are no fewer winning replies.
pub proof fn lemma_winning_replies_grow(
    id: u32,
    actions: Seq<Action>,
    n: int,
    wins: Set<u32>,
    loses: Set<u32>,
    both: Set<u32>,
)
    requires
        0 <= n <= actions.len(),
    ensures
        winning_replies(id, actions.take(n), wins, loses, both) <= winning_replies(
            id,
            actions,
            wins,
            loses,
            both,
        ),
    decreases actions.len() - n,
{
    if n == actions.len() {
        assert(actions.take(n) =~= actions);
    } else {
        lemma_winning_replies_grow(id, actions, n + 1, wins, loses, both);
        assert(actions.take(n + 1).drop_last() =~= actions.take(n));
    }
}

/// What is known of the position that `id` encodes, given the sets of
/// encodings known so far.
pub fn judge(id: u32, wins: &FxHashSet<u32>, loses: &FxHashSet<u32>, both: &FxHashSet<u32>) -> (v:
    Verdict)
    requires
        valid_id(id),
    ensures
        v == verdict(id, wins@, loses@, both@),
{
    let b0 = Board::from_valid_id(id);
    let num_stones = b0.num_stones();
    let player = b0.canonical_player();
    let actions = b0.legal_actions(player);
    let num_actions = actions.len();
    let mut num_win: usize = 0;
    let mut num_lose: usize = 0;
    let mut i: usize = 0;
    let ghost p = b0@;
    proof {
        assert(actions@.take(0) =~= Seq::<Action>::empty());
        assert forall|k: int| 0 <= k < actions.len() implies permits(p, #[trigger] actions@[k]) by {
            assert(legal_actions(p, player).contains(actions@[k]));
        }
    }
    while i < num_actions
        invariant_except_break
            num_win < 2,
        invariant
            p == b0@,
            forall|a: Action| successor(id, a) == successor_with(p, a, num_stones == 16),
            forall|k: int| 0 <= k < actions.len() ==> permits(p, #[trigger] actions@[k]),
            num_actions == actions.len(),
            i <= num_actions,
            num_win <= i,
            num_lose <= i,
            num_win == winning_replies(id, actions@.take(i as int), wins@, loses@, both@),
            num_lose == losing_replies(id, actions@.take(i as int), wins@),
        ensures
            (i == num_actions && num_win < 2) || num_win >= 2,
            num_win <= i <= num_actions,
            num_lose <= i,
            num_win == winning_replies(id, actions@.take(i as int), wins@, loses@, both@),
            num_lose == losing_replies(id, actions@.take(i as int), wins@),
        decreases num_actions - i,
    {
        let a = actions[i];
        proof {
            assert(actions@.take(i + 1).drop_last() =~= actions@.take(i as int));
            assert(actions@.take(i + 1).last() == a);
        }
        let id1 = successor_id(&b0, a, num_stones == 16);
        if contains_id(wins, id1) {
            num_lose += 1;
        } else if contains_id(loses, id1) || contains_id(both, id1) {
            num_win += 1;
        }
        i += 1;
        if num_win >= 2 {
            break ;
        }
    }
    proof {
        lemma_winning_replies_grow(id, actions@, i as int, wins@, loses@, both@);
        if i == num_actions {
            assert(actions@.take(i as int) =~= actions@);
        }
    }
    if num_win >= 2 {
        Verdict::Wins
    } else if num_actions - num_lose <= 1 {
        Verdict::Loses
    } else {
        Verdict::Open
    }
}

/// The encodings in `residual` of which a round finds out `v`.
pub open spec fn judged(
    residual: Set<u32>,
    wins: Set<u32>,
    loses: Set<u32>,
    both: Set<u32>,
    v: Verdict,
) -> Set<u32> {
    Set::new(|id: u32| residual.contains(id) && verdict(id, wins, loses, both) == v)
}

/// One round: parts `residual` into the encodings that are found to win,
/// those that are found to lose and those that stay open, all judged by the
/// same sets `wins`, `loses` and `both`.
pub fn propagate(
    residual: &FxHashSet<u32>,
    wins: &FxHashSet<u32>,
    loses: &FxHashSet<u32>,
    both: &FxHashSet<u32>,
) -> (parts: (FxHashSet<u32>, FxHashSet<u32>, FxHashSet<u32>))
    requires
        forall|id: u32| residual@.contains(id) ==> valid_id(id),
    ensures
        parts.0@ == judged(residual@, wins@, loses@, both@, Verdict::Wins),
        parts.1@ == judged(residual@, wins@, loses@, both@, Verdict::Loses),
        parts.2@ == judged(residual@, wins@, loses@, both@, Verdict::Open),
{
    let mut wins_next = no_ids();
    let mut loses_next = no_ids();
    let mut res_next = no_ids();
    let all = ids_in(residual);
    for i in 0..all.len()
        invariant
            all@.to_set() == residual@,
            forall|id: u32| residual@.contains(id) ==> valid_id(id),
            wins_next@ == judged(
                all@.take(i as int).to_set(),
                wins@,
                loses@,
                both@,
                Verdict::Wins,
            ),
            loses_next@ == judged(
                all@.take(i as int).to_set(),
                wins@,
                loses@,
                both@,
                Verdict::Loses,
            ),
            res_next@ == judged(all@.take(i as int).to_set(), wins@, loses@, both@, Verdict::Open),
    {
        let id0 = all[i];
        proof {
            assert(all@.contains(id0));
            crate::id_set::lemma_take_to_set(all@, i as int);
        }
        match judge(id0, wins, loses, both) {
            Verdict::Wins => {
                insert_id(&mut wins_next, id0);
            },
            Verdict::Loses => {
                insert_id(&mut loses_next, id0);
            },
            Verdict::Open => {
                insert_id(&mut res_next, id0);
            },
        }
    }
    proof {
        assert(all@.take(all.len() as int) =~= all@);
    }
    (wins_next, loses_next, res_next)
}

/// The sets that the hash sets of `v` hold.
pub open spec fn sets_of(v: Seq<FxHashSet<u32>>) -> Seq<Set<u32>> {
    Seq::new(v.len(), |i: int| v[i]@)
}

/// The encodings that one of the first `n` sets of `rounds` holds.
pub open spec fn known_before(rounds: Seq<Set<u32>>, n: int) -> Set<u32> {
    Set::new(
        |id: u32| exists|m: int| 0 <= m < n && m < rounds.len() && (#[trigger] rounds[m]).contains(id),
    )
}

/// The encodings of `ids` that are neither in `both` nor in one of the first
/// `n` sets of `wins` or of `loses`.
pub open spec fn residual_before(
    ids: Set<u32>,
    wins: Seq<Set<u32>>,
    loses: Seq<Set<u32>>,
    both: Set<u32>,
    n: int,
) -> Set<u32> {
    Set::new(
        |id: u32|
            ids.contains(id) && !both.contains(id) && !known_before(wins, n).contains(id)
                && !known_before(loses, n).contains(id),
    )
}

/// Whether the sets of round `n` are what that round finds: round `n` judges
/// the encodings that no earlier round has settled, of which there is at
/// least one, by what the earlier rounds have settled.
pub open spec fn is_round(
    ids: Set<u32>,
    wins: Seq<Set<u32>>,
    loses: Seq<Set<u32>>,
    both: Set<u32>,
    n: int,
) -> bool {
    let residual = residual_before(ids, wins, loses, both, n);
    let won = known_before(wins, n);
    let lost = known_before(loses, n);
    &&& !residual.is_empty()
    &&& wins[n] == judged(residual, won, lost, both, Verdict::Wins)
    &&& loses[n] == judged(residual, won, lost, both, Verdict::Loses)
}

/// Whether `wins`, `loses` and `both` are the analysis of `ids` with at most
/// `budget` rounds: the sets of round 0 and `both` hold the encodings that
/// have a class, each further round judges what is still open, and the
/// rounds end when nothing is open or the budget is used up.
pub open spec fn is_analysis(
    ids: Set<u32>,
    budget: nat,
    wins: Seq<Set<u32>>,
    loses: Seq<Set<u32>>,
    both: Set<u32>,
) -> bool {
    &&& 1 <= wins.len() <= budget + 1
    &&& loses.len() == wins.len()
    &&& both == ids_of_class(ids, Some(BoardClass::BothLineUp))
    &&& wins[0] == ids_of_class(ids, Some(BoardClass::WinsDefinitely))
    &&& loses[0] == ids_of_class(ids, Some(BoardClass::LosesDefinitely)).union(
        ids_of_class(ids, Some(BoardClass::LosesPassively)),
    )
    &&& forall|n: int| 1 <= n < wins.len() ==> #[trigger] is_round(ids, wins, loses, both, n)
    &&& wins.len() == budget + 1 || residual_before(
        ids,
        wins,
        loses,
        both,
        wins.len() as int,
    ).is_empty()
}

/// What the first `n` sets hold does not depend on the sets after them.
pub proof fn lemma_known_before_push(rounds: Seq<Set<u32>>, next: Set<u32>, n: int)
    requires
        n <= rounds.len(),
    ensures
        known_before(rounds.push(next), n) == known_before(rounds, n),
        known_before(rounds.push(next), rounds.len() as int + 1) == known_before(
            rounds,
            rounds.len() as int,
        ).union(next),
{
    let more = rounds.push(next);
    assert forall|id: u32| known_before(more, n).contains(id) <==> known_before(
        rounds,
        n,
    ).contains(id) by {
        if known_before(more, n).contains(id) {
            let m = choose|m: int| 0 <= m < n && m < more.len() && (#[trigger] more[m]).contains(id);
            assert(rounds[m].contains(id));
        }
        if known_before(rounds, n).contains(id) {
            let m = choose|m: int|
                0 <= m < n && m < rounds.len() && (#[trigger] rounds[m]).contains(id);
            assert(more[m].contains(id));
        }
    }
    assert(known_before(more, n) =~= known_before(rounds, n));
    let k = rounds.len() as int;
    assert forall|id: u32| known_before(more, k + 1).contains(id) <==> known_before(
        rounds,
        k,
    ).union(next).contains(id) by {
        if known_before(more, k + 1).contains(id) {
            let m = choose|m: int|
                0 <= m < k + 1 && m < more.len() && (#[trigger] more[m]).contains(id);
            if m < k {
                assert(rounds[m].contains(id));
            }
        }
        if known_before(rounds, k).contains(id) {
            let m = choose|m: int|
                0 <= m < k && m < rounds.len() && (#[trigger] rounds[m]).contains(id);
            assert(more[m].contains(id));
        }
        if next.contains(id) {
            assert(more[k].contains(id));
        }
    }
    assert(known_before(more, k + 1) =~= known_before(rounds, k).union(next));
}

/// A round stays what it is when later rounds are added.
pub proof fn lemma_round_push(
    ids: Set<u32>,
    wins: Seq<Set<u32>>,
    loses: Seq<Set<u32>>,
    both: Set<u32>,
    wins_next: Set<u32>,
    loses_next: Set<u32>,
    n: int,
)
    requires
        0 <= n < wins.len(),
        wins.len() == loses.len(),
    ensures
        residual_before(ids, wins.push(wins_next), loses.push(loses_next), both, n)
            == residual_before(ids, wins, loses, both, n),
        is_round(ids, wins.push(wins_next), loses.push(loses_next), both, n) == is_round(
            ids,
            wins,
            loses,
            both,
            n,
        ),
{
    lemma_known_before_push(wins, wins_next, n);
    lemma_known_before_push(loses, loses_next, n);
    assert(residual_before(ids, wins.push(wins_next), loses.push(loses_next), both, n)
        =~= residual_before(ids, wins, loses, both, n));
    assert(wins.push(wins_next)[n] == wins[n]);
    assert(loses.push(loses_next)[n] == loses[n]);
}

/// Analyses `ids` backwards with at most `budget` rounds, and tells
/// `observer` before each round its number and the budget. The first two
/// results hold for each round the encodings that it finds to win and to
/// lose for the player to move, round 0 being what the positions show by
/// themselves; the third holds the encodings where both players line up.
pub fn solve<F: Fn(usize, usize)>(ids: &FxHashSet<u32>, budget: usize, observer: F) -> (solved: (
    Vec<FxHashSet<u32>>,
    Vec<FxHashSet<u32>>,
    FxHashSet<u32>,
))
    requires
        forall|id: u32| ids@.contains(id) ==> valid_id(id),
        forall|n: usize, total: usize| call_requires(observer, (n, total)),
        budget < usize::MAX,
    ensures
        is_analysis(ids@, budget as nat, sets_of(solved.0@), sets_of(solved.1@), solved.2@),
        is_disjoint(sets_of(solved.0@), sets_of(solved.1@), solved.2@),
{
    let (classes, first_residual) = classify_ids(ids);
    let ClassifiedIds { wins_definitely, loses_definitely, both_line_up, loses_passively } =
        classes;
    let wins_first = wins_definitely;
    let mut loses_first = loses_definitely;
    add_ids(&mut loses_first, &ids_in(&loses_passively));
    let both = both_line_up;
    let mut wins = no_ids();
    add_ids(&mut wins, &ids_in(&wins_first));
    let mut loses = no_ids();
    add_ids(&mut loses, &ids_in(&loses_first));
    let ghost won: Seq<Set<u32>> = seq![wins_first@];
    let ghost lost: Seq<Set<u32>> = seq![loses_first@];
    let mut wins_vec: Vec<FxHashSet<u32>> = Vec::new();
    let mut loses_vec: Vec<FxHashSet<u32>> = Vec::new();
    wins_vec.push(wins_first);
    loses_vec.push(loses_first);
    let mut residual = first_residual;
    let mut n: usize = 1;
    proof {
        assert(won =~= sets_of(wins_vec@));
        assert(lost =~= sets_of(loses_vec@));
        assert(wins@ =~= known_before(won, 1)) by {
            assert forall|id: u32| won[0].contains(id) implies known_before(won, 1).contains(
                id,
            ) by {
                assert(won[0].contains(id));
            }
        }
        assert(loses@ =~= known_before(lost, 1)) by {
            assert forall|id: u32| lost[0].contains(id) implies known_before(lost, 1).contains(
                id,
            ) by {
                assert(lost[0].contains(id));
            }
        }
        assert(residual@ =~= residual_before(ids@, won, lost, both@, 1));
    }
    while n <= budget && !residual.is_empty()
        invariant
            forall|id: u32| ids@.contains(id) ==> valid_id(id),
            forall|n: usize, total: usize| call_requires(observer, (n, total)),
            budget < usize::MAX,
            1 <= n <= budget + 1,
            won == sets_of(wins_vec@),
            lost == sets_of(loses_vec@),
            won.len() == n,
            lost.len() == n,
            both@ == ids_of_class(ids@, Some(BoardClass::BothLineUp)),
            won[0] == ids_of_class(ids@, Some(BoardClass::WinsDefinitely)),
            lost[0] == ids_of_class(ids@, Some(BoardClass::LosesDefinitely)).union(
                ids_of_class(ids@, Some(BoardClass::LosesPassively)),
            ),
            forall|m: int| 1 <= m < n ==> #[trigger] is_round(ids@, won, lost, both@, m),
            wins@ == known_before(won, n as int),
            loses@ == known_before(lost, n as int),
            residual@ == residual_before(ids@, won, lost, both@, n as int),
        decreases budget + 1 - n,
    {
        observer(n, budget);
        let (wins_next, loses_next, res_next) = propagate(&residual, &wins, &loses, &both);
        add_ids(&mut wins, &ids_in(&wins_next));
        add_ids(&mut loses, &ids_in(&loses_next));
        proof {
            let won_next = won.push(wins_next@);
            let lost_next = lost.push(loses_next@);
            lemma_known_before_push(won, wins_next@, n as int);
            lemma_known_before_push(lost, loses_next@, n as int);
            assert forall|m: int| 1 <= m < n + 1 implies #[trigger] is_round(
                ids@,
                won_next,
                lost_next,
                both@,
                m,
            ) by {
                if m < n {
                    lemma_round_push(ids@, won, lost, both@, wins_next@, loses_next@, m);
                    assert(is_round(ids@, won, lost, both@, m));
                } else {
                    assert(residual_before(ids@, won_next, lost_next, both@, m)
                        =~= residual_before(ids@, won, lost, both@, m));
                }
            }
            assert(res_next@ =~= residual_before(ids@, won_next, lost_next, both@, n + 1));
            won = won_next;
            lost = lost_next;
        }
        wins_vec.push(wins_next);
        loses_vec.push(loses_next);
        residual = res_next;
        n += 1;
        proof {
            assert(won =~= sets_of(wins_vec@));
            assert(lost =~= sets_of(loses_vec@));
        }
    }
    proof {
        lemma_analysis_disjoint(ids@, budget as nat, won, lost, both@);
    }
    (wins_vec, loses_vec, both)
}

/// Whether no encoding is in two of the sets: not in two rounds of `wins`,
/// not in two rounds of `loses`, not in a round of each, and not in `both`
/// and a round of either.
pub open spec fn is_disjoint(wins: Seq<Set<u32>>, loses: Seq<Set<u32>>, both: Set<u32>) -> bool {
    &&& forall|id: u32, n: int|
        0 <= n < wins.len() && #[trigger] wins[n].contains(id) ==> !both.contains(id)
    &&& forall|id: u32, n: int|
        0 <= n < loses.len() && #[trigger] loses[n].contains(id) ==> !both.contains(id)
    &&& forall|id: u32, n: int, m: int|
        0 <= n < wins.len() && 0 <= m < loses.len() && #[trigger] wins[n].contains(id) ==> !#[trigger] loses[m].contains(id)
    &&& forall|id: u32, n: int, m: int|
        0 <= n < m < wins.len() && #[trigger] wins[n].contains(id) ==> !#[trigger] wins[m].contains(id)
    &&& forall|id: u32, n: int, m: int|
        0 <= n < m < loses.len() && #[trigger] loses[n].contains(id) ==> !#[trigger] loses[m].contains(id)
}

/// What a round settles was open before it: it is in `ids`, not in `both`,
/// and in no earlier round.
pub proof fn lemma_round_was_open(
    ids: Set<u32>,
    budget: nat,
    wins: Seq<Set<u32>>,
    loses: Seq<Set<u32>>,
    both: Set<u32>,
    id: u32,
    n: int,
    m: int,
)
    requires
        is_analysis(ids, budget, wins, loses, both),
        0 <= m < n < wins.len(),
        wins[n].contains(id) || loses[n].contains(id),
    ensures
        ids.contains(id),
        !both.contains(id),
        !wins[m].contains(id),
        !loses[m].contains(id),
        !(wins[n].contains(id) && loses[n].contains(id)),
{
    assert(is_round(ids, wins, loses, both, n));
    let residual = residual_before(ids, wins, loses, both, n);
    assert(residual.contains(id));
    if wins[m].contains(id) {
        assert(known_before(wins, n).contains(id));
    }
    if loses[m].contains(id) {
        assert(known_before(loses, n).contains(id));
    }
}

/// In an analysis no encoding is in two of the sets: what a round settles
/// stays settled, once and in one way.
pub proof fn lemma_analysis_disjoint(
    ids: Set<u32>,
    budget: nat,
    wins: Seq<Set<u32>>,
    loses: Seq<Set<u32>>,
    both: Set<u32>,
)
    requires
        is_analysis(ids, budget, wins, loses, both),
    ensures
        is_disjoint(wins, loses, both),
{
    assert forall|id: u32, n: int| 0 <= n < wins.len() && #[trigger] wins[n].contains(id) implies !both.contains(id) by {
        if n > 0 {
            lemma_round_was_open(ids, budget, wins, loses, both, id, n, 0);
        }
    }
    assert forall|id: u32, n: int| 0 <= n < loses.len() && #[trigger] loses[n].contains(id) implies !both.contains(id) by {
        if n > 0 {
            lemma_round_was_open(ids, budget, wins, loses, both, id, n, 0);
        }
    }
    assert forall|id: u32, n: int, m: int|
        0 <= n < wins.len() && 0 <= m < loses.len() && #[trigger] wins[n].contains(id) implies !#[trigger] loses[m].contains(id) by {
        if loses[m].contains(id) {
            if n < m {
                lemma_round_was_open(ids, budget, wins, loses, both, id, m, n);
            } else if m < n {
                lemma_round_was_open(ids, budget, wins, loses, both, id, n, m);
            } else if n > 0 {
                lemma_round_was_open(ids, budget, wins, loses, both, id, n, 0);
            }
        }
    }
    assert forall|id: u32, n: int, m: int|
        0 <= n < m < wins.len() && #[trigger] wins[n].contains(id) implies !#[trigger] wins[m].contains(id) by {
        if wins[m].contains(id) {
            lemma_round_was_open(ids, budget, wins, loses, both, id, m, n);
        }
    }
    assert forall|id: u32, n: int, m: int|
        0 <= n < m < loses.len() && #[trigger] loses[n].contains(id) implies !#[trigger] loses[m].contains(id) by {
        if loses[m].contains(id) {
            lemma_round_was_open(ids, budget, wins, loses, both, id, m, n);
        }
    }
}

/// The number of rounds after which the analysis of all positions stops at
/// the latest.
pub const ROUND_BUDGET: usize = 140;

/// Analyses all positions of `reachable_ids`, with at most `ROUND_BUDGET`
/// rounds, and tells `observer` before each round its number and the budget.
/// The results are those of `solve`.
pub fn analyze_backward<F: Fn(usize, usize)>(observer: F) -> (solved: (
    Vec<FxHashSet<u32>>,
    Vec<FxHashSet<u32>>,
    FxHashSet<u32>,
))
    requires
        forall|n: usize, total: usize| call_requires(observer, (n, total)),
    ensures
        is_analysis(
            reachable(),
            ROUND_BUDGET as nat,
            sets_of(solved.0@),
            sets_of(solved.1@),
            solved.2@,
        ),
        is_disjoint(sets_of(solved.0@), sets_of(solved.1@), solved.2@),
{
    let ids = reachable_ids();
    solve(&ids, ROUND_BUDGET, observer)
}

} // verus!
